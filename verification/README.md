# nettools

A small collection of network programs built on a verified core: a user-space
TCP/IP stack on a TAP device, `ping`, `traceroute`, an iterative DNS resolver,
a Caddy-like web server and reverse proxy, and a SOCKS5 / TPROXY proxy.

The library (`src/`) holds the protocol logic, each function with a Verus
contract: wire formats (Ethernet, ARP, IPv4, ICMP, TCP, DNS, SOCKS5, HTTP
heads, chunked bodies, Caddyfiles, root hints), the TCP state machine and
connection table, the ARP cache, the DNS cache and the resolution state
machine, the traceroute probe table, and the web server's decisions (site,
route, range, caching, listing). Laws that relate several functions, such as
the round trips between encoders and parsers, are public proof functions.

The programs (`app/`) do the I/O: sockets, the TAP device, files, timers and
the async runtime. They hand the library plain values and perform what it
decides.

Layout of `src/`:

- `util`, `text`, `keyed`, `clock`: byte and text helpers, keyed tables
- `ethernet`, `arp`, `ip`, `tcp`, `socket`, `stack`: the TCP/IP stack
- `ping`, `traceroute`: ICMP echo and probe matching
- `dns_message`, `dns_cache`, `dns_resolve`, `resolver`: the resolver
- `http`, `http_server`, `caddyfile`, `addr`: the web server
- `socks5`: the proxy's protocol
