//! Socket API — client-side TCP: TcpSocket for connect/send/recv/close.

use vstd::prelude::*;
use crate::keyed::{index_of, lemma_index_of};
use crate::util::{push_all, copy_range};
use crate::tcp::{
    ConnKey, TcpManager, TcpState, OutgoingSegment, SegView, TcbView, TCP_PSH, TCP_ACK, key_of,
    entry_key, segs_view, close_step, ctl_seg, syn_sent_tcb, time_ok, lemma_model_update,
    MAX_RTO_MS, ephemeral_port,
};

verus! {

/// Handle to an established TCP connection.
#[derive(Clone, Copy)]
pub struct TcpSocket {
    pub key: ConnKey,
}

/// Read data from a socket.
pub fn recv(manager: &mut TcpManager, sock: &TcpSocket) -> (r: Vec<u8>)
    requires
        old(manager).wf(),
    ensures
        final(manager).wf(),
        ({
            let k = key_of(sock.key);
            if old(manager).table().dom().contains(k) {
                let (stored, t) = old(manager).table()[k];
                &&& r@ == t.recv_buffer
                &&& final(manager).model() == old(manager).model().update(
                    index_of(old(manager).model(), entry_key(), k),
                    (stored, TcbView { recv_buffer: Seq::empty(), ..t }),
                )
            } else {
                &&& r@ == Seq::<u8>::empty()
                &&& final(manager).model() == old(manager).model()
            }
        }),
{
    manager.drain_data(&sock.key)
}

/// The segment `send` emits and the connection after it, for an
/// established connection.
pub open spec fn send_step(t: TcbView, data: Seq<u8>) -> (TcbView, SegView) {
    (
        TcbView {
            snd_nxt: t.snd_nxt.wrapping_add(data.len() as u32),
            send_buffer: t.send_buffer + data,
            ..t
        },
        SegView {
            flags: TCP_PSH | TCP_ACK,
            seq: t.snd_nxt,
            ack: t.rcv_nxt,
            payload: data,
            dst_port: t.remote_port,
        },
    )
}

/// Queue data for sending. Appends to send_buffer, returns OutgoingSegment(s).
pub fn send(manager: &mut TcpManager, sock: &TcpSocket, data: &[u8]) -> (r: Vec<OutgoingSegment>)
    requires
        old(manager).wf(),
    ensures
        final(manager).wf(),
        ({
            let k = key_of(sock.key);
            if old(manager).table().dom().contains(k) && old(manager).table()[k].1.state
                == TcpState::Established {
                let (stored, t) = old(manager).table()[k];
                let (t2, seg) = send_step(t, data@);
                &&& segs_view(r@) == seq![seg]
                &&& final(manager).model() == old(manager).model().update(
                    index_of(old(manager).model(), entry_key(), k),
                    (stored, t2),
                )
            } else {
                &&& segs_view(r@) == Seq::<SegView>::empty()
                &&& final(manager).model() == old(manager).model()
            }
        }),
{
    let ghost m = manager.model();
    let ghost k = key_of(sock.key);
    proof {
        lemma_index_of(m, entry_key(), k);
    }
    let tcb = match manager.get_mut(&sock.key) {
        Some(t) => t,
        None => {
            let v: Vec<OutgoingSegment> = Vec::new();
            assert(segs_view(v@) =~= Seq::<SegView>::empty());
            return v;
        },
    };
    proof {
        assert(m[index_of(m, entry_key(), k)].1.rto <= MAX_RTO_MS);
    }
    let ghost t0 = tcb@;
    if tcb.state != TcpState::Established {
        proof {
            lemma_model_update(m, index_of(m, entry_key(), k), tcb@);
            assert(m.update(index_of(m, entry_key(), k), (m[index_of(m, entry_key(), k)].0, tcb@))
                =~= m);
        }
        let v: Vec<OutgoingSegment> = Vec::new();
        assert(segs_view(v@) =~= Seq::<SegView>::empty());
        return v;
    }
    let seq = tcb.snd_nxt;
    tcb.snd_nxt = tcb.snd_nxt.wrapping_add(data.len() as u32);
    // Store data for potential retransmission
    push_all(&mut tcb.send_buffer, data);
    let seg = OutgoingSegment {
        flags: TCP_PSH | TCP_ACK,
        seq,
        ack: tcb.rcv_nxt,
        payload: copy_range(data, 0, data.len()),
        dst_port: tcb.remote_port,
    };
    proof {
        assert(data@.subrange(0, data@.len() as int) =~= data@);
        assert(tcb@ =~= send_step(t0, data@).0);
        lemma_model_update(m, index_of(m, entry_key(), k), tcb@);
    }
    let mut v: Vec<OutgoingSegment> = Vec::new();
    v.push(seg);
    assert(segs_view(v@) =~= seq![send_step(t0, data@).1]);
    v
}

/// Close a socket (initiate FIN or respond to CloseWait).
pub fn close(manager: &mut TcpManager, sock: &TcpSocket, now: u64) -> (r: Vec<OutgoingSegment>)
    requires
        old(manager).wf(),
        time_ok(now),
    ensures
        final(manager).wf(),
        ({
            let k = key_of(sock.key);
            if old(manager).table().dom().contains(k) {
                let (stored, t) = old(manager).table()[k];
                let (t2, out) = close_step(t, now);
                &&& segs_view(r@) == out
                &&& final(manager).model() == old(manager).model().update(
                    index_of(old(manager).model(), entry_key(), k),
                    (stored, t2),
                )
            } else {
                &&& segs_view(r@) == Seq::<SegView>::empty()
                &&& final(manager).model() == old(manager).model()
            }
        }),
{
    manager.close_conn(&sock.key, now)
}

/// Initiate an active connection (client-side SYN). Returns initial SYN segment.
pub fn connect(
    manager: &mut TcpManager,
    local_ip: [u8; 4],
    remote_ip: [u8; 4],
    remote_port: u16,
    now: u64,
) -> (r: (Option<TcpSocket>, Vec<OutgoingSegment>))
    requires
        old(manager).wf(),
        time_ok(now),
    ensures
        final(manager).wf(),
        r.0 matches Some(s) && s.key.0 == local_ip && s.key.2 == remote_ip && s.key.3 == remote_port
            && ephemeral_port(old(manager).model(), s.key.1),
        ({
            let key = r.0->0.key;
            let k = key_of(key);
            if old(manager).table().dom().contains(k) && (old(manager).table()[k].1.state
                == TcpState::Established || old(manager).table()[k].1.state == TcpState::SynSent) {
                &&& segs_view(r.1@) == Seq::<SegView>::empty()
                &&& final(manager).model() == old(manager).model()
            } else {
                exists|iss: u32|
                    {
                        &&& segs_view(r.1@) == seq![ctl_seg(crate::tcp::TCP_SYN, iss, 0, remote_port)]
                        &&& final(manager).table() == old(manager).table().insert(
                            k,
                            (key, #[trigger] syn_sent_tcb(local_ip, remote_ip, key.1, remote_port, iss, now)),
                        )
                    }
            }
        }),
{
    let (opt_key, segs) = manager.initiate_connect(local_ip, remote_ip, remote_port, now);
    match opt_key {
        Some(key) => (Some(TcpSocket { key }), segs),
        None => (None, segs),
    }
}

} // verus!
