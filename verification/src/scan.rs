//! What the decoder makes of a stream of bytes.
//!
//! [`poll`] runs the decoder over a stream up to the first packet or failure;
//! [`batch`] runs it on, packet after packet, up to the first failure. Both
//! are defined for any split of the stream into pieces: what they make of a
//! stream does not depend on where it was cut.
use crate::decoder::{emit, lemma_emit_fits, lemma_next_wf, next, DecoderState, Event};
use crate::error::Error;
use crate::frame::{all_fit, fits, PackageView};
use vstd::prelude::*;

verus! {

/// Why the decoder stopped consuming.
pub enum Stop {
    /// The stream ended.
    Exhausted,
    /// A frame was complete; the byte that completed it was consumed.
    Packet(PackageView),
    /// A frame failed; the byte that showed it was consumed.
    Fault(Error),
    /// The next byte would make a frame fail, and was left in the stream.
    Held,
}

/// The result of [`poll`]: the decoder's state, the number of bytes consumed,
/// and why it stopped.
pub struct Poll {
    pub dec: DecoderState,
    pub used: nat,
    pub stop: Stop,
}

impl Poll {
    /// The same result after `k` bytes more were consumed before it.
    pub open spec fn later(self, k: nat) -> Poll {
        Poll { dec: self.dec, used: self.used + k, stop: self.stop }
    }
}

/// Runs the decoder from the state `d` over the stream `s` until a byte
/// brings something about, or the stream ends. With `hold`, a byte that would
/// make a frame fail is not consumed.
pub open spec fn poll(d: DecoderState, s: Seq<u8>, hold: bool) -> Poll
    decreases s.len(),
{
    if s.len() == 0 {
        Poll { dec: d, used: 0, stop: Stop::Exhausted }
    } else {
        match emit(d, s[0]) {
            None => poll(next(d, s[0]), s.skip(1), hold).later(1),
            Some(Event::Packet(p)) => Poll { dec: next(d, s[0]), used: 1, stop: Stop::Packet(p) },
            Some(Event::Fault(e)) => if hold {
                Poll { dec: d, used: 0, stop: Stop::Held }
            } else {
                Poll { dec: next(d, s[0]), used: 1, stop: Stop::Fault(e) }
            },
        }
    }
}

/// The result of [`batch`]: the decoder's state, the packets found in order,
/// the number of bytes consumed, and the failure that ended the run, if one
/// did.
pub struct Batch {
    pub dec: DecoderState,
    pub packets: Seq<PackageView>,
    pub used: nat,
    pub fault: Option<Error>,
}

impl Batch {
    /// The same result after the packets `ps` were found in `k` bytes before
    /// it.
    pub open spec fn after(self, ps: Seq<PackageView>, k: nat) -> Batch {
        Batch { dec: self.dec, packets: ps + self.packets, used: k + self.used, fault: self.fault }
    }

    /// Whether the run consumed all of a stream of `n` bytes and met no
    /// failure.
    pub open spec fn exhausted(self, n: nat) -> bool {
        self.used == n && self.fault is None
    }
}

/// Runs the decoder from the state `d` over the stream `s` and collects the
/// packets, until a frame fails or the stream ends.
///
/// A failure ends the run. If no packet was found before it, and `have` is
/// false, the byte that shows the failure is consumed and the failure
/// reported. Otherwise the run ends in front of that byte and reports the
/// packets alone: the failure is met again by the next run.
pub open spec fn batch(d: DecoderState, s: Seq<u8>, have: bool) -> Batch
    decreases s.len(),
{
    if s.len() == 0 {
        Batch { dec: d, packets: Seq::empty(), used: 0, fault: None }
    } else {
        match emit(d, s[0]) {
            None => batch(next(d, s[0]), s.skip(1), have).after(Seq::empty(), 1),
            Some(Event::Packet(p)) => batch(next(d, s[0]), s.skip(1), true).after(seq![p], 1),
            Some(Event::Fault(e)) => if have {
                Batch { dec: d, packets: Seq::empty(), used: 0, fault: None }
            } else {
                Batch { dec: next(d, s[0]), packets: Seq::empty(), used: 1, fault: Some(e) }
            },
        }
    }
}

/// A poll consumes no more than the stream holds, and stops for the end of
/// the stream exactly when it has consumed all of it without anything coming
/// about. A byte is held back only where that was asked for, and a failure
/// reported only where it was not.
pub proof fn lemma_poll_bounds(d: DecoderState, s: Seq<u8>, hold: bool)
    ensures
        poll(d, s, hold).used <= s.len(),
        poll(d, s, hold).stop is Exhausted ==> poll(d, s, hold).used == s.len(),
        poll(d, s, hold).stop is Packet ==> poll(d, s, hold).used >= 1,
        poll(d, s, hold).stop is Fault ==> poll(d, s, hold).used >= 1 && !hold,
        poll(d, s, hold).stop is Held ==> poll(d, s, hold).used < s.len() && hold,
    decreases s.len(),
{
    if s.len() > 0 {
        if emit(d, s[0]) is None {
            lemma_poll_bounds(next(d, s[0]), s.skip(1), hold);
        }
    }
}

/// A poll leaves a state of the decoder.
pub proof fn lemma_poll_wf(d: DecoderState, s: Seq<u8>, hold: bool)
    requires
        d.wf(),
    ensures
        poll(d, s, hold).dec.wf(),
    decreases s.len(),
{
    if s.len() > 0 {
        lemma_next_wf(d, s[0]);
        if emit(d, s[0]) is None {
            lemma_poll_wf(next(d, s[0]), s.skip(1), hold);
        }
    }
}

/// A batch consumes no more than the stream holds. It reports a failure only
/// if it found no packet and had none before.
pub proof fn lemma_batch_bounds(d: DecoderState, s: Seq<u8>, have: bool)
    ensures
        batch(d, s, have).used <= s.len(),
        batch(d, s, have).fault is Some ==> !have && batch(d, s, have).packets.len() == 0
            && batch(d, s, have).used >= 1,
    decreases s.len(),
{
    if s.len() > 0 {
        match emit(d, s[0]) {
            None => {
                lemma_batch_bounds(next(d, s[0]), s.skip(1), have);
            },
            Some(Event::Packet(p)) => {
                lemma_batch_bounds(next(d, s[0]), s.skip(1), true);
            },
            Some(Event::Fault(e)) => {},
        }
    }
}

/// A batch leaves a state of the decoder.
pub proof fn lemma_batch_wf(d: DecoderState, s: Seq<u8>, have: bool)
    requires
        d.wf(),
    ensures
        batch(d, s, have).dec.wf(),
    decreases s.len(),
{
    if s.len() > 0 {
        lemma_next_wf(d, s[0]);
        match emit(d, s[0]) {
            None => {
                lemma_batch_wf(next(d, s[0]), s.skip(1), have);
            },
            Some(Event::Packet(p)) => {
                lemma_batch_wf(next(d, s[0]), s.skip(1), true);
            },
            Some(Event::Fault(e)) => {},
        }
    }
}

/// The packet that a poll finds carries a payload within the limit.
pub proof fn lemma_poll_packet_bounded(d: DecoderState, s: Seq<u8>, hold: bool)
    requires
        d.wf(),
    ensures
        poll(d, s, hold).stop matches Stop::Packet(x) ==> fits(x),
    decreases s.len(),
{
    if s.len() > 0 {
        lemma_next_wf(d, s[0]);
        lemma_emit_fits(d, s[0]);
        if emit(d, s[0]) is None {
            lemma_poll_packet_bounded(next(d, s[0]), s.skip(1), hold);
        }
    }
}

/// Each packet that a batch finds carries a payload within the limit.
pub proof fn lemma_batch_packets_bounded(d: DecoderState, s: Seq<u8>, have: bool)
    requires
        d.wf(),
    ensures
        all_fit(batch(d, s, have).packets),
    decreases s.len(),
{
    if s.len() > 0 {
        lemma_next_wf(d, s[0]);
        lemma_emit_fits(d, s[0]);
        match emit(d, s[0]) {
            None => {
                lemma_batch_packets_bounded(next(d, s[0]), s.skip(1), have);
                let r = batch(next(d, s[0]), s.skip(1), have);
                assert(Seq::<PackageView>::empty() + r.packets =~= r.packets);
            },
            Some(Event::Packet(p)) => {
                lemma_batch_packets_bounded(next(d, s[0]), s.skip(1), true);
                let r = batch(next(d, s[0]), s.skip(1), true);
                let all = seq![p] + r.packets;
                assert forall|i: int| 0 <= i < all.len() implies fits(#[trigger] all[i]) by {
                    if i > 0 {
                        assert(all[i] == r.packets[i - 1]);
                    }
                }
            },
            Some(Event::Fault(e)) => {},
        }
    }
}

/// Holding back matters only at a failure: a poll that met none is the same
/// with and without it.
pub proof fn lemma_hold_matters_at_failure(d: DecoderState, s: Seq<u8>, hold: bool)
    ensures
        poll(d, s, hold).stop is Exhausted || poll(d, s, hold).stop is Packet ==> poll(d, s, !hold)
            == poll(d, s, hold),
    decreases s.len(),
{
    if s.len() > 0 {
        if emit(d, s[0]) is None {
            lemma_hold_matters_at_failure(next(d, s[0]), s.skip(1), hold);
        }
    }
}

/// A poll that stopped before the end of a stream is not changed by what
/// follows the stream; one that reached the end goes on in what follows.
pub proof fn lemma_poll_concat(d: DecoderState, a: Seq<u8>, b: Seq<u8>, hold: bool)
    ensures
        !(poll(d, a, hold).stop is Exhausted) ==> poll(d, a + b, hold) == poll(d, a, hold),
        poll(d, a, hold).stop is Exhausted ==> poll(d, a + b, hold) == poll(
            poll(d, a, hold).dec,
            b,
            hold,
        ).later(a.len()),
    decreases a.len(),
{
    if a.len() == 0 {
        assert(a + b =~= b);
    } else {
        assert((a + b)[0] == a[0]);
        assert((a + b).skip(1) =~= a.skip(1) + b);
        if emit(d, a[0]) is None {
            lemma_poll_concat(next(d, a[0]), a.skip(1), b, hold);
        }
    }
}

/// A batch is a chain of polls: each packet that a poll finds is followed by
/// the batch of the rest of the stream.
pub proof fn lemma_batch_by_poll(d: DecoderState, s: Seq<u8>, have: bool)
    ensures
        match poll(d, s, have).stop {
            Stop::Exhausted => batch(d, s, have) == (Batch {
                dec: poll(d, s, have).dec,
                packets: Seq::empty(),
                used: poll(d, s, have).used,
                fault: None,
            }),
            Stop::Packet(p) => batch(d, s, have) == batch(
                poll(d, s, have).dec,
                s.skip(poll(d, s, have).used as int),
                true,
            ).after(seq![p], poll(d, s, have).used),
            Stop::Fault(e) => batch(d, s, have) == (Batch {
                dec: poll(d, s, have).dec,
                packets: Seq::empty(),
                used: poll(d, s, have).used,
                fault: Some(e),
            }),
            Stop::Held => batch(d, s, have) == (Batch {
                dec: poll(d, s, have).dec,
                packets: Seq::empty(),
                used: poll(d, s, have).used,
                fault: None,
            }),
        },
    decreases s.len(),
{
    if s.len() > 0 {
        match emit(d, s[0]) {
            None => {
                lemma_batch_by_poll(next(d, s[0]), s.skip(1), have);
                let p = poll(next(d, s[0]), s.skip(1), have);
                let inner = batch(next(d, s[0]), s.skip(1), have);
                assert(Seq::<PackageView>::empty() + inner.packets =~= inner.packets);
                if let Stop::Packet(x) = p.stop {
                    lemma_poll_bounds(next(d, s[0]), s.skip(1), have);
                    assert(s.skip(1).skip(p.used as int) =~= s.skip((p.used + 1) as int));
                }
            },
            Some(Event::Packet(p)) => {},
            Some(Event::Fault(e)) => {},
        }
    }
}

/// A batch that ended before the end of a stream, or in a failure, is not
/// changed by what follows the stream; one that consumed the whole stream
/// goes on in what follows, and what it found comes first.
pub proof fn lemma_batch_concat(d: DecoderState, a: Seq<u8>, b: Seq<u8>, have: bool)
    ensures
        !batch(d, a, have).exhausted(a.len()) ==> batch(d, a + b, have) == batch(d, a, have),
        batch(d, a, have).exhausted(a.len()) ==> batch(d, a + b, have) == batch(
            batch(d, a, have).dec,
            b,
            have || batch(d, a, have).packets.len() > 0,
        ).after(batch(d, a, have).packets, a.len()),
    decreases a.len(),
{
    if a.len() == 0 {
        assert(a + b =~= b);
        let r = batch(d, b, have);
        assert(r.after(Seq::empty(), 0).packets =~= r.packets);
    } else {
        assert((a + b)[0] == a[0]);
        assert((a + b).skip(1) =~= a.skip(1) + b);
        let d1 = next(d, a[0]);
        match emit(d, a[0]) {
            None => {
                lemma_batch_concat(d1, a.skip(1), b, have);
                let r = batch(d1, a.skip(1), have);
                if r.exhausted(a.skip(1).len()) {
                    let t = batch(r.dec, b, have || r.packets.len() > 0);
                    assert(t.after(r.packets, a.skip(1).len()).after(Seq::empty(), 1).packets
                        =~= t.after(r.after(Seq::empty(), 1).packets, a.len()).packets);
                }
            },
            Some(Event::Packet(p)) => {
                lemma_batch_concat(d1, a.skip(1), b, true);
                let r = batch(d1, a.skip(1), true);
                if r.exhausted(a.skip(1).len()) {
                    let t = batch(r.dec, b, true);
                    assert(t.after(r.packets, a.skip(1).len()).after(seq![p], 1).packets =~= t.after(
                        r.after(seq![p], 1).packets,
                        a.len(),
                    ).packets);
                }
            },
            Some(Event::Fault(e)) => {},
        }
    }
}

/// One link of the chain of polls that makes a batch: if the batch of a
/// stream is the packets `acc`, found in its first `k` bytes, followed by the
/// batch of the rest, then after one more poll it is `acc` and the packet
/// that the poll found, followed by the batch of what is left; or it ends
/// with `acc` where the poll found none.
pub proof fn lemma_batch_link(
    d0: DecoderState,
    s0: Seq<u8>,
    have0: bool,
    acc: Seq<PackageView>,
    k: nat,
    d: DecoderState,
    have: bool,
)
    requires
        k <= s0.len(),
        batch(d0, s0, have0) == batch(d, s0.skip(k as int), have).after(acc, k),
    ensures
        k + poll(d, s0.skip(k as int), have).used <= s0.len(),
        s0.skip(k as int).skip(poll(d, s0.skip(k as int), have).used as int) == s0.skip(
            (k + poll(d, s0.skip(k as int), have).used) as int,
        ),
        match poll(d, s0.skip(k as int), have).stop {
            Stop::Packet(x) => batch(d0, s0, have0) == batch(
                poll(d, s0.skip(k as int), have).dec,
                s0.skip((k + poll(d, s0.skip(k as int), have).used) as int),
                true,
            ).after(acc.push(x), k + poll(d, s0.skip(k as int), have).used),
            Stop::Fault(e) => batch(d0, s0, have0) == (Batch {
                dec: poll(d, s0.skip(k as int), have).dec,
                packets: acc,
                used: k + poll(d, s0.skip(k as int), have).used,
                fault: Some(e),
            }),
            _ => batch(d0, s0, have0) == (Batch {
                dec: poll(d, s0.skip(k as int), have).dec,
                packets: acc,
                used: k + poll(d, s0.skip(k as int), have).used,
                fault: None,
            }),
        },
{
    let s = s0.skip(k as int);
    let p = poll(d, s, have);
    lemma_batch_by_poll(d, s, have);
    lemma_poll_bounds(d, s, have);
    assert(s.skip(p.used as int) =~= s0.skip((k + p.used) as int));
    assert(acc + Seq::<PackageView>::empty() =~= acc);
    match p.stop {
        Stop::Packet(x) => {
            let rest = batch(p.dec, s.skip(p.used as int), true);
            assert(acc + (seq![x] + rest.packets) =~= acc.push(x) + rest.packets);
        },
        _ => {},
    }
}

} // verus!
