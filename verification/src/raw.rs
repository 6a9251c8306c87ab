//! The raw side of a codec: the end of the two channels that a transport
//! reads frames from and writes received bytes to, as one stream of bytes in
//! each direction.
use crate::channel::{try_recv, try_send, Flow, Received, Sent, CHANNEL_CAPACITY};
use crate::error::Error;
use async_channel::{Receiver, Sender};
use vstd::prelude::*;
use vstd::slice::slice_to_vec;

verus! {

/// The raw side of a codec.
///
/// What the codec sends arrives here message by message. [`LwPktRaw::read`]
/// hands it on as a stream: it fills the reader's buffer from as many
/// messages as it takes, and keeps what is left of the last one for the next
/// call.
pub struct LwPktRaw {
    last_read: Vec<u8>,
    served: usize,
    to_pkt: Sender<Vec<u8>>,
    from_pkt: Receiver<Vec<u8>>,
}

/// What a write reports for the channel's answer: all `len` bytes if the
/// channel took them, none if it is full, and a failure if it is closed.
pub open spec fn write_outcome(sent: Sent, len: usize) -> Result<usize, Error> {
    match sent {
        Sent::Done => Ok(len),
        Sent::Full => Ok(0),
        Sent::Closed => Err(Error::ErrorClosedRaw),
    }
}

/// What a write reports for the channel's answer.
pub fn written(sent: Sent, len: usize) -> (r: Result<usize, Error>)
    ensures
        r == write_outcome(sent, len),
{
    match sent {
        Sent::Done => Ok(len),
        Sent::Full => Ok(0),
        Sent::Closed => Err(Error::ErrorClosedRaw),
    }
}

/// What a read may report and leave behind. `pending` are the bytes that
/// were waiting before the call and `received` those that the channel gave
/// during it; together they are the stream that the call serves. `before`
/// and `after` are the reader's buffer, and `left` is what waits afterwards.
///
/// A read moves as much of the stream as the buffer takes to the start of
/// the buffer, in order, and keeps the rest. It fails only if the channel is
/// closed and there was nothing at all to move.
pub open spec fn read_outcome(
    pending: Seq<u8>,
    received: Seq<u8>,
    before: Seq<u8>,
    r: Result<usize, Error>,
    after: Seq<u8>,
    left: Seq<u8>,
) -> bool {
    let stream = pending + received;
    match r {
        Ok(n) => {
            &&& n == vstd::math::min(before.len() as int, stream.len() as int)
            &&& after == stream.take(n as int) + before.skip(n as int)
            &&& left == stream.skip(n as int)
        },
        Err(e) => {
            &&& e == Error::ErrorClosedRaw
            &&& stream.len() == 0
            &&& after == before
            &&& left == stream
        },
    }
}

/// How a read that has filled a buffer up to the position `at` goes on after
/// the channel's answer. After a message it asks again; after an empty
/// channel it is over; after a closed one it is over too, and fails if it
/// has filled nothing.
pub open spec fn read_flow(received: Received, at: usize) -> Flow {
    match received {
        Received::Chunk(_) => Flow::More,
        Received::Empty => Flow::Done,
        Received::Closed => if at == 0 {
            Flow::Failed(Error::ErrorClosedRaw)
        } else {
            Flow::Done
        },
    }
}

/// The bytes that an answer of the channel brings.
pub open spec fn brought(received: Received) -> Seq<u8> {
    match received {
        Received::Chunk(chunk) => chunk@,
        _ => Seq::empty(),
    }
}

impl LwPktRaw {
    /// The raw side is in order: what it has handed out of the last message
    /// is no more than the message holds.
    pub closed spec fn wf(&self) -> bool {
        self.served <= self.last_read@.len()
    }

    /// The bytes that were received from the codec and not yet handed to a
    /// reader, oldest first.
    pub closed spec fn pending(&self) -> Seq<u8> {
        self.last_read@.skip(self.served as int)
    }

    /// The end of the channel into which the raw side sends what a
    /// transport has written.
    pub closed spec fn outlet(&self) -> Sender<Vec<u8>> {
        self.to_pkt
    }

    /// The end of the channel from which the raw side takes what the codec
    /// has sent.
    pub closed spec fn inlet(&self) -> Receiver<Vec<u8>> {
        self.from_pkt
    }

    /// Whether the raw side holds the same ends of the same channels as
    /// `other`.
    pub open spec fn same_ends(&self, other: &LwPktRaw) -> bool {
        self.outlet() == other.outlet() && self.inlet() == other.inlet()
    }

    /// A raw side that sends into `to_pkt` and takes from `from_pkt`, with
    /// nothing pending.
    pub(crate) fn new(to_pkt: Sender<Vec<u8>>, from_pkt: Receiver<Vec<u8>>) -> (raw: LwPktRaw)
        ensures
            raw.wf(),
            raw.pending() == Seq::<u8>::empty(),
            raw.outlet() == to_pkt,
            raw.inlet() == from_pkt,
    {
        let raw = LwPktRaw { last_read: Vec::new(), served: 0, to_pkt, from_pkt };
        assert(raw.pending() =~= Seq::<u8>::empty());
        raw
    }

    /// Whether any byte is pending.
    fn has_pending(&self) -> (r: bool)
        requires
            self.wf(),
        ensures
            r == (self.pending().len() > 0),
    {
        self.served < self.last_read.len()
    }

    /// Puts a message from the codec behind the pending bytes.
    pub fn take_in(&mut self, chunk: Vec<u8>)
        requires
            old(self).wf(),
        ensures
            final(self).wf(),
            final(self).same_ends(old(self)),
            final(self).pending() == old(self).pending() + chunk@,
    {
        let ghost before = self.pending();
        if self.served == self.last_read.len() {
            self.served = 0;
            self.last_read = chunk;
        } else {
            self.last_read.extend_from_slice(chunk.as_slice());
        }
        assert(self.pending() =~= before + chunk@);
    }

    /// Moves pending bytes into `buf`, from the position `at` on, until
    /// `buf` is full or nothing is pending, and returns the position behind
    /// the last byte moved.
    pub fn serve(&mut self, buf: &mut [u8], at: usize) -> (end: usize)
        requires
            old(self).wf(),
            at <= old(buf)@.len(),
        ensures
            final(self).wf(),
            final(self).same_ends(old(self)),
            end - at == vstd::math::min(
                old(self).pending().len() as int,
                old(buf)@.len() - at,
            ),
            final(buf)@ == old(buf)@.take(at as int) + old(self).pending().take(end - at) + old(
                buf,
            )@.skip(end as int),
            final(self).pending() == old(self).pending().skip(end - at),
    {
        let ghost pending = self.pending();
        let mut end: usize = at;
        while end < buf.len() && self.served < self.last_read.len()
            invariant
                at <= end <= buf@.len(),
                buf@.len() == old(buf)@.len(),
                self.last_read@ == old(self).last_read@,
                self.same_ends(old(self)),
                self.served == old(self).served + (end - at),
                self.served <= self.last_read@.len(),
                pending == old(self).last_read@.skip(old(self).served as int),
                buf@ == old(buf)@.take(at as int) + pending.take(end - at) + old(buf)@.skip(
                    end as int,
                ),
            decreases buf@.len() - end,
        {
            let b = self.last_read[self.served];
            buf[end] = b;
            self.served = self.served + 1;
            end = end + 1;
            assert(buf@ =~= old(buf)@.take(at as int) + pending.take(end - at) + old(buf)@.skip(
                end as int,
            ));
        }
        assert(self.pending() =~= pending.skip(end - at));
        if self.served == self.last_read.len() {
            self.served = 0;
            self.last_read.clear();
            assert(self.pending() =~= pending.skip(end - at));
        }
        end
    }

    /// Goes on with a read, which has filled `buf` up to the position `at`,
    /// after the channel's answer `received`.
    ///
    /// A message is put behind the pending bytes, and pending bytes are
    /// moved into `buf` from `at` on, as far as there is room; `at` moves
    /// behind them. An empty channel changes nothing and ends the read. So
    /// does a closed one, and the read fails with `ErrorClosedRaw` if it has
    /// filled nothing.
    pub fn receive(&mut self, received: Received, buf: &mut [u8], at: &mut usize) -> (flow: Flow)
        requires
            old(self).wf(),
            *old(at) <= old(buf)@.len(),
        ensures
            final(self).wf(),
            final(self).same_ends(old(self)),
            flow == read_flow(received, *old(at)),
            *final(at) - *old(at) == vstd::math::min(
                (old(self).pending() + brought(received)).len() as int,
                old(buf)@.len() - *old(at),
            ),
            final(buf)@ == old(buf)@.take(*old(at) as int) + (old(self).pending() + brought(
                received,
            )).take(*final(at) - *old(at)) + old(buf)@.skip(*final(at) as int),
            final(self).pending() == (old(self).pending() + brought(received)).skip(
                *final(at) - *old(at),
            ),
    {
        let from = *at;
        let ghost pending = self.pending();
        let flow = match received {
            Received::Chunk(chunk) => {
                self.take_in(chunk);
                Flow::More
            },
            Received::Empty => {
                assert(pending + brought(received) =~= pending);
                Flow::Done
            },
            Received::Closed => {
                assert(pending + brought(received) =~= pending);
                if from == 0 {
                    Flow::Failed(Error::ErrorClosedRaw)
                } else {
                    Flow::Done
                }
            },
        };
        *at = self.serve(buf, from);
        flow
    }

    /// Fills `buf` from the start with the bytes that the codec has sent, in
    /// the order in which it sent them, and returns their number. The bytes
    /// of one message may be spread over several reads, and one read may
    /// hold the bytes of several messages. If nothing waits, the result is 0
    /// and a later read may find more.
    ///
    /// The channel is asked while `buf` has room, and once where nothing is
    /// pending and `buf` has no room at all; in all for at most
    /// [`CHANNEL_CAPACITY`] messages. The call fails, with `ErrorClosedRaw`,
    /// only if the codec is gone and nothing is left to hand out.
    pub fn read(&mut self, buf: &mut [u8]) -> (r: Result<usize, Error>)
        requires
            old(self).wf(),
        ensures
            final(self).wf(),
            final(self).same_ends(old(self)),
            final(buf)@.len() == old(buf)@.len(),
            exists|received: Seq<u8>|
                read_outcome(
                    old(self).pending(),
                    received,
                    old(buf)@,
                    r,
                    final(buf)@,
                    final(self).pending(),
                ),
    {
        let ghost pending = self.pending();
        let ghost mut received: Seq<u8> = Seq::empty();
        let waiting = self.has_pending();
        let mut end: usize = self.serve(buf, 0);
        let mut budget: usize = CHANNEL_CAPACITY;
        assert(pending + received =~= pending);
        assert(buf@ =~= pending.take(end as int) + old(buf)@.skip(end as int));
        if end == buf.len() && (end > 0 || waiting) {
            assert(read_outcome(pending, received, old(buf)@, Ok(end), buf@, self.pending()));
            return Ok(end);
        }
        assert(self.pending() =~= Seq::<u8>::empty());
        while budget > 0
            invariant
                self.wf(),
                self.same_ends(old(self)),
                pending == old(self).pending(),
                buf@.len() == old(buf)@.len(),
                end <= buf@.len(),
                end == (pending + received).len(),
                buf@ == (pending + received) + old(buf)@.skip(end as int),
                self.pending() == Seq::<u8>::empty(),
            decreases budget,
        {
            budget = budget - 1;
            let got = try_recv(&self.from_pkt);
            let ghost stream = pending + received;
            let ghost from = end;
            let ghost held = buf@;
            assert(held.take(from as int) =~= stream);
            let ghost more = brought(got);
            assert(Seq::<u8>::empty() + more =~= more);
            let flow = self.receive(got, buf, &mut end);
            proof {
                received = received + more;
                assert(pending + received =~= stream + more);
                assert(held.skip(end as int) =~= old(buf)@.skip(end as int));
                assert(buf@ =~= (stream + more).take(end as int) + old(buf)@.skip(end as int));
                assert(self.pending() =~= (stream + more).skip(end as int));
            }
            match flow {
                Flow::More => {
                    if end == buf.len() || self.has_pending() {
                        assert(read_outcome(
                            pending,
                            received,
                            old(buf)@,
                            Ok(end),
                            buf@,
                            self.pending(),
                        ));
                        return Ok(end);
                    }
                    assert((stream + more).take(end as int) =~= stream + more);
                },
                Flow::Done => {
                    assert(read_outcome(
                        pending,
                        received,
                        old(buf)@,
                        Ok(end),
                        buf@,
                        self.pending(),
                    ));
                    return Ok(end);
                },
                Flow::Failed(e) => {
                    assert(buf@ =~= old(buf)@);
                    assert(read_outcome(
                        pending,
                        received,
                        old(buf)@,
                        Err(e),
                        buf@,
                        self.pending(),
                    ));
                    return Err(e);
                },
            }
        }
        assert((pending + received).take(end as int) =~= pending + received);
        assert((pending + received).skip(end as int) =~= Seq::<u8>::empty());
        assert(read_outcome(pending, received, old(buf)@, Ok(end), buf@, self.pending()));
        Ok(end)
    }

    /// Offers the bytes of `buf` to the codec as one message and returns how
    /// many of them the channel took: all of them, or none if the channel is
    /// full. The call fails, with `ErrorClosedRaw`, only if the codec is
    /// gone.
    pub fn write(&mut self, buf: &[u8]) -> (r: Result<usize, Error>)
        requires
            old(self).wf(),
        ensures
            final(self).wf(),
            final(self).same_ends(old(self)),
            final(self).pending() == old(self).pending(),
            r == write_outcome(Sent::Done, buf@.len() as usize) || r == write_outcome(
                Sent::Full,
                buf@.len() as usize,
            ) || r == write_outcome(Sent::Closed, buf@.len() as usize),
    {
        let sent = try_send(&self.to_pkt, slice_to_vec(buf));
        written(sent, buf.len())
    }

    /// Does nothing: a write has left the raw side when it returns.
    pub fn flush(&mut self) -> (r: Result<(), Error>)
        requires
            old(self).wf(),
        ensures
            final(self).wf(),
            final(self).same_ends(old(self)),
            final(self).pending() == old(self).pending(),
            r is Ok,
    {
        Ok(())
    }
}

} // verus!
