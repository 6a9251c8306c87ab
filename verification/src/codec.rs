//! The codec: it turns packets into frames for the raw side, and the bytes
//! that the raw side delivers back into packets.
//!
//! Outbound, a frame is built in the write buffer and handed to the channel
//! as one message: either the whole frame is on the channel or the write has
//! failed.
//!
//! Inbound, the bytes that arrive are stored in the read buffer, and decoding
//! takes them out of it. A message that the read buffer has no room for is
//! rejected with `ErrorMem`: the read buffer takes the bytes that fit, the
//! codec keeps the others in their order, and nothing is decoded or asked of
//! the channel. Decoding what is buffered makes room; the next read stores
//! what was kept before it turns to the channel again. So no byte is lost
//! and none overtakes another.
use crate::channel::{bounded, try_recv, try_send, Flow, Received, Sent, CHANNEL_CAPACITY};
use crate::decoder::{Decoder, DecoderState, Phase, Signal};
use crate::error::Error;
use crate::frame::{
    all_fit, encode, fits, frame, lemma_frame_len, stamped, views, Package, PackageView,
    FRAME_OVERHEAD, MAX_DATA_LEN,
};
use crate::raw::{brought, LwPktRaw};
use crate::ring::LwRb;
use crate::scan::{
    batch, lemma_batch_bounds, lemma_batch_concat, lemma_batch_link,
    lemma_batch_packets_bounded, lemma_batch_wf, lemma_poll_bounds, lemma_poll_concat,
    lemma_poll_packet_bounded, lemma_poll_wf, poll, Batch, Poll, Stop,
};
use async_channel::{Receiver, Sender};
use vstd::prelude::*;
use vstd::slice::{slice_subrange, slice_to_vec};

verus! {

/// The largest number of bytes that are taken out of the write buffer for
/// one message. No frame is longer.
pub const DRAIN_CHUNK: usize = 1024;

/// A codec as a mathematical value.
pub struct LwPktView {
    /// The address that outbound frames carry as their sender.
    pub address: u8,
    /// The state of the decoder.
    pub decoder: DecoderState,
    /// The bytes in the read buffer, oldest first: they have arrived and
    /// were not decoded yet.
    pub buffered: Seq<u8>,
    /// The bytes that have arrived and that the read buffer had no room for,
    /// oldest first. They follow the buffered bytes in the stream.
    pub kept: Seq<u8>,
    /// The packet that was decoded last.
    pub last: PackageView,
    /// The capacity of the read buffer.
    pub rx_capacity: nat,
    /// The capacity of the write buffer.
    pub tx_capacity: nat,
}

/// Why the codec stopped decoding.
pub enum Halt {
    /// Nothing is buffered any more.
    Exhausted,
    /// A frame was complete.
    Packet(Package),
    /// A frame failed, or the read buffer cannot take a byte.
    Fault(Error),
    /// The next byte would make a frame fail, and was left in the read
    /// buffer.
    Held,
}

impl View for Halt {
    type V = Stop;

    open spec fn view(&self) -> Stop {
        match self {
            Halt::Exhausted => Stop::Exhausted,
            Halt::Packet(p) => Stop::Packet(p@),
            Halt::Fault(e) => Stop::Fault(*e),
            Halt::Held => Stop::Held,
        }
    }
}

/// What one step of decoding found.
#[derive(Debug, PartialEq, Eq)]
pub enum DecodeStatus {
    /// A packet.
    Valid(Package),
    /// No packet, and no frame was advanced: nothing was buffered, or nothing
    /// but bytes between frames.
    WaitData,
    /// No packet yet: bytes were consumed and a frame is under way.
    InProgress,
}

/// [`DecodeStatus`] as a mathematical value.
pub enum StatusView {
    Valid(PackageView),
    WaitData,
    InProgress,
}

impl View for DecodeStatus {
    type V = StatusView;

    open spec fn view(&self) -> StatusView {
        match self {
            DecodeStatus::Valid(p) => StatusView::Valid(p@),
            DecodeStatus::WaitData => StatusView::WaitData,
            DecodeStatus::InProgress => StatusView::InProgress,
        }
    }
}

/// The result of one step as a mathematical value.
pub open spec fn status_view(r: Result<DecodeStatus, Error>) -> Result<StatusView, Error> {
    match r {
        Ok(s) => Ok(s@),
        Err(e) => Err(e),
    }
}

/// The result of a turn of a read as a mathematical value.
pub open spec fn turn_view(r: Option<Result<DecodeStatus, Error>>) -> Option<
    Result<StatusView, Error>,
> {
    match r {
        Some(x) => Some(status_view(x)),
        None => None,
    }
}

/// The result of a batch as a mathematical value.
pub open spec fn packets_view(r: Result<Vec<Package>, Error>) -> Result<Seq<PackageView>, Error> {
    match r {
        Ok(v) => Ok(views(v@)),
        Err(e) => Err(e),
    }
}

/// What a write reports for the channel's answer: success if the channel
/// took the frame, `ErrorMem` if it is full, `ErrorClosedRaw` if it is
/// closed.
pub open spec fn send_outcome(sent: Sent) -> Result<(), Error> {
    match sent {
        Sent::Done => Ok(()),
        Sent::Full => Err(Error::ErrorMem),
        Sent::Closed => Err(Error::ErrorClosedRaw),
    }
}

/// What a write reports for the channel's answer.
pub fn sent_result(sent: Sent) -> (r: Result<(), Error>)
    ensures
        r == send_outcome(sent),
{
    match sent {
        Sent::Done => Ok(()),
        Sent::Full => Err(Error::ErrorMem),
        Sent::Closed => Err(Error::ErrorClosedRaw),
    }
}

impl LwPktView {
    /// What holds of every codec: its decoder is in one of its states, the
    /// packet that was decoded last has a payload within the limit, and the
    /// read buffer holds no more than its capacity.
    pub open spec fn wf(self) -> bool {
        &&& self.decoder.wf()
        &&& fits(self.last)
        &&& self.buffered.len() <= self.rx_capacity
    }

    /// A codec that has not sent or received anything.
    pub open spec fn fresh(rx_capacity: nat, tx_capacity: nat) -> LwPktView {
        LwPktView {
            address: 0,
            decoder: DecoderState::idle(),
            buffered: Seq::empty(),
            kept: Seq::empty(),
            last: PackageView { cmd: 0, from: 0, to: 0, data: Seq::empty() },
            rx_capacity: rx_capacity,
            tx_capacity: tx_capacity,
        }
    }

    /// The codec with another address.
    pub open spec fn with_address(self, address: u8) -> LwPktView {
        LwPktView {
            address: address,
            decoder: self.decoder,
            buffered: self.buffered,
            kept: self.kept,
            last: self.last,
            rx_capacity: self.rx_capacity,
            tx_capacity: self.tx_capacity,
        }
    }

    /// The number of bytes that the read buffer has room for.
    pub open spec fn room(self) -> int {
        self.rx_capacity - self.buffered.len()
    }

    /// The bytes that have arrived and were not decoded yet, oldest first.
    pub open spec fn inbound(self) -> Seq<u8> {
        self.buffered + self.kept
    }

    /// Whether the read buffer rejects bytes when `more` arrive: together
    /// with those kept before, they are more than it has room for.
    pub open spec fn rejects(self, more: Seq<u8>) -> bool {
        self.kept.len() + more.len() > self.room()
    }

    /// The codec after the bytes `more` have arrived. The read buffer takes
    /// the bytes kept before and then `more`, as far as it has room; the
    /// others are kept. No byte is lost and the order stays.
    pub open spec fn with_arrived(self, more: Seq<u8>) -> LwPktView {
        let all = self.buffered + self.kept + more;
        let n = if all.len() <= self.rx_capacity {
            all.len() as int
        } else {
            self.rx_capacity as int
        };
        LwPktView {
            address: self.address,
            decoder: self.decoder,
            buffered: all.take(n),
            kept: all.skip(n),
            last: self.last,
            rx_capacity: self.rx_capacity,
            tx_capacity: self.tx_capacity,
        }
    }

    /// Whether the frame of `p` cannot be sent: the payload is too long, or
    /// the write buffer is too small for the frame.
    pub open spec fn write_fails(self, p: PackageView) -> bool {
        p.data.len() > MAX_DATA_LEN || p.data.len() + FRAME_OVERHEAD > self.tx_capacity
    }

    /// One step of decoding: the decoder runs over the buffered bytes until
    /// something comes about or none is left.
    pub open spec fn polled(self, hold: bool) -> Poll {
        poll(self.decoder, self.buffered, hold)
    }

    /// The codec after one step of decoding.
    pub open spec fn after_poll(self, hold: bool) -> LwPktView {
        let p = self.polled(hold);
        LwPktView {
            address: self.address,
            decoder: p.dec,
            buffered: self.buffered.skip(p.used as int),
            kept: self.kept,
            last: match p.stop {
                Stop::Packet(x) => x,
                _ => self.last,
            },
            rx_capacity: self.rx_capacity,
            tx_capacity: self.tx_capacity,
        }
    }

    /// What one step of decoding reports: the packet or the failure that
    /// ended it; else `InProgress` if it consumed bytes and left a frame
    /// under way, and `WaitData` if not.
    pub open spec fn status(self) -> Result<StatusView, Error> {
        let p = self.polled(false);
        match p.stop {
            Stop::Packet(x) => Ok(StatusView::Valid(x)),
            Stop::Fault(e) => Err(e),
            _ => if p.used > 0 && p.dec.phase != Phase::Idle {
                Ok(StatusView::InProgress)
            } else {
                Ok(StatusView::WaitData)
            },
        }
    }

    /// What one step of decoding reports when the channel is closed: the
    /// packet or the failure that ended it, else `ErrorClosedRaw`.
    pub open spec fn closed_status(self) -> Result<StatusView, Error> {
        match self.polled(false).stop {
            Stop::Packet(x) => Ok(StatusView::Valid(x)),
            Stop::Fault(e) => Err(e),
            _ => Err(Error::ErrorClosedRaw),
        }
    }

    /// A batch of decoding: the decoder runs over the buffered bytes and
    /// collects packets until a frame fails or no byte is left.
    pub open spec fn batched(self, have: bool) -> Batch {
        batch(self.decoder, self.buffered, have)
    }

    /// The codec after a batch of decoding.
    pub open spec fn after_batch(self, have: bool) -> LwPktView {
        let b = self.batched(have);
        LwPktView {
            address: self.address,
            decoder: b.dec,
            buffered: self.buffered.skip(b.used as int),
            kept: self.kept,
            last: if b.packets.len() > 0 {
                b.packets.last()
            } else {
                self.last
            },
            rx_capacity: self.rx_capacity,
            tx_capacity: self.tx_capacity,
        }
    }

    /// What a batch of decoding reports: the failure that ended it, or the
    /// packets that it found.
    pub open spec fn batch_result(self) -> Result<Seq<PackageView>, Error> {
        match self.batched(false).fault {
            Some(e) => Err(e),
            None => Ok(self.batched(false).packets),
        }
    }

    /// How a batch read ends after a batch of decoding: it fails with the
    /// failure that ended the batch, or with `ErrorClosedRaw` if the channel
    /// is closed and the read has found no packet; else it is over.
    pub open spec fn batch_flow(self, have: bool, closed: bool) -> Flow {
        let b = self.batched(have);
        match b.fault {
            Some(e) => Flow::Failed(e),
            None => if closed && !have && b.packets.len() == 0 {
                Flow::Failed(Error::ErrorClosedRaw)
            } else {
                Flow::Done
            },
        }
    }

    /// What [`LwPkt::read_one`] may report and leave behind, where
    /// `received` are the bytes that the channel gave during the call.
    ///
    /// If the read buffer rejects bytes, the call fails with `ErrorMem`:
    /// the read buffer has taken what it had room for, the other bytes are
    /// kept, and nothing is decoded. Otherwise all bytes are buffered and
    /// the call makes one step of decoding; if nothing comes about and the
    /// channel is closed, it reports that.
    pub open spec fn read_one_outcome(
        self,
        received: Seq<u8>,
        r: Result<StatusView, Error>,
        after: LwPktView,
    ) -> bool {
        let w = self.with_arrived(received);
        if w.kept.len() > 0 {
            after == w && r == Err::<StatusView, Error>(Error::ErrorMem)
        } else {
            after == w.after_poll(false) && (r == w.status() || r == w.closed_status())
        }
    }

    /// What [`LwPkt::read`] may report and leave behind, where `received`
    /// are the bytes that the channel gave during the call.
    ///
    /// If the read buffer rejects bytes, the call fails with `ErrorMem`:
    /// the read buffer has taken what it had room for, the other bytes are
    /// kept, and nothing is decoded. Otherwise all bytes are buffered and
    /// the call makes a batch of decoding; if the batch finds no packet and
    /// no failure and the channel is closed, the call reports that.
    pub open spec fn read_outcome(
        self,
        received: Seq<u8>,
        r: Result<Seq<PackageView>, Error>,
        after: LwPktView,
    ) -> bool {
        let w = self.with_arrived(received);
        if w.kept.len() > 0 {
            after == w && r == Err::<Seq<PackageView>, Error>(Error::ErrorMem)
        } else {
            let b = w.batched(false);
            &&& after == w.after_batch(false)
            &&& match r {
                Ok(ps) => b.fault is None && ps == b.packets,
                Err(e) => b.fault == Some(e) || (e == Error::ErrorClosedRaw && b.fault is None
                    && b.packets.len() == 0),
            }
        }
    }
}

/// Bytes that arrive reject exactly when some are kept afterwards; and
/// whether or not they are rejected, the bytes that have arrived and were
/// not decoded are those from before followed by the new ones.
pub proof fn lemma_arrival_keeps_bytes(v: LwPktView, more: Seq<u8>)
    requires
        v.buffered.len() <= v.rx_capacity,
    ensures
        v.with_arrived(more).inbound() == v.inbound() + more,
        v.with_arrived(more).kept.len() > 0 <==> v.rejects(more),
        v.with_arrived(more).buffered.len() <= v.rx_capacity,
        !v.rejects(more) ==> v.with_arrived(more).buffered == v.inbound() + more,
        v.buffered.len() <= v.with_arrived(more).buffered.len(),
        v.with_arrived(more).buffered.take(v.buffered.len() as int) == v.buffered,
{
    let all = v.buffered + v.kept + more;
    let w = v.with_arrived(more);
    assert(w.buffered + w.kept =~= all);
    assert(all =~= v.inbound() + more);
    assert(w.buffered.take(v.buffered.len() as int) =~= v.buffered);
    if !v.rejects(more) {
        assert(w.buffered =~= all);
    }
}

/// Bytes that arrive in two pieces leave the codec as the same bytes in one
/// piece do.
pub proof fn lemma_arrived_in_pieces(v: LwPktView, a: Seq<u8>, b: Seq<u8>)
    requires
        v.buffered.len() <= v.rx_capacity,
    ensures
        v.with_arrived(a).with_arrived(b) == v.with_arrived(a + b),
{
    let w = v.with_arrived(a);
    let all = v.buffered + v.kept + a;
    assert(w.buffered + w.kept + b =~= v.buffered + v.kept + (a + b));
    assert(all + b =~= v.buffered + v.kept + (a + b));
    assert(w.with_arrived(b).buffered =~= v.with_arrived(a + b).buffered);
    assert(w.with_arrived(b).kept =~= v.with_arrived(a + b).kept);
}

/// A step of decoding that has consumed all that was buffered goes on in
/// the bytes that arrive next, if the read buffer has room for them with
/// those before: the step over both is the step over the second, taken
/// where the first ended.
pub proof fn lemma_step_resumes(v: LwPktView, more: Seq<u8>)
    requires
        v.kept.len() == 0,
        v.buffered.len() + more.len() <= v.rx_capacity,
        v.polled(false).stop is Exhausted,
    ensures
        v.with_arrived(more).polled(false).stop == v.after_poll(false).with_arrived(
            more,
        ).polled(false).stop,
        v.with_arrived(more).after_poll(false) == v.after_poll(false).with_arrived(
            more,
        ).after_poll(false),
{
    let p = poll(v.decoder, v.buffered, false);
    lemma_poll_bounds(v.decoder, v.buffered, false);
    lemma_poll_concat(v.decoder, v.buffered, more, false);
    let w = v.with_arrived(more);
    assert(w.buffered =~= v.buffered + more);
    assert(w.kept =~= Seq::<u8>::empty());
    let cv = v.after_poll(false).with_arrived(more);
    assert(cv.buffered =~= more);
    assert(cv.kept =~= Seq::<u8>::empty());
    let q = poll(p.dec, more, false);
    lemma_poll_bounds(p.dec, more, false);
    assert((v.buffered + more).skip((v.buffered.len() + q.used) as int) =~= more.skip(
        q.used as int,
    ));
}

/// A batch of decoding that has consumed all that was buffered, without a
/// failure, goes on in the bytes that arrive next, if the read buffer has
/// room for them with those before: the batch over both finds what the first
/// found and then what a batch over the second finds, taken where the first
/// ended.
pub proof fn lemma_batch_resumes(v: LwPktView, more: Seq<u8>)
    requires
        v.kept.len() == 0,
        v.buffered.len() + more.len() <= v.rx_capacity,
        v.batched(false).fault is None,
        v.batched(false).used == v.buffered.len(),
    ensures
        v.with_arrived(more).batched(false).packets == v.batched(false).packets + v.after_batch(
            false,
        ).with_arrived(more).batched(v.batched(false).packets.len() > 0).packets,
        v.with_arrived(more).batched(false).fault == v.after_batch(false).with_arrived(
            more,
        ).batched(v.batched(false).packets.len() > 0).fault,
        v.with_arrived(more).after_batch(false) == v.after_batch(false).with_arrived(
            more,
        ).after_batch(v.batched(false).packets.len() > 0),
{
    let b = batch(v.decoder, v.buffered, false);
    let have = b.packets.len() > 0;
    lemma_batch_concat(v.decoder, v.buffered, more, false);
    let w = v.with_arrived(more);
    assert(w.buffered =~= v.buffered + more);
    assert(w.kept =~= Seq::<u8>::empty());
    let cv = v.after_batch(false).with_arrived(more);
    assert(cv.buffered =~= more);
    assert(cv.kept =~= Seq::<u8>::empty());
    let c = batch(b.dec, more, have);
    lemma_batch_bounds(b.dec, more, have);
    assert((v.buffered + more).skip((v.buffered.len() + c.used) as int) =~= more.skip(
        c.used as int,
    ));
    let whole = c.after(b.packets, v.buffered.len());
    if c.packets.len() > 0 {
        assert(whole.packets.last() == c.packets.last());
    } else {
        assert(whole.packets =~= b.packets);
    }
}

/// Decoding keeps a codec in order, and every packet that it finds has a
/// payload within the limit. So does the arrival of bytes.
pub proof fn lemma_decoding_keeps_wf(v: LwPktView, flag: bool, more: Seq<u8>)
    requires
        v.wf(),
    ensures
        v.after_poll(flag).wf(),
        v.polled(flag).stop matches Stop::Packet(x) ==> fits(x),
        v.after_batch(flag).wf(),
        all_fit(v.batched(flag).packets),
        v.with_arrived(more).wf(),
{
    lemma_poll_wf(v.decoder, v.buffered, flag);
    lemma_poll_packet_bounded(v.decoder, v.buffered, flag);
    lemma_poll_bounds(v.decoder, v.buffered, flag);
    lemma_batch_wf(v.decoder, v.buffered, flag);
    lemma_batch_packets_bounded(v.decoder, v.buffered, flag);
    lemma_batch_bounds(v.decoder, v.buffered, flag);
    lemma_arrival_keeps_bytes(v, more);
}

/// A codec.
pub struct LwPkt {
    decoder: Decoder,
    read_buffer: LwRb,
    write_buffer: LwRb,
    carry: Vec<u8>,
    carry_at: usize,
    address: u8,
    last: Package,
    to_raw: Sender<Vec<u8>>,
    from_raw: Receiver<Vec<u8>>,
}

impl View for LwPkt {
    type V = LwPktView;

    closed spec fn view(&self) -> LwPktView {
        LwPktView {
            address: self.address,
            decoder: self.decoder@,
            buffered: self.read_buffer@,
            kept: self.carry@.skip(self.carry_at as int),
            last: self.last@,
            rx_capacity: self.read_buffer.capacity(),
            tx_capacity: self.write_buffer.capacity(),
        }
    }
}

impl LwPkt {
    /// The largest payload, in bytes, that a packet can carry.
    pub const MAX_PACKAGE_SIZE: u32 = 256;

    /// The codec is in order: its decoder is in one of its states, the read
    /// buffer holds no more than its capacity, the write buffer is empty,
    /// the bytes kept are part of the last message, and the packet that was
    /// decoded last has a payload within the limit.
    pub closed spec fn wf(&self) -> bool {
        &&& self.decoder.wf()
        &&& self.carry_at <= self.carry@.len()
        &&& self.read_buffer@.len() <= self.read_buffer.capacity()
        &&& self.write_buffer@.len() == 0
        &&& self.last.data@.len() <= MAX_DATA_LEN
    }

    /// The bytes in the write buffer.
    pub closed spec fn unsent(&self) -> Seq<u8> {
        self.write_buffer@
    }

    /// The end of the channel into which the codec sends its frames.
    pub closed spec fn outlet(&self) -> Sender<Vec<u8>> {
        self.to_raw
    }

    /// The end of the channel from which the codec takes what the raw side
    /// has delivered.
    pub closed spec fn inlet(&self) -> Receiver<Vec<u8>> {
        self.from_raw
    }

    /// Whether the codec holds the same ends of the same channels as
    /// `other`.
    pub open spec fn same_ends(&self, other: &LwPkt) -> bool {
        self.outlet() == other.outlet() && self.inlet() == other.inlet()
    }

    /// What a codec that is in order is known to be: its view is in order,
    /// and between calls its write buffer is empty.
    pub proof fn lemma_wf_view(&self)
        requires
            self.wf(),
        ensures
            self@.wf(),
            self.unsent().len() == 0,
    {
        self.decoder.lemma_wf_state();
    }

    /// A codec with the two buffers given, and its raw side. The buffers
    /// are emptied. The codec's address is 0 until it is set.
    pub fn new(read_buffer: LwRb, write_buffer: LwRb) -> (r: Result<(LwPkt, LwPktRaw), Error>)
        ensures
            r matches Ok(pair) && pair.0.wf() && pair.1.wf() && pair.1.pending() == Seq::<
                u8,
            >::empty() && pair.0@ == LwPktView::fresh(
                read_buffer.capacity(),
                write_buffer.capacity(),
            ),
    {
        let mut read_buffer = read_buffer;
        let mut write_buffer = write_buffer;
        read_buffer.reset();
        write_buffer.reset();
        let (tx_to_raw, rx_to_raw) = bounded(CHANNEL_CAPACITY);
        let (tx_to_pkt, rx_to_pkt) = bounded(CHANNEL_CAPACITY);
        let codec = LwPkt {
            decoder: Decoder::new(),
            read_buffer: read_buffer,
            write_buffer: write_buffer,
            carry: Vec::new(),
            carry_at: 0,
            address: 0,
            last: Package { cmd: 0, from: 0, to: 0, data: Vec::new() },
            to_raw: tx_to_raw,
            from_raw: rx_to_pkt,
        };
        let raw = LwPktRaw::new(tx_to_pkt, rx_to_raw);
        assert(codec@.kept =~= Seq::<u8>::empty());
        Ok((codec, raw))
    }

    /// Sets the address that outbound frames carry as their sender.
    pub fn set_addres(&mut self, address: u8) -> (r: Result<(), Error>)
        requires
            old(self).wf(),
        ensures
            final(self).wf(),
            final(self).same_ends(old(self)),
            r is Ok,
            final(self)@ == old(self)@.with_address(address),
    {
        self.address = address;
        Ok(())
    }

    /// Builds the frame of `package`, with the codec's address as its
    /// sender, in the write buffer, and takes it out again as the message
    /// for the channel.
    ///
    /// Fails with `ErrorMem`, and builds nothing, if the payload is longer
    /// than [`MAX_DATA_LEN`] or the frame does not fit into the write
    /// buffer.
    pub fn stage(&mut self, package: &Package) -> (r: Result<Vec<u8>, Error>)
        requires
            old(self).wf(),
        ensures
            final(self).wf(),
            final(self).same_ends(old(self)),
            final(self)@ == old(self)@,
            old(self)@.write_fails(package@) ==> r == Err::<Vec<u8>, Error>(Error::ErrorMem),
            !old(self)@.write_fails(package@) ==> (r matches Ok(chunk) && chunk@ == frame(
                stamped(package@, old(self)@.address),
            )),
    {
        let bytes = match encode(package, self.address) {
            Ok(bytes) => bytes,
            Err(e) => {
                return Err(e);
            },
        };
        proof {
            lemma_frame_len(stamped(package@, self.address));
        }
        if self.write_buffer.free_space() < bytes.len() {
            return Err(Error::ErrorMem);
        }
        let n = self.write_buffer.write(bytes.as_slice());
        assert(bytes@.take(n as int) =~= bytes@);
        let chunk = self.write_buffer.read(DRAIN_CHUNK);
        assert(chunk@ =~= bytes@);
        assert(self.write_buffer@ =~= Seq::<u8>::empty());
        Ok(chunk)
    }

    /// Sends `package`: builds its frame, with the codec's address as its
    /// sender, and offers it to the channel as one message.
    ///
    /// Fails with `ErrorMem` if the payload is longer than [`MAX_DATA_LEN`],
    /// if the frame does not fit into the write buffer, or if the channel is
    /// full; with `ErrorClosedRaw` if the raw side is gone. A frame that is
    /// not sent is dropped: nothing of it stays in the write buffer, and
    /// nothing of it is on the channel.
    pub fn write(&mut self, package: Package) -> (r: Result<(), Error>)
        requires
            old(self).wf(),
        ensures
            final(self).wf(),
            final(self).same_ends(old(self)),
            final(self)@ == old(self)@,
            old(self)@.write_fails(package@) ==> r == Err::<(), Error>(Error::ErrorMem),
            !old(self)@.write_fails(package@) ==> r == send_outcome(Sent::Done) || r
                == send_outcome(Sent::Full) || r == send_outcome(Sent::Closed),
    {
        match self.stage(&package) {
            Err(e) => Err(e),
            Ok(chunk) => sent_result(try_send(&self.to_raw, chunk)),
        }
    }

    /// Moves the bytes kept into the read buffer, as many as it has room
    /// for, and says whether none is kept any more.
    fn restage(&mut self) -> (clear: bool)
        requires
            old(self).wf(),
        ensures
            final(self).wf(),
            final(self).same_ends(old(self)),
            final(self)@ == old(self)@.with_arrived(Seq::empty()),
            clear == (final(self)@.kept.len() == 0),
            clear == !old(self)@.rejects(Seq::empty()),
    {
        let ghost v0 = self@;
        proof {
            lemma_arrival_keeps_bytes(v0, Seq::empty());
        }
        if self.carry_at < self.carry.len() {
            let rest = slice_subrange(self.carry.as_slice(), self.carry_at, self.carry.len());
            let n = self.read_buffer.write(rest);
            self.carry_at = self.carry_at + n;
            assert(self@.buffered =~= v0.with_arrived(Seq::empty()).buffered);
            assert(self@.kept =~= v0.with_arrived(Seq::empty()).kept);
        } else {
            assert(self@.buffered =~= v0.with_arrived(Seq::empty()).buffered);
            assert(self@.kept =~= v0.with_arrived(Seq::empty()).kept);
        }
        if self.carry_at == self.carry.len() {
            self.carry_at = 0;
            self.carry.clear();
            assert(self@.kept =~= v0.with_arrived(Seq::empty()).kept);
            true
        } else {
            false
        }
    }

    /// Takes in bytes that have arrived. The read buffer takes the bytes
    /// kept before and then those of `chunk`, as far as it has room; the
    /// others are kept, in their order.
    ///
    /// Fails with `ErrorMem` if bytes are kept afterwards: the read buffer
    /// has rejected them. Decoding what is buffered makes room for them.
    pub fn accept(&mut self, chunk: Vec<u8>) -> (r: Result<(), Error>)
        requires
            old(self).wf(),
        ensures
            final(self).wf(),
            final(self).same_ends(old(self)),
            final(self)@ == old(self)@.with_arrived(chunk@),
            r == if old(self)@.rejects(chunk@) {
                Err::<(), Error>(Error::ErrorMem)
            } else {
                Ok::<(), Error>(())
            },
    {
        let ghost v0 = self@;
        proof {
            lemma_arrival_keeps_bytes(v0, Seq::empty());
            lemma_arrival_keeps_bytes(v0, chunk@);
            lemma_arrived_in_pieces(v0, Seq::empty(), chunk@);
            assert(Seq::<u8>::empty() + chunk@ =~= chunk@);
        }
        if self.restage() {
            let ghost v1 = self@;
            self.carry_at = 0;
            self.carry = chunk;
            proof {
                let v2 = self@;
                assert(v2.kept =~= chunk@);
                assert(v2.buffered + v2.kept + Seq::<u8>::empty() =~= v1.buffered + v1.kept
                    + chunk@);
                assert(v2.with_arrived(Seq::empty()).buffered =~= v1.with_arrived(
                    chunk@,
                ).buffered);
                assert(v2.with_arrived(Seq::empty()).kept =~= v1.with_arrived(chunk@).kept);
            }
            if self.restage() {
                Ok(())
            } else {
                Err(Error::ErrorMem)
            }
        } else {
            let ghost v1 = self@;
            self.carry.extend_from_slice(chunk.as_slice());
            proof {
                assert(self@.kept =~= v1.kept + chunk@);
                assert(v1.buffered.len() == v1.rx_capacity);
                assert(self@.buffered =~= v1.with_arrived(chunk@).buffered);
                assert(self@.kept =~= v1.with_arrived(chunk@).kept);
            }
            Err(Error::ErrorMem)
        }
    }

    /// One step of decoding: runs the decoder over the buffered bytes until
    /// a frame is complete or fails, or the read buffer is empty. With
    /// `hold`, a byte that would make a frame fail is left in the read
    /// buffer.
    pub fn advance(&mut self, hold: bool) -> (r: Halt)
        requires
            old(self).wf(),
        ensures
            final(self).wf(),
            final(self).same_ends(old(self)),
            final(self)@ == old(self)@.after_poll(hold),
            r@ == old(self)@.polled(hold).stop,
            r matches Halt::Packet(p) ==> p.data@.len() <= MAX_DATA_LEN,
    {
        let ghost v0 = self@;
        let ghost mut k: nat = 0;
        assert(self@.buffered.skip(0) =~= self@.buffered);
        loop
            invariant
                self.wf(),
                self.same_ends(old(self)),
                v0 == old(self)@,
                self@.address == v0.address,
                self@.last == v0.last,
                self@.kept == v0.kept,
                self@.rx_capacity == v0.rx_capacity,
                self@.tx_capacity == v0.tx_capacity,
                k <= v0.buffered.len(),
                self@.buffered == v0.buffered.skip(k as int),
                poll(v0.decoder, v0.buffered, hold) == poll(
                    self@.decoder,
                    self@.buffered,
                    hold,
                ).later(k),
            decreases self@.buffered.len(),
        {
            let ghost buffered = self@.buffered;
            let b = match self.read_buffer.peek() {
                Some(b) => b,
                None => {
                    return Halt::Exhausted;
                },
            };
            if hold && self.decoder.faults_on(b) {
                return Halt::Held;
            }
            let _ = self.read_buffer.pop();
            assert(buffered.skip(1) =~= v0.buffered.skip((k + 1) as int));
            let signal = self.decoder.push(b);
            proof {
                k = k + 1;
            }
            match signal {
                None => {},
                Some(Signal::Packet(p)) => {
                    self.last = Package {
                        cmd: p.cmd,
                        from: p.from,
                        to: p.to,
                        data: slice_to_vec(p.data.as_slice()),
                    };
                    return Halt::Packet(p);
                },
                Some(Signal::Fault(e)) => {
                    return Halt::Fault(e);
                },
            }
        }
    }

    /// One step of decoding what is buffered.
    ///
    /// Returns the packet of the first frame that is complete, or the
    /// failure of the first frame that fails: `ErrorCRC` for a wrong
    /// checksum, `ErrStop` for a wrong stop byte, `ErrorMem` for a payload
    /// length above [`MAX_DATA_LEN`]. The bytes up to there are taken out of
    /// the read buffer; after a failure the decoder waits for the next start
    /// byte. If the buffered bytes end first, all of them are taken out and
    /// the result is `InProgress` if a frame is under way and `WaitData` if
    /// not. When nothing is buffered, the result is `WaitData` and the codec
    /// does not change.
    pub fn decode_one(&mut self) -> (r: Result<DecodeStatus, Error>)
        requires
            old(self).wf(),
        ensures
            final(self).wf(),
            final(self).same_ends(old(self)),
            final(self)@ == old(self)@.after_poll(false),
            status_view(r) == old(self)@.status(),
            old(self)@.buffered.len() == 0 ==> r == Ok::<DecodeStatus, Error>(
                DecodeStatus::WaitData,
            ) && final(self)@ == old(self)@,
            r matches Ok(DecodeStatus::Valid(p)) ==> p.data@.len() <= MAX_DATA_LEN,
    {
        let had = self.read_buffer.used() > 0;
        proof {
            lemma_poll_bounds(self@.decoder, self@.buffered, false);
            assert(self@.buffered.skip(0) =~= self@.buffered);
        }
        match self.advance(false) {
            Halt::Packet(p) => Ok(DecodeStatus::Valid(p)),
            Halt::Fault(e) => Err(e),
            _ => {
                if had && !self.decoder.is_idle() {
                    Ok(DecodeStatus::InProgress)
                } else {
                    Ok(DecodeStatus::WaitData)
                }
            },
        }
    }

    /// Runs steps of decoding until one finds no packet, and puts the
    /// packets found behind those in `out`. A failure is consumed and
    /// returned only if `out` is empty; otherwise the byte that shows it
    /// stays in the read buffer.
    pub fn drain_into(&mut self, out: &mut Vec<Package>) -> (r: Option<Error>)
        requires
            old(self).wf(),
        ensures
            final(self).wf(),
            final(self).same_ends(old(self)),
            final(self)@ == old(self)@.after_batch(old(out)@.len() > 0),
            views(final(out)@) == views(old(out)@) + old(self)@.batched(
                old(out)@.len() > 0,
            ).packets,
            r == old(self)@.batched(old(out)@.len() > 0).fault,
            all_fit(old(self)@.batched(old(out)@.len() > 0).packets),
    {
        let ghost v0 = self@;
        let ghost have0 = out@.len() > 0;
        proof {
            self.lemma_wf_view();
            lemma_decoding_keeps_wf(v0, have0, Seq::empty());
        }
        let ghost mut acc: Seq<PackageView> = Seq::empty();
        let ghost mut k: nat = 0;
        assert(self@.buffered.skip(0) =~= self@.buffered);
        assert(views(out@) + acc =~= views(out@));
        proof {
            let b0 = batch(v0.decoder, v0.buffered, have0);
            assert(b0.after(acc, 0).packets =~= b0.packets);
        }
        loop
            invariant
                self.wf(),
                self.same_ends(old(self)),
                v0 == old(self)@,
                have0 == (old(out)@.len() > 0),
                all_fit(v0.batched(have0).packets),
                self@.address == v0.address,
                self@.kept == v0.kept,
                self@.rx_capacity == v0.rx_capacity,
                self@.tx_capacity == v0.tx_capacity,
                self@.last == (if acc.len() > 0 {
                    acc.last()
                } else {
                    v0.last
                }),
                k <= v0.buffered.len(),
                self@.buffered == v0.buffered.skip(k as int),
                views(out@) == views(old(out)@) + acc,
                batch(v0.decoder, v0.buffered, have0) == batch(
                    self@.decoder,
                    self@.buffered,
                    out@.len() > 0,
                ).after(acc, k),
            decreases self@.buffered.len(),
        {
            let ghost cur = self@;
            let ghost have = out@.len() > 0;
            proof {
                lemma_batch_link(v0.decoder, v0.buffered, have0, acc, k, cur.decoder, have);
            }
            let halt = self.advance(out.len() > 0);
            let ghost p = poll(cur.decoder, cur.buffered, have);
            assert(self@.buffered == v0.buffered.skip((k + p.used) as int));
            match halt {
                Halt::Packet(x) => {
                    proof {
                        assert(views(out@.push(x)) =~= views(out@).push(x@));
                        assert(views(old(out)@) + acc.push(x@) =~= (views(old(out)@) + acc).push(
                            x@,
                        ));
                        lemma_poll_bounds(cur.decoder, cur.buffered, have);
                        acc = acc.push(x@);
                        k = k + p.used;
                    }
                    out.push(x);
                },
                Halt::Fault(e) => {
                    proof {
                        lemma_batch_bounds(v0.decoder, v0.buffered, have0);
                    }
                    return Some(e);
                },
                _ => {
                    return None;
                },
            }
        }
    }

    /// Decodes what is buffered, packet after packet.
    ///
    /// Returns the packets of the frames that are complete, in the order in
    /// which they arrived; what is left is at most the beginning of a frame,
    /// which the decoder holds. The first frame that fails ends the batch:
    /// if packets were found before it, they are returned, the byte that
    /// shows the failure stays in the read buffer, and the next call reports
    /// it; otherwise the failure is returned now, and the decoder waits for
    /// the next start byte.
    pub fn decode(&mut self) -> (r: Result<Vec<Package>, Error>)
        requires
            old(self).wf(),
        ensures
            final(self).wf(),
            final(self).same_ends(old(self)),
            final(self)@ == old(self)@.after_batch(false),
            packets_view(r) == old(self)@.batch_result(),
            r matches Ok(found) ==> all_fit(views(found@)),
    {
        let mut out: Vec<Package> = Vec::new();
        assert(views(out@) =~= Seq::<PackageView>::empty());
        let ghost b = self@.batched(false);
        match self.drain_into(&mut out) {
            Some(e) => Err(e),
            None => {
                assert(views(out@) =~= b.packets);
                Ok(out)
            },
        }
    }

    /// Goes on with a step of reading after the channel's answer
    /// `received`.
    ///
    /// A message is taken in as [`LwPkt::accept`] does: the step fails with
    /// `ErrorMem` if the read buffer rejects bytes, and else asks the
    /// channel again; nothing is decoded. After an empty channel follows one
    /// step of decoding, whose result is that of the read. After a closed
    /// one follows the same step, and the read fails with `ErrorClosedRaw`
    /// if the step finds no packet and no failure.
    pub fn receive_one(&mut self, received: Received) -> (r: Option<Result<DecodeStatus, Error>>)
        requires
            old(self).wf(),
        ensures
            final(self).wf(),
            final(self).same_ends(old(self)),
            match received {
                Received::Chunk(chunk) => {
                    &&& final(self)@ == old(self)@.with_arrived(chunk@)
                    &&& turn_view(r) == if old(self)@.rejects(chunk@) {
                        Some(Err::<StatusView, Error>(Error::ErrorMem))
                    } else {
                        None
                    }
                },
                Received::Empty => {
                    &&& final(self)@ == old(self)@.after_poll(false)
                    &&& turn_view(r) == Some(old(self)@.status())
                },
                Received::Closed => {
                    &&& final(self)@ == old(self)@.after_poll(false)
                    &&& turn_view(r) == Some(old(self)@.closed_status())
                },
            },
            r matches Some(Ok(DecodeStatus::Valid(p))) ==> p.data@.len() <= MAX_DATA_LEN,
    {
        match received {
            Received::Chunk(chunk) => {
                match self.accept(chunk) {
                    Ok(()) => None,
                    Err(e) => Some(Err(e)),
                }
            },
            Received::Empty => Some(self.decode_one()),
            Received::Closed => {
                match self.decode_one() {
                    Ok(DecodeStatus::Valid(p)) => Some(Ok(DecodeStatus::Valid(p))),
                    Err(e) => Some(Err(e)),
                    Ok(_) => Some(Err(Error::ErrorClosedRaw)),
                }
            },
        }
    }

    /// Takes what the raw side has delivered and makes one step of
    /// decoding.
    ///
    /// First the bytes kept by an earlier call, then the messages that the
    /// channel holds, at most [`CHANNEL_CAPACITY`] of them, are stored in
    /// the read buffer. If the read buffer rejects bytes, the call fails at
    /// once with `ErrorMem`: no byte is lost, nothing is decoded, and the
    /// channel is not asked again before the bytes kept have found room.
    /// Decoding what is buffered, with [`LwPkt::decode_one`] or
    /// [`LwPkt::decode`], makes room.
    ///
    /// Otherwise one step of decoding follows, as in
    /// [`LwPkt::decode_one`]. If the channel is closed and the step finds
    /// no packet and no failure, the call fails with `ErrorClosedRaw`. What
    /// follows each answer of the channel is what [`LwPkt::receive_one`]
    /// does.
    pub fn read_one(&mut self) -> (r: Result<DecodeStatus, Error>)
        requires
            old(self).wf(),
        ensures
            final(self).wf(),
            final(self).same_ends(old(self)),
            exists|received: Seq<u8>|
                old(self)@.read_one_outcome(received, status_view(r), final(self)@),
            r matches Ok(DecodeStatus::Valid(p)) ==> p.data@.len() <= MAX_DATA_LEN,
    {
        let ghost v0 = self@;
        let ghost mut received: Seq<u8> = Seq::empty();
        proof {
            self.lemma_wf_view();
        }
        if !self.restage() {
            assert(v0.read_one_outcome(received, Err(Error::ErrorMem), self@));
            return Err(Error::ErrorMem);
        }
        let mut budget: usize = CHANNEL_CAPACITY;
        while budget > 0
            invariant
                self.wf(),
                self.same_ends(old(self)),
                v0 == old(self)@,
                v0.wf(),
                self@ == v0.with_arrived(received),
                self@.kept.len() == 0,
            decreases budget,
        {
            budget = budget - 1;
            let got = try_recv(&self.from_raw);
            proof {
                if got is Chunk {
                    lemma_arrived_in_pieces(v0, received, brought(got));
                    lemma_arrival_keeps_bytes(self@, brought(got));
                    received = received + brought(got);
                }
            }
            match self.receive_one(got) {
                Some(r) => {
                    assert(v0.read_one_outcome(received, status_view(r), self@));
                    return r;
                },
                None => {},
            }
        }
        let r = self.decode_one();
        assert(v0.read_one_outcome(received, status_view(r), self@));
        r
    }

    /// Goes on with a batch read, which has found the packets in `out`,
    /// after the channel's answer `received`.
    ///
    /// A message is taken in as [`LwPkt::accept`] does: the read fails with
    /// `ErrorMem` if the read buffer rejects bytes, and else asks the
    /// channel again; nothing is decoded. After an empty channel follows a
    /// batch of decoding, as in [`LwPkt::drain_into`], which ends the read.
    /// After a closed one follows the same batch, and the read fails with
    /// `ErrorClosedRaw` if it has found no packet and no failure.
    pub fn receive(&mut self, received: Received, out: &mut Vec<Package>) -> (flow: Flow)
        requires
            old(self).wf(),
        ensures
            final(self).wf(),
            final(self).same_ends(old(self)),
            match received {
                Received::Chunk(chunk) => {
                    &&& final(self)@ == old(self)@.with_arrived(chunk@)
                    &&& final(out)@ == old(out)@
                    &&& flow == if old(self)@.rejects(chunk@) {
                        Flow::Failed(Error::ErrorMem)
                    } else {
                        Flow::More
                    }
                },
                Received::Empty => {
                    &&& final(self)@ == old(self)@.after_batch(old(out)@.len() > 0)
                    &&& views(final(out)@) == views(old(out)@) + old(self)@.batched(
                        old(out)@.len() > 0,
                    ).packets
                    &&& flow == old(self)@.batch_flow(old(out)@.len() > 0, false)
                },
                Received::Closed => {
                    &&& final(self)@ == old(self)@.after_batch(old(out)@.len() > 0)
                    &&& views(final(out)@) == views(old(out)@) + old(self)@.batched(
                        old(out)@.len() > 0,
                    ).packets
                    &&& flow == old(self)@.batch_flow(old(out)@.len() > 0, true)
                },
            },
            all_fit(old(self)@.batched(old(out)@.len() > 0).packets),
    {
        proof {
            self.lemma_wf_view();
            lemma_decoding_keeps_wf(self@, out@.len() > 0, Seq::empty());
        }
        match received {
            Received::Chunk(chunk) => {
                match self.accept(chunk) {
                    Ok(()) => Flow::More,
                    Err(e) => Flow::Failed(e),
                }
            },
            Received::Empty => {
                match self.drain_into(out) {
                    Some(e) => Flow::Failed(e),
                    None => Flow::Done,
                }
            },
            Received::Closed => {
                let ghost found = views(out@);
                let ghost added = self@.batched(out@.len() > 0).packets;
                match self.drain_into(out) {
                    Some(e) => Flow::Failed(e),
                    None => {
                        assert((found + added).len() == found.len() + added.len());
                        assert(views(out@).len() == out@.len());
                        if out.len() == 0 {
                            Flow::Failed(Error::ErrorClosedRaw)
                        } else {
                            Flow::Done
                        }
                    },
                }
            },
        }
    }

    /// Takes what the raw side has delivered and decodes it, packet after
    /// packet.
    ///
    /// First the bytes kept by an earlier call, then the messages that the
    /// channel holds, at most [`CHANNEL_CAPACITY`] of them, are stored in
    /// the read buffer. If the read buffer rejects bytes, the call fails at
    /// once with `ErrorMem`: no byte is lost, nothing is decoded, and the
    /// channel is not asked again before the bytes kept have found room.
    /// Decoding what is buffered, with [`LwPkt::decode`] or
    /// [`LwPkt::decode_one`], makes room.
    ///
    /// Otherwise a batch of decoding follows, as in [`LwPkt::decode`]: the
    /// packets of all complete frames, in the order in which they arrived,
    /// up to the first frame that fails. If the channel is closed and the
    /// batch finds no packet and no failure, the call fails with
    /// `ErrorClosedRaw`. What follows each answer of the channel is what
    /// [`LwPkt::receive`] does.
    pub fn read(&mut self) -> (r: Result<Vec<Package>, Error>)
        requires
            old(self).wf(),
        ensures
            final(self).wf(),
            final(self).same_ends(old(self)),
            exists|received: Seq<u8>|
                old(self)@.read_outcome(received, packets_view(r), final(self)@),
            r matches Ok(found) ==> all_fit(views(found@)),
    {
        let ghost v0 = self@;
        let ghost mut received: Seq<u8> = Seq::empty();
        let mut out: Vec<Package> = Vec::new();
        assert(views(out@) =~= Seq::<PackageView>::empty());
        proof {
            self.lemma_wf_view();
        }
        if !self.restage() {
            assert(v0.read_outcome(received, Err(Error::ErrorMem), self@));
            return Err(Error::ErrorMem);
        }
        let mut budget: usize = CHANNEL_CAPACITY;
        while budget > 0
            invariant
                self.wf(),
                self.same_ends(old(self)),
                v0 == old(self)@,
                v0.wf(),
                self@ == v0.with_arrived(received),
                self@.kept.len() == 0,
                out@.len() == 0,
            decreases budget,
        {
            budget = budget - 1;
            let got = try_recv(&self.from_raw);
            let ghost w = self@;
            proof {
                if got is Chunk {
                    lemma_arrived_in_pieces(v0, received, brought(got));
                    lemma_arrival_keeps_bytes(self@, brought(got));
                    received = received + brought(got);
                }
                assert(Seq::<PackageView>::empty() + w.batched(false).packets =~= w.batched(
                    false,
                ).packets);
            }
            match self.receive(got, &mut out) {
                Flow::More => {},
                Flow::Done => {
                    assert(v0.read_outcome(received, Ok(views(out@)), self@));
                    return Ok(out);
                },
                Flow::Failed(e) => {
                    assert(v0.read_outcome(received, Err(e), self@));
                    return Err(e);
                },
            }
        }
        let ghost w = self@;
        proof {
            assert(Seq::<PackageView>::empty() + w.batched(false).packets =~= w.batched(
                false,
            ).packets);
        }
        match self.receive(Received::Empty, &mut out) {
            Flow::Failed(e) => {
                assert(v0.read_outcome(received, Err(e), self@));
                Err(e)
            },
            _ => {
                assert(v0.read_outcome(received, Ok(views(out@)), self@));
                Ok(out)
            },
        }
    }

    /// The payload of the packet that was decoded last.
    pub fn get_data(&self) -> (data: &[u8])
        requires
            self.wf(),
        ensures
            data@ == self@.last.data,
            data@.len() <= MAX_DATA_LEN,
    {
        self.last.data.as_slice()
    }

    /// The command of the packet that was decoded last.
    pub fn get_cmd(&self) -> (cmd: u32)
        ensures
            cmd == self@.last.cmd,
    {
        self.last.cmd
    }

    /// The sender of the packet that was decoded last.
    pub fn get_from(&self) -> (from: u8)
        ensures
            from == self@.last.from,
    {
        self.last.from
    }

    /// The receiver of the packet that was decoded last.
    pub fn get_to(&self) -> (to: u8)
        ensures
            to == self@.last.to,
    {
        self.last.to
    }
}

} // verus!
