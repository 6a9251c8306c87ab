//! What holds of frames and the decoder together: a frame decodes to its
//! packet, wherever the stream is cut; frames in a row decode in order; a
//! damaged frame is reported once and the decoder finds the next frame.
use crate::codec::{LwPktView, StatusView};
use crate::crc::{crc8, lemma_bit_flip_changes, lemma_crc8_detects_byte};
use crate::decoder::{emit, next, DecoderState, Phase};
use crate::error::Error;
use crate::frame::{
    assemble, frame, frame_body, header, header_len, lemma_frame_len, lemma_header_fields,
    stamped, PackageView, FRAME_OVERHEAD, HEADER_LEN, MAX_DATA_LEN, START_BYTE, STOP_BYTE,
};
use crate::scan::{
    batch, lemma_batch_by_poll, lemma_hold_matters_at_failure, lemma_poll_bounds,
    lemma_poll_concat, poll, Batch, Poll, Stop,
};
use vstd::prelude::*;

verus! {

/// The frames of the packets `ps`, one after the other.
pub open spec fn frames(ps: Seq<PackageView>) -> Seq<u8>
    decreases ps.len(),
{
    if ps.len() == 0 {
        Seq::empty()
    } else {
        frame(ps[0]) + frames(ps.skip(1))
    }
}

/// The bytes of the pieces `chunks`, one after the other.
pub open spec fn joined(chunks: Seq<Seq<u8>>) -> Seq<u8>
    decreases chunks.len(),
{
    if chunks.len() == 0 {
        Seq::empty()
    } else {
        chunks[0] + joined(chunks.skip(1))
    }
}

/// A poll that is fed piece by piece: each piece is polled from where the
/// piece before it ended, until something comes about.
pub open spec fn poll_pieces(d: DecoderState, chunks: Seq<Seq<u8>>, hold: bool) -> Poll
    decreases chunks.len(),
{
    if chunks.len() == 0 {
        Poll { dec: d, used: 0, stop: Stop::Exhausted }
    } else {
        let p = poll(d, chunks[0], hold);
        if p.stop is Exhausted {
            poll_pieces(p.dec, chunks.skip(1), hold).later(chunks[0].len())
        } else {
            p
        }
    }
}

/// The decoder with the header `h` and the payload `data` collected, in the
/// phase `phase`.
pub open spec fn within(phase: Phase, h: Seq<u8>, data: Seq<u8>) -> DecoderState {
    DecoderState { phase: phase, header: h, data: data }
}

/// Between frames, a byte that is not the start byte is skipped.
pub proof fn lemma_noise_skipped(b: u8, rest: Seq<u8>, hold: bool)
    requires
        b != START_BYTE,
    ensures
        poll(DecoderState::idle(), seq![b] + rest, hold) == poll(
            DecoderState::idle(),
            rest,
            hold,
        ).later(1),
        batch(DecoderState::idle(), seq![b] + rest, hold) == batch(
            DecoderState::idle(),
            rest,
            hold,
        ).after(Seq::empty(), 1),
{
    let s = seq![b] + rest;
    assert(s[0] == b);
    assert(s.skip(1) =~= rest);
}

/// The bytes of a header, taken one by one, fill the header and lead to
/// the payload, or to the checksum if the payload is empty.
proof fn lemma_header_fills(h: Seq<u8>, s: Seq<u8>, hold: bool)
    requires
        s.len() >= 1,
        h.len() + s.len() == HEADER_LEN,
        header_len(h + s) <= MAX_DATA_LEN,
    ensures
        poll(within(Phase::Header, h, Seq::empty()), s, hold) == (Poll {
            dec: within(
                if header_len(h + s) == 0 {
                    Phase::Checksum
                } else {
                    Phase::Data
                },
                h + s,
                Seq::empty(),
            ),
            used: s.len(),
            stop: Stop::Exhausted,
        }),
    decreases s.len(),
{
    let d = within(Phase::Header, h, Seq::empty());
    let h1 = h.push(s[0]);
    if s.len() == 1 {
        assert(h1 =~= h + s);
        assert(s.skip(1).len() == 0);
    } else {
        assert(h1 + s.skip(1) =~= h + s);
        lemma_header_fills(h1, s.skip(1), hold);
    }
}

/// The bytes of a payload, taken one by one, fill the payload and lead to
/// the checksum.
proof fn lemma_payload_fills(h: Seq<u8>, got: Seq<u8>, s: Seq<u8>, hold: bool)
    requires
        s.len() >= 1,
        h.len() == HEADER_LEN,
        got.len() + s.len() == header_len(h),
    ensures
        poll(within(Phase::Data, h, got), s, hold) == (Poll {
            dec: within(Phase::Checksum, h, got + s),
            used: s.len(),
            stop: Stop::Exhausted,
        }),
    decreases s.len(),
{
    let d = within(Phase::Data, h, got);
    let g1 = got.push(s[0]);
    assert(emit(d, s[0]) is None);
    if s.len() == 1 {
        assert(g1 =~= got + s);
        assert(s.skip(1).len() == 0);
        assert(next(d, s[0]) == within(Phase::Checksum, h, got + s));
    } else {
        assert(g1 + s.skip(1) =~= got + s);
        assert(next(d, s[0]) == within(Phase::Data, h, g1));
        lemma_payload_fills(h, g1, s.skip(1), hold);
    }
}

/// From between frames, a start byte, a header and the payload that it
/// announces lead to the checksum: the decoder consumes them without
/// anything coming about, and goes on in what follows.
pub proof fn lemma_reaches_checksum(
    from: u8,
    to: u8,
    cmd: u32,
    data: Seq<u8>,
    tail: Seq<u8>,
    hold: bool,
)
    requires
        data.len() <= MAX_DATA_LEN,
    ensures
        poll(
            DecoderState::idle(),
            seq![START_BYTE] + (header(from, to, cmd, data.len()) + data) + tail,
            hold,
        ) == poll(
            within(Phase::Checksum, header(from, to, cmd, data.len()), data),
            tail,
            hold,
        ).later(1 + HEADER_LEN as nat + data.len()),
{
    let h = header(from, to, cmd, data.len());
    let s = seq![START_BYTE] + (h + data) + tail;
    lemma_header_fields(from, to, cmd, data.len());
    let d0 = within(Phase::Header, Seq::empty(), Seq::empty());
    assert(s[0] == START_BYTE);
    assert(s.skip(1) =~= h + (data + tail));
    assert(next(DecoderState::idle(), START_BYTE) == d0);
    assert(Seq::<u8>::empty() + h =~= h);
    lemma_header_fills(Seq::empty(), h, hold);
    lemma_poll_concat(d0, h, data + tail, hold);
    if data.len() > 0 {
        let d1 = within(Phase::Data, h, Seq::empty());
        assert(Seq::<u8>::empty() + data =~= data);
        lemma_payload_fills(h, Seq::empty(), data, hold);
        lemma_poll_concat(d1, data, tail, hold);
    } else {
        assert(data + tail =~= tail);
        assert(data =~= Seq::<u8>::empty());
    }
}

/// Round trip: from between frames, the decoder makes of the frame of a
/// packet that packet, consumes the whole frame, and is between frames
/// again.
pub proof fn lemma_round_trip(p: PackageView, hold: bool)
    requires
        p.data.len() <= MAX_DATA_LEN,
    ensures
        poll(DecoderState::idle(), frame(p), hold) == (Poll {
            dec: DecoderState::idle(),
            used: frame(p).len(),
            stop: Stop::Packet(p),
        }),
{
    let h = header(p.from, p.to, p.cmd, p.data.len());
    let tail = seq![crc8(frame_body(p)), STOP_BYTE];
    lemma_header_fields(p.from, p.to, p.cmd, p.data.len());
    lemma_frame_len(p);
    lemma_reaches_checksum(p.from, p.to, p.cmd, p.data, tail, hold);
    let d2 = within(Phase::Checksum, h, p.data);
    let d3 = within(Phase::Stop, h, p.data);
    assert(tail[0] == crc8(h + p.data));
    assert(emit(d2, tail[0]) is None);
    assert(next(d2, tail[0]) == d3);
    assert(tail.skip(1)[0] == STOP_BYTE);
    assert(assemble(h, p.data) == p);
    assert(poll(d3, tail.skip(1), hold) == (Poll {
        dec: DecoderState::idle(),
        used: 1,
        stop: Stop::Packet(p),
    }));
}

/// Round trip through two codecs: what a receiver that is between frames,
/// with nothing buffered or kept and room for the frame, makes of the frame
/// that a sender builds of the packet `p` is `p` with the sender's address as
/// its sender, in one step and in a batch. The frame is not rejected, and
/// afterwards nothing is buffered.
pub proof fn lemma_codec_round_trip(sender: LwPktView, receiver: LwPktView, p: PackageView)
    requires
        p.data.len() <= MAX_DATA_LEN,
        receiver.buffered.len() == 0,
        receiver.kept.len() == 0,
        receiver.decoder == DecoderState::idle(),
        p.data.len() + FRAME_OVERHEAD <= receiver.rx_capacity,
    ensures
        !receiver.rejects(frame(stamped(p, sender.address))),
        receiver.with_arrived(frame(stamped(p, sender.address))).kept.len() == 0,
        receiver.with_arrived(frame(stamped(p, sender.address))).status() == Ok::<
            StatusView,
            Error,
        >(StatusView::Valid(stamped(p, sender.address))),
        receiver.with_arrived(frame(stamped(p, sender.address))).batch_result() == Ok::<
            Seq<PackageView>,
            Error,
        >(seq![stamped(p, sender.address)]),
        receiver.with_arrived(frame(stamped(p, sender.address))).after_batch(
            false,
        ).buffered.len() == 0,
        receiver.with_arrived(frame(stamped(p, sender.address))).after_batch(false).decoder
            == DecoderState::idle(),
{
    let q = stamped(p, sender.address);
    let f = frame(q);
    let v = receiver.with_arrived(f);
    lemma_frame_len(q);
    assert(v.buffered =~= f);
    assert(v.kept =~= Seq::<u8>::empty());
    lemma_round_trip(q, false);
    lemma_frame_decodes(q, Seq::empty(), false);
    assert(f + Seq::<u8>::empty() =~= f);
    assert(seq![q] + Seq::<PackageView>::empty() =~= seq![q]);
}

/// A frame that the read buffer has no room for is rejected: the read
/// buffer takes the bytes of the frame that fit, the others are kept, and
/// all of them are still there in their order.
pub proof fn lemma_frame_without_room(receiver: LwPktView, p: PackageView)
    requires
        receiver.buffered.len() <= receiver.rx_capacity,
        receiver.kept.len() + p.data.len() + FRAME_OVERHEAD > receiver.room(),
    ensures
        receiver.rejects(frame(p)),
        receiver.with_arrived(frame(p)).kept.len() > 0,
        receiver.with_arrived(frame(p)).decoder == receiver.decoder,
        receiver.with_arrived(frame(p)).inbound() == receiver.inbound() + frame(p),
        receiver.with_arrived(frame(p)).buffered.len() == receiver.rx_capacity,
{
    lemma_frame_len(p);
    crate::codec::lemma_arrival_keeps_bytes(receiver, frame(p));
}

/// A frame at the head of a stream decodes to its packet, and the batch
/// goes on behind it.
pub proof fn lemma_frame_decodes(p: PackageView, rest: Seq<u8>, have: bool)
    requires
        p.data.len() <= MAX_DATA_LEN,
    ensures
        poll(DecoderState::idle(), frame(p) + rest, have) == (Poll {
            dec: DecoderState::idle(),
            used: frame(p).len(),
            stop: Stop::Packet(p),
        }),
        batch(DecoderState::idle(), frame(p) + rest, have) == batch(
            DecoderState::idle(),
            rest,
            true,
        ).after(seq![p], frame(p).len()),
{
    lemma_round_trip(p, have);
    lemma_poll_concat(DecoderState::idle(), frame(p), rest, have);
    lemma_batch_by_poll(DecoderState::idle(), frame(p) + rest, have);
    assert((frame(p) + rest).skip(frame(p).len() as int) =~= rest);
}

/// Batch decoding: from between frames, the frames of the packets `ps`
/// followed by any bytes `tail` decode to `ps`, in order, and then to
/// whatever `tail` decodes to.
pub proof fn lemma_batch_of_frames(ps: Seq<PackageView>, tail: Seq<u8>, have: bool)
    requires
        forall|i: int| 0 <= i < ps.len() ==> (#[trigger] ps[i]).data.len() <= MAX_DATA_LEN,
    ensures
        batch(DecoderState::idle(), frames(ps) + tail, have) == batch(
            DecoderState::idle(),
            tail,
            have || ps.len() > 0,
        ).after(ps, frames(ps).len()),
    decreases ps.len(),
{
    let idle = DecoderState::idle();
    if ps.len() == 0 {
        assert(frames(ps) + tail =~= tail);
        let r = batch(idle, tail, have);
        assert(ps + r.packets =~= r.packets);
    } else {
        let rest = ps.skip(1);
        assert forall|i: int| 0 <= i < rest.len() implies (#[trigger] rest[i]).data.len()
            <= MAX_DATA_LEN by {
            assert(rest[i] == ps[i + 1]);
        }
        lemma_batch_of_frames(rest, tail, true);
        lemma_frame_decodes(ps[0], frames(rest) + tail, have);
        assert(frames(ps) + tail =~= frame(ps[0]) + (frames(rest) + tail));
        let r = batch(idle, tail, true);
        assert(seq![ps[0]] + (rest + r.packets) =~= ps + r.packets);
    }
}

/// The beginning of a frame is retained: from between frames, a proper
/// prefix of a frame is consumed whole, nothing comes about, and the batch
/// finds no packet and no failure. By [`lemma_poll_concat`] the decoder then
/// goes on in the bytes that follow as if the frame had come in one piece.
pub proof fn lemma_partial_frame_waits(p: PackageView, n: int, have: bool)
    requires
        p.data.len() <= MAX_DATA_LEN,
        0 <= n < frame(p).len(),
    ensures
        poll(DecoderState::idle(), frame(p).take(n), have).stop is Exhausted,
        poll(DecoderState::idle(), frame(p).take(n), have).used == n,
        batch(DecoderState::idle(), frame(p).take(n), have) == (Batch {
            dec: poll(DecoderState::idle(), frame(p).take(n), have).dec,
            packets: Seq::empty(),
            used: n as nat,
            fault: None,
        }),
{
    let idle = DecoderState::idle();
    let f = frame(p);
    let a = f.take(n);
    let b = f.skip(n);
    assert(a + b =~= f);
    lemma_round_trip(p, have);
    lemma_poll_concat(idle, a, b, have);
    lemma_poll_bounds(idle, a, have);
    lemma_batch_by_poll(idle, a, have);
}

/// Batch decoding with a frame under way at the end: from between frames,
/// the frames of the packets `ps` followed by a proper prefix of the frame of
/// `q` decode to exactly `ps`, in order and without a failure; every byte is
/// consumed, and the decoder holds the beginning of the frame of `q`.
pub proof fn lemma_batch_keeps_partial(ps: Seq<PackageView>, q: PackageView, n: int)
    requires
        forall|i: int| 0 <= i < ps.len() ==> (#[trigger] ps[i]).data.len() <= MAX_DATA_LEN,
        q.data.len() <= MAX_DATA_LEN,
        0 <= n < frame(q).len(),
    ensures
        batch(DecoderState::idle(), frames(ps) + frame(q).take(n), false) == (Batch {
            dec: poll(DecoderState::idle(), frame(q).take(n), false).dec,
            packets: ps,
            used: frames(ps).len() + n as nat,
            fault: None,
        }),
        poll(
            poll(DecoderState::idle(), frame(q).take(n), false).dec,
            frame(q).skip(n),
            false,
        ) == (Poll {
            dec: DecoderState::idle(),
            used: (frame(q).len() - n) as nat,
            stop: Stop::Packet(q),
        }),
{
    let idle = DecoderState::idle();
    let part = frame(q).take(n);
    lemma_batch_of_frames(ps, part, false);
    lemma_partial_frame_waits(q, n, false);
    lemma_partial_frame_waits(q, n, ps.len() > 0);
    lemma_hold_matters_at_failure(idle, part, false);
    assert(ps + Seq::<PackageView>::empty() =~= ps);
    lemma_poll_concat(idle, part, frame(q).skip(n), false);
    assert(part + frame(q).skip(n) =~= frame(q));
    lemma_round_trip(q, false);
}

/// Chunk-boundary transparency: a poll that is fed piece by piece makes of
/// the pieces what a poll makes of their bytes in one piece.
pub proof fn lemma_pieces_transparent(d: DecoderState, chunks: Seq<Seq<u8>>, hold: bool)
    ensures
        poll_pieces(d, chunks, hold) == poll(d, joined(chunks), hold),
    decreases chunks.len(),
{
    if chunks.len() > 0 {
        let p = poll(d, chunks[0], hold);
        lemma_poll_concat(d, chunks[0], joined(chunks.skip(1)), hold);
        if p.stop is Exhausted {
            lemma_pieces_transparent(p.dec, chunks.skip(1), hold);
        }
    }
}

/// Chunk-boundary transparency for a frame: however the frame of a packet
/// is cut into pieces, the decoder, fed piece by piece from between frames,
/// makes of them that packet.
pub proof fn lemma_split_frame_decodes(p: PackageView, chunks: Seq<Seq<u8>>, hold: bool)
    requires
        p.data.len() <= MAX_DATA_LEN,
        joined(chunks) == frame(p),
    ensures
        poll_pieces(DecoderState::idle(), chunks, hold) == (Poll {
            dec: DecoderState::idle(),
            used: frame(p).len(),
            stop: Stop::Packet(p),
        }),
{
    lemma_pieces_transparent(DecoderState::idle(), chunks, hold);
    lemma_round_trip(p, hold);
}

/// Corruption: if one byte of the payload or the checksum of a frame is
/// replaced by another value, the decoder, from between frames, reports
/// `ErrorCRC` at the checksum byte, finds no packet, and is between frames
/// again. Only the stop byte of the damaged frame is left, which the decoder
/// skips (see [`lemma_noise_skipped`]) on its way to the next start byte.
pub proof fn lemma_corruption_detected(p: PackageView, i: int, b: u8, rest: Seq<u8>)
    requires
        p.data.len() <= MAX_DATA_LEN,
        1 + HEADER_LEN <= i <= 1 + HEADER_LEN + p.data.len(),
        b != frame(p)[i],
    ensures
        poll(DecoderState::idle(), frame(p).update(i, b) + rest, false) == (Poll {
            dec: DecoderState::idle(),
            used: (frame(p).len() - 1) as nat,
            stop: Stop::Fault(Error::ErrorCRC),
        }),
        batch(DecoderState::idle(), frame(p).update(i, b) + rest, false) == (Batch {
            dec: DecoderState::idle(),
            packets: Seq::empty(),
            used: (frame(p).len() - 1) as nat,
            fault: Some(Error::ErrorCRC),
        }),
        (frame(p).update(i, b) + rest).skip(frame(p).len() - 1) == seq![STOP_BYTE] + rest,
{
    let idle = DecoderState::idle();
    let h = header(p.from, p.to, p.cmd, p.data.len());
    let crc = crc8(frame_body(p));
    let bad = frame(p).update(i, b);
    lemma_frame_len(p);
    lemma_header_fields(p.from, p.to, p.cmd, p.data.len());
    let j = i - 1 - HEADER_LEN;
    let data = if j < p.data.len() {
        p.data.update(j, b)
    } else {
        p.data
    };
    let sum = if j < p.data.len() {
        crc
    } else {
        b
    };
    let tail = seq![sum, STOP_BYTE] + rest;
    assert(bad + rest =~= seq![START_BYTE] + (header(p.from, p.to, p.cmd, data.len()) + data)
        + tail);
    lemma_reaches_checksum(p.from, p.to, p.cmd, data, tail, false);
    let d2 = within(Phase::Checksum, h, data);
    assert(tail[0] == sum);
    if j < p.data.len() {
        assert(frame(p)[i] == p.data[j]);
        assert(frame_body(p)[HEADER_LEN + j] == p.data[j]);
        lemma_crc8_detects_byte(frame_body(p), HEADER_LEN + j, b);
        assert(frame_body(p).update(HEADER_LEN + j, b) =~= h + data);
    } else {
        assert(frame(p)[i] == crc);
        assert(h + data =~= frame_body(p));
    }
    assert(sum != crc8(h + data));
    assert(emit(d2, tail[0]) == Some(crate::decoder::Event::Fault(Error::ErrorCRC)));
    assert(next(d2, tail[0]) == idle);
    lemma_batch_by_poll(idle, bad + rest, false);
    assert((bad + rest).skip(frame(p).len() - 1) =~= seq![STOP_BYTE] + rest);
}

/// Corruption by one bit: if one bit of the payload or the checksum of a
/// frame is flipped, the decoder reports `ErrorCRC` once, as in
/// [`lemma_corruption_detected`].
pub proof fn lemma_bit_flip_detected(p: PackageView, i: int, k: u8, rest: Seq<u8>)
    requires
        p.data.len() <= MAX_DATA_LEN,
        1 + HEADER_LEN <= i <= 1 + HEADER_LEN + p.data.len(),
        k < 8,
    ensures
        batch(
            DecoderState::idle(),
            frame(p).update(i, frame(p)[i] ^ (1u8 << k)) + rest,
            false,
        ) == (Batch {
            dec: DecoderState::idle(),
            packets: Seq::empty(),
            used: (frame(p).len() - 1) as nat,
            fault: Some(Error::ErrorCRC),
        }),
{
    lemma_bit_flip_changes(frame(p)[i], k);
    lemma_corruption_detected(p, i, frame(p)[i] ^ (1u8 << k), rest);
}

/// Idempotence: where nothing is buffered or kept and nothing arrives, a
/// step of reading changes nothing in the codec, and reports `WaitData`, or
/// `ErrorClosedRaw` if the raw side is gone.
pub proof fn lemma_nothing_new(v: LwPktView, r: Result<StatusView, Error>, after: LwPktView)
    requires
        v.buffered.len() == 0,
        v.kept.len() == 0,
        v.read_one_outcome(Seq::empty(), r, after),
    ensures
        after == v,
        r == Ok::<StatusView, Error>(StatusView::WaitData) || r == Err::<StatusView, Error>(
            Error::ErrorClosedRaw,
        ),
{
    let w = v.with_arrived(Seq::empty());
    assert(w.buffered =~= v.buffered);
    assert(w.kept =~= v.kept);
    assert(w.buffered.skip(0) =~= w.buffered);
}

} // verus!
