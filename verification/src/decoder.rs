//! The decoder: a state machine that takes one byte at a time and finds the
//! frames in a stream of bytes.
//!
//! Between frames it waits for a start byte and skips everything else. Inside
//! a frame it collects the header, then as many payload bytes as the header
//! announces, then compares the checksum, then expects the stop byte. A frame
//! that fails is given up at the byte that shows the failure, and the decoder
//! waits for the next start byte.
use crate::crc::{crc8, crc8_step, lemma_crc8_push};
use crate::error::Error;
use crate::frame::{
    assemble, fits, header_len, Package, PackageView, HEADER_LEN, MAX_DATA_LEN, START_BYTE,
    STOP_BYTE,
};
use vstd::prelude::*;

verus! {

/// Where in a frame the decoder is.
#[derive(Debug, PartialEq, Eq, Clone, Copy, Structural)]
pub enum Phase {
    /// Between frames, waiting for a start byte.
    Idle,
    /// Collecting the header.
    Header,
    /// Collecting the payload.
    Data,
    /// Expecting the checksum.
    Checksum,
    /// Expecting the stop byte.
    Stop,
}

/// The state of the decoder as a mathematical value: the phase, and the
/// header and payload bytes of the frame under way.
pub struct DecoderState {
    pub phase: Phase,
    pub header: Seq<u8>,
    pub data: Seq<u8>,
}

/// What a byte can bring about: a packet, or the failure of a frame.
pub enum Event {
    Packet(PackageView),
    Fault(Error),
}

impl DecoderState {
    /// The state between frames.
    pub open spec fn idle() -> DecoderState {
        DecoderState { phase: Phase::Idle, header: Seq::empty(), data: Seq::empty() }
    }

    /// The states that the decoder can be in.
    pub open spec fn wf(self) -> bool {
        match self.phase {
            Phase::Idle => self.header.len() == 0 && self.data.len() == 0,
            Phase::Header => self.header.len() < HEADER_LEN && self.data.len() == 0,
            Phase::Data => {
                &&& self.header.len() == HEADER_LEN
                &&& header_len(self.header) <= MAX_DATA_LEN
                &&& self.data.len() < header_len(self.header)
            },
            Phase::Checksum | Phase::Stop => {
                &&& self.header.len() == HEADER_LEN
                &&& header_len(self.header) <= MAX_DATA_LEN
                &&& self.data.len() == header_len(self.header)
            },
        }
    }
}

/// The state after the byte `b`.
pub open spec fn next(d: DecoderState, b: u8) -> DecoderState {
    match d.phase {
        Phase::Idle => if b == START_BYTE {
            DecoderState { phase: Phase::Header, header: Seq::empty(), data: Seq::empty() }
        } else {
            d
        },
        Phase::Header => {
            let h = d.header.push(b);
            if h.len() < HEADER_LEN {
                DecoderState { phase: Phase::Header, header: h, data: d.data }
            } else if header_len(h) > MAX_DATA_LEN {
                DecoderState::idle()
            } else if header_len(h) == 0 {
                DecoderState { phase: Phase::Checksum, header: h, data: d.data }
            } else {
                DecoderState { phase: Phase::Data, header: h, data: d.data }
            }
        },
        Phase::Data => {
            let data = d.data.push(b);
            if data.len() < header_len(d.header) {
                DecoderState { phase: Phase::Data, header: d.header, data: data }
            } else {
                DecoderState { phase: Phase::Checksum, header: d.header, data: data }
            }
        },
        Phase::Checksum => if b == crc8(d.header + d.data) {
            DecoderState { phase: Phase::Stop, header: d.header, data: d.data }
        } else {
            DecoderState::idle()
        },
        Phase::Stop => DecoderState::idle(),
    }
}

/// What the byte `b` brings about in the state `d`: nothing, a packet, or
/// the failure of the frame under way.
///
/// A header that announces more than [`MAX_DATA_LEN`] bytes fails with
/// `ErrorMem` at its last byte; a wrong checksum fails with `ErrorCRC` at the
/// checksum byte; a wrong stop byte fails with `ErrStop`.
pub open spec fn emit(d: DecoderState, b: u8) -> Option<Event> {
    match d.phase {
        Phase::Idle => None,
        Phase::Header => if d.header.len() + 1 >= HEADER_LEN && header_len(d.header.push(b))
            > MAX_DATA_LEN {
            Some(Event::Fault(Error::ErrorMem))
        } else {
            None
        },
        Phase::Data => None,
        Phase::Checksum => if b == crc8(d.header + d.data) {
            None
        } else {
            Some(Event::Fault(Error::ErrorCRC))
        },
        Phase::Stop => if b == STOP_BYTE {
            Some(Event::Packet(assemble(d.header, d.data)))
        } else {
            Some(Event::Fault(Error::ErrStop))
        },
    }
}

/// Whether the byte `b` makes the frame under way fail.
pub open spec fn faults(d: DecoderState, b: u8) -> bool {
    emit(d, b) matches Some(Event::Fault(_))
}

/// Every byte leads from a state of the decoder to a state of the decoder.
pub proof fn lemma_next_wf(d: DecoderState, b: u8)
    requires
        d.wf(),
    ensures
        next(d, b).wf(),
{
}

/// A packet that comes about carries a payload within the limit.
pub proof fn lemma_emit_fits(d: DecoderState, b: u8)
    requires
        d.wf(),
    ensures
        emit(d, b) matches Some(Event::Packet(p)) ==> fits(p),
{
}

/// What the decoder hands out for a byte.
pub enum Signal {
    Packet(Package),
    Fault(Error),
}

impl View for Signal {
    type V = Event;

    open spec fn view(&self) -> Event {
        match self {
            Signal::Packet(p) => Event::Packet(p@),
            Signal::Fault(e) => Event::Fault(*e),
        }
    }
}

/// What an optional signal stands for.
pub open spec fn signal_view(s: Option<Signal>) -> Option<Event> {
    match s {
        Some(x) => Some(x@),
        None => None,
    }
}

/// The decoder.
pub struct Decoder {
    phase: Phase,
    header: Vec<u8>,
    data: Vec<u8>,
    crc: u8,
}

impl View for Decoder {
    type V = DecoderState;

    closed spec fn view(&self) -> DecoderState {
        DecoderState { phase: self.phase, header: self.header@, data: self.data@ }
    }
}

impl Decoder {
    /// The decoder is in one of its states, and the checksum that it keeps
    /// is that of the bytes collected.
    pub closed spec fn wf(&self) -> bool {
        &&& self@.wf()
        &&& self.crc == crc8(self.header@ + self.data@)
    }

    /// A decoder that is in order is in one of the states of the decoder.
    pub proof fn lemma_wf_state(&self)
        requires
            self.wf(),
        ensures
            self@.wf(),
    {
    }

    /// A decoder between frames.
    pub fn new() -> (d: Decoder)
        ensures
            d.wf(),
            d@ == DecoderState::idle(),
    {
        let d = Decoder { phase: Phase::Idle, header: Vec::new(), data: Vec::new(), crc: 0 };
        assert(d.header@ + d.data@ =~= Seq::<u8>::empty());
        d
    }

    /// The phase that the decoder is in.
    pub fn phase(&self) -> (p: Phase)
        ensures
            p == self@.phase,
    {
        self.phase
    }

    /// Whether the decoder is between frames.
    pub fn is_idle(&self) -> (r: bool)
        ensures
            r == (self@.phase == Phase::Idle),
    {
        match self.phase {
            Phase::Idle => true,
            _ => false,
        }
    }

    fn announced(&self) -> (n: usize)
        requires
            self.header@.len() == HEADER_LEN,
        ensures
            n == header_len(self.header@),
    {
        let lo: usize = self.header[6] as usize;
        let hi: usize = self.header[7] as usize;
        lo + 256 * hi
    }

    fn give_up(&mut self)
        ensures
            final(self).wf(),
            final(self)@ == DecoderState::idle(),
    {
        self.phase = Phase::Idle;
        self.header.clear();
        self.data.clear();
        self.crc = 0;
        assert(self.header@ + self.data@ =~= Seq::<u8>::empty());
    }

    /// Whether the byte `b`, if it came next, would make the frame under way
    /// fail. The decoder does not change.
    pub fn faults_on(&self, b: u8) -> (r: bool)
        requires
            self.wf(),
        ensures
            r == faults(self@, b),
    {
        match self.phase {
            Phase::Idle => false,
            Phase::Header => {
                if self.header.len() + 1 == HEADER_LEN {
                    let lo: usize = self.header[6] as usize;
                    let hi: usize = b as usize;
                    assert(self.header@.push(b)[6] == self.header@[6]);
                    lo + 256 * hi > MAX_DATA_LEN
                } else {
                    false
                }
            },
            Phase::Data => false,
            Phase::Checksum => b != self.crc,
            Phase::Stop => b != STOP_BYTE,
        }
    }

    /// Takes the byte `b` and says what it brought about.
    pub fn push(&mut self, b: u8) -> (out: Option<Signal>)
        requires
            old(self).wf(),
        ensures
            final(self).wf(),
            final(self)@ == next(old(self)@, b),
            signal_view(out) == emit(old(self)@, b),
            out matches Some(Signal::Packet(p)) ==> p.data@.len() <= MAX_DATA_LEN,
    {
        match self.phase {
            Phase::Idle => {
                if b == START_BYTE {
                    self.phase = Phase::Header;
                }
                assert(self.header@ =~= Seq::<u8>::empty() && self.data@ =~= Seq::<u8>::empty());
                None
            },
            Phase::Header => {
                proof {
                    lemma_crc8_push(self.header@ + self.data@, b);
                    assert((self.header@ + self.data@).push(b) =~= self.header@.push(b)
                        + self.data@);
                }
                self.header.push(b);
                self.crc = crc8_step(self.crc, b);
                if self.header.len() < HEADER_LEN {
                    None
                } else {
                    let n = self.announced();
                    if n > MAX_DATA_LEN {
                        self.give_up();
                        Some(Signal::Fault(Error::ErrorMem))
                    } else if n == 0 {
                        self.phase = Phase::Checksum;
                        None
                    } else {
                        self.phase = Phase::Data;
                        None
                    }
                }
            },
            Phase::Data => {
                proof {
                    lemma_crc8_push(self.header@ + self.data@, b);
                    assert((self.header@ + self.data@).push(b) =~= self.header@ + self.data@.push(
                        b,
                    ));
                }
                self.data.push(b);
                self.crc = crc8_step(self.crc, b);
                let n = self.announced();
                if self.data.len() >= n {
                    self.phase = Phase::Checksum;
                }
                None
            },
            Phase::Checksum => {
                if b == self.crc {
                    self.phase = Phase::Stop;
                    None
                } else {
                    self.give_up();
                    Some(Signal::Fault(Error::ErrorCRC))
                }
            },
            Phase::Stop => {
                if b == STOP_BYTE {
                    let c0: u32 = self.header[2] as u32;
                    let c1: u32 = self.header[3] as u32;
                    let c2: u32 = self.header[4] as u32;
                    let c3: u32 = self.header[5] as u32;
                    let mut data: Vec<u8> = Vec::new();
                    core::mem::swap(&mut data, &mut self.data);
                    let p = Package {
                        cmd: c0 + 256 * c1 + 65536 * c2 + 16777216 * c3,
                        from: self.header[0],
                        to: self.header[1],
                        data: data,
                    };
                    assert(p@ == assemble(old(self)@.header, old(self)@.data));
                    self.give_up();
                    Some(Signal::Packet(p))
                } else {
                    self.give_up();
                    Some(Signal::Fault(Error::ErrStop))
                }
            },
        }
    }
}

} // verus!
