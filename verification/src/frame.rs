//! Packets and their encoding as frames.
//!
//! A frame is, in this order: the start byte; the sender's address; the
//! receiver's address; the command, four bytes, lowest first; the length of
//! the payload, two bytes, lowest first; the payload; the CRC-8 of all bytes
//! between the start byte and the checksum; the stop byte.
use crate::crc::{crc8, crc8_step, lemma_crc8_push};
use crate::error::Error;
use vstd::prelude::*;

verus! {

/// The byte that opens a frame.
pub const START_BYTE: u8 = 0xAA;

/// The byte that closes a frame.
pub const STOP_BYTE: u8 = 0x55;

/// The largest payload, in bytes, that a packet can carry.
pub const MAX_DATA_LEN: usize = 256;

/// The number of bytes between the start byte and the payload.
pub const HEADER_LEN: usize = 8;

/// The number of bytes of a frame besides its payload.
pub const FRAME_OVERHEAD: usize = 11;

/// The length of the longest frame.
pub const MAX_FRAME_LEN: usize = MAX_DATA_LEN + FRAME_OVERHEAD;

/// A message: a command, the addresses of its sender and its receiver, and a
/// payload of at most [`MAX_DATA_LEN`] bytes.
#[derive(Debug, PartialEq, Eq)]
pub struct Package {
    pub cmd: u32,
    pub from: u8,
    pub to: u8,
    pub data: Vec<u8>,
}

/// A packet as a mathematical value.
pub struct PackageView {
    pub cmd: u32,
    pub from: u8,
    pub to: u8,
    pub data: Seq<u8>,
}

impl View for Package {
    type V = PackageView;

    open spec fn view(&self) -> PackageView {
        PackageView { cmd: self.cmd, from: self.from, to: self.to, data: self.data@ }
    }
}

/// The packets of a sequence as mathematical values.
pub open spec fn views(s: Seq<Package>) -> Seq<PackageView> {
    s.map_values(|p: Package| p@)
}

/// Whether the payload of `p` is within the limit, as that of every packet
/// is that a codec sends or decodes.
pub open spec fn fits(p: PackageView) -> bool {
    p.data.len() <= MAX_DATA_LEN
}

/// Whether the payload of each of the packets `ps` is within the limit.
pub open spec fn all_fit(ps: Seq<PackageView>) -> bool {
    forall|i: int| 0 <= i < ps.len() ==> fits(#[trigger] ps[i])
}

/// The header of a frame that carries `len` bytes of payload.
pub open spec fn header(from: u8, to: u8, cmd: u32, len: nat) -> Seq<u8> {
    seq![
        from,
        to,
        (cmd % 256) as u8,
        (cmd / 256 % 256) as u8,
        (cmd / 65536 % 256) as u8,
        (cmd / 16777216) as u8,
        (len % 256) as u8,
        (len / 256 % 256) as u8,
    ]
}

/// The command that a header holds.
pub open spec fn header_cmd(h: Seq<u8>) -> u32 {
    (h[2] + 256 * h[3] + 65536 * h[4] + 16777216 * h[5]) as u32
}

/// The payload length that a header announces.
pub open spec fn header_len(h: Seq<u8>) -> nat {
    (h[6] + 256 * h[7]) as nat
}

/// The packet that a header and a payload make.
pub open spec fn assemble(h: Seq<u8>, data: Seq<u8>) -> PackageView {
    PackageView { cmd: header_cmd(h), from: h[0], to: h[1], data: data }
}

/// The bytes of a frame over which its checksum is computed.
pub open spec fn frame_body(p: PackageView) -> Seq<u8> {
    header(p.from, p.to, p.cmd, p.data.len()) + p.data
}

/// The frame of a packet.
pub open spec fn frame(p: PackageView) -> Seq<u8> {
    seq![START_BYTE] + frame_body(p) + seq![crc8(frame_body(p)), STOP_BYTE]
}

/// The packet `p` as the codec with the address `from` sends it: the
/// packet's own sender field gives way to the codec's address.
pub open spec fn stamped(p: PackageView, from: u8) -> PackageView {
    PackageView { cmd: p.cmd, from: from, to: p.to, data: p.data }
}

/// A header gives back the fields that it was made of.
pub proof fn lemma_header_fields(from: u8, to: u8, cmd: u32, len: nat)
    requires
        len < 65536,
    ensures
        header(from, to, cmd, len).len() == HEADER_LEN,
        header_cmd(header(from, to, cmd, len)) == cmd,
        header_len(header(from, to, cmd, len)) == len,
        header(from, to, cmd, len)[0] == from,
        header(from, to, cmd, len)[1] == to,
{
}

/// A frame is its payload and eleven bytes more.
pub proof fn lemma_frame_len(p: PackageView)
    ensures
        frame_body(p).len() == p.data.len() + HEADER_LEN,
        frame(p).len() == p.data.len() + FRAME_OVERHEAD,
{
}

/// The frame of `package` as a codec with the address `from` sends it.
/// Fails with `ErrorMem` if the payload is longer than [`MAX_DATA_LEN`].
pub fn encode(package: &Package, from: u8) -> (r: Result<Vec<u8>, Error>)
    ensures
        package.data@.len() > MAX_DATA_LEN ==> r == Err::<Vec<u8>, Error>(Error::ErrorMem),
        package.data@.len() <= MAX_DATA_LEN ==> (r matches Ok(out) && out@ == frame(
            stamped(package@, from),
        )),
{
    if package.data.len() > MAX_DATA_LEN {
        return Err(Error::ErrorMem);
    }
    let ghost p = stamped(package@, from);
    let cmd = package.cmd;
    let len = package.data.len();
    let mut out: Vec<u8> = Vec::new();
    out.push(START_BYTE);
    out.push(from);
    out.push(package.to);
    out.push((cmd % 256) as u8);
    out.push((cmd / 256 % 256) as u8);
    out.push((cmd / 65536 % 256) as u8);
    out.push((cmd / 16777216) as u8);
    out.push((len % 256) as u8);
    out.push((len / 256 % 256) as u8);
    assert(out@.skip(1) =~= header(p.from, p.to, p.cmd, p.data.len()));
    let mut crc: u8 = 0;
    let mut k: usize = 1;
    while k < 9
        invariant
            1 <= k <= 9,
            out@.len() == 9,
            crc == crc8(out@.subrange(1, k as int)),
        decreases 9 - k,
    {
        proof {
            lemma_crc8_push(out@.subrange(1, k as int), out@[k as int]);
            assert(out@.subrange(1, k as int).push(out@[k as int]) =~= out@.subrange(1, k + 1));
        }
        crc = crc8_step(crc, out[k]);
        k = k + 1;
    }
    assert(out@.subrange(1, 9) =~= out@.skip(1));
    let mut i: usize = 0;
    while i < len
        invariant
            i <= len,
            len == package.data@.len(),
            out@ == seq![START_BYTE] + header(p.from, p.to, p.cmd, p.data.len()) + p.data.take(
                i as int,
            ),
            p.data == package.data@,
            crc == crc8(out@.skip(1)),
        decreases len - i,
    {
        let b = package.data[i];
        proof {
            lemma_crc8_push(out@.skip(1), b);
            assert(out@.push(b).skip(1) =~= out@.skip(1).push(b));
            assert(p.data.take(i as int).push(b) =~= p.data.take(i + 1));
        }
        crc = crc8_step(crc, b);
        out.push(b);
        i = i + 1;
    }
    assert(p.data.take(len as int) =~= p.data);
    assert(out@.skip(1) =~= frame_body(p));
    out.push(crc);
    out.push(STOP_BYTE);
    assert(out@ =~= frame(p));
    Ok(out)
}

} // verus!
