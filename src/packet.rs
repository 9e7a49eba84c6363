//! Packets as they come off the wire, and the framer that cuts them out of
//! the received bytes.

use vstd::prelude::*;
use crate::parser::{ByteReader, ParsingError, VarScan, var_scan, var_value, var_encoding, lemma_var_scan_len,
    lemma_varint_round_trip,
    read_varint, read_varint_and_get_size, read_exact_bytes};

verus! {

/// The packet types known by name. The wire carries the numeric id.
#[derive(Clone, Copy, Debug, PartialEq, Eq, PartialOrd, Ord, Hash, Structural)]
pub enum PacketType {
    Handshake,
}

impl PacketType {
    /// The numeric id of the packet type on the wire.
    pub open spec fn spec_id(self) -> u32 {
        match self {
            PacketType::Handshake => 0,
        }
    }

    /// The numeric id of the packet type on the wire.
    pub fn id(self) -> (r: u32)
        ensures
            r == self.spec_id(),
    {
        match self {
            PacketType::Handshake => 0,
        }
    }
}

/// One decoded frame: its declared length, its packet id and the bytes after
/// the id. The payload is the declared length less the id's encoded size.
#[derive(Debug, PartialEq, Eq)]
pub struct RawPacket {
    pub size_in_bytes: u32,
    pub packet_id: u32,
    pub payload: Vec<u8>,
}

/// Why no frame could be cut.
#[derive(Debug)]
pub enum FrameError {
    /// A field could not be decoded; `UnexpectedEof` means more bytes are needed.
    Parsing(ParsingError),
    /// The declared length is smaller than the packet id's own encoding.
    LengthUnderflow,
}

/// Outcome of cutting a frame from the front of a byte sequence.
pub enum FrameScan {
    /// A whole frame, and the number of bytes it takes with its length prefix.
    Packet { size: nat, id: nat, payload: Seq<u8>, used: nat },
    /// The bytes end inside the frame.
    Incomplete,
    /// The length or the id is too long a VarInt.
    TooBig,
    /// The declared length is smaller than the id's encoding.
    Underflow,
}

/// Cuts one frame `VarInt(length) || VarInt(packet id) || payload` from the
/// front of `s`, where `length` counts the id's encoding and the payload.
pub open spec fn frame_scan(s: Seq<u8>) -> FrameScan {
    match var_scan(s, 5) {
        VarScan::Truncated => FrameScan::Incomplete,
        VarScan::Overlong => FrameScan::TooBig,
        VarScan::Complete(n1) => {
            let len = var_value(s, n1) % 0x1_0000_0000;
            let t = s.skip(n1 as int);
            match var_scan(t, 5) {
                VarScan::Truncated => FrameScan::Incomplete,
                VarScan::Overlong => FrameScan::TooBig,
                VarScan::Complete(n2) => {
                    let id = var_value(t, n2) % 0x1_0000_0000;
                    if len < n2 {
                        FrameScan::Underflow
                    } else if len <= t.len() {
                        FrameScan::Packet {
                            size: len,
                            id,
                            payload: t.subrange(n2 as int, len as int),
                            used: n1 + len,
                        }
                    } else {
                        FrameScan::Incomplete
                    }
                },
            }
        },
    }
}

/// The canonical encoding of a frame with packet id `id` and `payload`.
pub open spec fn frame_encoding(id: u32, payload: Seq<u8>) -> Seq<u8> {
    var_encoding(var_encoding(id as nat).len() + payload.len()) + var_encoding(id as nat) + payload
}

/// A canonically encoded frame, whatever follows it, is cut whole: its length
/// counts the id's encoding and the payload, and the payload comes back as it was.
pub proof fn lemma_frame_round_trip(id: u32, payload: Seq<u8>, rest: Seq<u8>)
    requires
        var_encoding(id as nat).len() + payload.len() < 0x1_0000_0000,
    ensures
        frame_scan(frame_encoding(id, payload) + rest) == (FrameScan::Packet {
            size: var_encoding(id as nat).len() + payload.len(),
            id: id as nat,
            payload,
            used: frame_encoding(id, payload).len(),
        }),
{
    let e_id = var_encoding(id as nat);
    let len = (e_id.len() + payload.len()) as u32;
    let e_len = var_encoding(len as nat);
    let tail = e_id + payload + rest;
    let s = frame_encoding(id, payload) + rest;
    assert(s =~= e_len + tail);
    lemma_varint_round_trip(len, tail);
    assert(s.skip(e_len.len() as int) =~= tail);
    lemma_varint_round_trip(id, payload + rest);
    assert(tail =~= e_id + (payload + rest));
    assert(tail.subrange(e_id.len() as int, len as int) =~= payload);
}

/// A frame whose declared length is smaller than the encoding of its packet
/// id is rejected as an underflow, whatever follows the id.
pub proof fn lemma_frame_underflow(length: u32, id: u32, rest: Seq<u8>)
    requires
        length < var_encoding(id as nat).len(),
    ensures
        frame_scan(var_encoding(length as nat) + var_encoding(id as nat) + rest) == FrameScan::Underflow,
{
    let e_len = var_encoding(length as nat);
    let tail = var_encoding(id as nat) + rest;
    let s = e_len + var_encoding(id as nat) + rest;
    assert(s =~= e_len + tail);
    lemma_varint_round_trip(length, tail);
    assert(s.skip(e_len.len() as int) =~= tail);
    lemma_varint_round_trip(id, rest);
}

/// Cuts frames from the bytes received on one connection, in order.
pub struct PacketHandler {
    reader: ByteReader,
}

impl View for PacketHandler {
    type V = Seq<u8>;

    /// The bytes received and not yet cut into frames.
    closed spec fn view(&self) -> Seq<u8> {
        self.reader@
    }
}

impl PacketHandler {
    /// The handler's buffer is well formed.
    pub closed spec fn wf(&self) -> bool {
        self.reader.wf()
    }

    /// A framer whose pending bytes are `received`.
    pub fn new(received: Vec<u8>) -> (h: PacketHandler)
        ensures
            h.wf(),
            h@ == received@,
    {
        PacketHandler { reader: ByteReader::new(received) }
    }

    /// Number of bytes received and not yet cut into frames.
    pub fn pending(&self) -> (n: usize)
        requires
            self.wf(),
        ensures
            n == self@.len(),
    {
        self.reader.remaining()
    }

    /// Appends bytes received from the peer.
    pub fn receive(&mut self, bytes: &[u8])
        requires
            old(self).wf(),
        ensures
            final(self).wf(),
            final(self)@ == old(self)@ + bytes@,
    {
        self.reader.compact();
        self.reader.extend(bytes);
    }

    /// Cuts the next frame. A frame is taken whole or not at all: on any
    /// failure the pending bytes stay as they were, and a missing byte is
    /// reported as `UnexpectedEof`, so that the caller may wait for more.
    pub fn next_packet(&mut self) -> (res: Result<RawPacket, FrameError>)
        requires
            old(self).wf(),
        ensures
            final(self).wf(),
            match frame_scan(old(self)@) {
                FrameScan::Packet { size, id, payload, used } => res matches Ok(p)
                    && p.size_in_bytes == size && p.packet_id == id && p.payload@ == payload
                    && final(self)@ == old(self)@.skip(used as int),
                FrameScan::Incomplete => res matches Err(FrameError::Parsing(ParsingError::UnexpectedEof))
                    && final(self)@ == old(self)@,
                FrameScan::TooBig => res matches Err(FrameError::Parsing(ParsingError::VarIntTooBig))
                    && final(self)@ == old(self)@,
                FrameScan::Underflow => res matches Err(FrameError::LengthUnderflow)
                    && final(self)@ == old(self)@,
            },
    {
        let ghost s = self@;
        let mark = self.reader.position();
        let attempt = &mut self.reader;
        proof {
            lemma_var_scan_len(s, 5);
        }
        let length = match read_varint(attempt) {
            Ok(v) => v,
            Err(e) => {
                attempt.rewind(mark);
                return Err(FrameError::Parsing(e));
            },
        };
        let ghost n1: nat = match var_scan(s, 5) { VarScan::Complete(k) => k, _ => 0 };
        let ghost t = s.skip(n1 as int);
        proof {
            lemma_var_scan_len(t, 5);
        }
        let (packet_id, packet_id_size) = match read_varint_and_get_size(attempt) {
            Ok(v) => v,
            Err(e) => {
                attempt.rewind(mark);
                return Err(FrameError::Parsing(e));
            },
        };
        if length < packet_id_size {
            attempt.rewind(mark);
            return Err(FrameError::LengthUnderflow);
        }
        let data_length = length - packet_id_size;
        let ghost n2 = packet_id_size as nat;
        let payload = match read_exact_bytes(attempt, data_length as usize) {
            Ok(p) => p,
            Err(e) => {
                attempt.rewind(mark);
                return Err(FrameError::Parsing(e));
            },
        };
        proof {
            assert(payload@ =~= t.subrange(n2 as int, length as int));
            assert(attempt@ =~= s.skip(n1 + length));
        }
        Ok(RawPacket { size_in_bytes: length, packet_id, payload })
    }
}

} // verus!
