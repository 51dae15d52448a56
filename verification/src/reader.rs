//! Capture-file reader: validates the global header and builds a
//! random-access index over the variable-length packet records.
//!
//! Header fields of the capture format are stored in the byte order of the
//! machine that wrote the file; this reader takes them as little-endian.
//! Network fields inside the captured frames are big-endian.

use vstd::prelude::*;

verus! {

broadcast use vstd::slice::axiom_spec_len;

/// Magic value that opens every capture file, in host byte order.
pub const CAPTURE_MAGIC: u32 = 0xA1B2_C3D4;

/// Size in bytes of the global header at the start of a capture file.
pub const GLOBAL_HEADER_BYTES: usize = 24;

/// Size in bytes of the fixed header that precedes each packet record.
pub const RECORD_HEADER_BYTES: usize = 16;

/// The two bytes starting at `i`, read as a little-endian 16-bit integer.
pub open spec fn le_u16_at(s: Seq<u8>, i: int) -> int {
    s[i] as int + s[i + 1] as int * 0x100
}

/// The four bytes starting at `i`, read as a little-endian 32-bit integer.
pub open spec fn le_u32_at(s: Seq<u8>, i: int) -> int {
    s[i] as int + s[i + 1] as int * 0x100 + s[i + 2] as int * 0x1_0000
        + s[i + 3] as int * 0x100_0000
}

/// The four bytes starting at `i`, read as a big-endian 32-bit integer.
pub open spec fn be_u32_at(s: Seq<u8>, i: int) -> int {
    s[i] as int * 0x100_0000 + s[i + 1] as int * 0x1_0000 + s[i + 2] as int * 0x100
        + s[i + 3] as int
}

/// Reads the little-endian 32-bit value stored at `offset`.
pub fn read_u32(pcap: &[u8], offset: usize) -> (r: u32)
    requires
        offset + 4 <= pcap@.len(),
    ensures
        r as int == le_u32_at(pcap@, offset as int),
{
    let b0 = pcap[offset] as u32;
    let b1 = pcap[offset + 1] as u32;
    let b2 = pcap[offset + 2] as u32;
    let b3 = pcap[offset + 3] as u32;
    b0 + b1 * 0x100 + b2 * 0x1_0000 + b3 * 0x100_0000
}

/// Reads the little-endian 16-bit value stored at `offset`.
pub fn read_u16(pcap: &[u8], offset: usize) -> (r: u16)
    requires
        offset + 2 <= pcap@.len(),
    ensures
        r as int == le_u16_at(pcap@, offset as int),
{
    let b0 = pcap[offset] as u16;
    let b1 = pcap[offset + 1] as u16;
    b0 + b1 * 0x100
}

/// Reads the big-endian 32-bit value stored at `offset`; network fields such
/// as IPv4 addresses are stored in this order.
pub fn read_u32_be(pcap: &[u8], offset: usize) -> (r: u32)
    requires
        offset + 4 <= pcap@.len(),
    ensures
        r as int == be_u32_at(pcap@, offset as int),
{
    let b0 = pcap[offset] as u32;
    let b1 = pcap[offset + 1] as u32;
    let b2 = pcap[offset + 2] as u32;
    let b3 = pcap[offset + 3] as u32;
    b0 * 0x100_0000 + b1 * 0x1_0000 + b2 * 0x100 + b3
}

/// One packet record of the capture, located by the absolute byte offset of
/// its record header inside the buffer.
#[derive(Debug, Clone, Copy, PartialEq, Eq, Structural)]
pub struct PacketDescriptor {
    pub offset: usize,
    pub ts_sec: u32,
    pub ts_subsec: u32,
    pub cap_len: u32,
    pub orig_len: u32,
}

/// The descriptor of the record whose header starts at `offset`.
pub open spec fn record_at(s: Seq<u8>, offset: int) -> PacketDescriptor {
    PacketDescriptor {
        offset: offset as usize,
        ts_sec: le_u32_at(s, offset) as u32,
        ts_subsec: le_u32_at(s, offset + 4) as u32,
        cap_len: le_u32_at(s, offset + 8) as u32,
        orig_len: le_u32_at(s, offset + 12) as u32,
    }
}

/// Reads the record header at `offset` and returns its descriptor together
/// with the offset of the next record (past this record's captured bytes).
pub fn read_packet(pcap: &[u8], offset: usize) -> (r: (PacketDescriptor, usize))
    requires
        offset + RECORD_HEADER_BYTES <= pcap@.len(),
        offset + RECORD_HEADER_BYTES + le_u32_at(pcap@, offset as int + 8) <= pcap@.len(),
    ensures
        r.0 == record_at(pcap@, offset as int),
        r.1 == offset + RECORD_HEADER_BYTES + le_u32_at(pcap@, offset as int + 8),
{
    let n = pcap.len();
    proof {
        assert(offset + RECORD_HEADER_BYTES <= n);
    }
    let ts_sec = read_u32(pcap, offset);
    let ts_subsec = read_u32(pcap, offset + 4);
    let cap_len = read_u32(pcap, offset + 8);
    let orig_len = read_u32(pcap, offset + 12);
    (
        PacketDescriptor { offset, ts_sec, ts_subsec, cap_len, orig_len },
        offset + RECORD_HEADER_BYTES + cap_len as usize,
    )
}

/// A capture whose global header cannot be accepted.
#[derive(Debug, Clone, Copy, PartialEq, Eq, Structural)]
pub enum FormatError {
    /// The first four bytes are not the capture-format magic value.
    BadMagic,
    /// The frame-check-sequence nibble is nonzero; captures that store FCS
    /// trailers are not handled.
    UnsupportedFcs,
}

/// The fields of the 24-byte global header of a capture file.
#[derive(Debug, Clone, Copy, PartialEq, Eq, Structural)]
pub struct GlobalHeader {
    pub magic: u32,
    pub version_major: u16,
    pub version_minor: u16,
    pub snap_len: u32,
    pub link_type: u16,
    pub fcs_nibble: u8,
}

/// The high nibble of byte 20 of the header: the frame-check-sequence flag.
pub open spec fn fcs_nibble_of(s: Seq<u8>) -> int {
    s[20] as int / 16
}

/// The global header as stored in the first 24 bytes of the buffer.
pub open spec fn header_of(s: Seq<u8>) -> GlobalHeader {
    GlobalHeader {
        magic: le_u32_at(s, 0) as u32,
        version_major: le_u16_at(s, 4) as u16,
        version_minor: le_u16_at(s, 6) as u16,
        snap_len: le_u32_at(s, 16) as u32,
        link_type: le_u16_at(s, 22) as u16,
        fcs_nibble: fcs_nibble_of(s) as u8,
    }
}

/// Validates the fixed 24-byte prefix of a capture buffer: the magic value
/// must match and the frame-check-sequence nibble must be zero.
pub fn read_header(pcap: &[u8]) -> (r: Result<GlobalHeader, FormatError>)
    requires
        GLOBAL_HEADER_BYTES <= pcap@.len(),
    ensures
        r is Ok <==> le_u32_at(pcap@, 0) == CAPTURE_MAGIC && fcs_nibble_of(pcap@) == 0,
        le_u32_at(pcap@, 0) != CAPTURE_MAGIC ==> r == Result::<GlobalHeader, FormatError>::Err(
            FormatError::BadMagic,
        ),
        le_u32_at(pcap@, 0) == CAPTURE_MAGIC && fcs_nibble_of(pcap@) != 0 ==> r == Result::<
            GlobalHeader,
            FormatError,
        >::Err(FormatError::UnsupportedFcs),
        r matches Ok(h) ==> h == header_of(pcap@),
{
    let magic = read_u32(pcap, 0);
    if magic != CAPTURE_MAGIC {
        return Err(FormatError::BadMagic);
    }
    let fcs_nibble = pcap[20] / 16;
    if fcs_nibble != 0 {
        return Err(FormatError::UnsupportedFcs);
    }
    let version_major = read_u16(pcap, 4);
    let version_minor = read_u16(pcap, 6);
    let snap_len = read_u32(pcap, 16);
    let link_type = read_u16(pcap, 22);
    Ok(GlobalHeader { magic, version_major, version_minor, snap_len, link_type, fcs_nibble })
}

/// A record whose declared extent would cross the end of the buffer;
/// `offset` is where the offending record's header starts (or would start).
#[derive(Debug, Clone, Copy, PartialEq, Eq, Structural)]
pub struct TruncationError {
    pub offset: usize,
}

/// The sequence of records stored from `offset` to the exact end of the
/// buffer, or `None` if some record's header or captured bytes would cross
/// the end.
pub open spec fn parse_records(s: Seq<u8>, offset: int) -> Option<Seq<PacketDescriptor>>
    decreases s.len() - offset,
{
    if offset == s.len() {
        Some(Seq::empty())
    } else if offset < 0 || offset + RECORD_HEADER_BYTES > s.len() {
        None
    } else if offset + RECORD_HEADER_BYTES + le_u32_at(s, offset + 8) > s.len() {
        None
    } else {
        match parse_records(s, offset + RECORD_HEADER_BYTES + le_u32_at(s, offset + 8)) {
            Some(rest) => Some(seq![record_at(s, offset)] + rest),
            None => None,
        }
    }
}

/// Where the sequential scan that starts at `offset` first finds a record
/// crossing the end of the buffer (meaningful only when `parse_records` is
/// `None`).
pub open spec fn scan_fail_offset(s: Seq<u8>, offset: int) -> int
    decreases s.len() - offset,
{
    if offset == s.len() {
        offset
    } else if offset < 0 || offset + RECORD_HEADER_BYTES > s.len() {
        offset
    } else if offset + RECORD_HEADER_BYTES + le_u32_at(s, offset + 8) > s.len() {
        offset
    } else {
        scan_fail_offset(s, offset + RECORD_HEADER_BYTES + le_u32_at(s, offset + 8))
    }
}

/// Scans the records that follow the global header and returns the packet
/// index, or the offset of the first record that would cross the end of the
/// buffer. On success the records tile the buffer from byte 24 to its end.
pub fn build_packet_index(pcap: &[u8]) -> (r: Result<Vec<PacketDescriptor>, TruncationError>)
    requires
        GLOBAL_HEADER_BYTES <= pcap@.len(),
    ensures
        r matches Ok(index) ==> parse_records(pcap@, GLOBAL_HEADER_BYTES as int) == Some(index@),
        r is Err ==> parse_records(pcap@, GLOBAL_HEADER_BYTES as int) is None,
        r matches Err(e) ==> e.offset == scan_fail_offset(pcap@, GLOBAL_HEADER_BYTES as int),
{
    let ghost s = pcap@;
    let mut index: Vec<PacketDescriptor> = Vec::new();
    let mut offset: usize = GLOBAL_HEADER_BYTES;
    while offset < pcap.len()
        invariant
            GLOBAL_HEADER_BYTES <= offset <= s.len(),
            s == pcap@,
            parse_records(s, GLOBAL_HEADER_BYTES as int) is Some <==> parse_records(
                s,
                offset as int,
            ) is Some,
            parse_records(s, offset as int) matches Some(rest) ==> parse_records(
                s,
                GLOBAL_HEADER_BYTES as int,
            ) == Some(index@ + rest),
            parse_records(s, offset as int) is None ==> scan_fail_offset(
                s,
                GLOBAL_HEADER_BYTES as int,
            ) == scan_fail_offset(s, offset as int),
        decreases s.len() - offset,
    {
        if pcap.len() - offset < RECORD_HEADER_BYTES {
            return Err(TruncationError { offset });
        }
        let cap_len = read_u32(pcap, offset + 8);
        if (pcap.len() - (offset + RECORD_HEADER_BYTES)) < cap_len as usize {
            return Err(TruncationError { offset });
        }
        let (packet, new_offset) = read_packet(pcap, offset);
        proof {
            if parse_records(s, new_offset as int) is Some {
                let rest = parse_records(s, new_offset as int)->Some_0;
                assert(parse_records(s, offset as int) == Some(seq![packet] + rest));
                assert(index@ + (seq![packet] + rest) =~= (index@ + seq![packet]) + rest);
            }
        }
        index.push(packet);
        offset = new_offset;
    }
    proof {
        assert(parse_records(s, offset as int) == Some(Seq::<PacketDescriptor>::empty()));
        assert(index@ + Seq::<PacketDescriptor>::empty() =~= index@);
    }
    Ok(index)
}

/// Law: a parsed index tiles the buffer. The records of a successfully
/// parsed index cover the region from `offset` to the end of the buffer with
/// no gaps and no overlaps: the first record starts at `offset`, each record
/// starts exactly where the one before it ends, every record lies inside the
/// buffer, and the last record ends exactly at the end of the buffer.
pub proof fn lemma_index_tiles(s: Seq<u8>, offset: int, index: Seq<PacketDescriptor>)
    requires
        0 <= offset <= s.len(),
        s.len() <= usize::MAX,
        parse_records(s, offset) == Some(index),
    ensures
        index.len() == 0 ==> offset == s.len(),
        index.len() > 0 ==> index[0].offset == offset,
        forall|i: int|
            0 <= i < index.len() - 1 ==> index[i + 1].offset == index[i].offset
                + RECORD_HEADER_BYTES + index[i].cap_len,
        index.len() > 0 ==> index[index.len() - 1].offset + RECORD_HEADER_BYTES + index[index.len()
            - 1].cap_len == s.len(),
        forall|i: int|
            0 <= i < index.len() ==> index[i].offset + RECORD_HEADER_BYTES + index[i].cap_len
                <= s.len(),
    decreases s.len() - offset,
{
    if offset == s.len() {
    } else {
        let cap = le_u32_at(s, offset + 8);
        let next = offset + RECORD_HEADER_BYTES + cap;
        let rest = parse_records(s, next)->Some_0;
        assert(index == seq![record_at(s, offset)] + rest);
        assert(index[0] == record_at(s, offset));
        assert(0 <= cap <= u32::MAX);
        assert(index[0].offset == offset && index[0].cap_len == cap);
        lemma_index_tiles(s, next, rest);
        assert(forall|i: int| 0 <= i < rest.len() ==> index[i + 1] == rest[i]);
        assert forall|i: int| 0 <= i < index.len() - 1 implies index[i + 1].offset == index[i].offset
            + RECORD_HEADER_BYTES + index[i].cap_len by {
            if i == 0 {
                if rest.len() > 0 {
                    assert(rest[0].offset == next);
                }
            } else {
                assert(index[i] == rest[i - 1] && index[i + 1] == rest[i]);
            }
        }
    }
}

} // verus!
