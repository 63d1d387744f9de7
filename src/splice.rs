use vstd::prelude::*;
use vstd::slice::slice_to_vec;

use crate::codec::{
    decode_comment_header, encode_block, entry_round_trips, lemma_round_trip, make_comment_header, parse_block,
};
use vstd::utf8::encode_utf8;
use crate::error::{DecodeError, Error};
use crate::tags::{CommentHeader, CommentView};

verus! {

/// How a packet closes, as the container writer is told when it is written.
#[derive(Clone, Copy, Debug, PartialEq, Eq, Structural)]
pub enum PacketEnd {
    NormalPacket,
    EndPage,
    EndStream,
}

/// A packet as the container reader hands it over.
#[derive(Clone, Debug)]
pub struct Packet {
    pub data: Vec<u8>,
    pub stream_serial: u32,
    pub absgp_page: u64,
    pub last_in_page: bool,
    pub last_in_stream: bool,
}

/// A packet to hand to the container writer.
#[derive(Clone, Debug)]
pub struct OutPacket {
    pub data: Vec<u8>,
    pub stream_serial: u32,
    pub absgp_page: u64,
    pub end: PacketEnd,
}

/// The stream and payload of a packet: what the splice reads and changes.
pub open spec fn packet_view(p: Packet) -> (u32, Seq<u8>) {
    (p.stream_serial, p.data@)
}

pub open spec fn out_view(p: OutPacket) -> (u32, Seq<u8>) {
    (p.stream_serial, p.data@)
}

pub open spec fn packets_view(ps: Seq<Packet>) -> Seq<(u32, Seq<u8>)> {
    ps.map_values(|p: Packet| packet_view(p))
}

pub open spec fn outs_view(ps: Seq<OutPacket>) -> Seq<(u32, Seq<u8>)> {
    ps.map_values(|p: OutPacket| out_view(p))
}

/// The end marker owed to a packet: end of stream first, then end of page.
pub open spec fn end_of(p: Packet) -> PacketEnd {
    if p.last_in_stream {
        PacketEnd::EndStream
    } else if p.last_in_page {
        PacketEnd::EndPage
    } else {
        PacketEnd::NormalPacket
    }
}

/// Whether a packet closes the group of streams being read.
pub open spec fn closes_group(p: Packet) -> bool {
    p.last_in_stream && p.last_in_page
}

/// Whether a payload decodes as a comment header block.
pub open spec fn is_block(d: Seq<u8>) -> bool {
    parse_block(d) is Ok
}

/// Whether packet `i` belongs to the primary stream (that of the first
/// packet) and holds a comment header block.
pub open spec fn candidate(ps: Seq<(u32, Seq<u8>)>, i: int) -> bool {
    ps[i].0 == ps[0].0 && is_block(ps[i].1)
}

/// Packet `i` is the one the splice replaces: the first candidate.
pub open spec fn splice_target(ps: Seq<(u32, Seq<u8>)>, i: int) -> bool {
    &&& 0 <= i < ps.len()
    &&& candidate(ps, i)
    &&& forall|j: int| 0 <= j < i ==> !candidate(ps, j)
}

/// Packet `i` is the one the header search finds: the first candidate
/// after the packet that fixed the primary stream.
pub open spec fn header_target(ps: Seq<(u32, Seq<u8>)>, i: int) -> bool {
    &&& 1 <= i < ps.len()
    &&& candidate(ps, i)
    &&& forall|j: int| 1 <= j < i ==> !candidate(ps, j)
}

/// The first `n` packets with the splice target's payload replaced by `new`.
pub open spec fn spliced(ps: Seq<(u32, Seq<u8>)>, n: int, new: Seq<u8>) -> Seq<(u32, Seq<u8>)> {
    Seq::new(
        n as nat,
        |i: int|
            if splice_target(ps, i) {
                (ps[i].0, new)
            } else {
                ps[i]
            },
    )
}

/// Splicing a header into a group and then searching the result finds the
/// new header at the place of the old one, and every other packet of the
/// group is unchanged. This needs a first packet that is not itself a header
/// block, a header inside the forwarded packets, and a new header that reads
/// back as written.
pub proof fn lemma_splice_then_find(ps: Seq<(u32, Seq<u8>)>, n: int, h: CommentView, k: int)
    requires
        k < n <= ps.len(),
        !is_block(ps[0].1),
        splice_target(ps, k),
        encode_utf8(h.vendor).len() <= u32::MAX,
        h.entries.len() <= u32::MAX,
        forall|i: int| 0 <= i < h.entries.len() ==> entry_round_trips(#[trigger] h.entries[i]),
    ensures
        header_target(spliced(ps, n, encode_block(h)), k),
        parse_block(spliced(ps, n, encode_block(h))[k].1) == Ok::<CommentView, DecodeError>(h),
        forall|i: int| 0 <= i < n && i != k ==> #[trigger] spliced(ps, n, encode_block(h))[i] == ps[i],
{
    let new = encode_block(h);
    let out = spliced(ps, n, new);
    lemma_round_trip(h);
    assert(k != 0);
    assert(!splice_target(ps, 0));
    assert(out[0] == ps[0]);
    assert forall|i: int| 0 <= i < n && i != k implies #[trigger] out[i] == ps[i] by {
        if splice_target(ps, i) {
            assert(!candidate(ps, i) || !candidate(ps, k));
        }
    }
    assert forall|j: int| 1 <= j < k implies !candidate(out, j) by {
        assert(out[j] == ps[j]);
    }
}

/// Packets of other streams than the primary one are never changed, and their
/// payloads play no part in choosing the packet to replace: two sequences
/// that differ only there have the same splice target.
pub proof fn lemma_other_streams_pass_through(
    ps: Seq<(u32, Seq<u8>)>,
    qs: Seq<(u32, Seq<u8>)>,
    n: int,
    new: Seq<u8>,
)
    requires
        0 < n <= ps.len(),
        qs.len() == ps.len(),
        forall|i: int| 0 <= i < ps.len() ==> (#[trigger] ps[i]).0 == qs[i].0,
        forall|i: int| 0 <= i < ps.len() && (#[trigger] ps[i]).0 == ps[0].0 ==> ps[i].1 == qs[i].1,
    ensures
        forall|i: int| 0 <= i < n && (#[trigger] ps[i]).0 != ps[0].0 ==> spliced(ps, n, new)[i] == ps[i],
        forall|i: int| #[trigger] splice_target(ps, i) == splice_target(qs, i),
{
    assert forall|i: int| 0 <= i < ps.len() implies #[trigger] candidate(ps, i) == candidate(qs, i) by {
        assert(ps[0].0 == qs[0].0);
    }
    assert forall|i: int| #[trigger] splice_target(ps, i) == splice_target(qs, i) by {
        if 0 <= i < ps.len() {
            assert(forall|j: int| 0 <= j < i ==> candidate(ps, j) == candidate(qs, j));
        }
    }
}

/// The end marker to forward a packet with.
pub fn packet_end(p: &Packet) -> (r: PacketEnd)
    ensures
        r == end_of(*p),
{
    if p.last_in_stream {
        PacketEnd::EndStream
    } else if p.last_in_page {
        PacketEnd::EndPage
    } else {
        PacketEnd::NormalPacket
    }
}

/// Whether reading stops after this packet.
pub fn ends_group(p: &Packet) -> (r: bool)
    ensures
        r == closes_group(*p),
{
    p.last_in_stream && p.last_in_page
}

/// Whether a payload is a comment header block.
pub fn is_comment_header(data: &[u8]) -> (r: bool)
    ensures
        r == is_block(data@),
{
    decode_comment_header(data).is_ok()
}

/// Finds the comment header of the primary stream: the first packet after
/// the first one that shares its stream and decodes as a header block.
pub fn find_comment_header(packets: &Vec<Packet>) -> (r: Result<CommentHeader, Error>)
    ensures
        r is Ok <==> exists|i: int| header_target(packets_view(packets@), i),
        forall|i: int|
            header_target(packets_view(packets@), i) ==> r is Ok && parse_block(packets@[i].data@)
                == Ok::<_, crate::error::DecodeError>(r->Ok_0@),
        r is Err ==> r == Err::<CommentHeader, Error>(Error::NotFound),
{
    let ghost ps = packets_view(packets@);
    if packets.len() == 0 {
        return Err(Error::NotFound);
    }
    let primary = packets[0].stream_serial;
    let mut i: usize = 1;
    while i < packets.len()
        invariant
            1 <= i <= packets.len(),
            ps == packets_view(packets@),
            primary == ps[0].0,
            forall|j: int| 1 <= j < i ==> !candidate(ps, j),
        decreases packets.len() - i,
    {
        assert(ps[i as int] == packet_view(packets@[i as int]));
        if packets[i].stream_serial == primary {
            match decode_comment_header(packets[i].data.as_slice()) {
                Ok(h) => {
                    assert(header_target(ps, i as int));
                    assert forall|k: int| header_target(ps, k) implies k == i by {
                        if k < i {
                        } else if k > i {
                            assert(!candidate(ps, i as int));
                        }
                    }
                    return Ok(h);
                },
                Err(_) => {},
            }
        }
        i = i + 1;
    }
    Err(Error::NotFound)
}

/// Forwards the packets of the group, up to and including the first one that
/// closes it, with the payload of the first comment header of the primary
/// stream replaced by the block of `new_header`. Every other packet passes
/// through unchanged.
pub fn replace_packets(packets: &Vec<Packet>, new_header: &CommentHeader) -> (r: Result<Vec<OutPacket>, Error>)
    ensures
        r is Err <==> !crate::codec::encodable(new_header@),
        r is Err ==> r == Err::<Vec<OutPacket>, Error>(Error::LengthOverflow),
        r is Ok ==> {
            let out = r->Ok_0@;
            &&& out.len() <= packets@.len()
            &&& forall|j: int| 0 <= j < out.len() - 1 ==> !closes_group(#[trigger] packets@[j])
            &&& (out.len() == packets@.len() || (out.len() > 0 && closes_group(packets@[out.len() - 1])))
            &&& outs_view(out) == spliced(
                packets_view(packets@),
                out.len() as int,
                crate::codec::encode_block(new_header@),
            )
            &&& forall|j: int|
                0 <= j < out.len() ==> (#[trigger] out[j]).absgp_page == packets@[j].absgp_page && out[j].end
                    == end_of(packets@[j])
        },
{
    let new_data = match make_comment_header(new_header) {
        Ok(d) => d,
        Err(e) => {
            return Err(e);
        },
    };
    let ghost ps = packets_view(packets@);
    let ghost new = new_data@;
    let mut out: Vec<OutPacket> = Vec::new();
    if packets.len() == 0 {
        assert(outs_view(out@) =~= spliced(ps, 0, new));
        return Ok(out);
    }
    let primary = packets[0].stream_serial;
    let mut done = false;
    let mut stopped = false;
    let mut i: usize = 0;
    while i < packets.len() && !stopped
        invariant
            i <= packets.len(),
            ps == packets_view(packets@),
            packets@.len() > 0,
            primary == ps[0].0,
            new == new_data@,
            out@.len() == i,
            done <==> exists|j: int| 0 <= j < i && candidate(ps, j),
            stopped ==> i > 0 && closes_group(packets@[i - 1]),
            forall|j: int| 0 <= j < i - 1 ==> !closes_group(#[trigger] packets@[j]),
            !stopped ==> forall|j: int| 0 <= j < i ==> !closes_group(#[trigger] packets@[j]),
            outs_view(out@) == spliced(ps, i as int, new),
            forall|j: int|
                0 <= j < i ==> (#[trigger] out@[j]).absgp_page == packets@[j].absgp_page && out@[j].end
                    == end_of(packets@[j]),
        decreases packets.len() - i,
    {
        let p = &packets[i];
        assert(ps[i as int] == packet_view(packets@[i as int]));
        let mut data = slice_to_vec(p.data.as_slice());
        let replace = !done && p.stream_serial == primary && is_comment_header(p.data.as_slice());
        if replace {
            data = slice_to_vec(new_data.as_slice());
            done = true;
        }
        proof {
            if replace {
                assert(splice_target(ps, i as int));
            } else {
                assert(!splice_target(ps, i as int));
                if candidate(ps, i as int) {
                    assert(done);
                }
            }
        }
        let ghost before = out@;
        out.push(OutPacket { data, stream_serial: p.stream_serial, absgp_page: p.absgp_page, end: packet_end(p) });
        assert(outs_view(out@) =~= spliced(ps, i + 1, new)) by {
            assert(outs_view(out@) =~= outs_view(before).push(out_view(out@[i as int])));
        }
        if ends_group(p) {
            stopped = true;
        }
        i = i + 1;
    }
    Ok(out)
}

} // verus!
