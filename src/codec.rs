use vstd::prelude::*;
use vstd::slice::{slice_subrange, slice_to_vec};
use vstd::utf8::*;

use crate::error::{DecodeError, Error};
use crate::tags::{entry_view, CommentHeader, CommentView};

verus! {

broadcast use vstd::utf8::group_utf8_lib;

/// The byte `=`, which separates key from value in an entry.
pub const SEPARATOR: u8 = 61;

/// The seven bytes that open a comment header: packet type 3, then "vorbis".
pub open spec fn signature() -> Seq<u8> {
    seq![3u8, 118u8, 111u8, 114u8, 98u8, 105u8, 115u8]
}

/// The little-endian bytes of a 32-bit length.
pub open spec fn le32(n: u32) -> Seq<u8> {
    seq![(n & 0xff) as u8, ((n >> 8) & 0xff) as u8, ((n >> 16) & 0xff) as u8, ((n >> 24) & 0xff) as u8]
}

/// The 32-bit little-endian value of the four bytes at `p`.
pub open spec fn u32_at(b: Seq<u8>, p: int) -> u32 {
    (b[p] as u32) | ((b[p + 1] as u32) << 8) | ((b[p + 2] as u32) << 16) | ((b[p + 3] as u32) << 24)
}

pub proof fn lemma_le32_read(n: u32)
    ensures
        u32_at(le32(n), 0) == n,
{
    let b = le32(n);
    let b0 = (n & 0xff) as u8;
    let b1 = ((n >> 8) & 0xff) as u8;
    let b2 = ((n >> 16) & 0xff) as u8;
    let b3 = ((n >> 24) & 0xff) as u8;
    assert(b[0] == b0 && b[1] == b1 && b[2] == b2 && b[3] == b3);
    assert((b0 as u32) | ((b1 as u32) << 8) | ((b2 as u32) << 16) | ((b3 as u32) << 24) == n) by (bit_vector)
        requires
            b0 == (n & 0xff) as u8,
            b1 == ((n >> 8) & 0xff) as u8,
            b2 == ((n >> 16) & 0xff) as u8,
            b3 == ((n >> 24) & 0xff) as u8,
    ;
}

/// The text of one entry: the key's UTF-8 bytes, `=`, the value's bytes.
pub open spec fn entry_text(e: (Seq<char>, Seq<char>)) -> Seq<u8> {
    encode_utf8(e.0) + seq![SEPARATOR] + encode_utf8(e.1)
}

/// The entries as they stand in a block, each one prefixed by its length.
pub open spec fn entries_bytes(es: Seq<(Seq<char>, Seq<char>)>) -> Seq<u8>
    decreases es.len(),
{
    if es.len() == 0 {
        Seq::empty()
    } else {
        let t = entry_text(es.last());
        entries_bytes(es.drop_last()) + le32(t.len() as u32) + t
    }
}

/// Whether every length of the header fits a 32-bit length field.
pub open spec fn encodable(h: CommentView) -> bool {
    &&& encode_utf8(h.vendor).len() <= u32::MAX
    &&& h.entries.len() <= u32::MAX
    &&& forall|i: int| 0 <= i < h.entries.len() ==> #[trigger] entry_text(h.entries[i]).len() <= u32::MAX
}

/// The binary comment header block of `h`.
pub open spec fn encode_block(h: CommentView) -> Seq<u8> {
    let v = encode_utf8(h.vendor);
    signature() + le32(v.len() as u32) + v + le32(h.entries.len() as u32) + entries_bytes(h.entries)
        + seq![1u8]
}

/// Whether `j` is the position of the first separator byte in `t`.
pub open spec fn first_separator(t: Seq<u8>, j: int) -> bool {
    &&& 0 <= j < t.len()
    &&& t[j] == SEPARATOR
    &&& forall|k: int| 0 <= k < j ==> t[k] != SEPARATOR
}

/// What the text of one entry decodes to: split at the first `=`.
pub open spec fn parse_entry_text(t: Seq<u8>) -> Result<(Seq<char>, Seq<char>), DecodeError> {
    if !valid_utf8(t) {
        Err(DecodeError::InvalidUtf8)
    } else if !t.contains(SEPARATOR) {
        Err(DecodeError::MissingSeparator)
    } else {
        let j = choose|j: int| first_separator(t, j);
        Ok((decode_utf8(t.take(j)), decode_utf8(t.skip(j + 1))))
    }
}

/// The entry whose length field starts at `p`, and the position after it.
pub open spec fn parse_entry(b: Seq<u8>, p: int) -> Result<((Seq<char>, Seq<char>), int), DecodeError> {
    if p + 4 > b.len() {
        Err(DecodeError::Truncated)
    } else {
        let end = p + 4 + u32_at(b, p);
        if end > b.len() {
            Err(DecodeError::Truncated)
        } else {
            match parse_entry_text(b.subrange(p + 4, end)) {
                Ok(e) => Ok((e, end)),
                Err(e) => Err(e),
            }
        }
    }
}

/// The first `n` entries from position `p` on, and the position after them.
pub open spec fn parse_entries(b: Seq<u8>, p: int, n: nat) -> Result<(Seq<(Seq<char>, Seq<char>)>, int), DecodeError>
    decreases n,
{
    if n == 0 {
        Ok((Seq::empty(), p))
    } else {
        match parse_entries(b, p, (n - 1) as nat) {
            Err(e) => Err(e),
            Ok((es, q)) => match parse_entry(b, q) {
                Err(e) => Err(e),
                Ok((e, r)) => Ok((es.push(e), r)),
            },
        }
    }
}

/// What a byte block decodes to. Bytes after the framing byte are ignored.
pub open spec fn parse_block(b: Seq<u8>) -> Result<CommentView, DecodeError> {
    if b.len() < 7 || b.take(7) != signature() {
        Err(DecodeError::BadSignature)
    } else if b.len() < 11 {
        Err(DecodeError::Truncated)
    } else {
        let vend = 11 + u32_at(b, 7);
        if vend + 4 > b.len() {
            Err(DecodeError::Truncated)
        } else if !valid_utf8(b.subrange(11, vend)) {
            Err(DecodeError::InvalidUtf8)
        } else {
            match parse_entries(b, vend + 4, u32_at(b, vend) as nat) {
                Err(e) => Err(e),
                Ok((es, q)) => if q >= b.len() {
                    Err(DecodeError::Truncated)
                } else if b[q] != 1 {
                    Err(DecodeError::BadFraming)
                } else {
                    Ok(CommentView { vendor: decode_utf8(b.subrange(11, vend)), entries: es })
                },
            }
        }
    }
}

fn push_le32(out: &mut Vec<u8>, n: u32)
    ensures
        final(out)@ == old(out)@ + le32(n),
{
    out.push((n & 0xff) as u8);
    out.push(((n >> 8) & 0xff) as u8);
    out.push(((n >> 16) & 0xff) as u8);
    out.push(((n >> 24) & 0xff) as u8);
    assert(out@ =~= old(out)@ + le32(n));
}

fn push_bytes(out: &mut Vec<u8>, b: &[u8])
    ensures
        final(out)@ == old(out)@ + b@,
{
    out.extend_from_slice(b);
    assert(out@ =~= old(out)@ + b@);
}

/// Encodes a comment header into its binary block.
pub fn make_comment_header(header: &CommentHeader) -> (r: Result<Vec<u8>, Error>)
    ensures
        r is Ok <==> encodable(header@),
        r is Ok ==> r->Ok_0@ == encode_block(header@),
        r is Err ==> r == Err::<Vec<u8>, Error>(Error::LengthOverflow),
{
    let vendor = header.vendor.as_str().as_bytes();
    if vendor.len() as u64 > 0xffff_ffff {
        return Err(Error::LengthOverflow);
    }
    if header.comment_list.len() as u64 > 0xffff_ffff {
        return Err(Error::LengthOverflow);
    }
    let mut out: Vec<u8> = vec![3u8, 118u8, 111u8, 114u8, 98u8, 105u8, 115u8];
    assert(out@ =~= signature());
    push_le32(&mut out, vendor.len() as u32);
    push_bytes(&mut out, vendor);
    push_le32(&mut out, header.comment_list.len() as u32);
    let ghost head = out@;
    let ghost es = header@.entries;
    let mut i: usize = 0;
    while i < header.comment_list.len()
        invariant
            i <= header.comment_list.len(),
            es == header@.entries,
            out@ == head + entries_bytes(es.take(i as int)),
            forall|k: int| 0 <= k < i ==> #[trigger] entry_text(es[k]).len() <= u32::MAX,
        decreases header.comment_list.len() - i,
    {
        let key = header.comment_list[i].0.as_str().as_bytes();
        let value = header.comment_list[i].1.as_str().as_bytes();
        assert(es[i as int] == entry_view(header.comment_list@[i as int]));
        assert(entry_text(es[i as int]).len() == key@.len() + 1 + value@.len());
        if key.len() as u64 >= 0xffff_ffff || value.len() as u64 > 0xffff_fffe - key.len() as u64 {
            return Err(Error::LengthOverflow);
        }
        let len = (key.len() + 1 + value.len()) as u32;
        push_le32(&mut out, len);
        push_bytes(&mut out, key);
        out.push(SEPARATOR);
        push_bytes(&mut out, value);
        assert(es.take(i + 1).drop_last() =~= es.take(i as int));
        assert(out@ =~= head + entries_bytes(es.take(i + 1)));
        i = i + 1;
    }
    assert(es.take(i as int) =~= es);
    out.push(1u8);
    assert(out@ =~= encode_block(header@));
    Ok(out)
}

/// Relies on `String::from_utf8`: it succeeds exactly on valid UTF-8, and
/// the text is then those bytes decoded.
#[verifier::external_body]
fn text_from_utf8(bytes: Vec<u8>) -> (r: Option<String>)
    ensures
        r is Some <==> valid_utf8(bytes@),
        r is Some ==> r->0@ == decode_utf8(bytes@),
{
    String::from_utf8(bytes).ok()
}

fn read_u32(b: &[u8], p: usize) -> (r: u32)
    requires
        p + 4 <= b@.len(),
    ensures
        r == u32_at(b@, p as int),
{
    (b[p] as u32) | ((b[p + 1] as u32) << 8) | ((b[p + 2] as u32) << 16) | ((b[p + 3] as u32) << 24)
}

/// A byte sequence that starts with an ASCII byte is valid UTF-8 exactly
/// when the rest is.
proof fn lemma_valid_after_ascii(s: Seq<u8>)
    requires
        s.len() > 0,
        s[0] <= 0x7f,
    ensures
        valid_utf8(s) <==> valid_utf8(s.drop_first()),
{
    assert(pop_first_scalar(s) =~= s.drop_first());
    let b = s[0];
    assert((b & 0x7f) as u32 == b as u32) by (bit_vector)
        requires
            b <= 0x7f,
    ;
}

/// Splitting at a separator byte keeps validity on both sides, and back.
proof fn lemma_valid_split_at_separator(t: Seq<u8>, j: int)
    requires
        0 <= j < t.len(),
        t[j] == SEPARATOR,
    ensures
        valid_utf8(t) <==> (valid_utf8(t.take(j)) && valid_utf8(t.skip(j + 1))),
{
    let rest = t.subrange(j, t.len() as int);
    assert(rest.drop_first() =~= t.skip(j + 1));
    lemma_valid_after_ascii(rest);
    if valid_utf8(t) {
        is_char_boundary_iff_not_is_continuation_byte(t, j);
        valid_utf8_split(t, j);
    }
    if valid_utf8(t.take(j)) && valid_utf8(rest) {
        valid_utf8_concat(t.take(j), rest);
        assert(t.take(j) + rest =~= t);
    }
}

fn decode_entry_text(t: &[u8]) -> (r: Result<(String, String), DecodeError>)
    ensures
        match parse_entry_text(t@) {
            Ok(e) => r is Ok && entry_view(r->Ok_0) == e,
            Err(e) => r == Err::<(String, String), DecodeError>(e),
        },
{
    let mut j: usize = 0;
    while j < t.len() && t[j] != SEPARATOR
        invariant
            j <= t.len(),
            forall|k: int| 0 <= k < j ==> t@[k] != SEPARATOR,
        decreases t.len() - j,
    {
        j = j + 1;
    }
    if j == t.len() {
        if text_from_utf8(slice_to_vec(t)).is_some() {
            return Err(DecodeError::MissingSeparator);
        } else {
            return Err(DecodeError::InvalidUtf8);
        }
    }
    proof {
        assert(first_separator(t@, j as int));
        assert forall|j2: int| first_separator(t@, j2) implies j2 == j by {
            if j2 < j {
                assert(t@[j2] != SEPARATOR);
            } else if j2 > j {
                assert(t@[j as int] != SEPARATOR);
            }
        }
        lemma_valid_split_at_separator(t@, j as int);
    }
    let key = text_from_utf8(slice_to_vec(slice_subrange(t, 0, j)));
    let value = text_from_utf8(slice_to_vec(slice_subrange(t, j + 1, t.len())));
    assert(t@.subrange(0, j as int) =~= t@.take(j as int));
    assert(t@.subrange(j + 1, t@.len() as int) =~= t@.skip(j + 1));
    match (key, value) {
        (Some(k), Some(v)) => Ok((k, v)),
        _ => Err(DecodeError::InvalidUtf8),
    }
}

fn decode_entry(b: &[u8], p: usize) -> (r: Result<((String, String), usize), DecodeError>)
    requires
        p <= b@.len(),
    ensures
        match parse_entry(b@, p as int) {
            Ok((e, q)) => r is Ok && entry_view(r->Ok_0.0) == e && r->Ok_0.1 == q,
            Err(e) => r == Err::<((String, String), usize), DecodeError>(e),
        },
{
    if b.len() - p < 4 {
        return Err(DecodeError::Truncated);
    }
    let n = read_u32(b, p);
    if n as usize > b.len() - p - 4 {
        return Err(DecodeError::Truncated);
    }
    let end = p + 4 + n as usize;
    match decode_entry_text(slice_subrange(b, p + 4, end)) {
        Ok(e) => Ok((e, end)),
        Err(e) => Err(e),
    }
}

proof fn lemma_entries_error_stays(b: Seq<u8>, p: int, i: nat, m: nat)
    requires
        i <= m,
        parse_entries(b, p, i) is Err,
    ensures
        parse_entries(b, p, m) == parse_entries(b, p, i),
    decreases m - i,
{
    if i < m {
        lemma_entries_error_stays(b, p, i, (m - 1) as nat);
    }
}

/// Decodes a binary comment header block.
pub fn decode_comment_header(data: &[u8]) -> (r: Result<CommentHeader, Error>)
    ensures
        match parse_block(data@) {
            Ok(v) => r is Ok && r->Ok_0@ == v,
            Err(e) => r == Err::<CommentHeader, Error>(Error::Decode(e)),
        },
{
    if data.len() < 7 {
        return Err(Error::Decode(DecodeError::BadSignature));
    }
    let mut k: usize = 0;
    while k < 7
        invariant
            k <= 7,
            data@.len() >= 7,
            forall|m: int| 0 <= m < k ==> data@[m] == #[trigger] signature()[m],
        decreases 7 - k,
    {
        let expected: u8 = if k == 0 {
            3
        } else if k == 1 {
            118
        } else if k == 2 {
            111
        } else if k == 3 {
            114
        } else if k == 4 {
            98
        } else if k == 5 {
            105
        } else {
            115
        };
        assert(expected == signature()[k as int]);
        if data[k] != expected {
            assert(data@.take(7)[k as int] != signature()[k as int]);
            return Err(Error::Decode(DecodeError::BadSignature));
        }
        k = k + 1;
    }
    assert(data@.take(7) =~= signature());
    if data.len() < 11 {
        return Err(Error::Decode(DecodeError::Truncated));
    }
    let vlen = read_u32(data, 7);
    if vlen as usize > data.len() - 11 || data.len() - 11 - (vlen as usize) < 4 {
        return Err(Error::Decode(DecodeError::Truncated));
    }
    let vend = 11 + vlen as usize;
    let vendor = match text_from_utf8(slice_to_vec(slice_subrange(data, 11, vend))) {
        Some(v) => v,
        None => {
            return Err(Error::Decode(DecodeError::InvalidUtf8));
        },
    };
    let count = read_u32(data, vend);
    let start = vend + 4;
    let mut comment_list: Vec<(String, String)> = Vec::new();
    let mut pos: usize = start;
    let mut i: u32 = 0;
    assert(comment_list@.map_values(|e: (String, String)| entry_view(e)) =~= Seq::empty());
    while i < count
        invariant
            i <= count,
            pos <= data@.len(),
            data@.len() >= 11,
            data@.take(7) == signature(),
            vend == 11 + u32_at(data@, 7),
            vend + 4 <= data@.len(),
            start == vend + 4,
            count == u32_at(data@, vend as int),
            valid_utf8(data@.subrange(11, vend as int)),
            vendor@ == decode_utf8(data@.subrange(11, vend as int)),
            parse_entries(data@, start as int, i as nat) == Ok::<(Seq<(Seq<char>, Seq<char>)>, int), DecodeError>(
                (comment_list@.map_values(|e: (String, String)| entry_view(e)), pos as int),
            ),
        decreases count - i,
    {
        match decode_entry(data, pos) {
            Ok((e, q)) => {
                let ghost before = comment_list@;
                comment_list.push(e);
                assert(comment_list@.map_values(|e: (String, String)| entry_view(e)) =~= before.map_values(
                    |e: (String, String)| entry_view(e),
                ).push(entry_view(e)));
                pos = q;
            },
            Err(e) => {
                proof {
                    assert(parse_entries(data@, start as int, (i + 1) as nat) == Err::<
                        (Seq<(Seq<char>, Seq<char>)>, int),
                        DecodeError,
                    >(e));
                    lemma_entries_error_stays(data@, start as int, (i + 1) as nat, count as nat);
                }
                return Err(Error::Decode(e));
            },
        }
        i = i + 1;
    }
    if pos >= data.len() {
        return Err(Error::Decode(DecodeError::Truncated));
    }
    if data[pos] != 1 {
        return Err(Error::Decode(DecodeError::BadFraming));
    }
    Ok(CommentHeader { vendor, comment_list })
}

/// No byte of the UTF-8 encoding of a character other than `=` is the
/// separator byte.
proof fn lemma_scalar_not_separator(c: char)
    requires
        c != '=',
    ensures
        forall|i: int| 0 <= i < encode_scalar(c as u32).len() ==> #[trigger] encode_scalar(c as u32)[i] != SEPARATOR,
{
    let s = c as u32;
    if s == 61 {
        char_u32_cast(c, s);
        char_u32_cast('=', 61);
    }
    assert(s <= 0x7f && s != 61 ==> (s & 0x7f) as u8 != 61u8) by (bit_vector);
    assert(0xC0u8 | (((s >> 6) & 0x1F) as u8) != 61u8) by (bit_vector);
    assert(0xE0u8 | (((s >> 12) & 0x0F) as u8) != 61u8) by (bit_vector);
    assert(0xF0u8 | (((s >> 18) & 0x7) as u8) != 61u8) by (bit_vector);
    assert(0x80u8 | ((s & 0x3F) as u8) != 61u8) by (bit_vector);
    assert(0x80u8 | (((s >> 6) & 0x3F) as u8) != 61u8) by (bit_vector);
    assert(0x80u8 | (((s >> 12) & 0x3F) as u8) != 61u8) by (bit_vector);
}

/// The encoding of a text without `=` holds no separator byte.
proof fn lemma_text_not_separator(k: Seq<char>)
    requires
        !k.contains('='),
    ensures
        forall|i: int| 0 <= i < encode_utf8(k).len() ==> #[trigger] encode_utf8(k)[i] != SEPARATOR,
    decreases k.len(),
{
    if k.len() > 0 {
        assert(k[0] != '=');
        assert(!k.drop_first().contains('=')) by {
            if k.drop_first().contains('=') {
                let i = choose|i: int| 0 <= i < k.drop_first().len() && k.drop_first()[i] == '=';
                assert(k[i + 1] == '=');
            }
        }
        lemma_scalar_not_separator(k[0]);
        lemma_text_not_separator(k.drop_first());
        let head = encode_scalar(k[0] as u32);
        let tail = encode_utf8(k.drop_first());
        assert(encode_utf8(k) == head + tail);
        assert forall|i: int| 0 <= i < encode_utf8(k).len() implies #[trigger] encode_utf8(k)[i] != SEPARATOR by {
            if i < head.len() {
                assert(encode_utf8(k)[i] == head[i]);
            } else {
                assert(encode_utf8(k)[i] == tail[i - head.len()]);
            }
        }
    }
}

/// An entry's text decodes back to the entry when its key holds no `=`.
proof fn lemma_entry_text_round_trip(e: (Seq<char>, Seq<char>))
    requires
        !e.0.contains('='),
    ensures
        parse_entry_text(entry_text(e)) == Ok::<(Seq<char>, Seq<char>), DecodeError>(e),
{
    let t = entry_text(e);
    let kb = encode_utf8(e.0);
    let j = kb.len() as int;
    lemma_text_not_separator(e.0);
    assert(t[j] == SEPARATOR);
    assert(t.take(j) =~= kb);
    assert(t.skip(j + 1) =~= encode_utf8(e.1));
    assert forall|k: int| 0 <= k < j implies t[k] != SEPARATOR by {
        assert(t[k] == kb[k]);
    }
    assert(first_separator(t, j));
    assert(t.contains(SEPARATOR));
    assert forall|j2: int| first_separator(t, j2) implies j2 == j by {
        if j2 > j {
            assert(t[j] != SEPARATOR);
        }
    }
    lemma_valid_split_at_separator(t, j);
}

/// Whether an entry can be written and read back unchanged.
pub open spec fn entry_round_trips(e: (Seq<char>, Seq<char>)) -> bool {
    &&& !e.0.contains('=')
    &&& entry_text(e).len() <= u32::MAX
}

proof fn lemma_u32_at_le32(b: Seq<u8>, q: int, n: u32)
    requires
        0 <= q,
        q + 4 <= b.len(),
        b.subrange(q, q + 4) == le32(n),
    ensures
        u32_at(b, q) == n,
{
    lemma_le32_read(n);
    let w = b.subrange(q, q + 4);
    assert(b[q] == w[0] && b[q + 1] == w[1] && b[q + 2] == w[2] && b[q + 3] == w[3]);
}

/// Entries written at `p` are read back from `p`, ending after their bytes.
proof fn lemma_entries_round_trip(b: Seq<u8>, p: int, es: Seq<(Seq<char>, Seq<char>)>)
    requires
        0 <= p,
        p + entries_bytes(es).len() <= b.len(),
        b.subrange(p, p + entries_bytes(es).len()) == entries_bytes(es),
        forall|i: int| 0 <= i < es.len() ==> entry_round_trips(#[trigger] es[i]),
    ensures
        parse_entries(b, p, es.len()) == Ok::<(Seq<(Seq<char>, Seq<char>)>, int), DecodeError>(
            (es, p + entries_bytes(es).len()),
        ),
    decreases es.len(),
{
    if es.len() > 0 {
        let front = es.drop_last();
        let e = es.last();
        let t = entry_text(e);
        let n = t.len() as u32;
        let fb = entries_bytes(front);
        let fl = fb.len() as int;
        let q = p + fb.len();
        let whole = b.subrange(p, p + entries_bytes(es).len());
        assert(entries_bytes(es) == fb + le32(n) + t);
        assert(b.subrange(p, q) =~= whole.subrange(0, fl));
        assert(whole.subrange(0, fl) =~= fb);
        assert forall|i: int| 0 <= i < front.len() implies entry_round_trips(#[trigger] front[i]) by {
            assert(front[i] == es[i]);
        }
        lemma_entries_round_trip(b, p, front);
        assert(entry_round_trips(es[es.len() - 1]));
        assert(b.subrange(q, q + 4) =~= whole.subrange(fl, fl + 4));
        assert(whole.subrange(fl, fl + 4) =~= le32(n));
        lemma_u32_at_le32(b, q, n);
        assert(n as int == t.len());
        let tl = t.len() as int;
        assert(whole.subrange(fl + 4, fl + 4 + tl) =~= t);
        assert(b.subrange(q + 4, q + 4 + tl) =~= whole.subrange(fl + 4, fl + 4 + tl));
        lemma_entry_text_round_trip(e);
        assert(front.push(e) =~= es);
    } else {
        assert(es =~= Seq::<(Seq<char>, Seq<char>)>::empty());
    }
}

/// Decoding the block that encoding writes gives back the same header, when
/// every length fits its field and no key holds `=`.
pub proof fn lemma_round_trip(h: CommentView)
    requires
        encode_utf8(h.vendor).len() <= u32::MAX,
        h.entries.len() <= u32::MAX,
        forall|i: int| 0 <= i < h.entries.len() ==> entry_round_trips(#[trigger] h.entries[i]),
    ensures
        encodable(h),
        parse_block(encode_block(h)) == Ok::<CommentView, DecodeError>(h),
{
    let b = encode_block(h);
    let v = encode_utf8(h.vendor);
    let vl = v.len() as u32;
    let cnt = h.entries.len() as u32;
    let eb = entries_bytes(h.entries);
    let ebl = eb.len() as int;
    let vend = 11 + v.len() as int;
    assert forall|i: int| 0 <= i < h.entries.len() implies #[trigger] entry_text(h.entries[i]).len() <= u32::MAX by {
        assert(entry_round_trips(h.entries[i]));
    }
    assert(b.take(7) =~= signature());
    assert(b.subrange(7, 11) =~= le32(vl));
    lemma_u32_at_le32(b, 7, vl);
    assert(b.subrange(11, vend) =~= v);
    assert(b.subrange(vend, vend + 4) =~= le32(cnt));
    lemma_u32_at_le32(b, vend, cnt);
    assert(b.subrange(vend + 4, vend + 4 + ebl) =~= eb);
    lemma_entries_round_trip(b, vend + 4, h.entries);
    assert(b[vend + 4 + ebl] == 1u8);
}

} // verus!
