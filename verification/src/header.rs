//! The comment-header payload: the magic marker, a vendor string, and a
//! list of `TAG=value` lines, every length field little-endian.

use vstd::prelude::*;
use vstd::slice::{slice_subrange, slice_to_vec};
use vstd::string::{StrSliceExecFns, StringExecFns};
use vstd::utf8::{
    decode_utf8, encode_utf8, encode_utf8_decode_utf8, encode_utf8_valid_utf8, valid_utf8,
};

use crate::bytes32::{
    lemma_u32_le_roundtrip, push_all, push_u32_le, read_u32_le, u32_le_bytes, u32_of_le,
};
use crate::error::Error;
use crate::strutil::utf8_to_string;

verus! {

/// The eight marker bytes `OpusTags` that open the payload. They are
/// written on encode and skipped, not validated, on decode.
pub open spec fn opus_tags_magic() -> Seq<u8> {
    seq![0x4fu8, 0x70u8, 0x75u8, 0x73u8, 0x54u8, 0x61u8, 0x67u8, 0x73u8]
}

/// One comment line: the tag, a `=` separator, and the value.
pub open spec fn comment_line(tag: Seq<char>, value: Seq<char>) -> Seq<char> {
    tag + seq!['='] + value
}

/// The length-prefixed bytes of one comment line.
pub open spec fn line_block(tag: Seq<char>, value: Seq<char>) -> Seq<u8> {
    let line_b = encode_utf8(comment_line(tag, value));
    u32_le_bytes(line_b.len() as u32) + line_b
}

/// The concatenated length-prefixed comment lines.
pub open spec fn comments_bytes(pairs: Seq<(Seq<char>, Seq<char>)>) -> Seq<u8>
    decreases pairs.len(),
{
    if pairs.len() == 0 {
        Seq::empty()
    } else {
        line_block(pairs[0].0, pairs[0].1) + comments_bytes(pairs.drop_first())
    }
}

/// True when every length field of the payload fits its 32-bit budget.
pub open spec fn header_encodable(vendor: Seq<char>, pairs: Seq<(Seq<char>, Seq<char>)>) -> bool {
    &&& encode_utf8(vendor).len() <= u32::MAX
    &&& pairs.len() <= u32::MAX
    &&& forall|i: int|
        0 <= i < pairs.len() ==> encode_utf8(
            comment_line(#[trigger] pairs[i].0, pairs[i].1),
        ).len() <= u32::MAX
}

/// The whole comment-header payload.
pub open spec fn header_bytes(vendor: Seq<char>, pairs: Seq<(Seq<char>, Seq<char>)>) -> Seq<u8> {
    let vb = encode_utf8(vendor);
    opus_tags_magic() + u32_le_bytes(vb.len() as u32) + vb + u32_le_bytes(pairs.len() as u32)
        + comments_bytes(pairs)
}

/// The position of the first `=` at or after `from`, if any.
pub open spec fn first_eq(line: Seq<char>, from: int) -> Option<int>
    decreases line.len() - from,
{
    if from < 0 || from >= line.len() {
        None
    } else if line[from] == '=' {
        Some(from)
    } else {
        first_eq(line, from + 1)
    }
}

/// The tag and the value of a comment line, split at its first `=`.
pub open spec fn split_comment(line: Seq<char>) -> Option<(Seq<char>, Seq<char>)> {
    match first_eq(line, 0) {
        Some(i) => Some((line.subrange(0, i), line.subrange(i + 1, line.len() as int))),
        None => None,
    }
}

/// The outcome of parsing the comment lines of a payload.
pub enum CommentsParse {
    /// The raw tag and value of each line, in order.
    Parsed(Seq<(Seq<char>, Seq<char>)>),
    /// The payload ends before a declared field does.
    TooShort,
    /// A line holds the given bytes, which are not valid UTF-8.
    BadUtf8(Seq<u8>),
    /// The given line has no `=` separator.
    NoSeparator(Seq<char>),
}

/// Parses `n` comment lines of `b` starting at `pos`.
pub open spec fn parse_comments(b: Seq<u8>, pos: int, n: nat) -> CommentsParse
    decreases n,
{
    if n == 0 {
        CommentsParse::Parsed(Seq::empty())
    } else if pos < 0 || pos + 4 > b.len() {
        CommentsParse::TooShort
    } else {
        let clen = u32_of_le(b[pos], b[pos + 1], b[pos + 2], b[pos + 3]) as int;
        if clen > b.len() - pos - 4 {
            CommentsParse::TooShort
        } else {
            let line_b = b.subrange(pos + 4, pos + 4 + clen);
            if !valid_utf8(line_b) {
                CommentsParse::BadUtf8(line_b)
            } else {
                let line = decode_utf8(line_b);
                match split_comment(line) {
                    Option::None => CommentsParse::NoSeparator(line),
                    Option::Some(pair) => match parse_comments(b, pos + 4 + clen, (n - 1) as nat) {
                        CommentsParse::Parsed(rest) => CommentsParse::Parsed(seq![pair] + rest),
                        other => other,
                    },
                }
            }
        }
    }
}

/// `r` with `acc` prepended to its lines when it parsed.
pub open spec fn with_prefix(acc: Seq<(Seq<char>, Seq<char>)>, r: CommentsParse) -> CommentsParse {
    match r {
        CommentsParse::Parsed(rest) => CommentsParse::Parsed(acc + rest),
        other => other,
    }
}

/// An empty prefix changes nothing.
proof fn lemma_with_prefix_empty(r: CommentsParse)
    ensures
        with_prefix(Seq::empty(), r) == r,
{
    match r {
        CommentsParse::Parsed(rest) => {
            assert(Seq::<(Seq<char>, Seq<char>)>::empty() + rest =~= rest);
        },
        _ => {},
    }
}

/// Moving the head pair of the remainder into the prefix changes nothing.
proof fn lemma_with_prefix_cons(
    acc: Seq<(Seq<char>, Seq<char>)>,
    pair: (Seq<char>, Seq<char>),
    r: CommentsParse,
)
    ensures
        with_prefix(acc, with_prefix(seq![pair], r)) == with_prefix(acc.push(pair), r),
{
    match r {
        CommentsParse::Parsed(rest) => {
            assert(acc + (seq![pair] + rest) =~= acc.push(pair) + rest);
        },
        _ => {},
    }
}

/// A comment-line parse outcome lifted to a payload parse outcome with a
/// given vendor string.
pub open spec fn lift_comments(vendor: Seq<char>, r: CommentsParse) -> HeaderParse {
    match r {
        CommentsParse::Parsed(pairs) => HeaderParse::Parsed(vendor, pairs),
        CommentsParse::TooShort => HeaderParse::TooShort,
        CommentsParse::BadUtf8(bs) => HeaderParse::BadUtf8(bs),
        CommentsParse::NoSeparator(line) => HeaderParse::NoSeparator(line),
    }
}

/// The outcome of parsing a whole comment-header payload.
pub enum HeaderParse {
    /// The vendor string and the raw tag and value of each line, in order.
    Parsed(Seq<char>, Seq<(Seq<char>, Seq<char>)>),
    /// The payload ends before a declared field does.
    TooShort,
    /// The vendor or a line holds the given bytes, which are not valid
    /// UTF-8.
    BadUtf8(Seq<u8>),
    /// The given line has no `=` separator.
    NoSeparator(Seq<char>),
}

/// Parses a comment-header payload: eight marker bytes are skipped, then
/// the vendor string and the comment lines are read in order.
pub open spec fn header_parse(b: Seq<u8>) -> HeaderParse {
    if b.len() < 12 {
        HeaderParse::TooShort
    } else {
        let vlen = u32_of_le(b[8], b[9], b[10], b[11]) as int;
        if vlen > b.len() - 12 {
            HeaderParse::TooShort
        } else {
            let vb = b.subrange(12, 12 + vlen);
            if !valid_utf8(vb) {
                HeaderParse::BadUtf8(vb)
            } else if vlen + 16 > b.len() {
                HeaderParse::TooShort
            } else {
                let cnt = u32_of_le(b[12 + vlen], b[13 + vlen], b[14 + vlen], b[15 + vlen]);
                lift_comments(decode_utf8(vb), parse_comments(b, 16 + vlen, cnt as nat))
            }
        }
    }
}

/// The deep view of owned tag-and-value pairs.
pub open spec fn pairs_view(pairs: Seq<(String, String)>) -> Seq<(Seq<char>, Seq<char>)> {
    pairs.map_values(|p: (String, String)| (p.0@, p.1@))
}

/// A first `=` found at or after `from` is unchanged by starting the
/// search earlier, as long as no `=` stands before `from`.
proof fn lemma_first_eq_skip(line: Seq<char>, from: int)
    requires
        0 <= from <= line.len(),
        forall|k: int| 0 <= k < from ==> line[k] != '=',
    ensures
        first_eq(line, 0) == first_eq(line, from),
    decreases from,
{
    if from > 0 {
        lemma_first_eq_skip(line.subrange(0, from), from - 1);
        lemma_first_eq_same_prefix(line, from - 1);
        lemma_first_eq_skip(line, from - 1);
    }
}

/// Helper: unfolding one step of `first_eq` below a non-`=` character.
proof fn lemma_first_eq_same_prefix(line: Seq<char>, from: int)
    requires
        0 <= from < line.len(),
        line[from] != '=',
    ensures
        first_eq(line, from) == first_eq(line, from + 1),
{
}

/// Splitting `tag=value` at the first `=` gives back `tag` and `value`
/// when the tag holds no `=`.
pub proof fn lemma_split_comment_line(tag: Seq<char>, value: Seq<char>)
    requires
        forall|k: int| 0 <= k < tag.len() ==> tag[k] != '=',
    ensures
        split_comment(comment_line(tag, value)) == Some((tag, value)),
{
    let line = comment_line(tag, value);
    assert(line.len() == tag.len() + 1 + value.len());
    assert(line[tag.len() as int] == '=');
    assert(forall|k: int| 0 <= k < tag.len() ==> line[k] == tag[k]);
    lemma_first_eq_skip(line, tag.len() as int);
    assert(first_eq(line, tag.len() as int) == Some(tag.len() as int));
    assert(line.subrange(0, tag.len() as int) =~= tag);
    assert(line.subrange(tag.len() + 1int, line.len() as int) =~= value);
}

/// Finds the first `=` of `s`.
fn find_first_eq(s: &str) -> (r: Option<usize>)
    ensures
        match r {
            Some(j) => j < s@.len() && first_eq(s@, 0) == Some(j as int),
            None => first_eq(s@, 0) is None,
        },
{
    let n = s.unicode_len();
    let mut j: usize = 0;
    while j < n
        invariant
            n == s@.len(),
            0 <= j <= n,
            forall|k: int| 0 <= k < j ==> s@[k] != '=',
        decreases n - j,
    {
        let c = s.get_char(j);
        if c == '=' {
            proof {
                lemma_first_eq_skip(s@, j as int);
            }
            return Some(j);
        }
        j += 1;
    }
    proof {
        lemma_first_eq_skip(s@, n as int);
    }
    None
}

/// Splits a comment line at its first `=` into the tag and the value.
fn split_line(line: &String) -> (r: Option<(String, String)>)
    ensures
        match r {
            Some(p) => split_comment(line@) == Some((p.0@, p.1@)),
            None => split_comment(line@) is None,
        },
{
    let n = line.as_str().unicode_len();
    match find_first_eq(line.as_str()) {
        Some(j) => {
            let tag = line.as_str().substring_char(0, j).to_owned();
            let value = line.as_str().substring_char(j + 1, n).to_owned();
            Some((tag, value))
        },
        None => None,
    }
}

/// Serializes a comment-header payload from a vendor string and raw
/// tag-and-value pairs.
///
/// Fails exactly when the vendor string, the number of pairs, or some
/// `tag=value` line is over the 32-bit budget.
pub fn serialize_header(vendor: &str, pairs: &Vec<(String, String)>) -> (r: Result<Vec<u8>, Error>)
    ensures
        match r {
            Ok(b) => header_encodable(vendor@, pairs_view(pairs@)) && b@ == header_bytes(
                vendor@,
                pairs_view(pairs@),
            ),
            Err(e) => !header_encodable(vendor@, pairs_view(pairs@)) && e == Error::TooBigError,
        },
{
    let ghost pv = pairs_view(pairs@);
    let mut out: Vec<u8> = Vec::new();
    out.push(0x4f);
    out.push(0x70);
    out.push(0x75);
    out.push(0x73);
    out.push(0x54);
    out.push(0x61);
    out.push(0x67);
    out.push(0x73);
    proof {
        assert(out@ =~= opus_tags_magic());
    }
    let vb = vendor.as_bytes_vec();
    let vlen: u32 = match u32::try_from(vb.len()) {
        Ok(l) => l,
        Err(_) => {
            return Err(Error::TooBigError);
        },
    };
    push_u32_le(&mut out, vlen);
    push_all(&mut out, vb.as_slice());
    let cnt: u32 = match u32::try_from(pairs.len()) {
        Ok(l) => l,
        Err(_) => {
            return Err(Error::TooBigError);
        },
    };
    push_u32_le(&mut out, cnt);
    let ghost head = out@;
    let m = pairs.len();
    let mut i: usize = 0;
    while i < m
        invariant
            m == pairs@.len(),
            0 <= i <= m,
            pv == pairs_view(pairs@),
            pv.len() == m,
            out@ == head + comments_bytes(pv.take(i as int)),
            forall|k: int|
                0 <= k < i ==> encode_utf8(
                    comment_line(#[trigger] pv[k].0, pv[k].1),
                ).len() <= u32::MAX,
        decreases m - i,
    {
        let mut line = pairs[i].0.clone();
        line.append("=");
        line.append(pairs[i].1.as_str());
        proof {
            reveal_strlit("=");
            assert(line@ =~= comment_line(pv[i as int].0, pv[i as int].1));
        }
        let lb = line.as_str().as_bytes_vec();
        let llen: u32 = match u32::try_from(lb.len()) {
            Ok(l) => l,
            Err(_) => {
                return Err(Error::TooBigError);
            },
        };
        push_u32_le(&mut out, llen);
        push_all(&mut out, lb.as_slice());
        proof {
            lemma_comments_bytes_push(pv.take(i as int), pv[i as int]);
            assert(pv.take(i + 1) =~= pv.take(i as int).push(pv[i as int]));
            assert(out@ =~= head + comments_bytes(pv.take(i + 1)));
        }
        i += 1;
    }
    proof {
        assert(pv.take(m as int) =~= pv);
        assert(out@ =~= header_bytes(vendor@, pv));
    }
    Ok(out)
}

/// Appending one pair appends its line block.
proof fn lemma_comments_bytes_push(pairs: Seq<(Seq<char>, Seq<char>)>, p: (Seq<char>, Seq<char>))
    ensures
        comments_bytes(pairs.push(p)) == comments_bytes(pairs) + line_block(p.0, p.1),
    decreases pairs.len(),
{
    if pairs.len() == 0 {
        assert(pairs.push(p)[0] == p);
        assert(pairs.push(p).drop_first() =~= Seq::<(Seq<char>, Seq<char>)>::empty());
        assert(comments_bytes(Seq::<(Seq<char>, Seq<char>)>::empty()) == Seq::<u8>::empty());
        assert(comments_bytes(pairs.push(p)) =~= line_block(p.0, p.1));
        assert(comments_bytes(pairs) + line_block(p.0, p.1) =~= line_block(p.0, p.1));
    } else {
        assert(pairs.push(p).drop_first() =~= pairs.drop_first().push(p));
        lemma_comments_bytes_push(pairs.drop_first(), p);
        assert(pairs.push(p)[0] == pairs[0]);
        assert(comments_bytes(pairs.push(p)) == line_block(pairs[0].0, pairs[0].1) + (
        comments_bytes(pairs.drop_first()) + line_block(p.0, p.1)));
        assert(line_block(pairs[0].0, pairs[0].1) + (comments_bytes(pairs.drop_first())
            + line_block(p.0, p.1)) =~= (line_block(pairs[0].0, pairs[0].1) + comments_bytes(
            pairs.drop_first(),
        )) + line_block(p.0, p.1));
    }
}

/// Parses a comment-header payload into the vendor string and the raw
/// tag-and-value pairs, in order.
///
/// Fails when the payload ends before a declared field does, when a field
/// is not valid UTF-8, or when a comment line has no `=` separator; the
/// malformed line is carried in the error.
pub fn parse_header(b: &[u8]) -> (r: Result<(String, Vec<(String, String)>), Error>)
    ensures
        match r {
            Ok(out) => header_parse(b@) == HeaderParse::Parsed(out.0@, pairs_view(out.1@)),
            Err(e) => match header_parse(b@) {
                HeaderParse::Parsed(_, _) => false,
                HeaderParse::TooShort => e == Error::DataError,
                HeaderParse::BadUtf8(bs) => e matches Error::UTFError(v) && v@ == bs,
                HeaderParse::NoSeparator(line) => e matches Error::MalformedComment(s) && s@
                    == line,
            },
        },
{
    let n = b.len();
    if n < 12 {
        return Err(Error::DataError);
    }
    let vlen = read_u32_le(b, 8) as usize;
    if vlen > n - 12 {
        return Err(Error::DataError);
    }
    let vendor_vec = slice_to_vec(slice_subrange(b, 12, 12 + vlen));
    let vendor = match utf8_to_string(&vendor_vec) {
        Some(s) => s,
        None => {
            return Err(Error::UTFError(vendor_vec));
        },
    };
    if n - (12 + vlen) < 4 {
        return Err(Error::DataError);
    }
    let cnt = read_u32_le(b, 12 + vlen);
    let mut pos: usize = 16 + vlen;
    let mut pairs: Vec<(String, String)> = Vec::new();
    let mut i: u32 = 0;
    proof {
        assert(header_parse(b@) == lift_comments(
            vendor@,
            parse_comments(b@, pos as int, cnt as nat),
        ));
        lemma_with_prefix_empty(parse_comments(b@, pos as int, cnt as nat));
        assert(pairs_view(pairs@) =~= Seq::<(Seq<char>, Seq<char>)>::empty());
    }
    while i < cnt
        invariant
            n == b@.len(),
            0 <= i <= cnt,
            16 <= pos <= n,
            header_parse(b@) == lift_comments(
                vendor@,
                with_prefix(pairs_view(pairs@), parse_comments(b@, pos as int, (cnt - i) as nat)),
            ),
        decreases cnt - i,
    {
        let ghost acc = pairs_view(pairs@);
        let ghost rest = parse_comments(b@, pos as int, (cnt - i) as nat);
        if n - pos < 4 {
            return Err(Error::DataError);
        }
        let clen = read_u32_le(b, pos) as usize;
        if clen > n - pos - 4 {
            return Err(Error::DataError);
        }
        let line_vec = slice_to_vec(slice_subrange(b, pos + 4, pos + 4 + clen));
        let line = match utf8_to_string(&line_vec) {
            Some(s) => s,
            None => {
                return Err(Error::UTFError(line_vec));
            },
        };
        let pair = match split_line(&line) {
            Some(p) => p,
            None => {
                return Err(Error::MalformedComment(line));
            },
        };
        proof {
            let next = parse_comments(b@, pos + 4 + clen, (cnt - i - 1) as nat);
            assert(rest == with_prefix(seq![(pair.0@, pair.1@)], next));
            lemma_with_prefix_cons(acc, (pair.0@, pair.1@), next);
        }
        pairs.push(pair);
        proof {
            assert(pairs_view(pairs@) =~= acc.push((pair.0@, pair.1@)));
        }
        pos = pos + 4 + clen;
        i += 1;
    }
    proof {
        assert(parse_comments(b@, pos as int, (cnt - i) as nat) == CommentsParse::Parsed(
            Seq::<(Seq<char>, Seq<char>)>::empty(),
        ));
        assert(pairs_view(pairs@) + Seq::<(Seq<char>, Seq<char>)>::empty() =~= pairs_view(
            pairs@,
        ));
    }
    Ok((vendor, pairs))
}

/// Parsing the serialized payload yields back the vendor string and the
/// pairs, as long as no tag holds a `=`.
pub proof fn lemma_header_roundtrip(vendor: Seq<char>, pairs: Seq<(Seq<char>, Seq<char>)>)
    requires
        header_encodable(vendor, pairs),
        forall|i: int, k: int|
            0 <= i < pairs.len() && 0 <= k < pairs[i].0.len() ==> (#[trigger] pairs[i].0[k])
                != '=',
    ensures
        header_parse(header_bytes(vendor, pairs)) == HeaderParse::Parsed(vendor, pairs),
{
    broadcast use encode_utf8_valid_utf8;
    broadcast use encode_utf8_decode_utf8;

    let vb = encode_utf8(vendor);
    let v = vb.len() as int;
    let b = header_bytes(vendor, pairs);
    let cb = comments_bytes(pairs);
    assert(opus_tags_magic().len() == 8);
    assert(u32_le_bytes(vb.len() as u32).len() == 4);
    assert(u32_le_bytes(pairs.len() as u32).len() == 4);
    assert(b.len() == 16 + v + cb.len());
    assert(b.subrange(8, 12) =~= u32_le_bytes(v as u32));
    lemma_le_field(b, 8, v as u32);
    assert(b.subrange(12, 12 + v) =~= vb);
    assert(b.subrange(12 + v, 16 + v) =~= u32_le_bytes(pairs.len() as u32));
    lemma_le_field(b, 12 + v, pairs.len() as u32);
    assert(b.subrange(16 + v, 16 + v + cb.len()) =~= cb);
    lemma_comments_roundtrip(b, 16 + v, pairs);
    assert(header_parse(b) == HeaderParse::Parsed(decode_utf8(vb), pairs));
}

/// Reading four little-endian bytes that store `x` yields `x`.
proof fn lemma_le_field(b: Seq<u8>, pos: int, x: u32)
    requires
        0 <= pos,
        pos + 4 <= b.len(),
        b.subrange(pos, pos + 4) == u32_le_bytes(x),
    ensures
        u32_of_le(b[pos], b[pos + 1], b[pos + 2], b[pos + 3]) == x,
{
    assert(b.subrange(pos, pos + 4)[0] == b[pos]);
    assert(b.subrange(pos, pos + 4)[1] == b[pos + 1]);
    assert(b.subrange(pos, pos + 4)[2] == b[pos + 2]);
    assert(b.subrange(pos, pos + 4)[3] == b[pos + 3]);
    lemma_u32_le_roundtrip(x);
}

/// Parsing `pairs.len()` lines out of their own serialization, wherever it
/// stands in a payload, yields back `pairs`.
proof fn lemma_comments_roundtrip(b: Seq<u8>, pos: int, pairs: Seq<(Seq<char>, Seq<char>)>)
    requires
        0 <= pos,
        pos + comments_bytes(pairs).len() <= b.len(),
        b.subrange(pos, pos + comments_bytes(pairs).len()) == comments_bytes(pairs),
        forall|i: int|
            0 <= i < pairs.len() ==> encode_utf8(
                comment_line(#[trigger] pairs[i].0, pairs[i].1),
            ).len() <= u32::MAX,
        forall|i: int, k: int|
            0 <= i < pairs.len() && 0 <= k < pairs[i].0.len() ==> (#[trigger] pairs[i].0[k])
                != '=',
    ensures
        parse_comments(b, pos, pairs.len()) == CommentsParse::Parsed(pairs),
    decreases pairs.len(),
{
    broadcast use encode_utf8_valid_utf8;
    broadcast use encode_utf8_decode_utf8;

    if pairs.len() == 0 {
        assert(parse_comments(b, pos, 0) == CommentsParse::Parsed(
            Seq::<(Seq<char>, Seq<char>)>::empty(),
        ));
        assert(pairs =~= Seq::<(Seq<char>, Seq<char>)>::empty());
    } else {
        let tag = pairs[0].0;
        let value = pairs[0].1;
        let line_b = encode_utf8(comment_line(tag, value));
        let l = line_b.len() as int;
        let cb = comments_bytes(pairs);
        let rest_b = comments_bytes(pairs.drop_first());
        assert(cb == line_block(tag, value) + rest_b);
        assert(cb.len() == 4 + l + rest_b.len());
        assert(cb.subrange(0, 4) =~= u32_le_bytes(l as u32));
        assert(cb.subrange(4, 4 + l) =~= line_b);
        assert(cb.subrange(4 + l, cb.len() as int) =~= rest_b);
        crate::bytes32::lemma_window(b, pos, cb, 0, 4);
        crate::bytes32::lemma_window(b, pos, cb, 4, 4 + l);
        crate::bytes32::lemma_window(b, pos, cb, 4 + l, cb.len() as int);
        lemma_le_field(b, pos, l as u32);
        assert(b.subrange(pos + 4, pos + 4 + l) == line_b);
        assert(decode_utf8(line_b) == comment_line(tag, value));
        lemma_split_comment_line(tag, value);
        assert(b.subrange(pos + 4 + l, pos + 4 + l + rest_b.len()) == rest_b);
        lemma_comments_roundtrip(b, pos + 4 + l, pairs.drop_first());
        assert(seq![(tag, value)] + pairs.drop_first() =~= pairs);
    }
}

} // verus!
