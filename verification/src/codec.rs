use vstd::prelude::*;

use vstd::bytes::{
    lemma_auto_spec_u128_to_from_le_bytes, lemma_auto_spec_u16_to_from_le_bytes,
    lemma_auto_spec_u32_to_from_le_bytes, lemma_auto_spec_u64_to_from_le_bytes,
    spec_u128_to_le_bytes, spec_u128_from_le_bytes, spec_u16_to_le_bytes, spec_u16_from_le_bytes,
    spec_u32_to_le_bytes, spec_u32_from_le_bytes, spec_u64_to_le_bytes, spec_u64_from_le_bytes,
    u128_from_le_bytes, u128_to_le_bytes, u16_from_le_bytes, u16_to_le_bytes, u32_from_le_bytes,
    u32_to_le_bytes, u64_from_le_bytes, u64_to_le_bytes,
};
use crate::config::{unique_keys, PluginConfig};
use crate::graph::{Edge, EdgeV, Graph, GraphV, Node, NodeV};
use crate::types::{DNSRecord, DNSRecordV, Domain, EmailAddress, IpAddress, PhoneNumber};
use vstd::slice::slice_subrange;
use vstd::std_specs::iter::IteratorSpec;
use vstd::utf8::{char_is_scalar, char_u32_cast, is_scalar};

verus! {

/// The bytes handed in do not hold a well-formed encoding.
#[derive(Clone, Copy, PartialEq, Eq, Structural, Debug)]
pub struct DecodeError;

// Stable wire tags. A tag names its variant for good: a new variant gets
// a new tag, and the existing encodings never move.
pub const TAG_LABEL_NONE: u8 = 0;
pub const TAG_LABEL_SOME: u8 = 1;

pub const TAG_IP_V4: u8 = 4;
pub const TAG_IP_V6: u8 = 6;

pub const TAG_NODE_SOCIAL_MEDIA: u8 = 1;
pub const TAG_NODE_WEBSITE: u8 = 2;
pub const TAG_NODE_IP: u8 = 3;
pub const TAG_NODE_PHONE_NUMBER: u8 = 4;
pub const TAG_NODE_EMAIL_ADDRESS: u8 = 5;
pub const TAG_NODE_PERSON: u8 = 6;
pub const TAG_NODE_ORGANIZATION: u8 = 7;
pub const TAG_NODE_DOMAIN: u8 = 8;
pub const TAG_NODE_DNS_ENTRY: u8 = 9;

pub const TAG_RECORD_A: u8 = 1;
pub const TAG_RECORD_AAAA: u8 = 2;
pub const TAG_RECORD_CNAME: u8 = 3;
pub const TAG_RECORD_MX: u8 = 4;
pub const TAG_RECORD_SRV: u8 = 5;
pub const TAG_RECORD_TXT: u8 = 6;

// ---------------------------------------------------------------------
// Primitive values: fixed-width little-endian integers.
//
// Every `dec_*` spec function reads at a cursor and yields the decoded
// value with the next cursor, or `None` when the bytes do not hold a
// well-formed encoding there. The executable decoders are proved to
// agree with these spec functions exactly, so one round-trip argument
// at the spec level covers the running code.
// ---------------------------------------------------------------------

pub open spec fn dec_u8(b: Seq<u8>, pos: int) -> Option<(u8, int)> {
    if 0 <= pos && pos + 1 <= b.len() {
        Some((b[pos], pos + 1))
    } else {
        None
    }
}

pub open spec fn dec_u16(b: Seq<u8>, pos: int) -> Option<(u16, int)> {
    if 0 <= pos && pos + 2 <= b.len() {
        Some((spec_u16_from_le_bytes(b.subrange(pos, pos + 2)), pos + 2))
    } else {
        None
    }
}

pub open spec fn dec_u32(b: Seq<u8>, pos: int) -> Option<(u32, int)> {
    if 0 <= pos && pos + 4 <= b.len() {
        Some((spec_u32_from_le_bytes(b.subrange(pos, pos + 4)), pos + 4))
    } else {
        None
    }
}

pub open spec fn dec_u64(b: Seq<u8>, pos: int) -> Option<(u64, int)> {
    if 0 <= pos && pos + 8 <= b.len() {
        Some((spec_u64_from_le_bytes(b.subrange(pos, pos + 8)), pos + 8))
    } else {
        None
    }
}

pub open spec fn dec_u128(b: Seq<u8>, pos: int) -> Option<(u128, int)> {
    if 0 <= pos && pos + 16 <= b.len() {
        Some((spec_u128_from_le_bytes(b.subrange(pos, pos + 16)), pos + 16))
    } else {
        None
    }
}

// ---------------------------------------------------------------------
// Text: a character count, then each character as its Unicode scalar
// value in four little-endian bytes.
// ---------------------------------------------------------------------

pub open spec fn enc_chars(s: Seq<char>) -> Seq<u8>
    decreases s.len(),
{
    if s.len() == 0 {
        Seq::empty()
    } else {
        spec_u32_to_le_bytes(s[0] as u32) + enc_chars(s.drop_first())
    }
}

pub open spec fn enc_str(s: Seq<char>) -> Seq<u8> {
    spec_u64_to_le_bytes(s.len() as u64) + enc_chars(s)
}

pub open spec fn dec_char(b: Seq<u8>, pos: int) -> Option<(char, int)> {
    match dec_u32(b, pos) {
        Some((u, p)) => if is_scalar(u) {
            Some((u as char, p))
        } else {
            None
        },
        None => None,
    }
}

pub open spec fn dec_chars(b: Seq<u8>, pos: int, count: nat) -> Option<(Seq<char>, int)>
    decreases count,
{
    if count == 0 {
        Some((Seq::empty(), pos))
    } else {
        match dec_char(b, pos) {
            Some((c, p)) => match dec_chars(b, p, (count - 1) as nat) {
                Some((s, p2)) => Some((seq![c] + s, p2)),
                None => None,
            },
            None => None,
        }
    }
}

pub open spec fn dec_str(b: Seq<u8>, pos: int) -> Option<(Seq<char>, int)> {
    match dec_u64(b, pos) {
        Some((count, p)) => dec_chars(b, p, count as nat),
        None => None,
    }
}

/// A character sequence fits the wire format when its count has a
/// 64-bit representation.
pub open spec fn str_wf(s: Seq<char>) -> bool {
    s.len() < 0x1_0000_0000_0000_0000
}

// ---------------------------------------------------------------------
// Splitting lemmas: reading a concatenation part by part.
// ---------------------------------------------------------------------

/// Bytes that hold `x + y` at `pos` hold `x` at `pos` and `y` right after.
pub proof fn lemma_split_prefix(b: Seq<u8>, pos: int, x: Seq<u8>, y: Seq<u8>)
    requires
        0 <= pos,
        pos + x.len() + y.len() <= b.len(),
        b.subrange(pos, pos + x.len() + y.len()) == x + y,
    ensures
        b.subrange(pos, pos + x.len() as int) == x,
        b.subrange(pos + x.len() as int, pos + x.len() + y.len()) == y,
{
    let whole = b.subrange(pos, pos + x.len() + y.len());
    assert forall|i: int| 0 <= i < x.len() implies b.subrange(pos, pos + x.len() as int)[i]
        == x[i] by {
        assert(whole[i] == (x + y)[i]);
    }
    assert(b.subrange(pos, pos + x.len() as int) =~= x);
    assert forall|i: int| 0 <= i < y.len() implies b.subrange(
        pos + x.len() as int,
        pos + x.len() + y.len(),
    )[i] == y[i] by {
        assert(whole[x.len() + i] == (x + y)[x.len() + i]);
    }
    assert(b.subrange(pos + x.len() as int, pos + x.len() + y.len()) =~= y);
}

pub proof fn lemma_dec_u8(b: Seq<u8>, pos: int, x: u8)
    requires
        0 <= pos,
        pos + 1 <= b.len(),
        b.subrange(pos, pos + 1) == seq![x],
    ensures
        dec_u8(b, pos) == Some((x, pos + 1)),
{
    assert(b[pos] == b.subrange(pos, pos + 1)[0]);
}

pub proof fn lemma_dec_u16(b: Seq<u8>, pos: int, x: u16)
    requires
        0 <= pos,
        pos + 2 <= b.len(),
        b.subrange(pos, pos + 2) == spec_u16_to_le_bytes(x),
    ensures
        dec_u16(b, pos) == Some((x, pos + 2)),
{
    lemma_auto_spec_u16_to_from_le_bytes();
    assert(spec_u16_to_le_bytes(x).len() == 2);
}

pub proof fn lemma_dec_u32(b: Seq<u8>, pos: int, x: u32)
    requires
        0 <= pos,
        pos + 4 <= b.len(),
        b.subrange(pos, pos + 4) == spec_u32_to_le_bytes(x),
    ensures
        dec_u32(b, pos) == Some((x, pos + 4)),
{
    lemma_auto_spec_u32_to_from_le_bytes();
    assert(spec_u32_to_le_bytes(x).len() == 4);
}

pub proof fn lemma_dec_u64(b: Seq<u8>, pos: int, x: u64)
    requires
        0 <= pos,
        pos + 8 <= b.len(),
        b.subrange(pos, pos + 8) == spec_u64_to_le_bytes(x),
    ensures
        dec_u64(b, pos) == Some((x, pos + 8)),
{
    lemma_auto_spec_u64_to_from_le_bytes();
}

pub proof fn lemma_dec_u128(b: Seq<u8>, pos: int, x: u128)
    requires
        0 <= pos,
        pos + 16 <= b.len(),
        b.subrange(pos, pos + 16) == spec_u128_to_le_bytes(x),
    ensures
        dec_u128(b, pos) == Some((x, pos + 16)),
{
    lemma_auto_spec_u128_to_from_le_bytes();
    assert(spec_u128_to_le_bytes(x).len() == 16);
}

pub proof fn lemma_enc_chars_len(s: Seq<char>)
    ensures
        enc_chars(s).len() == 4 * s.len(),
    decreases s.len(),
{
    lemma_auto_spec_u32_to_from_le_bytes();
    if s.len() == 0 {
    } else {
        lemma_enc_chars_len(s.drop_first());
    }
}

pub proof fn lemma_dec_chars(b: Seq<u8>, pos: int, s: Seq<char>)
    requires
        0 <= pos,
        pos + enc_chars(s).len() <= b.len(),
        b.subrange(pos, pos + enc_chars(s).len()) == enc_chars(s),
    ensures
        dec_chars(b, pos, s.len()) == Some((s, pos + enc_chars(s).len())),
    decreases s.len(),
{
    lemma_enc_chars_len(s);
    if s.len() == 0 {
        assert(dec_chars(b, pos, 0) == Some((Seq::<char>::empty(), pos)));
        assert(s =~= Seq::<char>::empty());
    } else {
        let c = s[0];
        let rest = s.drop_first();
        let head = spec_u32_to_le_bytes(c as u32);
        lemma_auto_spec_u32_to_from_le_bytes();
        lemma_enc_chars_len(rest);
        lemma_split_prefix(b, pos, head, enc_chars(rest));
        char_is_scalar(c);
        lemma_dec_u32(b, pos, c as u32);
        char_u32_cast(c, c as u32);
        assert(dec_char(b, pos) == Some((c, pos + 4)));
        lemma_dec_chars(b, pos + 4, rest);
        assert(seq![c] + rest =~= s);
    }
}

pub proof fn lemma_dec_str(b: Seq<u8>, pos: int, s: Seq<char>)
    requires
        0 <= pos,
        str_wf(s),
        pos + enc_str(s).len() <= b.len(),
        b.subrange(pos, pos + enc_str(s).len()) == enc_str(s),
    ensures
        dec_str(b, pos) == Some((s, pos + enc_str(s).len())),
{
    lemma_auto_spec_u64_to_from_le_bytes();
    lemma_enc_chars_len(s);
    lemma_split_prefix(b, pos, spec_u64_to_le_bytes(s.len() as u64), enc_chars(s));
    lemma_dec_u64(b, pos, s.len() as u64);
    lemma_dec_chars(b, pos + 8, s);
}

// ---------------------------------------------------------------------
// Executable encoders and decoders for the primitive layers.
// ---------------------------------------------------------------------

fn write_u8(x: u8, out: &mut Vec<u8>)
    ensures
        final(out)@ == old(out)@ + seq![x],
{
    out.push(x);
    proof {
        assert(final(out)@ =~= old(out)@ + seq![x]);
    }
}

fn write_u16(x: u16, out: &mut Vec<u8>)
    ensures
        final(out)@ == old(out)@ + spec_u16_to_le_bytes(x),
{
    let mut tmp = u16_to_le_bytes(x);
    out.append(&mut tmp);
}

fn write_u32(x: u32, out: &mut Vec<u8>)
    ensures
        final(out)@ == old(out)@ + spec_u32_to_le_bytes(x),
{
    let mut tmp = u32_to_le_bytes(x);
    out.append(&mut tmp);
}

fn write_u64(x: u64, out: &mut Vec<u8>)
    ensures
        final(out)@ == old(out)@ + spec_u64_to_le_bytes(x),
{
    let mut tmp = u64_to_le_bytes(x);
    out.append(&mut tmp);
}

fn write_u128(x: u128, out: &mut Vec<u8>)
    ensures
        final(out)@ == old(out)@ + spec_u128_to_le_bytes(x),
{
    let mut tmp = u128_to_le_bytes(x);
    out.append(&mut tmp);
}

fn read_u8(b: &[u8], pos: usize) -> (r: Result<(u8, usize), DecodeError>)
    ensures
        r matches Ok((x, end)) ==> dec_u8(b@, pos as int) == Some((x, end as int)) && pos < end
            <= b@.len(),
        r is Err ==> dec_u8(b@, pos as int) is None,
{
    if pos < b.len() {
        Ok((b[pos], pos + 1))
    } else {
        Err(DecodeError)
    }
}

fn read_u16(b: &[u8], pos: usize) -> (r: Result<(u16, usize), DecodeError>)
    ensures
        r matches Ok((x, end)) ==> dec_u16(b@, pos as int) == Some((x, end as int)) && pos < end
            <= b@.len(),
        r is Err ==> dec_u16(b@, pos as int) is None,
{
    if b.len() >= 2 && pos <= b.len() - 2 {
        let sub = slice_subrange(b, pos, pos + 2);
        Ok((u16_from_le_bytes(sub), pos + 2))
    } else {
        Err(DecodeError)
    }
}

fn read_u32(b: &[u8], pos: usize) -> (r: Result<(u32, usize), DecodeError>)
    ensures
        r matches Ok((x, end)) ==> dec_u32(b@, pos as int) == Some((x, end as int)) && pos < end
            <= b@.len(),
        r is Err ==> dec_u32(b@, pos as int) is None,
{
    if b.len() >= 4 && pos <= b.len() - 4 {
        let sub = slice_subrange(b, pos, pos + 4);
        Ok((u32_from_le_bytes(sub), pos + 4))
    } else {
        Err(DecodeError)
    }
}

fn read_u64(b: &[u8], pos: usize) -> (r: Result<(u64, usize), DecodeError>)
    ensures
        r matches Ok((x, end)) ==> dec_u64(b@, pos as int) == Some((x, end as int)) && pos < end
            <= b@.len(),
        r is Err ==> dec_u64(b@, pos as int) is None,
{
    if b.len() >= 8 && pos <= b.len() - 8 {
        let sub = slice_subrange(b, pos, pos + 8);
        Ok((u64_from_le_bytes(sub), pos + 8))
    } else {
        Err(DecodeError)
    }
}

fn read_u128(b: &[u8], pos: usize) -> (r: Result<(u128, usize), DecodeError>)
    ensures
        r matches Ok((x, end)) ==> dec_u128(b@, pos as int) == Some((x, end as int)) && pos < end
            <= b@.len(),
        r is Err ==> dec_u128(b@, pos as int) is None,
{
    if b.len() >= 16 && pos <= b.len() - 16 {
        let sub = slice_subrange(b, pos, pos + 16);
        Ok((u128_from_le_bytes(sub), pos + 16))
    } else {
        Err(DecodeError)
    }
}

/// Relies on char::from_u32: it returns `Some` exactly when the argument
/// is a Unicode scalar value (not a surrogate, at most 0x10FFFF), and
/// the returned character casts back to the argument.
#[verifier::external_body]
fn char_from_u32(u: u32) -> (r: Option<char>)
    ensures
        r matches Some(c) ==> c as u32 == u,
        r is Some <==> is_scalar(u),
{
    char::from_u32(u)
}

/// Relies on String::push: it appends the given character to the string.
#[verifier::external_body]
fn string_push(s: &mut String, c: char)
    ensures
        final(s)@ == old(s)@.push(c),
{
    s.push(c)
}


pub proof fn lemma_enc_chars_push(s: Seq<char>, c: char)
    ensures
        enc_chars(s.push(c)) == enc_chars(s) + spec_u32_to_le_bytes(c as u32),
    decreases s.len(),
{
    if s.len() == 0 {
        assert(s.push(c)[0] == c);
        assert(s.push(c).drop_first() =~= Seq::<char>::empty());
        assert(enc_chars(Seq::<char>::empty()) == Seq::<u8>::empty());
        assert(enc_chars(s.push(c)) == spec_u32_to_le_bytes(c as u32) + Seq::<u8>::empty());
        assert(spec_u32_to_le_bytes(c as u32) + Seq::<u8>::empty() =~= spec_u32_to_le_bytes(
        c as u32));
        assert(enc_chars(s) == Seq::<u8>::empty());
        assert(Seq::<u8>::empty() + spec_u32_to_le_bytes(c as u32) =~= spec_u32_to_le_bytes(
        c as u32));
    } else {
        assert(s.push(c)[0] == s[0]);
        assert(s.push(c).drop_first() =~= s.drop_first().push(c));
        lemma_enc_chars_push(s.drop_first(), c);
        assert(enc_chars(s.push(c)) == spec_u32_to_le_bytes(s[0] as u32) + (enc_chars(
        s.drop_first()) + spec_u32_to_le_bytes(c as u32)));
        assert(spec_u32_to_le_bytes(s[0] as u32) + (enc_chars(s.drop_first())
            + spec_u32_to_le_bytes(c as u32)) =~= (spec_u32_to_le_bytes(s[0] as u32) + enc_chars(
        s.drop_first())) + spec_u32_to_le_bytes(c as u32));
    }
}

fn encode_str(s: &str, out: &mut Vec<u8>)
    ensures
        final(out)@ == old(out)@ + enc_str(s@),
        str_wf(s@),
{
    let mut temp: Vec<u8> = Vec::new();
    let mut it = s.chars();
    let ghost all = s@;
    let ghost mut k: int = 0;
    loop
        invariant
            0 <= k <= all.len(),
            it.remaining() == all.skip(k),
            temp@ == enc_chars(all.take(k)),
        ensures
            temp@ == enc_chars(all),
        decreases all.len() - k,
    {
        match it.next() {
            Some(c) => {
                proof {
                    assert(all.skip(k).len() > 0);
                    assert(c == all.skip(k)[0]);
                    assert(c == all[k]);
                }
                write_u32(c as u32, &mut temp);
                proof {
                    lemma_enc_chars_push(all.take(k), c);
                    assert(all.take(k).push(c) =~= all.take(k + 1));
                    assert(all.skip(k).drop_first() =~= all.skip(k + 1));
                    k = k + 1;
                }
            },
            None => {
                proof {
                    assert(all.skip(k).len() == 0);
                    assert(k == all.len());
                    assert(all.take(k) =~= all);
                }
                break ;
            },
        }
    }
    proof {
        lemma_enc_chars_len(all);
    }
    let byte_len = temp.len();
    let count: u64 = (byte_len / 4) as u64;
    proof {
        assert(byte_len == 4 * all.len());
        assert(count == all.len());
    }
    write_u64(count, out);
    out.append(&mut temp);
}

fn read_str(b: &[u8], pos: usize) -> (r: Result<(String, usize), DecodeError>)
    ensures
        r matches Ok((s, end)) ==> dec_str(b@, pos as int) == Some((s@, end as int)) && pos < end
            <= b@.len(),
        r is Err ==> dec_str(b@, pos as int) is None,
{
    let (count, start) = match read_u64(b, pos) {
        Ok(v) => v,
        Err(e) => {
            return Err(e);
        },
    };
    let mut acc = String::new();
    let mut cur = start;
    let mut i: u64 = 0;
    while i < count
        invariant
            i <= count,
            pos < start <= cur <= b@.len(),
            acc@.len() == i,
            dec_u64(b@, pos as int) == Some((count, start as int)),
            dec_chars(b@, start as int, count as nat) == (match dec_chars(
                b@,
                cur as int,
                (count - i) as nat,
            ) {
                Some((s, p)) => Some((acc@ + s, p)),
                None => None,
            }),
        decreases count - i,
    {
        match read_char(b, cur) {
            Ok((c, p)) => {
                proof {
                    let rest = dec_chars(b@, p as int, (count - i - 1) as nat);
                    match rest {
                        Some((s, p2)) => {
                            assert((acc@.push(c)) + s =~= acc@ + (seq![c] + s));
                        },
                        None => {},
                    }
                }
                string_push(&mut acc, c);
                cur = p;
                i = i + 1;
            },
            Err(e) => {
                proof {
                    assert(dec_chars(b@, cur as int, (count - i) as nat) is None);
                }
                return Err(e);
            },
        }
    }
    proof {
        assert(dec_chars(b@, cur as int, 0) == Some((Seq::<char>::empty(), cur as int)));
        assert(acc@ + Seq::<char>::empty() =~= acc@);
    }
    Ok((acc, cur))
}


// ---------------------------------------------------------------------
// Optional edge labels.
// ---------------------------------------------------------------------

pub open spec fn enc_label(l: Option<Seq<char>>) -> Seq<u8> {
    match l {
        None => seq![TAG_LABEL_NONE],
        Some(s) => seq![TAG_LABEL_SOME] + enc_str(s),
    }
}

pub open spec fn dec_label(b: Seq<u8>, pos: int) -> Option<(Option<Seq<char>>, int)> {
    match dec_u8(b, pos) {
        Some((t, p)) => if t == TAG_LABEL_NONE {
            Some((None, p))
        } else if t == TAG_LABEL_SOME {
            match dec_str(b, p) {
                Some((s, p2)) => Some((Some(s), p2)),
                None => None,
            }
        } else {
            None
        },
        None => None,
    }
}

pub open spec fn label_wf(l: Option<Seq<char>>) -> bool {
    l matches Some(s) ==> str_wf(s)
}

pub proof fn lemma_dec_label(b: Seq<u8>, pos: int, l: Option<Seq<char>>)
    requires
        0 <= pos,
        label_wf(l),
        pos + enc_label(l).len() <= b.len(),
        b.subrange(pos, pos + enc_label(l).len()) == enc_label(l),
    ensures
        dec_label(b, pos) == Some((l, pos + enc_label(l).len())),
{
    match l {
        None => {
            lemma_dec_u8(b, pos, TAG_LABEL_NONE);
        },
        Some(s) => {
            assert(enc_label(l) == seq![TAG_LABEL_SOME] + enc_str(s));
            lemma_split_prefix(b, pos, seq![TAG_LABEL_SOME], enc_str(s));
            lemma_dec_u8(b, pos, TAG_LABEL_SOME);
            lemma_dec_str(b, pos + 1, s);
        },
    }
}

fn encode_label(l: &Option<String>, out: &mut Vec<u8>)
    ensures
        final(out)@ == old(out)@ + enc_label(match l {
            Some(s) => Some(s@),
            None => None,
        }),
        label_wf(match l {
            Some(s) => Some(s@),
            None => None,
        }),
{
    match l {
        None => {
            write_u8(TAG_LABEL_NONE, out);
        },
        Some(s) => {
            let ghost prev = out@;
            write_u8(TAG_LABEL_SOME, out);
            encode_str(s.as_str(), out);
            proof {
                assert(final(out)@ =~= prev + (seq![TAG_LABEL_SOME] + enc_str(s@)));
            }
        },
    }
}

fn read_label(b: &[u8], pos: usize) -> (r: Result<(Option<String>, usize), DecodeError>)
    ensures
        r matches Ok((l, end)) ==> dec_label(b@, pos as int) == Some(
            (
                match l {
                    Some(s) => Some(s@),
                    None => None,
                },
                end as int,
            ),
        ) && pos < end <= b@.len(),
        r is Err ==> dec_label(b@, pos as int) is None,
{
    let (tag, p) = match read_u8(b, pos) {
        Ok(v) => v,
        Err(e) => {
            return Err(e);
        },
    };
    if tag == TAG_LABEL_NONE {
        Ok((None, p))
    } else if tag == TAG_LABEL_SOME {
        match read_str(b, p) {
            Ok((s, end)) => Ok((Some(s), end)),
            Err(e) => Err(e),
        }
    } else {
        Err(DecodeError)
    }
}


// ---------------------------------------------------------------------
// Configuration mappings: an entry count, then each field name and its
// value as two strings.
// ---------------------------------------------------------------------

pub open spec fn enc_entry(e: (Seq<char>, Seq<char>)) -> Seq<u8> {
    enc_str(e.0) + enc_str(e.1)
}

pub open spec fn dec_entry(b: Seq<u8>, pos: int) -> Option<((Seq<char>, Seq<char>), int)> {
    match dec_str(b, pos) {
        Some((k, p)) => match dec_str(b, p) {
            Some((v, p2)) => Some(((k, v), p2)),
            None => None,
        },
        None => None,
    }
}

pub open spec fn enc_entry_list(s: Seq<(Seq<char>, Seq<char>)>) -> Seq<u8>
    decreases s.len(),
{
    if s.len() == 0 {
        Seq::empty()
    } else {
        enc_entry(s[0]) + enc_entry_list(s.drop_first())
    }
}

pub open spec fn dec_entry_list(b: Seq<u8>, pos: int, count: nat) -> Option<
    (Seq<(Seq<char>, Seq<char>)>, int),
>
    decreases count,
{
    if count == 0 {
        Some((Seq::empty(), pos))
    } else {
        match dec_entry(b, pos) {
            Some((e, p)) => match dec_entry_list(b, p, (count - 1) as nat) {
                Some((s, p2)) => Some((seq![e] + s, p2)),
                None => None,
            },
            None => None,
        }
    }
}

pub open spec fn enc_config(c: Seq<(Seq<char>, Seq<char>)>) -> Seq<u8> {
    spec_u64_to_le_bytes(c.len() as u64) + enc_entry_list(c)
}

/// A decoded configuration is a mapping: duplicate field names are
/// rejected.
pub open spec fn dec_config(b: Seq<u8>, pos: int) -> Option<(Seq<(Seq<char>, Seq<char>)>, int)> {
    match dec_u64(b, pos) {
        Some((count, p)) => match dec_entry_list(b, p, count as nat) {
            Some((s, p2)) => if unique_keys(s) {
                Some((s, p2))
            } else {
                None
            },
            None => None,
        },
        None => None,
    }
}

pub open spec fn entry_wf(e: (Seq<char>, Seq<char>)) -> bool {
    str_wf(e.0) && str_wf(e.1)
}

pub open spec fn config_wf(c: Seq<(Seq<char>, Seq<char>)>) -> bool {
    &&& c.len() < 0x1_0000_0000_0000_0000
    &&& (forall|i: int| 0 <= i < c.len() ==> entry_wf(#[trigger] c[i]))
    &&& unique_keys(c)
}

pub proof fn lemma_dec_entry(b: Seq<u8>, pos: int, e: (Seq<char>, Seq<char>))
    requires
        0 <= pos,
        entry_wf(e),
        pos + enc_entry(e).len() <= b.len(),
        b.subrange(pos, pos + enc_entry(e).len()) == enc_entry(e),
    ensures
        dec_entry(b, pos) == Some((e, pos + enc_entry(e).len())),
{
    lemma_split_prefix(b, pos, enc_str(e.0), enc_str(e.1));
    lemma_dec_str(b, pos, e.0);
    lemma_dec_str(b, pos + enc_str(e.0).len(), e.1);
}

pub proof fn lemma_dec_entry_list(b: Seq<u8>, pos: int, s: Seq<(Seq<char>, Seq<char>)>)
    requires
        0 <= pos,
        forall|i: int| 0 <= i < s.len() ==> entry_wf(#[trigger] s[i]),
        pos + enc_entry_list(s).len() <= b.len(),
        b.subrange(pos, pos + enc_entry_list(s).len()) == enc_entry_list(s),
    ensures
        dec_entry_list(b, pos, s.len()) == Some((s, pos + enc_entry_list(s).len())),
    decreases s.len(),
{
    if s.len() == 0 {
        assert(s =~= Seq::<(Seq<char>, Seq<char>)>::empty());
    } else {
        let e = s[0];
        let rest = s.drop_first();
        lemma_split_prefix(b, pos, enc_entry(e), enc_entry_list(rest));
        lemma_dec_entry(b, pos, e);
        lemma_dec_entry_list(b, pos + enc_entry(e).len(), rest);
        assert(seq![e] + rest =~= s);
    }
}

pub proof fn lemma_enc_entry_list_push(s: Seq<(Seq<char>, Seq<char>)>, e: (Seq<char>, Seq<char>))
    ensures
        enc_entry_list(s.push(e)) == enc_entry_list(s) + enc_entry(e),
    decreases s.len(),
{
    if s.len() == 0 {
        assert(s.push(e)[0] == e);
        assert(s.push(e).drop_first() =~= Seq::<(Seq<char>, Seq<char>)>::empty());
        assert(enc_entry_list(Seq::<(Seq<char>, Seq<char>)>::empty())
            == Seq::<u8>::empty());
        assert(enc_entry_list(s.push(e)) == enc_entry(e) + Seq::<u8>::empty());
        assert(enc_entry(e) + Seq::<u8>::empty() =~= enc_entry(e));
        assert(enc_entry_list(s) == Seq::<u8>::empty());
        assert(Seq::<u8>::empty() + enc_entry(e) =~= enc_entry(e));
    } else {
        assert(s.push(e)[0] == s[0]);
        assert(s.push(e).drop_first() =~= s.drop_first().push(e));
        lemma_enc_entry_list_push(s.drop_first(), e);
        assert(enc_entry_list(s.push(e)) == enc_entry(s[0]) + (enc_entry_list(s.drop_first())
            + enc_entry(e)));
        assert(enc_entry(s[0]) + (enc_entry_list(s.drop_first()) + enc_entry(e)) =~= (enc_entry(
        s[0]) + enc_entry_list(s.drop_first())) + enc_entry(e));
    }
}

/// Encode a configuration mapping.
pub fn encode_config(c: &PluginConfig, out: &mut Vec<u8>)
    ensures
        final(out)@ == old(out)@ + enc_config(c@),
{
    let n = c.entries.len();
    write_u64(n as u64, out);
    let ghost base = out@;
    let mut i: usize = 0;
    while i < n
        invariant
            i <= n == c.entries@.len(),
            out@ == base + enc_entry_list(c@.take(i as int)),
        decreases n - i,
    {
        let ghost prev = out@;
        encode_str(c.entries[i].0.as_str(), out);
        encode_str(c.entries[i].1.as_str(), out);
        proof {
            let e = c@[i as int];
            assert(out@ =~= prev + enc_entry(e));
            lemma_enc_entry_list_push(c@.take(i as int), e);
            assert(c@.take(i as int).push(e) =~= c@.take(i + 1));
            assert(out@ =~= base + enc_entry_list(c@.take(i + 1)));
        }
        i = i + 1;
    }
    proof {
        assert(c@.take(n as int) =~= c@);
    }
}

/// Decide whether the decoded entries form a mapping, with no field
/// name repeated.
fn check_unique_keys(entries: &Vec<(String, String)>) -> (r: bool)
    ensures
        r <==> unique_keys(entries@.map_values(|e: (String, String)| (e.0@, e.1@))),
{
    let ghost view = entries@.map_values(|e: (String, String)| (e.0@, e.1@));
    let n = entries.len();
    let mut i: usize = 0;
    while i < n
        invariant
            i <= n == entries@.len(),
            view == entries@.map_values(|e: (String, String)| (e.0@, e.1@)),
            forall|p: int, q: int| 0 <= p < q < view.len() && p < i ==> (#[trigger] view[p]).0
                != (#[trigger] view[q]).0,
        decreases n - i,
    {
        let mut j: usize = i + 1;
        while j < n
            invariant
                i < j <= n == entries@.len(),
                view == entries@.map_values(|e: (String, String)| (e.0@, e.1@)),
                forall|q: int| i < q < j ==> (#[trigger] view[q]).0 != view[i as int].0,
            decreases n - j,
        {
            if entries[i].0 == entries[j].0 {
                proof {
                    assert(view[i as int].0 == view[j as int].0);
                }
                return false;
            }
            proof {
                assert(view[j as int].0 != view[i as int].0);
            }
            j = j + 1;
        }
        i = i + 1;
    }
    true
}

/// Decode a configuration mapping.
pub fn read_config(b: &[u8], pos: usize) -> (r: Result<(PluginConfig, usize), DecodeError>)
    ensures
        r matches Ok((c, end)) ==> dec_config(b@, pos as int) == Some((c@, end as int)) && pos
            < end <= b@.len() && c.wf(),
        r is Err ==> dec_config(b@, pos as int) is None,
{
    let (count, start) = match read_u64(b, pos) {
        Ok(v) => v,
        Err(e) => {
            return Err(e);
        },
    };
    let mut acc: Vec<(String, String)> = Vec::new();
    let mut cur = start;
    let mut i: u64 = 0;
    let ghost mut got: Seq<(Seq<char>, Seq<char>)> = Seq::empty();
    while i < count
        invariant
            i <= count,
            pos < start <= cur <= b@.len(),
            dec_u64(b@, pos as int) == Some((count, start as int)),
            acc@.len() == got.len() == i,
            forall|j: int| 0 <= j < i ==> ((#[trigger] acc@[j]).0@, acc@[j].1@) == got[j],
            dec_entry_list(b@, start as int, count as nat) == (match dec_entry_list(
                b@,
                cur as int,
                (count - i) as nat,
            ) {
                Some((s, p)) => Some((got + s, p)),
                None => None,
            }),
        decreases count - i,
    {
        let (key, p1) = match read_str(b, cur) {
            Ok(v) => v,
            Err(e) => {
                proof {
                    assert(dec_entry(b@, cur as int) is None);
                    assert(dec_entry_list(b@, cur as int, (count - i) as nat) is None);
                }
                return Err(e);
            },
        };
        let (value, p2) = match read_str(b, p1) {
            Ok(v) => v,
            Err(e) => {
                proof {
                    assert(dec_entry(b@, cur as int) is None);
                    assert(dec_entry_list(b@, cur as int, (count - i) as nat) is None);
                }
                return Err(e);
            },
        };
        proof {
            assert(dec_entry(b@, cur as int) == Some(((key@, value@), p2 as int)));
            let rest = dec_entry_list(b@, p2 as int, (count - i - 1) as nat);
            match rest {
                Some((s, p3)) => {
                    assert((got.push((key@, value@))) + s =~= got + (seq![(key@, value@)] + s));
                },
                None => {},
            }
            got = got.push((key@, value@));
        }
        acc.push((key, value));
        cur = p2;
        i = i + 1;
    }
    proof {
        assert(dec_entry_list(b@, cur as int, 0) == Some(
            (Seq::<(Seq<char>, Seq<char>)>::empty(), cur as int),
        ));
        assert(got + Seq::<(Seq<char>, Seq<char>)>::empty() =~= got);
        assert(acc@.map_values(|e: (String, String)| (e.0@, e.1@)) =~= got);
    }
    if check_unique_keys(&acc) {
        let c = PluginConfig { entries: acc };
        proof {
            assert(c@ =~= got);
        }
        Ok((c, cur))
    } else {
        Err(DecodeError)
    }
}


// ---------------------------------------------------------------------
// IP addresses and DNS records.
// ---------------------------------------------------------------------

pub open spec fn enc_ip(a: IpAddress) -> Seq<u8> {
    match a {
        IpAddress::V4(x) => seq![TAG_IP_V4] + spec_u32_to_le_bytes(x),
        IpAddress::V6(x) => seq![TAG_IP_V6] + spec_u128_to_le_bytes(x),
    }
}

pub open spec fn dec_ip(b: Seq<u8>, pos: int) -> Option<(IpAddress, int)> {
    match dec_u8(b, pos) {
        Some((t, p)) => if t == TAG_IP_V4 {
            match dec_u32(b, p) {
                Some((x, p2)) => Some((IpAddress::V4(x), p2)),
                None => None,
            }
        } else if t == TAG_IP_V6 {
            match dec_u128(b, p) {
                Some((x, p2)) => Some((IpAddress::V6(x), p2)),
                None => None,
            }
        } else {
            None
        },
        None => None,
    }
}

pub proof fn lemma_dec_ip(b: Seq<u8>, pos: int, a: IpAddress)
    requires
        0 <= pos,
        pos + enc_ip(a).len() <= b.len(),
        b.subrange(pos, pos + enc_ip(a).len()) == enc_ip(a),
    ensures
        dec_ip(b, pos) == Some((a, pos + enc_ip(a).len())),
{
    match a {
        IpAddress::V4(x) => {
            lemma_auto_spec_u32_to_from_le_bytes();
            assert(spec_u32_to_le_bytes(x).len() == 4);
            lemma_split_prefix(b, pos, seq![TAG_IP_V4], spec_u32_to_le_bytes(x));
            lemma_dec_u8(b, pos, TAG_IP_V4);
            lemma_dec_u32(b, pos + 1, x);
        },
        IpAddress::V6(x) => {
            lemma_auto_spec_u128_to_from_le_bytes();
            assert(spec_u128_to_le_bytes(x).len() == 16);
            lemma_split_prefix(b, pos, seq![TAG_IP_V6], spec_u128_to_le_bytes(x));
            lemma_dec_u8(b, pos, TAG_IP_V6);
            lemma_dec_u128(b, pos + 1, x);
        },
    }
}

fn encode_ip(a: &IpAddress, out: &mut Vec<u8>)
    ensures
        final(out)@ == old(out)@ + enc_ip(*a),
{
    let ghost prev = out@;
    match a {
        IpAddress::V4(x) => {
            write_u8(TAG_IP_V4, out);
            write_u32(*x, out);
            proof {
                assert(final(out)@ =~= prev + enc_ip(*a));
            }
        },
        IpAddress::V6(x) => {
            write_u8(TAG_IP_V6, out);
            write_u128(*x, out);
            proof {
                assert(final(out)@ =~= prev + enc_ip(*a));
            }
        },
    }
}

fn read_ip(b: &[u8], pos: usize) -> (r: Result<(IpAddress, usize), DecodeError>)
    ensures
        r matches Ok((a, end)) ==> dec_ip(b@, pos as int) == Some((a, end as int)) && pos < end
            <= b@.len(),
        r is Err ==> dec_ip(b@, pos as int) is None,
{
    let (tag, p) = match read_u8(b, pos) {
        Ok(v) => v,
        Err(e) => {
            return Err(e);
        },
    };
    if tag == TAG_IP_V4 {
        match read_u32(b, p) {
            Ok((x, end)) => Ok((IpAddress::V4(x), end)),
            Err(e) => Err(e),
        }
    } else if tag == TAG_IP_V6 {
        match read_u128(b, p) {
            Ok((x, end)) => Ok((IpAddress::V6(x), end)),
            Err(e) => Err(e),
        }
    } else {
        Err(DecodeError)
    }
}

pub open spec fn enc_record(r: DNSRecordV) -> Seq<u8> {
    match r {
        DNSRecordV::A { addr } => seq![TAG_RECORD_A] + spec_u32_to_le_bytes(addr),
        DNSRecordV::AAAA { addr } => seq![TAG_RECORD_AAAA] + spec_u128_to_le_bytes(addr),
        DNSRecordV::CNAME { from, to } => seq![TAG_RECORD_CNAME] + enc_str(from) + enc_str(to),
        DNSRecordV::MX { domain } => seq![TAG_RECORD_MX] + enc_str(domain),
        DNSRecordV::SRV { service, protocol, from, to, to_port } => seq![TAG_RECORD_SRV]
            + enc_str(service) + enc_str(protocol) + enc_str(from) + enc_str(to)
            + spec_u16_to_le_bytes(to_port),
        DNSRecordV::TXT { text } => seq![TAG_RECORD_TXT] + enc_str(text),
    }
}

pub open spec fn dec_record(b: Seq<u8>, pos: int) -> Option<(DNSRecordV, int)> {
    match dec_u8(b, pos) {
        Some((t, p)) => if t == TAG_RECORD_A {
            match dec_u32(b, p) {
                Some((x, p2)) => Some((DNSRecordV::A { addr: x }, p2)),
                None => None,
            }
        } else if t == TAG_RECORD_AAAA {
            match dec_u128(b, p) {
                Some((x, p2)) => Some((DNSRecordV::AAAA { addr: x }, p2)),
                None => None,
            }
        } else if t == TAG_RECORD_CNAME {
            match dec_str(b, p) {
                Some((from, p2)) => match dec_str(b, p2) {
                    Some((to, p3)) => Some((DNSRecordV::CNAME { from, to }, p3)),
                    None => None,
                },
                None => None,
            }
        } else if t == TAG_RECORD_MX {
            match dec_str(b, p) {
                Some((domain, p2)) => Some((DNSRecordV::MX { domain }, p2)),
                None => None,
            }
        } else if t == TAG_RECORD_SRV {
            match dec_str(b, p) {
                Some((service, p2)) => match dec_str(b, p2) {
                    Some((protocol, p3)) => match dec_str(b, p3) {
                        Some((from, p4)) => match dec_str(b, p4) {
                            Some((to, p5)) => match dec_u16(b, p5) {
                                Some((to_port, p6)) => Some(
                                    (DNSRecordV::SRV { service, protocol, from, to, to_port }, p6),
                                ),
                                None => None,
                            },
                            None => None,
                        },
                        None => None,
                    },
                    None => None,
                },
                None => None,
            }
        } else if t == TAG_RECORD_TXT {
            match dec_str(b, p) {
                Some((text, p2)) => Some((DNSRecordV::TXT { text }, p2)),
                None => None,
            }
        } else {
            None
        },
        None => None,
    }
}

pub open spec fn record_wf(r: DNSRecordV) -> bool {
    match r {
        DNSRecordV::A { addr } => true,
        DNSRecordV::AAAA { addr } => true,
        DNSRecordV::CNAME { from, to } => str_wf(from) && str_wf(to),
        DNSRecordV::MX { domain } => str_wf(domain),
        DNSRecordV::SRV { service, protocol, from, to, to_port } => str_wf(service) && str_wf(
            protocol,
        ) && str_wf(from) && str_wf(to),
        DNSRecordV::TXT { text } => str_wf(text),
    }
}

pub proof fn lemma_dec_record(b: Seq<u8>, pos: int, r: DNSRecordV)
    requires
        0 <= pos,
        record_wf(r),
        pos + enc_record(r).len() <= b.len(),
        b.subrange(pos, pos + enc_record(r).len()) == enc_record(r),
    ensures
        dec_record(b, pos) == Some((r, pos + enc_record(r).len())),
{
    match r {
        DNSRecordV::A { addr } => {
            lemma_auto_spec_u32_to_from_le_bytes();
            assert(spec_u32_to_le_bytes(addr).len() == 4);
            lemma_split_prefix(b, pos, seq![TAG_RECORD_A], spec_u32_to_le_bytes(addr));
            lemma_dec_u8(b, pos, TAG_RECORD_A);
            lemma_dec_u32(b, pos + 1, addr);
        },
        DNSRecordV::AAAA { addr } => {
            lemma_auto_spec_u128_to_from_le_bytes();
            assert(spec_u128_to_le_bytes(addr).len() == 16);
            lemma_split_prefix(b, pos, seq![TAG_RECORD_AAAA], spec_u128_to_le_bytes(addr));
            lemma_dec_u8(b, pos, TAG_RECORD_AAAA);
            lemma_dec_u128(b, pos + 1, addr);
        },
        DNSRecordV::CNAME { from, to } => {
            assert(enc_record(r) =~= seq![TAG_RECORD_CNAME] + (enc_str(from) + enc_str(to)));
            lemma_split_prefix(b, pos, seq![TAG_RECORD_CNAME], enc_str(from) + enc_str(to));
            lemma_dec_u8(b, pos, TAG_RECORD_CNAME);
            lemma_split_prefix(b, pos + 1, enc_str(from), enc_str(to));
            lemma_dec_str(b, pos + 1, from);
            lemma_dec_str(b, pos + 1 + enc_str(from).len(), to);
        },
        DNSRecordV::MX { domain } => {
            lemma_split_prefix(b, pos, seq![TAG_RECORD_MX], enc_str(domain));
            lemma_dec_u8(b, pos, TAG_RECORD_MX);
            lemma_dec_str(b, pos + 1, domain);
        },
        DNSRecordV::SRV { service, protocol, from, to, to_port } => {
            let e1 = enc_str(service);
            let e2 = enc_str(protocol);
            let e3 = enc_str(from);
            let e4 = enc_str(to);
            let e5 = spec_u16_to_le_bytes(to_port);
            lemma_auto_spec_u16_to_from_le_bytes();
            assert(e5.len() == 2);
            assert(enc_record(r) =~= seq![TAG_RECORD_SRV] + (e1 + (e2 + (e3 + (e4 + e5)))));
            lemma_split_prefix(b, pos, seq![TAG_RECORD_SRV], e1 + (e2 + (e3 + (e4 + e5))));
            lemma_dec_u8(b, pos, TAG_RECORD_SRV);
            let p1 = pos + 1;
            lemma_split_prefix(b, p1, e1, e2 + (e3 + (e4 + e5)));
            lemma_dec_str(b, p1, service);
            let p2 = p1 + e1.len();
            lemma_split_prefix(b, p2, e2, e3 + (e4 + e5));
            lemma_dec_str(b, p2, protocol);
            let p3 = p2 + e2.len();
            lemma_split_prefix(b, p3, e3, e4 + e5);
            lemma_dec_str(b, p3, from);
            let p4 = p3 + e3.len();
            lemma_split_prefix(b, p4, e4, e5);
            lemma_dec_str(b, p4, to);
            let p5 = p4 + e4.len();
            lemma_dec_u16(b, p5, to_port);
        },
        DNSRecordV::TXT { text } => {
            lemma_split_prefix(b, pos, seq![TAG_RECORD_TXT], enc_str(text));
            lemma_dec_u8(b, pos, TAG_RECORD_TXT);
            lemma_dec_str(b, pos + 1, text);
        },
    }
}

fn encode_record(r: &DNSRecord, out: &mut Vec<u8>)
    ensures
        final(out)@ == old(out)@ + enc_record(r@),
        record_wf(r@),
{
    let ghost prev = out@;
    match r {
        DNSRecord::A(addr) => {
            write_u8(TAG_RECORD_A, out);
            write_u32(*addr, out);
            proof {
                assert(final(out)@ =~= prev + enc_record(r@));
            }
        },
        DNSRecord::AAAA(addr) => {
            write_u8(TAG_RECORD_AAAA, out);
            write_u128(*addr, out);
            proof {
                assert(final(out)@ =~= prev + enc_record(r@));
            }
        },
        DNSRecord::CNAME { from, to } => {
            write_u8(TAG_RECORD_CNAME, out);
            encode_str(from.as_str(), out);
            encode_str(to.as_str(), out);
            proof {
                assert(final(out)@ =~= prev + enc_record(r@));
            }
        },
        DNSRecord::MX(domain) => {
            write_u8(TAG_RECORD_MX, out);
            encode_str(domain.as_str(), out);
            proof {
                assert(final(out)@ =~= prev + enc_record(r@));
            }
        },
        DNSRecord::SRV { service, protocol, from, to, to_port } => {
            write_u8(TAG_RECORD_SRV, out);
            encode_str(service.as_str(), out);
            encode_str(protocol.as_str(), out);
            encode_str(from.as_str(), out);
            encode_str(to.as_str(), out);
            write_u16(*to_port, out);
            proof {
                assert(final(out)@ =~= prev + enc_record(r@));
            }
        },
        DNSRecord::TXT(text) => {
            write_u8(TAG_RECORD_TXT, out);
            encode_str(text.as_str(), out);
            proof {
                assert(final(out)@ =~= prev + enc_record(r@));
            }
        },
    }
}

fn read_record(b: &[u8], pos: usize) -> (r: Result<(DNSRecord, usize), DecodeError>)
    ensures
        r matches Ok((rec, end)) ==> dec_record(b@, pos as int) == Some((rec@, end as int))
            && pos < end <= b@.len(),
        r is Err ==> dec_record(b@, pos as int) is None,
{
    let (tag, p) = match read_u8(b, pos) {
        Ok(v) => v,
        Err(e) => {
            return Err(e);
        },
    };
    if tag == TAG_RECORD_A {
        match read_u32(b, p) {
            Ok((x, end)) => Ok((DNSRecord::A(x), end)),
            Err(e) => Err(e),
        }
    } else if tag == TAG_RECORD_AAAA {
        match read_u128(b, p) {
            Ok((x, end)) => Ok((DNSRecord::AAAA(x), end)),
            Err(e) => Err(e),
        }
    } else if tag == TAG_RECORD_CNAME {
        let (from, p2) = match read_str(b, p) {
            Ok(v) => v,
            Err(e) => {
                return Err(e);
            },
        };
        let (to, end) = match read_str(b, p2) {
            Ok(v) => v,
            Err(e) => {
                return Err(e);
            },
        };
        Ok((DNSRecord::CNAME { from, to: Domain { domain: to } }, end))
    } else if tag == TAG_RECORD_MX {
        match read_str(b, p) {
            Ok((domain, end)) => Ok((DNSRecord::MX(Domain { domain }), end)),
            Err(e) => Err(e),
        }
    } else if tag == TAG_RECORD_SRV {
        let (service, p2) = match read_str(b, p) {
            Ok(v) => v,
            Err(e) => {
                return Err(e);
            },
        };
        let (protocol, p3) = match read_str(b, p2) {
            Ok(v) => v,
            Err(e) => {
                return Err(e);
            },
        };
        let (from, p4) = match read_str(b, p3) {
            Ok(v) => v,
            Err(e) => {
                return Err(e);
            },
        };
        let (to, p5) = match read_str(b, p4) {
            Ok(v) => v,
            Err(e) => {
                return Err(e);
            },
        };
        let (to_port, end) = match read_u16(b, p5) {
            Ok(v) => v,
            Err(e) => {
                return Err(e);
            },
        };
        Ok((DNSRecord::SRV { service, protocol, from, to, to_port }, end))
    } else if tag == TAG_RECORD_TXT {
        match read_str(b, p) {
            Ok((text, end)) => Ok((DNSRecord::TXT(text), end)),
            Err(e) => Err(e),
        }
    } else {
        Err(DecodeError)
    }
}


// ---------------------------------------------------------------------
// Graph nodes.
// ---------------------------------------------------------------------

pub open spec fn enc_node(n: NodeV) -> Seq<u8> {
    match n {
        NodeV::SocialMedia { social_media_url, account_url } => seq![TAG_NODE_SOCIAL_MEDIA]
            + enc_str(social_media_url) + enc_str(account_url),
        NodeV::Website { url } => seq![TAG_NODE_WEBSITE] + enc_str(url),
        NodeV::IP { addr } => seq![TAG_NODE_IP] + enc_ip(addr),
        NodeV::PhoneNumber { number } => seq![TAG_NODE_PHONE_NUMBER] + enc_str(number),
        NodeV::EmailAddress { email } => seq![TAG_NODE_EMAIL_ADDRESS] + enc_str(email),
        NodeV::Person { name } => seq![TAG_NODE_PERSON] + enc_str(name),
        NodeV::Organization { name } => seq![TAG_NODE_ORGANIZATION] + enc_str(name),
        NodeV::Domain { domain } => seq![TAG_NODE_DOMAIN] + enc_str(domain),
        NodeV::DNSEntry { nameserver, record } => seq![TAG_NODE_DNS_ENTRY] + enc_str(nameserver)
            + enc_record(record),
    }
}

pub open spec fn dec_node(b: Seq<u8>, pos: int) -> Option<(NodeV, int)> {
    match dec_u8(b, pos) {
        Some((t, p)) => if t == TAG_NODE_SOCIAL_MEDIA {
            match dec_str(b, p) {
                Some((social_media_url, p2)) => match dec_str(b, p2) {
                    Some((account_url, p3)) => Some(
                        (NodeV::SocialMedia { social_media_url, account_url }, p3),
                    ),
                    None => None,
                },
                None => None,
            }
        } else if t == TAG_NODE_WEBSITE {
            match dec_str(b, p) {
                Some((url, p2)) => Some((NodeV::Website { url }, p2)),
                None => None,
            }
        } else if t == TAG_NODE_IP {
            match dec_ip(b, p) {
                Some((addr, p2)) => Some((NodeV::IP { addr }, p2)),
                None => None,
            }
        } else if t == TAG_NODE_PHONE_NUMBER {
            match dec_str(b, p) {
                Some((number, p2)) => Some((NodeV::PhoneNumber { number }, p2)),
                None => None,
            }
        } else if t == TAG_NODE_EMAIL_ADDRESS {
            match dec_str(b, p) {
                Some((email, p2)) => Some((NodeV::EmailAddress { email }, p2)),
                None => None,
            }
        } else if t == TAG_NODE_PERSON {
            match dec_str(b, p) {
                Some((name, p2)) => Some((NodeV::Person { name }, p2)),
                None => None,
            }
        } else if t == TAG_NODE_ORGANIZATION {
            match dec_str(b, p) {
                Some((name, p2)) => Some((NodeV::Organization { name }, p2)),
                None => None,
            }
        } else if t == TAG_NODE_DOMAIN {
            match dec_str(b, p) {
                Some((domain, p2)) => Some((NodeV::Domain { domain }, p2)),
                None => None,
            }
        } else if t == TAG_NODE_DNS_ENTRY {
            match dec_str(b, p) {
                Some((nameserver, p2)) => match dec_record(b, p2) {
                    Some((record, p3)) => Some((NodeV::DNSEntry { nameserver, record }, p3)),
                    None => None,
                },
                None => None,
            }
        } else {
            None
        },
        None => None,
    }
}

pub open spec fn node_wf(n: NodeV) -> bool {
    match n {
        NodeV::SocialMedia { social_media_url, account_url } => str_wf(social_media_url)
            && str_wf(account_url),
        NodeV::Website { url } => str_wf(url),
        NodeV::IP { addr } => true,
        NodeV::PhoneNumber { number } => str_wf(number),
        NodeV::EmailAddress { email } => str_wf(email),
        NodeV::Person { name } => str_wf(name),
        NodeV::Organization { name } => str_wf(name),
        NodeV::Domain { domain } => str_wf(domain),
        NodeV::DNSEntry { nameserver, record } => str_wf(nameserver) && record_wf(record),
    }
}

pub proof fn lemma_dec_node(b: Seq<u8>, pos: int, n: NodeV)
    requires
        0 <= pos,
        node_wf(n),
        pos + enc_node(n).len() <= b.len(),
        b.subrange(pos, pos + enc_node(n).len()) == enc_node(n),
    ensures
        dec_node(b, pos) == Some((n, pos + enc_node(n).len())),
{
    match n {
        NodeV::SocialMedia { social_media_url, account_url } => {
            assert(enc_node(n) =~= seq![TAG_NODE_SOCIAL_MEDIA] + (enc_str(social_media_url)
                + enc_str(account_url)));
            lemma_split_prefix(
                b,
                pos,
                seq![TAG_NODE_SOCIAL_MEDIA],
                enc_str(social_media_url) + enc_str(account_url),
            );
            lemma_dec_u8(b, pos, TAG_NODE_SOCIAL_MEDIA);
            lemma_split_prefix(b, pos + 1, enc_str(social_media_url), enc_str(account_url));
            lemma_dec_str(b, pos + 1, social_media_url);
            lemma_dec_str(b, pos + 1 + enc_str(social_media_url).len(), account_url);
        },
        NodeV::Website { url } => {
            lemma_split_prefix(b, pos, seq![TAG_NODE_WEBSITE], enc_str(url));
            lemma_dec_u8(b, pos, TAG_NODE_WEBSITE);
            lemma_dec_str(b, pos + 1, url);
        },
        NodeV::IP { addr } => {
            lemma_split_prefix(b, pos, seq![TAG_NODE_IP], enc_ip(addr));
            lemma_dec_u8(b, pos, TAG_NODE_IP);
            lemma_dec_ip(b, pos + 1, addr);
        },
        NodeV::PhoneNumber { number } => {
            lemma_split_prefix(b, pos, seq![TAG_NODE_PHONE_NUMBER], enc_str(number));
            lemma_dec_u8(b, pos, TAG_NODE_PHONE_NUMBER);
            lemma_dec_str(b, pos + 1, number);
        },
        NodeV::EmailAddress { email } => {
            lemma_split_prefix(b, pos, seq![TAG_NODE_EMAIL_ADDRESS], enc_str(email));
            lemma_dec_u8(b, pos, TAG_NODE_EMAIL_ADDRESS);
            lemma_dec_str(b, pos + 1, email);
        },
        NodeV::Person { name } => {
            lemma_split_prefix(b, pos, seq![TAG_NODE_PERSON], enc_str(name));
            lemma_dec_u8(b, pos, TAG_NODE_PERSON);
            lemma_dec_str(b, pos + 1, name);
        },
        NodeV::Organization { name } => {
            lemma_split_prefix(b, pos, seq![TAG_NODE_ORGANIZATION], enc_str(name));
            lemma_dec_u8(b, pos, TAG_NODE_ORGANIZATION);
            lemma_dec_str(b, pos + 1, name);
        },
        NodeV::Domain { domain } => {
            lemma_split_prefix(b, pos, seq![TAG_NODE_DOMAIN], enc_str(domain));
            lemma_dec_u8(b, pos, TAG_NODE_DOMAIN);
            lemma_dec_str(b, pos + 1, domain);
        },
        NodeV::DNSEntry { nameserver, record } => {
            assert(enc_node(n) =~= seq![TAG_NODE_DNS_ENTRY] + (enc_str(nameserver) + enc_record(
            record)));
            lemma_split_prefix(
                b,
                pos,
                seq![TAG_NODE_DNS_ENTRY],
                enc_str(nameserver) + enc_record(record),
            );
            lemma_dec_u8(b, pos, TAG_NODE_DNS_ENTRY);
            lemma_split_prefix(b, pos + 1, enc_str(nameserver), enc_record(record));
            lemma_dec_str(b, pos + 1, nameserver);
            lemma_dec_record(b, pos + 1 + enc_str(nameserver).len(), record);
        },
    }
}

/// Encode one node.
pub fn encode_node(n: &Node, out: &mut Vec<u8>)
    ensures
        final(out)@ == old(out)@ + enc_node(n@),
        node_wf(n@),
{
    let ghost prev = out@;
    match n {
        Node::SocialMedia { social_media_url, account_url } => {
            write_u8(TAG_NODE_SOCIAL_MEDIA, out);
            encode_str(social_media_url.as_str(), out);
            encode_str(account_url.as_str(), out);
            proof {
                assert(final(out)@ =~= prev + enc_node(n@));
            }
        },
        Node::Website { url } => {
            write_u8(TAG_NODE_WEBSITE, out);
            encode_str(url.as_str(), out);
            proof {
                assert(final(out)@ =~= prev + enc_node(n@));
            }
        },
        Node::IP(addr) => {
            write_u8(TAG_NODE_IP, out);
            encode_ip(addr, out);
            proof {
                assert(final(out)@ =~= prev + enc_node(n@));
            }
        },
        Node::PhoneNumber(number) => {
            write_u8(TAG_NODE_PHONE_NUMBER, out);
            encode_str(number.as_str(), out);
            proof {
                assert(final(out)@ =~= prev + enc_node(n@));
            }
        },
        Node::EmailAddress(email) => {
            write_u8(TAG_NODE_EMAIL_ADDRESS, out);
            encode_str(email.as_str(), out);
            proof {
                assert(final(out)@ =~= prev + enc_node(n@));
            }
        },
        Node::Person(name) => {
            write_u8(TAG_NODE_PERSON, out);
            encode_str(name.as_str(), out);
            proof {
                assert(final(out)@ =~= prev + enc_node(n@));
            }
        },
        Node::Organization(name) => {
            write_u8(TAG_NODE_ORGANIZATION, out);
            encode_str(name.as_str(), out);
            proof {
                assert(final(out)@ =~= prev + enc_node(n@));
            }
        },
        Node::Domain(domain) => {
            write_u8(TAG_NODE_DOMAIN, out);
            encode_str(domain.as_str(), out);
            proof {
                assert(final(out)@ =~= prev + enc_node(n@));
            }
        },
        Node::DNSEntry { nameserver, record } => {
            write_u8(TAG_NODE_DNS_ENTRY, out);
            encode_str(nameserver.as_str(), out);
            encode_record(record, out);
            proof {
                assert(final(out)@ =~= prev + enc_node(n@));
            }
        },
    }
}

/// Decode one node.
pub fn read_node(b: &[u8], pos: usize) -> (r: Result<(Node, usize), DecodeError>)
    ensures
        r matches Ok((n, end)) ==> dec_node(b@, pos as int) == Some((n@, end as int)) && pos
            < end <= b@.len(),
        r is Err ==> dec_node(b@, pos as int) is None,
{
    let (tag, p) = match read_u8(b, pos) {
        Ok(v) => v,
        Err(e) => {
            return Err(e);
        },
    };
    if tag == TAG_NODE_SOCIAL_MEDIA {
        let (social_media_url, p2) = match read_str(b, p) {
            Ok(v) => v,
            Err(e) => {
                return Err(e);
            },
        };
        let (account_url, end) = match read_str(b, p2) {
            Ok(v) => v,
            Err(e) => {
                return Err(e);
            },
        };
        Ok((Node::SocialMedia { social_media_url, account_url }, end))
    } else if tag == TAG_NODE_WEBSITE {
        match read_str(b, p) {
            Ok((url, end)) => Ok((Node::Website { url }, end)),
            Err(e) => Err(e),
        }
    } else if tag == TAG_NODE_IP {
        match read_ip(b, p) {
            Ok((addr, end)) => Ok((Node::IP(addr), end)),
            Err(e) => Err(e),
        }
    } else if tag == TAG_NODE_PHONE_NUMBER {
        match read_str(b, p) {
            Ok((number, end)) => Ok((Node::PhoneNumber(PhoneNumber { number }), end)),
            Err(e) => Err(e),
        }
    } else if tag == TAG_NODE_EMAIL_ADDRESS {
        match read_str(b, p) {
            Ok((email, end)) => Ok((Node::EmailAddress(EmailAddress { email }), end)),
            Err(e) => Err(e),
        }
    } else if tag == TAG_NODE_PERSON {
        match read_str(b, p) {
            Ok((name, end)) => Ok((Node::Person(name), end)),
            Err(e) => Err(e),
        }
    } else if tag == TAG_NODE_ORGANIZATION {
        match read_str(b, p) {
            Ok((name, end)) => Ok((Node::Organization(name), end)),
            Err(e) => Err(e),
        }
    } else if tag == TAG_NODE_DOMAIN {
        match read_str(b, p) {
            Ok((domain, end)) => Ok((Node::Domain(Domain { domain }), end)),
            Err(e) => Err(e),
        }
    } else if tag == TAG_NODE_DNS_ENTRY {
        let (nameserver, p2) = match read_str(b, p) {
            Ok(v) => v,
            Err(e) => {
                return Err(e);
            },
        };
        let (record, end) = match read_record(b, p2) {
            Ok(v) => v,
            Err(e) => {
                return Err(e);
            },
        };
        Ok((Node::DNSEntry { nameserver: Domain { domain: nameserver }, record }, end))
    } else {
        Err(DecodeError)
    }
}


// ---------------------------------------------------------------------
// Whole graphs: a vertex count and the vertices, then an edge count and
// the edges. An edge names its endpoints by vertex index; an index at
// or past the vertex count is rejected, so a decoded graph always
// satisfies its well-formedness invariant.
// ---------------------------------------------------------------------

pub open spec fn enc_edge(e: EdgeV) -> Seq<u8> {
    spec_u64_to_le_bytes(e.from as u64) + spec_u64_to_le_bytes(e.to as u64) + enc_label(e.label)
}

pub open spec fn dec_edge(b: Seq<u8>, pos: int, node_count: int) -> Option<(EdgeV, int)> {
    match dec_u64(b, pos) {
        Some((f, p)) => match dec_u64(b, p) {
            Some((t, p2)) => match dec_label(b, p2) {
                Some((l, p3)) => if f < node_count && t < node_count {
                    Some((EdgeV { from: f as int, to: t as int, label: l }, p3))
                } else {
                    None
                },
                None => None,
            },
            None => None,
        },
        None => None,
    }
}

pub open spec fn edge_wf(e: EdgeV, node_count: int) -> bool {
    &&& 0 <= e.from < node_count
    &&& 0 <= e.to < node_count
    &&& label_wf(e.label)
}

pub open spec fn enc_node_list(s: Seq<NodeV>) -> Seq<u8>
    decreases s.len(),
{
    if s.len() == 0 {
        Seq::empty()
    } else {
        enc_node(s[0]) + enc_node_list(s.drop_first())
    }
}

pub open spec fn dec_node_list(b: Seq<u8>, pos: int, count: nat) -> Option<(Seq<NodeV>, int)>
    decreases count,
{
    if count == 0 {
        Some((Seq::empty(), pos))
    } else {
        match dec_node(b, pos) {
            Some((n, p)) => match dec_node_list(b, p, (count - 1) as nat) {
                Some((s, p2)) => Some((seq![n] + s, p2)),
                None => None,
            },
            None => None,
        }
    }
}

pub open spec fn enc_edge_list(s: Seq<EdgeV>) -> Seq<u8>
    decreases s.len(),
{
    if s.len() == 0 {
        Seq::empty()
    } else {
        enc_edge(s[0]) + enc_edge_list(s.drop_first())
    }
}

pub open spec fn dec_edge_list(b: Seq<u8>, pos: int, count: nat, node_count: int) -> Option<
    (Seq<EdgeV>, int),
>
    decreases count,
{
    if count == 0 {
        Some((Seq::empty(), pos))
    } else {
        match dec_edge(b, pos, node_count) {
            Some((e, p)) => match dec_edge_list(b, p, (count - 1) as nat, node_count) {
                Some((s, p2)) => Some((seq![e] + s, p2)),
                None => None,
            },
            None => None,
        }
    }
}

pub open spec fn enc_graph(g: GraphV) -> Seq<u8> {
    spec_u64_to_le_bytes(g.nodes.len() as u64) + enc_node_list(g.nodes) + spec_u64_to_le_bytes(
        g.edges.len() as u64,
    ) + enc_edge_list(g.edges)
}

pub open spec fn dec_graph(b: Seq<u8>, pos: int) -> Option<(GraphV, int)> {
    match dec_u64(b, pos) {
        Some((ncount, p)) => match dec_node_list(b, p, ncount as nat) {
            Some((nodes, p2)) => match dec_u64(b, p2) {
                Some((ecount, p3)) => match dec_edge_list(
                    b,
                    p3,
                    ecount as nat,
                    nodes.len() as int,
                ) {
                    Some((edges, p4)) => Some((GraphV { nodes, edges }, p4)),
                    None => None,
                },
                None => None,
            },
            None => None,
        },
        None => None,
    }
}

/// A graph value fits the wire format: counts fit 64 bits, every vertex
/// and label fits, and every edge names vertices that are present.
pub open spec fn graph_enc_wf(g: GraphV) -> bool {
    &&& g.nodes.len() < 0x1_0000_0000_0000_0000
    &&& g.edges.len() < 0x1_0000_0000_0000_0000
    &&& (forall|i: int| 0 <= i < g.nodes.len() ==> node_wf(#[trigger] g.nodes[i]))
    &&& (forall|i: int|
        0 <= i < g.edges.len() ==> edge_wf(#[trigger] g.edges[i], g.nodes.len() as int))
}

pub proof fn lemma_dec_edge(b: Seq<u8>, pos: int, e: EdgeV, node_count: int)
    requires
        0 <= pos,
        edge_wf(e, node_count),
        node_count < 0x1_0000_0000_0000_0000,
        pos + enc_edge(e).len() <= b.len(),
        b.subrange(pos, pos + enc_edge(e).len()) == enc_edge(e),
    ensures
        dec_edge(b, pos, node_count) == Some((e, pos + enc_edge(e).len())),
{
    let f = spec_u64_to_le_bytes(e.from as u64);
    let t = spec_u64_to_le_bytes(e.to as u64);
    let l = enc_label(e.label);
    lemma_auto_spec_u64_to_from_le_bytes();
    assert(f.len() == 8);
    assert(t.len() == 8);
    assert(enc_edge(e) =~= f + (t + l));
    lemma_split_prefix(b, pos, f, t + l);
    lemma_dec_u64(b, pos, e.from as u64);
    lemma_split_prefix(b, pos + 8, t, l);
    lemma_dec_u64(b, pos + 8, e.to as u64);
    lemma_dec_label(b, pos + 16, e.label);
}

pub proof fn lemma_dec_node_list(b: Seq<u8>, pos: int, s: Seq<NodeV>)
    requires
        0 <= pos,
        forall|i: int| 0 <= i < s.len() ==> node_wf(#[trigger] s[i]),
        pos + enc_node_list(s).len() <= b.len(),
        b.subrange(pos, pos + enc_node_list(s).len()) == enc_node_list(s),
    ensures
        dec_node_list(b, pos, s.len()) == Some((s, pos + enc_node_list(s).len())),
    decreases s.len(),
{
    if s.len() == 0 {
        assert(s =~= Seq::<NodeV>::empty());
    } else {
        let n = s[0];
        let rest = s.drop_first();
        lemma_split_prefix(b, pos, enc_node(n), enc_node_list(rest));
        lemma_dec_node(b, pos, n);
        lemma_dec_node_list(b, pos + enc_node(n).len(), rest);
        assert(seq![n] + rest =~= s);
    }
}

pub proof fn lemma_dec_edge_list(b: Seq<u8>, pos: int, s: Seq<EdgeV>, node_count: int)
    requires
        0 <= pos,
        node_count < 0x1_0000_0000_0000_0000,
        forall|i: int| 0 <= i < s.len() ==> edge_wf(#[trigger] s[i], node_count),
        pos + enc_edge_list(s).len() <= b.len(),
        b.subrange(pos, pos + enc_edge_list(s).len()) == enc_edge_list(s),
    ensures
        dec_edge_list(b, pos, s.len(), node_count) == Some((s, pos + enc_edge_list(s).len())),
    decreases s.len(),
{
    if s.len() == 0 {
        assert(s =~= Seq::<EdgeV>::empty());
    } else {
        let e = s[0];
        let rest = s.drop_first();
        lemma_split_prefix(b, pos, enc_edge(e), enc_edge_list(rest));
        lemma_dec_edge(b, pos, e, node_count);
        lemma_dec_edge_list(b, pos + enc_edge(e).len(), rest, node_count);
        assert(seq![e] + rest =~= s);
    }
}

pub proof fn lemma_enc_node_list_push(s: Seq<NodeV>, n: NodeV)
    ensures
        enc_node_list(s.push(n)) == enc_node_list(s) + enc_node(n),
    decreases s.len(),
{
    if s.len() == 0 {
        assert(s.push(n)[0] == n);
        assert(s.push(n).drop_first() =~= Seq::<NodeV>::empty());
        assert(enc_node_list(Seq::<NodeV>::empty()) == Seq::<u8>::empty());
        assert(enc_node_list(s.push(n)) == enc_node(n) + Seq::<u8>::empty());
        assert(enc_node(n) + Seq::<u8>::empty() =~= enc_node(n));
        assert(enc_node_list(s) == Seq::<u8>::empty());
        assert(Seq::<u8>::empty() + enc_node(n) =~= enc_node(n));
    } else {
        assert(s.push(n)[0] == s[0]);
        assert(s.push(n).drop_first() =~= s.drop_first().push(n));
        lemma_enc_node_list_push(s.drop_first(), n);
        assert(enc_node_list(s.push(n)) == enc_node(s[0]) + (enc_node_list(s.drop_first())
            + enc_node(n)));
        assert(enc_node(s[0]) + (enc_node_list(s.drop_first()) + enc_node(n)) =~= (enc_node(s[0])
            + enc_node_list(s.drop_first())) + enc_node(n));
    }
}

pub proof fn lemma_enc_edge_list_push(s: Seq<EdgeV>, e: EdgeV)
    ensures
        enc_edge_list(s.push(e)) == enc_edge_list(s) + enc_edge(e),
    decreases s.len(),
{
    if s.len() == 0 {
        assert(s.push(e)[0] == e);
        assert(s.push(e).drop_first() =~= Seq::<EdgeV>::empty());
        assert(enc_edge_list(Seq::<EdgeV>::empty()) == Seq::<u8>::empty());
        assert(enc_edge_list(s.push(e)) == enc_edge(e) + Seq::<u8>::empty());
        assert(enc_edge(e) + Seq::<u8>::empty() =~= enc_edge(e));
        assert(enc_edge_list(s) == Seq::<u8>::empty());
        assert(Seq::<u8>::empty() + enc_edge(e) =~= enc_edge(e));
    } else {
        assert(s.push(e)[0] == s[0]);
        assert(s.push(e).drop_first() =~= s.drop_first().push(e));
        lemma_enc_edge_list_push(s.drop_first(), e);
        assert(enc_edge_list(s.push(e)) == enc_edge(s[0]) + (enc_edge_list(s.drop_first())
            + enc_edge(e)));
        assert(enc_edge(s[0]) + (enc_edge_list(s.drop_first()) + enc_edge(e)) =~= (enc_edge(s[0])
            + enc_edge_list(s.drop_first())) + enc_edge(e));
    }
}

/// Encode a whole graph.
pub fn encode_graph(g: &Graph, out: &mut Vec<u8>)
    ensures
        final(out)@ == old(out)@ + enc_graph(g@),
        g.wf() ==> graph_enc_wf(g@),
{
    let ncount = g.nodes.len();
    write_u64(ncount as u64, out);
    let ghost base1 = out@;
    let mut i: usize = 0;
    while i < ncount
        invariant
            i <= ncount == g.nodes@.len(),
            out@ == base1 + enc_node_list(g@.nodes.take(i as int)),
            forall|j: int| 0 <= j < i ==> node_wf(#[trigger] g@.nodes[j]),
        decreases ncount - i,
    {
        encode_node(&g.nodes[i], out);
        proof {
            assert(g.nodes@[i as int]@ == g@.nodes[i as int]);
            lemma_enc_node_list_push(g@.nodes.take(i as int), g@.nodes[i as int]);
            assert(g@.nodes.take(i as int).push(g@.nodes[i as int]) =~= g@.nodes.take(i + 1));
            assert(out@ =~= base1 + enc_node_list(g@.nodes.take(i + 1)));
        }
        i = i + 1;
    }
    proof {
        assert(g@.nodes.take(ncount as int) =~= g@.nodes);
    }
    let ecount = g.edges.len();
    write_u64(ecount as u64, out);
    let ghost base2 = out@;
    let mut k: usize = 0;
    while k < ecount
        invariant
            k <= ecount == g.edges@.len(),
            out@ == base2 + enc_edge_list(g@.edges.take(k as int)),
            forall|j: int| 0 <= j < k ==> label_wf((#[trigger] g@.edges[j]).label),
        decreases ecount - k,
    {
        let ghost prev = out@;
        let edge = &g.edges[k];
        write_u64(edge.from as u64, out);
        write_u64(edge.to as u64, out);
        encode_label(&edge.label, out);
        proof {
            assert(g.edges@[k as int]@ == g@.edges[k as int]);
            let ev = g@.edges[k as int];
            assert(out@ =~= prev + enc_edge(ev));
            lemma_enc_edge_list_push(g@.edges.take(k as int), ev);
            assert(g@.edges.take(k as int).push(ev) =~= g@.edges.take(k + 1));
            assert(out@ =~= base2 + enc_edge_list(g@.edges.take(k + 1)));
        }
        k = k + 1;
    }
    proof {
        assert(g@.edges.take(ecount as int) =~= g@.edges);
        assert(final(out)@ =~= old(out)@ + enc_graph(g@));
    }
}

/// Decode a whole graph. A well-formed result is guaranteed: every edge
/// of the decoded graph names vertices the graph holds.
pub fn read_graph(b: &[u8], pos: usize) -> (r: Result<(Graph, usize), DecodeError>)
    ensures
        r matches Ok((g, end)) ==> dec_graph(b@, pos as int) == Some((g@, end as int)) && pos
            < end <= b@.len() && g.wf(),
        r is Err ==> dec_graph(b@, pos as int) is None,
{
    let (ncount, nstart) = match read_u64(b, pos) {
        Ok(v) => v,
        Err(e) => {
            return Err(e);
        },
    };
    let mut nodes: Vec<Node> = Vec::new();
    let mut cur = nstart;
    let mut i: u64 = 0;
    let ghost mut got_nodes: Seq<NodeV> = Seq::empty();
    while i < ncount
        invariant
            i <= ncount,
            pos < nstart <= cur <= b@.len(),
            dec_u64(b@, pos as int) == Some((ncount, nstart as int)),
            nodes@.len() == got_nodes.len() == i,
            forall|j: int| 0 <= j < i ==> (#[trigger] nodes@[j])@ == got_nodes[j],
            dec_node_list(b@, nstart as int, ncount as nat) == (match dec_node_list(
                b@,
                cur as int,
                (ncount - i) as nat,
            ) {
                Some((s, p)) => Some((got_nodes + s, p)),
                None => None,
            }),
        decreases ncount - i,
    {
        let (n, p) = match read_node(b, cur) {
            Ok(v) => v,
            Err(e) => {
                proof {
                    assert(dec_node_list(b@, cur as int, (ncount - i) as nat) is None);
                }
                return Err(e);
            },
        };
        proof {
            let rest = dec_node_list(b@, p as int, (ncount - i - 1) as nat);
            match rest {
                Some((s, p2)) => {
                    assert((got_nodes.push(n@)) + s =~= got_nodes + (seq![n@] + s));
                },
                None => {},
            }
            got_nodes = got_nodes.push(n@);
        }
        nodes.push(n);
        cur = p;
        i = i + 1;
    }
    proof {
        assert(dec_node_list(b@, cur as int, 0) == Some((Seq::<NodeV>::empty(), cur as int)));
        assert(got_nodes + Seq::<NodeV>::empty() =~= got_nodes);
    }
    let (ecount, estart) = match read_u64(b, cur) {
        Ok(v) => v,
        Err(e) => {
            return Err(e);
        },
    };
    let node_total = nodes.len();
    let mut edges: Vec<Edge> = Vec::new();
    let mut ecur = estart;
    let mut k: u64 = 0;
    let ghost mut got_edges: Seq<EdgeV> = Seq::empty();
    while k < ecount
        invariant
            k <= ecount,
            pos < estart <= ecur <= b@.len(),
            node_total == nodes@.len() == got_nodes.len(),
            dec_u64(b@, pos as int) == Some((ncount, nstart as int)),
            dec_node_list(b@, nstart as int, ncount as nat) == Some(
                (got_nodes, estart - 8),
            ),
            dec_u64(b@, (estart - 8) as int) == Some((ecount, estart as int)),
            edges@.len() == got_edges.len() == k,
            forall|j: int| 0 <= j < k ==> (#[trigger] edges@[j])@ == got_edges[j],
            forall|j: int|
                0 <= j < k ==> 0 <= (#[trigger] got_edges[j]).from < node_total && 0
                    <= got_edges[j].to < node_total,
            dec_edge_list(b@, estart as int, ecount as nat, node_total as int) == (match
                dec_edge_list(b@, ecur as int, (ecount - k) as nat, node_total as int) {
                Some((s, p)) => Some((got_edges + s, p)),
                None => None,
            }),
        decreases ecount - k,
    {
        let (f, p1) = match read_u64(b, ecur) {
            Ok(v) => v,
            Err(e) => {
                proof {
                    assert(dec_edge(b@, ecur as int, node_total as int) is None);
                    assert(dec_edge_list(b@, ecur as int, (ecount - k) as nat, node_total as int)
                        is None);
                }
                return Err(e);
            },
        };
        let (t, p2) = match read_u64(b, p1) {
            Ok(v) => v,
            Err(e) => {
                proof {
                    assert(dec_edge(b@, ecur as int, node_total as int) is None);
                    assert(dec_edge_list(b@, ecur as int, (ecount - k) as nat, node_total as int)
                        is None);
                }
                return Err(e);
            },
        };
        let (label, p3) = match read_label(b, p2) {
            Ok(v) => v,
            Err(e) => {
                proof {
                    assert(dec_edge(b@, ecur as int, node_total as int) is None);
                    assert(dec_edge_list(b@, ecur as int, (ecount - k) as nat, node_total as int)
                        is None);
                }
                return Err(e);
            },
        };
        if !(f < node_total as u64 && t < node_total as u64) {
            proof {
                assert(dec_edge(b@, ecur as int, node_total as int) is None);
                assert(dec_edge_list(b@, ecur as int, (ecount - k) as nat, node_total as int)
                    is None);
            }
            return Err(DecodeError);
        }
        let edge = Edge { from: f as usize, to: t as usize, label };
        proof {
            let ev = edge@;
            assert(dec_edge(b@, ecur as int, node_total as int) == Some((ev, p3 as int)));
            let rest = dec_edge_list(b@, p3 as int, (ecount - k - 1) as nat, node_total as int);
            match rest {
                Some((s, p4)) => {
                    assert((got_edges.push(ev)) + s =~= got_edges + (seq![ev] + s));
                },
                None => {},
            }
            got_edges = got_edges.push(ev);
        }
        edges.push(edge);
        ecur = p3;
        k = k + 1;
    }
    proof {
        assert(dec_edge_list(b@, ecur as int, 0, node_total as int) == Some(
            (Seq::<EdgeV>::empty(), ecur as int),
        ));
        assert(got_edges + Seq::<EdgeV>::empty() =~= got_edges);
    }
    let g = Graph { nodes, edges };
    proof {
        assert(g@.nodes =~= got_nodes);
        assert(g@.edges =~= got_edges);
        assert(dec_graph(b@, pos as int) == Some((g@, ecur as int)));
        assert forall|j: int| 0 <= j < g@.edges.len() implies 0 <= (#[trigger] g@.edges[j]).from
            < g@.nodes.len() && 0 <= g@.edges[j].to < g@.nodes.len() by {
            assert(g@.edges[j] == got_edges[j]);
        }
    }
    Ok((g, ecur))
}


// ---------------------------------------------------------------------
// Whole values and envelopes. A request envelope carries the current
// configuration snapshot and then its payload; a response envelope is
// the payload alone. Decoding a whole value demands that the bytes are
// consumed exactly: trailing bytes are rejected.
// ---------------------------------------------------------------------

pub proof fn lemma_dec_config(b: Seq<u8>, pos: int, c: Seq<(Seq<char>, Seq<char>)>)
    requires
        0 <= pos,
        config_wf(c),
        pos + enc_config(c).len() <= b.len(),
        b.subrange(pos, pos + enc_config(c).len()) == enc_config(c),
    ensures
        dec_config(b, pos) == Some((c, pos + enc_config(c).len())),
{
    lemma_auto_spec_u64_to_from_le_bytes();
    lemma_split_prefix(b, pos, spec_u64_to_le_bytes(c.len() as u64), enc_entry_list(c));
    lemma_dec_u64(b, pos, c.len() as u64);
    lemma_dec_entry_list(b, pos + 8, c);
}

pub proof fn lemma_dec_graph(b: Seq<u8>, pos: int, g: GraphV)
    requires
        0 <= pos,
        graph_enc_wf(g),
        pos + enc_graph(g).len() <= b.len(),
        b.subrange(pos, pos + enc_graph(g).len()) == enc_graph(g),
    ensures
        dec_graph(b, pos) == Some((g, pos + enc_graph(g).len())),
{
    lemma_auto_spec_u64_to_from_le_bytes();
    let a1 = spec_u64_to_le_bytes(g.nodes.len() as u64);
    let a2 = enc_node_list(g.nodes);
    let a3 = spec_u64_to_le_bytes(g.edges.len() as u64);
    let a4 = enc_edge_list(g.edges);
    assert(a1.len() == 8);
    assert(a3.len() == 8);
    assert(enc_graph(g) =~= a1 + (a2 + (a3 + a4)));
    lemma_split_prefix(b, pos, a1, a2 + (a3 + a4));
    lemma_dec_u64(b, pos, g.nodes.len() as u64);
    let p1 = pos + 8;
    lemma_split_prefix(b, p1, a2, a3 + a4);
    lemma_dec_node_list(b, p1, g.nodes);
    let p2 = p1 + a2.len();
    lemma_split_prefix(b, p2, a3, a4);
    lemma_dec_u64(b, p2, g.edges.len() as u64);
    let p3 = p2 + 8;
    lemma_dec_edge_list(b, p3, g.edges, g.nodes.len() as int);
}

// ---------------------------------------------------------------------
// Round-trip laws: decoding an encoding yields the value that was
// encoded, exactly, for every value that fits the wire format.
// ---------------------------------------------------------------------

/// Law: a DNS record survives the wire unchanged.
pub proof fn lemma_record_round_trip(r: DNSRecordV)
    requires
        record_wf(r),
    ensures
        dec_record(enc_record(r), 0) == Some((r, enc_record(r).len() as int)),
{
    let b = enc_record(r);
    assert(b.subrange(0, b.len() as int) =~= b);
    lemma_dec_record(b, 0, r);
}

/// Law: a node survives the wire unchanged.
pub proof fn lemma_node_round_trip(n: NodeV)
    requires
        node_wf(n),
    ensures
        dec_node(enc_node(n), 0) == Some((n, enc_node(n).len() as int)),
{
    let b = enc_node(n);
    assert(b.subrange(0, b.len() as int) =~= b);
    lemma_dec_node(b, 0, n);
}

/// Law: a graph survives the wire unchanged.
pub proof fn lemma_graph_round_trip(g: GraphV)
    requires
        graph_enc_wf(g),
    ensures
        dec_graph(enc_graph(g), 0) == Some((g, enc_graph(g).len() as int)),
{
    let b = enc_graph(g);
    assert(b.subrange(0, b.len() as int) =~= b);
    lemma_dec_graph(b, 0, g);
}

/// Law: a configuration mapping survives the wire unchanged.
pub proof fn lemma_config_round_trip(c: Seq<(Seq<char>, Seq<char>)>)
    requires
        config_wf(c),
    ensures
        dec_config(enc_config(c), 0) == Some((c, enc_config(c).len() as int)),
{
    let b = enc_config(c);
    assert(b.subrange(0, b.len() as int) =~= b);
    lemma_dec_config(b, 0, c);
}

/// Encode one node as a standalone value.
pub fn node_to_bytes(n: &Node) -> (r: Vec<u8>)
    ensures
        r@ == enc_node(n@),
        node_wf(n@),
{
    let mut out: Vec<u8> = Vec::new();
    encode_node(n, &mut out);
    proof {
        assert(out@ =~= enc_node(n@));
    }
    out
}

/// Decode one node from a standalone value, consuming the bytes exactly.
pub fn node_from_bytes(b: &[u8]) -> (r: Result<Node, DecodeError>)
    ensures
        match dec_node(b@, 0) {
            Some((nv, end)) => if end == b@.len() {
                r matches Ok(n) && n@ == nv
            } else {
                r is Err
            },
            None => r is Err,
        },
{
    match read_node(b, 0) {
        Ok((n, end)) => if end == b.len() {
            Ok(n)
        } else {
            Err(DecodeError)
        },
        Err(e) => Err(e),
    }
}

/// Encode one DNS record as a standalone value.
pub fn record_to_bytes(rec: &DNSRecord) -> (r: Vec<u8>)
    ensures
        r@ == enc_record(rec@),
        record_wf(rec@),
{
    let mut out: Vec<u8> = Vec::new();
    encode_record(rec, &mut out);
    proof {
        assert(out@ =~= enc_record(rec@));
    }
    out
}

/// Decode one DNS record from a standalone value, consuming the bytes
/// exactly.
pub fn record_from_bytes(b: &[u8]) -> (r: Result<DNSRecord, DecodeError>)
    ensures
        match dec_record(b@, 0) {
            Some((rv, end)) => if end == b@.len() {
                r matches Ok(rec) && rec@ == rv
            } else {
                r is Err
            },
            None => r is Err,
        },
{
    match read_record(b, 0) {
        Ok((rec, end)) => if end == b.len() {
            Ok(rec)
        } else {
            Err(DecodeError)
        },
        Err(e) => Err(e),
    }
}

/// Encode one graph as a standalone value.
pub fn graph_to_bytes(g: &Graph) -> (r: Vec<u8>)
    ensures
        r@ == enc_graph(g@),
        g.wf() ==> graph_enc_wf(g@),
{
    let mut out: Vec<u8> = Vec::new();
    encode_graph(g, &mut out);
    proof {
        assert(out@ =~= enc_graph(g@));
    }
    out
}

/// Decode one graph from a standalone value, consuming the bytes
/// exactly. The decoded graph is well-formed.
pub fn graph_from_bytes(b: &[u8]) -> (r: Result<Graph, DecodeError>)
    ensures
        match dec_graph(b@, 0) {
            Some((gv, end)) => if end == b@.len() {
                r matches Ok(g) && g@ == gv && g.wf()
            } else {
                r is Err
            },
            None => r is Err,
        },
{
    match read_graph(b, 0) {
        Ok((g, end)) => if end == b.len() {
            Ok(g)
        } else {
            Err(DecodeError)
        },
        Err(e) => Err(e),
    }
}

/// Law, in running form: carrying any constructible node over the wire
/// yields it back. No caveat is needed: every node the crate can build
/// fits the wire format.
pub fn node_wire_identity(n: &Node) -> (r: Node)
    ensures
        r@ == n@,
{
    let b = node_to_bytes(n);
    proof {
        lemma_node_round_trip(n@);
    }
    match node_from_bytes(b.as_slice()) {
        Ok(m) => m,
        Err(_) => {
            proof {
                assert(false);
            }
            Node::Person(String::new())
        },
    }
}

/// Law, in running form: carrying any constructible DNS record over the
/// wire yields it back.
pub fn record_wire_identity(rec: &DNSRecord) -> (r: DNSRecord)
    ensures
        r@ == rec@,
{
    let b = record_to_bytes(rec);
    proof {
        lemma_record_round_trip(rec@);
    }
    match record_from_bytes(b.as_slice()) {
        Ok(m) => m,
        Err(_) => {
            proof {
                assert(false);
            }
            DNSRecord::TXT(String::new())
        },
    }
}

/// Law, in running form: carrying any well-formed graph over the wire
/// yields it back, vertices, edges and labels alike.
pub fn graph_wire_identity(g: &Graph) -> (r: Graph)
    requires
        g.wf(),
    ensures
        r@ == g@,
        r.wf(),
{
    let b = graph_to_bytes(g);
    proof {
        lemma_graph_round_trip(g@);
    }
    match graph_from_bytes(b.as_slice()) {
        Ok(m) => m,
        Err(_) => {
            proof {
                assert(false);
            }
            Graph::new()
        },
    }
}

/// The request envelope that asks a module for its declared defaults:
/// an empty configuration and an empty string payload.
pub open spec fn enc_default_config_request() -> Seq<u8> {
    enc_config(Seq::empty()) + enc_str(Seq::empty())
}

/// Build the request envelope for a module's `default_config` call.
pub fn encode_default_config_request() -> (r: Vec<u8>)
    ensures
        r@ == enc_default_config_request(),
{
    let mut out: Vec<u8> = Vec::new();
    let empty_config = PluginConfig::new();
    encode_config(&empty_config, &mut out);
    encode_str("", &mut out);
    proof {
        reveal_strlit("");
        assert(""@ =~= Seq::<char>::empty());
        assert(out@ =~= enc_config(Seq::empty()) + enc_str(Seq::empty()));
    }
    out
}

/// Build the request envelope for a module's `exec_on_node` call: the
/// configuration snapshot, then the node.
pub fn encode_node_request(c: &PluginConfig, n: &Node) -> (r: Vec<u8>)
    ensures
        r@ == enc_config(c@) + enc_node(n@),
{
    let mut out: Vec<u8> = Vec::new();
    encode_config(c, &mut out);
    encode_node(n, &mut out);
    proof {
        assert(out@ =~= enc_config(c@) + enc_node(n@));
    }
    out
}

/// Build the request envelope for a module's `exec_on_graph` call: the
/// configuration snapshot, then the graph.
pub fn encode_graph_request(c: &PluginConfig, g: &Graph) -> (r: Vec<u8>)
    ensures
        r@ == enc_config(c@) + enc_graph(g@),
{
    let mut out: Vec<u8> = Vec::new();
    encode_config(c, &mut out);
    encode_graph(g, &mut out);
    proof {
        assert(out@ =~= enc_config(c@) + enc_graph(g@));
    }
    out
}

/// Read a module's `default_config` response: a configuration mapping,
/// consumed exactly.
pub fn decode_config_response(b: &[u8]) -> (r: Result<PluginConfig, DecodeError>)
    ensures
        match dec_config(b@, 0) {
            Some((cv, end)) => if end == b@.len() {
                r matches Ok(c) && c@ == cv && c.wf()
            } else {
                r is Err
            },
            None => r is Err,
        },
{
    match read_config(b, 0) {
        Ok((c, end)) => if end == b.len() {
            Ok(c)
        } else {
            Err(DecodeError)
        },
        Err(e) => Err(e),
    }
}

/// Read a module's `exec_on_node` or `exec_on_graph` response: a graph
/// fragment, consumed exactly.
pub fn decode_graph_response(b: &[u8]) -> (r: Result<Graph, DecodeError>)
    ensures
        match dec_graph(b@, 0) {
            Some((gv, end)) => if end == b@.len() {
                r matches Ok(g) && g@ == gv && g.wf()
            } else {
                r is Err
            },
            None => r is Err,
        },
{
    graph_from_bytes(b)
}

fn read_char(b: &[u8], pos: usize) -> (r: Result<(char, usize), DecodeError>)
    ensures
        r matches Ok((c, end)) ==> dec_char(b@, pos as int) == Some((c, end as int)) && pos < end
            <= b@.len(),
        r is Err ==> dec_char(b@, pos as int) is None,
{
    let (u, end) = match read_u32(b, pos) {
        Ok(v) => v,
        Err(e) => {
            return Err(e);
        },
    };
    match char_from_u32(u) {
        Some(c) => {
            proof {
                char_u32_cast(c, u);
            }
            Ok((c, end))
        },
        None => Err(DecodeError),
    }
}

} // verus!
