//! The binary container: groups of length-prefixed messages under one type
//! tag, the whole compressed as a single gzip member.
//!
//! A group is `varint(count + 1)`, `varint(tag length)`, the tag bytes, then
//! `count` times `varint(message length)` and the message bytes.  Messages
//! are handled here as their encoded bytes.
use std::io::Write;
use vstd::prelude::*;
use vstd::slice::{slice_subrange, slice_to_vec};
use vstd::utf8::{decode_utf8, valid_utf8};

verus! {

/// The largest number of messages that one written group holds.
pub const MAX_GROUP_SIZE: usize = 1000;

/// The longest varint read: ten bytes carry 70 bits, enough for a `u64`.
pub const MAX_VARINT_BYTES: u8 = 10;

#[verifier::external_type_specification]
#[verifier::external_body]
pub struct ExIoError(std::io::Error);

/// What can go wrong while reading or writing the container.
#[derive(Debug)]
pub enum FramingError {
    /// The compression layer failed.
    Io(std::io::Error),
    /// A type tag that does not match is not valid UTF-8.
    Utf8,
    /// The input ends inside a varint, a tag or a message.
    Truncated,
    /// A varint runs over ten bytes or over the range of a `u64`.
    InvalidVarint,
    /// A group header gives a message count of zero plus one, i.e. zero.
    InvalidGroupCount,
    /// A group carries the first tag where the second was expected.
    InvalidTypeTag(String, String),
}

/// Why the spec decoder rejects an input.
pub enum FrameFault {
    Truncated,
    InvalidVarint,
    InvalidGroupCount,
    InvalidTypeTag(Seq<u8>),
}

// ---------------------------------------------------------------------------
// varints

/// The LEB128 encoding of `v`: seven bits per byte, low bits first, the high
/// bit set on every byte but the last.
pub open spec fn varint(v: nat) -> Seq<u8>
    decreases v,
{
    if v < 128 {
        seq![v as u8]
    } else {
        seq![(v % 128 + 128) as u8] + varint(v / 128)
    }
}

/// Reads a varint from the front of `s`, using at most `budget` bytes:
/// its value and the number of bytes it takes.
pub open spec fn read_varint(s: Seq<u8>, budget: nat) -> Option<(nat, nat)>
    decreases budget,
{
    if budget == 0 || s.len() == 0 {
        None
    } else if s[0] < 128 {
        Some((s[0] as nat, 1))
    } else {
        match read_varint(s.drop_first(), (budget - 1) as nat) {
            Some((v, n)) => Some((((s[0] - 128) + 128 * v) as nat, n + 1)),
            None => None,
        }
    }
}

pub open spec fn pow128(k: nat) -> nat
    decreases k,
{
    if k == 0 {
        1
    } else {
        128 * pow128((k - 1) as nat)
    }
}

/// A varint as the container reads it: at most ten bytes, a `u64` value.
pub open spec fn read_u64_varint(s: Seq<u8>) -> Result<(u64, nat), FrameFault> {
    match read_varint(s, MAX_VARINT_BYTES as nat) {
        Some((v, n)) => if v <= u64::MAX {
            Ok((v as u64, n))
        } else {
            Err(FrameFault::InvalidVarint)
        },
        None => if s.len() < MAX_VARINT_BYTES && (forall|i: int| 0 <= i < s.len() ==> s[i] >= 128) {
            Err(FrameFault::Truncated)
        } else {
            Err(FrameFault::InvalidVarint)
        },
    }
}

proof fn lemma_read_varint_bound(s: Seq<u8>, budget: nat)
    ensures
        read_varint(s, budget) matches Some((v, n)) ==> v < pow128(n) && 1 <= n <= budget && n
            <= s.len(),
    decreases budget,
{
    assert(pow128(1) == 128 * pow128(0));
    if budget > 0 && s.len() > 0 && s[0] >= 128 {
        lemma_read_varint_bound(s.drop_first(), (budget - 1) as nat);
        if let Some((v, n)) = read_varint(s.drop_first(), (budget - 1) as nat) {
            let b = (s[0] - 128) as nat;
            assert(b + 128 * v < 128 * pow128(n)) by (nonlinear_arith)
                requires
                    b < 128,
                    v < pow128(n),
            ;
        }
    }
}

proof fn lemma_pow128_mono(i: nat, j: nat)
    requires
        i <= j,
    ensures
        pow128(i) <= pow128(j),
    decreases j - i,
{
    if i < j {
        lemma_pow128_mono(i, (j - 1) as nat);
    }
}

proof fn lemma_pow128_nine()
    ensures
        pow128(9) == 0x8000_0000_0000_0000,
{
    reveal_with_fuel(pow128, 10);
}

proof fn lemma_read_varint_none(s: Seq<u8>, budget: nat)
    ensures
        read_varint(s, budget) is None <==> (s.len() < budget && (forall|i: int|
            0 <= i < s.len() ==> s[i] >= 128)) || (budget <= s.len() && (forall|i: int|
            0 <= i < budget ==> s[i] >= 128)),
    decreases budget,
{
    if budget > 0 && s.len() > 0 {
        lemma_read_varint_none(s.drop_first(), (budget - 1) as nat);
        if s[0] >= 128 {
            assert forall|i: int| 1 <= i < s.len() implies s[i] == s.drop_first()[i - 1] by {}
            if read_varint(s, budget) is None {
                assert forall|i: int| 0 <= i < s.len() && i < budget implies s[i] >= 128 by {
                    if i > 0 {
                        assert(s[i] == s.drop_first()[i - 1]);
                    }
                }
            } else {
                if s.len() < budget {
                    assert(!(forall|i: int| 0 <= i < s.drop_first().len() ==> s.drop_first()[i] >= 128));
                } else {
                    assert(!(forall|i: int| 0 <= i < budget - 1 ==> s.drop_first()[i] >= 128));
                }
            }
        }
    }
}

/// Reads the varint that starts at `pos`, with the rules of `read_u64_varint`.
fn decode_varint(data: &[u8], pos: usize) -> (r: Result<(u64, usize), FramingError>)
    requires
        pos <= data@.len(),
    ensures
        match read_u64_varint(data@.subrange(pos as int, data@.len() as int)) {
            Ok((v, n)) => r matches Ok((w, end)) && w == v && end == pos + n,
            Err(f) => r matches Err(e) && reports(e, f, Seq::empty()),
        },
        r matches Ok((_, end)) ==> pos < end <= data@.len(),
{
    let ghost s = data@.subrange(pos as int, data@.len() as int);
    let mut value: u128 = 0;
    let mut mult: u128 = 1;
    let mut i: usize = 0;
    assert(s.subrange(0, s.len() as int) =~= s);
    while i < MAX_VARINT_BYTES as usize && i < data.len() - pos
        invariant
            0 <= i <= MAX_VARINT_BYTES,
            pos + i <= data@.len(),
            s == data@.subrange(pos as int, data@.len() as int),
            mult == pow128(i as nat),
            forall|j: int| 0 <= j < i ==> s[j] >= 128,
            forall|extra: nat|
                #![trigger read_varint(s.subrange(i as int, s.len() as int), extra)]
                read_varint(s, (i + extra) as nat) == match read_varint(
                    s.subrange(i as int, s.len() as int),
                    extra,
                ) {
                    Some((v, n)) => Some(((value as nat + mult * v) as nat, (n + i) as nat)),
                    None => None,
                },
            value < mult,
        decreases MAX_VARINT_BYTES - i,
    {
        let b = data[pos + i];
        proof {
            lemma_pow128_mono(i as nat, 9);
            lemma_pow128_nine();
        }
        let ghost rest = s.subrange(i as int, s.len() as int);
        assert(rest[0] == b);
        assert(rest.drop_first() =~= s.subrange(i + 1, s.len() as int));
        if b < 128 {
            proof {
                assert(read_varint(rest, 1) == Some((b as nat, 1nat)));
                assert(read_varint(s, (i + 1) as nat) == Some(((value + mult * b) as nat, (i + 1) as nat)));
                reveal_with_fuel(read_varint, 2);
            }
            proof {
                assert(mult * b <= 127 * 0x8000_0000_0000_0000) by (nonlinear_arith)
                    requires
                        b < 128,
                        mult <= 0x8000_0000_0000_0000,
                ;
            }
            let total: u128 = value + mult * (b as u128);
            proof {
                lemma_read_varint_bound(s, MAX_VARINT_BYTES as nat);
                lemma_read_varint_mono(s, (i + 1) as nat, MAX_VARINT_BYTES as nat);
            }
            if total > u64::MAX as u128 {
                return Err(FramingError::InvalidVarint);
            }
            return Ok((total as u64, pos + i + 1));
        }
        proof {
            assert forall|extra: nat|
                #![trigger read_varint(s.subrange(i + 1, s.len() as int), extra)]
                read_varint(s, (i + 1 + extra) as nat) == match read_varint(
                    s.subrange(i + 1, s.len() as int),
                    extra,
                ) {
                    Some((v, n)) => Some(
                        (
                            ((value + mult * (b - 128)) as nat + (mult * 128) * v) as nat,
                            (n + i + 1) as nat,
                        ),
                    ),
                    None => None,
                } by {
                assert(read_varint(s, (i + (extra + 1)) as nat) == match read_varint(
                    rest,
                    extra + 1,
                ) {
                    Some((v, n)) => Some(((value as nat + mult * v) as nat, (n + i) as nat)),
                    None => None,
                });
                match read_varint(s.subrange(i + 1, s.len() as int), extra) {
                    Some((v, n)) => {
                        assert(mult * ((b - 128) + 128 * v) == mult * (b - 128) + (mult * 128)
                            * v) by (nonlinear_arith);
                    },
                    None => {},
                }
            }
            assert(mult * (b - 128) <= mult * 127) by (nonlinear_arith)
                requires
                    b >= 128,
                    b < 256,
                    mult >= 1,
            ;
        }
        value = value + mult * ((b - 128) as u128);
        mult = mult * 128;
        i = i + 1;
    }
    proof {
        lemma_read_varint_none(s, MAX_VARINT_BYTES as nat);
        assert(read_varint(s, MAX_VARINT_BYTES as nat) is None);
    }
    if i < MAX_VARINT_BYTES as usize {
        Err(FramingError::Truncated)
    } else {
        Err(FramingError::InvalidVarint)
    }
}

proof fn lemma_read_varint_mono(s: Seq<u8>, b1: nat, b2: nat)
    requires
        b1 <= b2,
        read_varint(s, b1) is Some,
    ensures
        read_varint(s, b2) == read_varint(s, b1),
    decreases b1,
{
    if s[0] >= 128 {
        lemma_read_varint_mono(s.drop_first(), (b1 - 1) as nat, (b2 - 1) as nat);
    }
}

/// Appends the varint of `v` to `out`.
fn encode_varint(v: u64, out: &mut Vec<u8>)
    ensures
        final(out)@ == old(out)@ + varint(v as nat),
{
    let ghost target = old(out)@ + varint(v as nat);
    let mut x: u64 = v;
    while x >= 128
        invariant
            out@ + varint(x as nat) == target,
        decreases x,
    {
        let b: u8 = (x % 128 + 128) as u8;
        assert(varint(x as nat) == seq![b] + varint((x / 128) as nat));
        assert(out@.push(b) + varint((x / 128) as nat) =~= out@ + varint(x as nat));
        out.push(b);
        x = x / 128;
    }
    assert(varint(x as nat) == seq![x as u8]);
    assert(out@.push(x as u8) =~= out@ + varint(x as nat));
    out.push(x as u8);
}

// ---------------------------------------------------------------------------
// groups

pub open spec fn views(v: Seq<Vec<u8>>) -> Seq<Seq<u8>> {
    v.map_values(|m: Vec<u8>| m@)
}

/// The message part of a group: each message after its length.
pub open spec fn messages_bytes(ms: Seq<Seq<u8>>) -> Seq<u8>
    decreases ms.len(),
{
    if ms.len() == 0 {
        Seq::empty()
    } else {
        varint(ms[0].len()) + ms[0] + messages_bytes(ms.drop_first())
    }
}

/// One group of messages under `tag`.
pub open spec fn group_bytes(tag: Seq<u8>, ms: Seq<Seq<u8>>) -> Seq<u8> {
    varint(ms.len() + 1) + varint(tag.len()) + tag + messages_bytes(ms)
}

/// The uncompressed container: the messages cut into groups of at most
/// `MAX_GROUP_SIZE`, in order.
pub open spec fn frame_bytes(tag: Seq<u8>, ms: Seq<Seq<u8>>) -> Seq<u8>
    decreases ms.len(),
{
    if ms.len() == 0 {
        Seq::empty()
    } else if ms.len() <= MAX_GROUP_SIZE {
        group_bytes(tag, ms)
    } else {
        group_bytes(tag, ms.take(MAX_GROUP_SIZE as int)) + frame_bytes(
            tag,
            ms.skip(MAX_GROUP_SIZE as int),
        )
    }
}

/// Reads `count` length-prefixed messages from the front of `s`: the
/// messages and the number of bytes they take.
pub open spec fn read_messages(s: Seq<u8>, count: nat) -> Result<(Seq<Seq<u8>>, nat), FrameFault>
    decreases count,
{
    if count == 0 {
        Ok((Seq::empty(), 0))
    } else {
        match read_u64_varint(s) {
            Err(f) => Err(f),
            Ok((len, n)) => {
                let end = n + len as nat;
                if s.len() < end {
                    Err(FrameFault::Truncated)
                } else {
                    let m = s.subrange(n as int, end as int);
                    match read_messages(s.skip(end as int), (count - 1) as nat) {
                        Err(f) => Err(f),
                        Ok((ms, k)) => Ok((seq![m] + ms, end + k)),
                    }
                }
            },
        }
    }
}

/// Reads one group header from the front of `s`: the message count and the
/// number of bytes that the header takes.
pub open spec fn read_header(tag: Seq<u8>, s: Seq<u8>) -> Result<(nat, nat), FrameFault> {
    match read_u64_varint(s) {
        Err(f) => Err(f),
        Ok((c, n1)) => if c == 0 {
            Err(FrameFault::InvalidGroupCount)
        } else {
            match read_u64_varint(s.skip(n1 as int)) {
                Err(f) => Err(f),
                Ok((tl, n2)) => {
                    let end = n1 + n2 + tl as nat;
                    if s.len() < end {
                        Err(FrameFault::Truncated)
                    } else {
                        let t = s.subrange((n1 + n2) as int, end as int);
                        if t != tag {
                            Err(FrameFault::InvalidTypeTag(t))
                        } else {
                            Ok(((c - 1) as nat, end))
                        }
                    }
                },
            }
        },
    }
}

/// Reads groups under `tag` until `s` is used up.
pub open spec fn read_groups(tag: Seq<u8>, s: Seq<u8>) -> Result<Seq<Seq<u8>>, FrameFault>
    decreases s.len(),
{
    if s.len() == 0 {
        Ok(Seq::empty())
    } else {
        match read_header(tag, s) {
            Err(f) => Err(f),
            Ok((count, h)) => match read_messages(s.skip(h as int), count) {
                Err(f) => Err(f),
                Ok((ms, k)) => if 0 < h + k <= s.len() {
                    match read_groups(tag, s.skip((h + k) as int)) {
                        Err(f) => Err(f),
                        Ok(rest) => Ok(ms + rest),
                    }
                } else {
                    Err(FrameFault::Truncated)
                },
            },
        }
    }
}

/// `e` reports the fault `f` met while `expected` was the tag looked for:
/// a wrong tag is given as text where it is UTF-8.
pub open spec fn reports(e: FramingError, f: FrameFault, expected: Seq<u8>) -> bool {
    match f {
        FrameFault::Truncated => e is Truncated,
        FrameFault::InvalidVarint => e is InvalidVarint,
        FrameFault::InvalidGroupCount => e is InvalidGroupCount,
        FrameFault::InvalidTypeTag(t) => if valid_utf8(t) && valid_utf8(expected) {
            e matches FramingError::InvalidTypeTag(a, b) && a@ == decode_utf8(t) && b@
                == decode_utf8(expected)
        } else {
            e is Utf8
        },
    }
}

/// `r` is what a reader that has already collected `done` returns, given
/// what the rest of the input reads as.
pub open spec fn after(done: Seq<Seq<u8>>, r: Result<Seq<Seq<u8>>, FrameFault>) -> Result<Seq<Seq<u8>>, FrameFault> {
    match r {
        Ok(rest) => Ok(done + rest),
        Err(f) => Err(f),
    }
}

/// Relies on std's `String::from_utf8`: `Some` exactly on valid UTF-8,
/// holding the characters that the bytes encode.
#[verifier::external_body]
fn string_from_utf8(bytes: Vec<u8>) -> (r: Option<String>)
    ensures
        match r {
            Some(s) => valid_utf8(bytes@) && s@ == decode_utf8(bytes@),
            None => !valid_utf8(bytes@),
        },
{
    String::from_utf8(bytes).ok()
}

/// Compares `data[pos..pos + want.len()]` with `want`.
fn bytes_equal_at(data: &[u8], pos: usize, want: &[u8]) -> (r: bool)
    requires
        pos + want@.len() <= data@.len(),
    ensures
        r == (data@.subrange(pos as int, pos + want@.len()) == want@),
{
    let _n = data.len();
    let mut i: usize = 0;
    while i < want.len()
        invariant
            i <= want@.len(),
            pos + want@.len() <= data@.len(),
            data@.len() <= usize::MAX,
            forall|j: int| 0 <= j < i ==> data@[pos + j] == want@[j],
        decreases want@.len() - i,
    {
        if data[pos + i] != want[i] {
            assert(data@.subrange(pos as int, pos + want@.len())[i as int] != want@[i as int]);
            return false;
        }
        i = i + 1;
    }
    assert(data@.subrange(pos as int, pos + want@.len()) =~= want@);
    true
}

/// Reads the group header at `pos`, which must carry `tag`.
fn decode_header(data: &[u8], pos: usize, tag: &[u8]) -> (r: Result<(u64, usize), FramingError>)
    requires
        pos <= data@.len(),
    ensures
        match read_header(tag@, data@.skip(pos as int)) {
            Ok((c, h)) => r matches Ok((c2, end)) && c2 == c && end == pos + h,
            Err(f) => r matches Err(e) && reports(e, f, tag@),
        },
{
    let ghost s = data@.skip(pos as int);
    assert(data@.subrange(pos as int, data@.len() as int) =~= s);
    let (c, count_end) = match decode_varint(data, pos) {
        Ok(x) => x,
        Err(e) => return Err(e),
    };
    if c == 0 {
        return Err(FramingError::InvalidGroupCount);
    }
    assert(data@.subrange(count_end as int, data@.len() as int) =~= s.skip(count_end - pos));
    let (tl, tag_start) = match decode_varint(data, count_end) {
        Ok(x) => x,
        Err(e) => return Err(e),
    };
    if tl > (data.len() - tag_start) as u64 {
        return Err(FramingError::Truncated);
    }
    let end = tag_start + tl as usize;
    let want = tag;
    assert(s.subrange(tag_start - pos, end - pos) =~= data@.subrange(tag_start as int, end as int));
    if want.len() == tl as usize && bytes_equal_at(data, tag_start, want) {
        return Ok((c - 1, end));
    }
    let found = slice_to_vec(slice_subrange(data, tag_start, end));
    match (string_from_utf8(found), string_from_utf8(slice_to_vec(tag))) {
        (Some(t), Some(w)) => Err(FramingError::InvalidTypeTag(t, w)),
        _ => Err(FramingError::Utf8),
    }
}

/// Reads `count` messages from `pos` on, appending them to `out`; returns
/// where they end.
fn decode_messages(data: &[u8], pos: usize, count: u64, out: &mut Vec<Vec<u8>>) -> (r: Result<
    usize,
    FramingError,
>)
    requires
        pos <= data@.len(),
    ensures
        match read_messages(data@.skip(pos as int), count as nat) {
            Ok((ms, k)) => r matches Ok(end) && end == pos + k && views(final(out)@) == views(
                old(out)@,
            ) + ms,
            Err(f) => r matches Err(e) && reports(e, f, Seq::empty()),
        },
        r matches Ok(end) ==> pos <= end <= data@.len(),
{
    let ghost start = views(out@);
    let mut p = pos;
    let mut j: u64 = 0;
    while j < count
        invariant
            pos <= p <= data@.len(),
            j <= count,
            views(out@).len() >= start.len(),
            views(out@).take(start.len() as int) == start,
            read_messages(data@.skip(pos as int), count as nat) == match read_messages(
                data@.skip(p as int),
                (count - j) as nat,
            ) {
                Ok((ms, k)) => Ok((views(out@).skip(start.len() as int) + ms, ((p - pos) + k) as nat)),
                Err(f) => Err(f),
            },
        decreases count - j,
    {
        let ghost s = data@.skip(p as int);
        assert(data@.subrange(p as int, data@.len() as int) =~= s);
        let (len, q) = match decode_varint(data, p) {
            Ok(x) => x,
            Err(e) => return Err(e),
        };
        if len > (data.len() - q) as u64 {
            return Err(FramingError::Truncated);
        }
        let end = q + len as usize;
        let m = slice_to_vec(slice_subrange(data, q, end));
        proof {
            assert(m@ =~= s.subrange(q - p, end - p));
            assert(s.skip(end - p) =~= data@.skip(end as int));
        }
        let ghost before = views(out@);
        out.push(m);
        proof {
            assert(views(out@) =~= before.push(m@));
            assert(views(out@).take(start.len() as int) =~= start);
            assert(views(out@).skip(start.len() as int) =~= before.skip(start.len() as int) + seq![m@]);
            match read_messages(data@.skip(end as int), (count - j - 1) as nat) {
                Ok((ms, k)) => {
                    assert(before.skip(start.len() as int) + (seq![m@] + ms) =~= (before.skip(start.len() as int) + seq![m@]) + ms);
                },
                Err(f) => {},
            }
        }
        p = end;
        j = j + 1;
    }
    assert(views(out@) =~= start + views(out@).skip(start.len() as int));
    Ok(p)
}

proof fn lemma_read_messages_no_tag_fault(s: Seq<u8>, count: nat)
    ensures
        read_messages(s, count) matches Err(f) ==> !(f is InvalidTypeTag),
    decreases count,
{
    if count > 0 {
        if let Ok((len, n)) = read_u64_varint(s) {
            let end = n + len as nat;
            if s.len() >= end {
                lemma_read_messages_no_tag_fault(s.skip(end as int), (count - 1) as nat);
            }
        }
    }
}

proof fn lemma_read_groups_step(
    tag: Seq<u8>,
    s: Seq<u8>,
    count: nat,
    h: nat,
    ms: Seq<Seq<u8>>,
    k: nat,
)
    requires
        s.len() > 0,
        read_header(tag, s) == Ok::<(nat, nat), FrameFault>((count, h)),
        h <= s.len(),
        read_messages(s.skip(h as int), count) == Ok::<(Seq<Seq<u8>>, nat), FrameFault>((ms, k)),
        0 < h + k <= s.len(),
    ensures
        read_groups(tag, s) == after(ms, read_groups(tag, s.skip((h + k) as int))),
{
}

proof fn lemma_read_groups_header_fault(tag: Seq<u8>, s: Seq<u8>)
    requires
        s.len() > 0,
        read_header(tag, s) is Err,
    ensures
        read_groups(tag, s) == Err::<Seq<Seq<u8>>, FrameFault>(read_header(tag, s)->Err_0),
{
}

proof fn lemma_read_groups_messages_fault(tag: Seq<u8>, s: Seq<u8>, count: nat, h: nat)
    requires
        s.len() > 0,
        read_header(tag, s) == Ok::<(nat, nat), FrameFault>((count, h)),
        read_messages(s.skip(h as int), count) is Err,
    ensures
        read_groups(tag, s) == Err::<Seq<Seq<u8>>, FrameFault>(
            read_messages(s.skip(h as int), count)->Err_0,
        ),
{
}

/// Reads the uncompressed container: every group must carry `tag`.
pub fn unframe(data: &[u8], tag: &[u8]) -> (r: Result<Vec<Vec<u8>>, FramingError>)
    ensures
        match read_groups(tag@, data@) {
            Ok(ms) => r matches Ok(v) && views(v@) == ms,
            Err(f) => r matches Err(e) && reports(e, f, tag@),
        },
{
    let mut out: Vec<Vec<u8>> = Vec::new();
    let mut pos: usize = 0;
    assert(data@.skip(0) =~= data@);
    assert(views(out@) =~= Seq::<Seq<u8>>::empty());
    while pos < data.len()
        invariant
            pos <= data@.len(),
            read_groups(tag@, data@) == after(views(out@), read_groups(tag@, data@.skip(pos as int))),
        decreases data@.len() - pos,
    {
        let ghost s = data@.skip(pos as int);
        let ghost before = views(out@);
        let (count, hend) = match decode_header(data, pos, tag) {
            Ok(x) => x,
            Err(e) => {
                proof {
                    lemma_read_groups_header_fault(tag@, s);
                }
                return Err(e);
            },
        };
        let ghost h = (hend - pos) as nat;
        assert(s.skip(h as int) =~= data@.skip(hend as int));
        proof {
            lemma_read_messages_no_tag_fault(data@.skip(hend as int), count as nat);
        }
        let mend = match decode_messages(data, hend, count, &mut out) {
            Ok(x) => x,
            Err(e) => {
                proof {
                    lemma_read_groups_messages_fault(tag@, s, count as nat, h);
                }
                return Err(e);
            },
        };
        proof {
            let (ms, k) = read_messages(data@.skip(hend as int), count as nat)->Ok_0;
            assert(s.skip((h + k) as int) =~= data@.skip(mend as int));
            lemma_read_groups_step(tag@, s, count as nat, h, ms, k);
            match read_groups(tag@, data@.skip(mend as int)) {
                Ok(rest) => {
                    assert(before + (ms + rest) =~= (before + ms) + rest);
                },
                Err(f) => {},
            }
        }
        pos = mend;
    }
    assert(data@.skip(pos as int) =~= Seq::<u8>::empty());
    assert(views(out@) + Seq::<Seq<u8>>::empty() =~= views(out@));
    Ok(out)
}

proof fn lemma_messages_bytes_push(ms: Seq<Seq<u8>>, m: Seq<u8>)
    ensures
        messages_bytes(ms.push(m)) == messages_bytes(ms) + varint(m.len()) + m,
    decreases ms.len(),
{
    if ms.len() == 0 {
        assert(ms.push(m).drop_first() =~= Seq::<Seq<u8>>::empty());
        assert(ms.push(m)[0] == m);
        assert(messages_bytes(Seq::<Seq<u8>>::empty()) == Seq::<u8>::empty());
        assert(messages_bytes(ms) == Seq::<u8>::empty());
        assert(messages_bytes(ms.push(m)) =~= varint(m.len()) + m + Seq::<u8>::empty());
    } else {
        lemma_messages_bytes_push(ms.drop_first(), m);
        assert(ms.push(m).drop_first() =~= ms.drop_first().push(m));
        assert(messages_bytes(ms.push(m)) =~= messages_bytes(ms) + varint(m.len()) + m);
    }
}

/// Appends the bytes of `src` to `out`.
fn append_bytes(out: &mut Vec<u8>, src: &[u8])
    ensures
        final(out)@ == old(out)@ + src@,
{
    let mut i: usize = 0;
    while i < src.len()
        invariant
            i <= src@.len(),
            out@ == old(out)@ + src@.take(i as int),
        decreases src@.len() - i,
    {
        assert(src@.take(i + 1) =~= src@.take(i as int).push(src@[i as int]));
        out.push(src[i]);
        i = i + 1;
    }
    assert(src@.take(i as int) =~= src@);
}

/// Appends one group holding `msgs[lo..hi]` under `tag` to `out`.
fn write_group(tag: &[u8], msgs: &[Vec<u8>], lo: usize, hi: usize, out: &mut Vec<u8>)
    requires
        lo <= hi <= msgs@.len(),
        hi - lo <= MAX_GROUP_SIZE,
    ensures
        final(out)@ == old(out)@ + group_bytes(
            tag@,
            views(msgs@).subrange(lo as int, hi as int),
        ),
{
    let ghost ms = views(msgs@).subrange(lo as int, hi as int);
    let ghost o0 = out@;
    encode_varint((hi - lo) as u64 + 1, out);
    let ghost o1 = out@;
    let tl = tag.len() as u64;
    encode_varint(tl, out);
    let ghost o2 = out@;
    append_bytes(out, tag);
    let ghost head = out@;
    assert(o1 == o0 + varint(ms.len() + 1));
    assert(o2 == o1 + varint(tag@.len()));
    assert(head == o2 + tag@);
    assert(head =~= old(out)@ + (varint(ms.len() + 1) + varint(tag@.len())
        + tag@));
    let mut i: usize = lo;
    assert(ms.take(0) =~= Seq::<Seq<u8>>::empty());
    while i < hi
        invariant
            lo <= i <= hi,
            hi <= msgs@.len(),
            ms == views(msgs@).subrange(lo as int, hi as int),
            out@ == head + messages_bytes(ms.take(i - lo)),
        decreases hi - i,
    {
        let m = &msgs[i];
        proof {
            assert(ms.take(i - lo + 1) =~= ms.take(i - lo).push(m@));
            lemma_messages_bytes_push(ms.take(i - lo), m@);
        }
        encode_varint(m.len() as u64, out);
        append_bytes(out, m.as_slice());
        i = i + 1;
    }
    assert(ms.take(hi - lo) =~= ms);
    assert(out@ =~= old(out)@ + (varint(ms.len() + 1) + varint(tag@.len())
        + tag@ + messages_bytes(ms)));
}

/// Writes the uncompressed container: `msgs` in groups of at most
/// `MAX_GROUP_SIZE`, each under `tag`.
pub fn frame(msgs: &[Vec<u8>], tag: &[u8]) -> (r: Vec<u8>)
    ensures
        r@ == frame_bytes(tag@, views(msgs@)),
{
    let ghost all = views(msgs@);
    let mut out: Vec<u8> = Vec::new();
    let mut i: usize = 0;
    assert(all.skip(0) =~= all);
    while i < msgs.len()
        invariant
            i <= msgs@.len(),
            all == views(msgs@),
            out@ + frame_bytes(tag@, all.skip(i as int)) == frame_bytes(
                tag@,
                all,
            ),
        decreases msgs@.len() - i,
    {
        let hi = if msgs.len() - i <= MAX_GROUP_SIZE {
            msgs.len()
        } else {
            i + MAX_GROUP_SIZE
        };
        let ghost rest = all.skip(i as int);
        let ghost before = out@;
        write_group(tag, msgs, i, hi, &mut out);
        proof {
            assert(all.skip(hi as int) =~= rest.skip(hi - i));
            if msgs.len() - i <= MAX_GROUP_SIZE {
                assert(rest =~= all.subrange(i as int, hi as int));
                assert(all.skip(hi as int) =~= Seq::<Seq<u8>>::empty());
            } else {
                assert(rest.take(MAX_GROUP_SIZE as int) =~= all.subrange(i as int, hi as int));
            }
            assert(out@ + frame_bytes(tag@, all.skip(hi as int)) =~= before
                + frame_bytes(tag@, rest));
        }
        i = hi;
    }
    assert(out@ + Seq::<u8>::empty() =~= out@);
    out
}

/// What gzip makes of `data` at the highest compression level, with an
/// empty header.
pub uninterp spec fn gzip_of(data: Seq<u8>) -> Seq<u8>;

/// What reading `data` as gzip members gives back, if it is gzip.
pub uninterp spec fn gunzip_of(data: Seq<u8>) -> Option<Seq<u8>>;

/// Relies on flate2's `GzBuilder` and `GzEncoder`: the output depends on the
/// input alone (the default header has no time stamp), being lossless it
/// reads back as the input, and writing into a `Vec` cannot fail.
#[verifier::external_body]
fn gzip(data: &[u8]) -> (r: Result<Vec<u8>, std::io::Error>)
    ensures
        r is Ok,
        r matches Ok(z) ==> z@ == gzip_of(data@) && gunzip_of(z@) == Some(data@),
{
    let mut enc = flate2::GzBuilder::new().write(Vec::new(), flate2::Compression::new(9));
    enc.write_all(data)?;
    enc.finish()
}

/// Relies on flate2's `MultiGzDecoder`: it reads every gzip member of the
/// input and succeeds exactly where the input is gzip.
#[verifier::external_body]
fn gunzip(data: &[u8]) -> (r: Result<Vec<u8>, std::io::Error>)
    ensures
        match r {
            Ok(v) => gunzip_of(data@) == Some(v@),
            Err(_) => gunzip_of(data@) is None,
        },
{
    let mut out = Vec::new();
    std::io::Read::read_to_end(&mut flate2::read::MultiGzDecoder::new(data), &mut out)?;
    Ok(out)
}

/// Reads a compressed container of messages tagged `tag`.
pub fn read(data: &[u8], tag: &[u8]) -> (r: Result<Vec<Vec<u8>>, FramingError>)
    ensures
        match gunzip_of(data@) {
            None => r matches Err(e) && e is Io,
            Some(plain) => match read_groups(tag@, plain) {
                Ok(ms) => r matches Ok(v) && views(v@) == ms,
                Err(f) => r matches Err(e) && reports(e, f, tag@),
            },
        },
{
    match gunzip(data) {
        Ok(plain) => unframe(plain.as_slice(), tag),
        Err(e) => Err(FramingError::Io(e)),
    }
}

/// Writes `msgs` as a compressed container under `tag`.
pub fn write(msgs: &[Vec<u8>], tag: &[u8]) -> (r: Result<Vec<u8>, FramingError>)
    ensures
        r is Ok,
        r matches Ok(z) ==> z@ == gzip_of(frame_bytes(tag@, views(msgs@)))
            && gunzip_of(z@) == Some(frame_bytes(tag@, views(msgs@))),
{
    let plain = frame(msgs, tag);
    match gzip(plain.as_slice()) {
        Ok(z) => Ok(z),
        Err(e) => Err(FramingError::Io(e)),
    }
}

// ---------------------------------------------------------------------------
// reading what was written

proof fn lemma_read_varint_of(v: nat, rest: Seq<u8>, budget: nat)
    requires
        budget >= 1,
        v < pow128(budget),
    ensures
        read_varint(varint(v) + rest, budget) == Some((v, varint(v).len())),
    decreases v,
{
    let s = varint(v) + rest;
    if v < 128 {
        assert(s[0] == v as u8);
    } else {
        let b = (v % 128 + 128) as u8;
        assert(s[0] == b);
        assert(s.drop_first() =~= varint(v / 128) + rest);
        assert(pow128(budget) == 128 * pow128((budget - 1) as nat));
        assert(v / 128 < pow128((budget - 1) as nat)) by (nonlinear_arith)
            requires
                v < 128 * pow128((budget - 1) as nat),
        ;
        if budget == 1 {
            assert(pow128(0) == 1);
        }
        lemma_read_varint_of(v / 128, rest, (budget - 1) as nat);
        assert((b - 128) + 128 * (v / 128) == v) by (nonlinear_arith)
            requires
                b == v % 128 + 128,
        ;
    }
}

proof fn lemma_read_u64_varint_of(v: nat, rest: Seq<u8>)
    requires
        v <= u64::MAX,
    ensures
        read_u64_varint(varint(v) + rest) == Ok::<(u64, nat), FrameFault>((v as u64, varint(v).len())),
{
    lemma_pow128_nine();
    assert(pow128(10) == 128 * pow128(9));
    lemma_read_varint_of(v, rest, 10);
}

proof fn lemma_read_messages_of(ms: Seq<Seq<u8>>, rest: Seq<u8>)
    requires
        forall|i: int| 0 <= i < ms.len() ==> (#[trigger] ms[i]).len() <= u64::MAX,
    ensures
        read_messages(messages_bytes(ms) + rest, ms.len()) == Ok::<(Seq<Seq<u8>>, nat), FrameFault>(
            (ms, messages_bytes(ms).len()),
        ),
    decreases ms.len(),
{
    if ms.len() == 0 {
        assert(ms =~= Seq::<Seq<u8>>::empty());
    } else {
        let m = ms[0];
        let tail = ms.drop_first();
        let s = messages_bytes(ms) + rest;
        let after = m + messages_bytes(tail) + rest;
        assert(s =~= varint(m.len()) + after);
        lemma_read_u64_varint_of(m.len(), after);
        let n = varint(m.len()).len();
        assert(s.subrange(n as int, (n + m.len()) as int) =~= m);
        assert(s.skip((n + m.len()) as int) =~= messages_bytes(tail) + rest);
        assert forall|i: int| 0 <= i < tail.len() implies (#[trigger] tail[i]).len() <= u64::MAX by {
            assert(tail[i] == ms[i + 1]);
        }
        lemma_read_messages_of(tail, rest);
        assert(seq![m] + tail =~= ms);
    }
}

proof fn lemma_read_header_of(tag: Seq<u8>, ms: Seq<Seq<u8>>, rest: Seq<u8>)
    requires
        tag.len() <= u64::MAX,
        ms.len() < u64::MAX,
    ensures
        read_header(tag, group_bytes(tag, ms) + rest) == Ok::<(nat, nat), FrameFault>(
            (ms.len(), varint(ms.len() + 1).len() + varint(tag.len()).len() + tag.len()),
        ),
{
    let s = group_bytes(tag, ms) + rest;
    let after1 = varint(tag.len()) + tag + messages_bytes(ms) + rest;
    assert(s =~= varint(ms.len() + 1) + after1);
    lemma_read_u64_varint_of(ms.len() + 1, after1);
    let n1 = varint(ms.len() + 1).len();
    let after2 = tag + messages_bytes(ms) + rest;
    assert(s.skip(n1 as int) =~= varint(tag.len()) + after2);
    lemma_read_u64_varint_of(tag.len(), after2);
    let n2 = varint(tag.len()).len();
    assert(s.subrange((n1 + n2) as int, (n1 + n2 + tag.len()) as int) =~= tag);
}

proof fn lemma_group_len(tag: Seq<u8>, ms: Seq<Seq<u8>>)
    ensures
        group_bytes(tag, ms).len() == varint(ms.len() + 1).len() + varint(tag.len()).len()
            + tag.len() + messages_bytes(ms).len(),
        group_bytes(tag, ms).len() > 0,
{
    assert(varint(ms.len() + 1).len() > 0) by {
        reveal_with_fuel(varint, 1);
    }
}

/// Reading the frames of any messages under a tag gives the messages back,
/// in order: `read_groups(tag, frame_bytes(tag, ms)) == Ok(ms)`.
#[verifier::rlimit(30)]
pub proof fn lemma_read_after_write(tag: Seq<u8>, ms: Seq<Seq<u8>>)
    requires
        tag.len() <= u64::MAX,
        forall|i: int| 0 <= i < ms.len() ==> (#[trigger] ms[i]).len() <= u64::MAX,
    ensures
        read_groups(tag, frame_bytes(tag, ms)) == Ok::<Seq<Seq<u8>>, FrameFault>(ms),
    decreases ms.len(),
{
    if ms.len() == 0 {
        assert(frame_bytes(tag, ms).len() == 0);
        assert(ms =~= Seq::<Seq<u8>>::empty());
    } else {
        let k = if ms.len() <= MAX_GROUP_SIZE {
            ms.len() as int
        } else {
            MAX_GROUP_SIZE as int
        };
        let first = ms.take(k);
        let others = ms.skip(k);
        let s = frame_bytes(tag, ms);
        assert(s =~= group_bytes(tag, first) + frame_bytes(tag, others)) by {
            if ms.len() <= MAX_GROUP_SIZE {
                assert(first =~= ms);
                assert(others.len() == 0);
                assert(frame_bytes(tag, others) =~= Seq::<u8>::empty());
            }
        }
        let rest = frame_bytes(tag, others);
        assert forall|i: int| 0 <= i < first.len() implies (#[trigger] first[i]).len() <= u64::MAX by {
            assert(first[i] == ms[i]);
        }
        assert forall|i: int| 0 <= i < others.len() implies (#[trigger] others[i]).len() <= u64::MAX by {
            assert(others[i] == ms[i + k]);
        }
        lemma_read_header_of(tag, first, rest);
        lemma_group_len(tag, first);
        let h = varint(first.len() + 1).len() + varint(tag.len()).len() + tag.len();
        assert(s.skip(h as int) =~= messages_bytes(first) + rest);
        lemma_read_messages_of(first, rest);
        let g = group_bytes(tag, first).len();
        let k2 = messages_bytes(first).len();
        assert(s.skip(g as int) =~= rest);
        assert(s.skip((h + k2) as int) =~= rest);
        lemma_read_groups_step(tag, s, first.len(), h, first, k2);
        lemma_read_after_write(tag, others);
        assert(first + others =~= ms);
    }
}

} // verus!
