//! Characters and decimal numbers: the pieces that the text format is made of.
use vstd::prelude::*;

verus! {

/// Relies on std's `String::push`: appends one character.
pub assume_specification[ String::push ](s: &mut String, ch: char)
    ensures
        final(s)@ == old(s)@.push(ch),
;

/// The characters of `s`, in order.
pub fn chars_of(s: &str) -> (r: Vec<char>)
    ensures
        r@ == s@,
{
    let n = s.unicode_len();
    let mut r: Vec<char> = Vec::new();
    let mut i: usize = 0;
    while i < n
        invariant
            n == s@.len(),
            i <= n,
            r@ == s@.take(i as int),
        decreases n - i,
    {
        r.push(s.get_char(i));
        assert(s@.take(i + 1) =~= s@.take(i as int).push(s@[i as int]));
        i = i + 1;
    }
    assert(s@.take(n as int) =~= s@);
    r
}

/// Appends `cs[lo..hi]` to `out`.
pub fn push_chars(out: &mut String, cs: &[char], lo: usize, hi: usize)
    requires
        lo <= hi <= cs@.len(),
    ensures
        final(out)@ == old(out)@ + cs@.subrange(lo as int, hi as int),
{
    let mut i: usize = lo;
    while i < hi
        invariant
            lo <= i <= hi,
            hi <= cs@.len(),
            out@ == old(out)@ + cs@.subrange(lo as int, i as int),
        decreases hi - i,
    {
        out.push(cs[i]);
        assert(cs@.subrange(lo as int, i + 1) =~= cs@.subrange(lo as int, i as int).push(
            cs@[i as int],
        ));
        i = i + 1;
    }
}

/// A string holding `cs[lo..hi]`.
pub fn string_of(cs: &[char], lo: usize, hi: usize) -> (r: String)
    requires
        lo <= hi <= cs@.len(),
    ensures
        r@ == cs@.subrange(lo as int, hi as int),
{
    let mut r = String::new();
    push_chars(&mut r, cs, lo, hi);
    r
}

/// The position of the first `c` in `s`, if any.
pub open spec fn index_of(s: Seq<char>, c: char) -> Option<nat>
    decreases s.len(),
{
    if s.len() == 0 {
        None
    } else {
        match index_of(s.drop_last(), c) {
            Some(i) => Some(i),
            None => if s.last() == c {
                Some((s.len() - 1) as nat)
            } else {
                None
            },
        }
    }
}

pub proof fn lemma_index_of(s: Seq<char>, c: char)
    ensures
        match index_of(s, c) {
            Some(i) => i < s.len() && s[i as int] == c && forall|j: int| 0 <= j < i ==> s[j] != c,
            None => forall|j: int| 0 <= j < s.len() ==> s[j] != c,
        },
    decreases s.len(),
{
    if s.len() > 0 {
        lemma_index_of(s.drop_last(), c);
        assert forall|j: int| 0 <= j < s.len() - 1 implies s[j] == s.drop_last()[j] by {}
    }
}

proof fn lemma_index_of_take(s: Seq<char>, c: char, i: int)
    requires
        0 <= i < s.len(),
        index_of(s.take(i), c) is None,
    ensures
        index_of(s.take(i + 1), c) == (if s[i] == c {
            Some(i as nat)
        } else {
            None::<nat>
        }),
{
    assert(s.take(i + 1).drop_last() =~= s.take(i));
}

/// The first `c` in `cs[lo..hi]`, as an index into `cs`.
pub fn find_char(cs: &[char], lo: usize, hi: usize, c: char) -> (r: Option<usize>)
    requires
        lo <= hi <= cs@.len(),
    ensures
        match index_of(cs@.subrange(lo as int, hi as int), c) {
            Some(i) => r == Some((lo + i) as usize),
            None => r is None,
        },
{
    let ghost s = cs@.subrange(lo as int, hi as int);
    let mut i: usize = lo;
    assert(s.take(0) =~= Seq::<char>::empty());
    while i < hi
        invariant
            lo <= i <= hi,
            hi <= cs@.len(),
            s == cs@.subrange(lo as int, hi as int),
            index_of(s.take(i - lo), c) is None,
        decreases hi - i,
    {
        proof {
            lemma_index_of_take(s, c, i - lo);
        }
        if cs[i] == c {
            proof {
                lemma_index_of(s.take(i - lo + 1), c);
                lemma_index_of_prefix(s, c, (i - lo + 1) as nat);
            }
            return Some(i);
        }
        i = i + 1;
    }
    assert(s.take(hi - lo) =~= s);
    None
}

proof fn lemma_index_of_prefix(s: Seq<char>, c: char, k: nat)
    requires
        k <= s.len(),
        index_of(s.take(k as int), c) is Some,
    ensures
        index_of(s, c) == index_of(s.take(k as int), c),
    decreases s.len() - k,
{
    if k < s.len() {
        assert(s.take((k + 1) as int).drop_last() =~= s.take(k as int));
        lemma_index_of_prefix(s, c, k + 1);
    } else {
        assert(s.take(k as int) =~= s);
    }
}

// ---------------------------------------------------------------------------
// decimal numbers

pub open spec fn digit_char(d: nat) -> char {
    if d == 0 {
        '0'
    } else if d == 1 {
        '1'
    } else if d == 2 {
        '2'
    } else if d == 3 {
        '3'
    } else if d == 4 {
        '4'
    } else if d == 5 {
        '5'
    } else if d == 6 {
        '6'
    } else if d == 7 {
        '7'
    } else if d == 8 {
        '8'
    } else {
        '9'
    }
}

fn digit(d: u8) -> (c: char)
    requires
        d < 10,
    ensures
        c == digit_char(d as nat),
{
    if d == 0 {
        '0'
    } else if d == 1 {
        '1'
    } else if d == 2 {
        '2'
    } else if d == 3 {
        '3'
    } else if d == 4 {
        '4'
    } else if d == 5 {
        '5'
    } else if d == 6 {
        '6'
    } else if d == 7 {
        '7'
    } else if d == 8 {
        '8'
    } else {
        '9'
    }
}

pub open spec fn is_digit(c: char) -> bool {
    '0' <= c <= '9'
}

pub open spec fn digit_value(c: char) -> nat {
    (c as nat - 48) as nat
}

/// The decimal text of `n`, without leading zeros.
pub open spec fn nat_text(n: nat) -> Seq<char>
    decreases n,
{
    if n < 10 {
        seq![digit_char(n)]
    } else {
        nat_text(n / 10).push(digit_char(n % 10))
    }
}

/// The decimal text of `v`, with a `-` before a negative number.
pub open spec fn int_text(v: int) -> Seq<char> {
    if v < 0 {
        seq!['-'] + nat_text((-v) as nat)
    } else {
        nat_text(v as nat)
    }
}

/// Every character of `s` is a decimal digit.
pub open spec fn all_digits(s: Seq<char>) -> bool {
    forall|i: int| 0 <= i < s.len() ==> is_digit(#[trigger] s[i])
}

/// The value of a string of decimal digits.
pub open spec fn digits_value(s: Seq<char>) -> nat
    decreases s.len(),
{
    if s.len() == 0 {
        0
    } else {
        digits_value(s.drop_last()) * 10 + digit_value(s.last())
    }
}

/// The integer that `s` writes, as std's integer parsing reads it: an
/// optional sign, then at least one digit.
pub open spec fn int_value(s: Seq<char>) -> Option<int> {
    if s.len() > 0 && (s[0] == '-' || s[0] == '+') {
        let d = s.drop_first();
        if d.len() > 0 && all_digits(d) {
            Some(
                if s[0] == '-' {
                    -digits_value(d)
                } else {
                    digits_value(d) as int
                },
            )
        } else {
            None
        }
    } else if s.len() > 0 && all_digits(s) {
        Some(digits_value(s) as int)
    } else {
        None
    }
}

/// `s` read as an `i64`: `None` where it is no integer or out of range.
pub open spec fn i64_value(s: Seq<char>) -> Option<i64> {
    match int_value(s) {
        Some(v) => if i64::MIN <= v <= i64::MAX {
            Some(v as i64)
        } else {
            None
        },
        None => None,
    }
}

/// `s` read as an `i32`, in the same way.
pub open spec fn i32_value(s: Seq<char>) -> Option<i32> {
    match int_value(s) {
        Some(v) => if i32::MIN <= v <= i32::MAX {
            Some(v as i32)
        } else {
            None
        },
        None => None,
    }
}

/// `s` read as a `usize`: digits only, no sign but an optional `+`.
pub open spec fn usize_value(s: Seq<char>) -> Option<usize> {
    match int_value(s) {
        Some(v) => if 0 <= v <= usize::MAX && !(s.len() > 0 && s[0] == '-') {
            Some(v as usize)
        } else {
            None
        },
        None => None,
    }
}

/// The value of the digits in `cs[lo..hi]`, or `None` where it is over
/// `limit` or a character is no digit.
fn digits_upto(cs: &[char], lo: usize, hi: usize, limit: u128) -> (r: Option<u128>)
    requires
        lo <= hi <= cs@.len(),
        9 <= limit < 0x1_0000_0000_0000_0000_0000,
    ensures
        r matches Some(v) ==> all_digits(cs@.subrange(lo as int, hi as int)) && v == digits_value(
            cs@.subrange(lo as int, hi as int),
        ) && v <= limit,
        r is None ==> !all_digits(cs@.subrange(lo as int, hi as int)) || digits_value(
            cs@.subrange(lo as int, hi as int),
        ) > limit,
{
    let mut v: u128 = 0;
    let mut over = false;
    let mut i: usize = lo;
    while i < hi
        invariant
            lo <= i <= hi,
            hi <= cs@.len(),
            9 <= limit < 0x1_0000_0000_0000_0000_0000,
            all_digits(cs@.subrange(lo as int, i as int)),
            !over ==> v == digits_value(cs@.subrange(lo as int, i as int)) && v <= limit,
            over ==> digits_value(cs@.subrange(lo as int, i as int)) > limit,
        decreases hi - i,
    {
        let c = cs[i];
        let ghost pre = cs@.subrange(lo as int, i as int);
        let ghost next = cs@.subrange(lo as int, i + 1);
        assert(next.drop_last() =~= pre);
        assert(next.last() == c);
        if !('0' <= c && c <= '9') {
            assert(!all_digits(cs@.subrange(lo as int, hi as int))) by {
                assert(cs@.subrange(lo as int, hi as int)[i - lo] == c);
            }
            return None;
        }
        let d = (c as u32 - 48) as u128;
        if !over {
            if v > (limit - d) / 10 {
                over = true;
                assert(digits_value(next) > limit) by (nonlinear_arith)
                    requires
                        digits_value(next) == v * 10 + d,
                        v > (limit - d) / 10,
                        d <= 9,
                        d <= limit || true,
                ;
            } else {
                assert(v * 10 + d <= limit) by (nonlinear_arith)
                    requires
                        v <= (limit - d) / 10,
                        d <= 9,
                ;
                v = v * 10 + d;
            }
        } else {
            assert(digits_value(next) >= digits_value(pre)) by (nonlinear_arith)
                requires
                    digits_value(next) == digits_value(pre) * 10 + digit_value(c),
            ;
        }
        assert(all_digits(next)) by {
            assert forall|j: int| 0 <= j < next.len() implies is_digit(#[trigger] next[j]) by {
                if j < pre.len() {
                    assert(next[j] == pre[j]);
                }
            }
        }
        i = i + 1;
    }
    if over {
        None
    } else {
        Some(v)
    }
}

/// Reads `cs[lo..hi]` as an `i64`.
pub fn parse_i64(cs: &[char], lo: usize, hi: usize) -> (r: Option<i64>)
    requires
        lo <= hi <= cs@.len(),
    ensures
        r == i64_value(cs@.subrange(lo as int, hi as int)),
{
    let ghost s = cs@.subrange(lo as int, hi as int);
    if lo < hi {
        assert(s[0] == cs@[lo as int]);
    }
    if lo < hi && (cs[lo] == '-' || cs[lo] == '+') {
        assert(s.drop_first() =~= cs@.subrange(lo + 1, hi as int));
        if lo + 1 == hi {
            return None;
        }
        let neg = cs[lo] == '-';
        let limit: u128 = if neg {
            0x8000_0000_0000_0000
        } else {
            0x7fff_ffff_ffff_ffff
        };
        match digits_upto(cs, lo + 1, hi, limit) {
            Some(v) => if neg {
                Some((0 - (v as i128)) as i64)
            } else {
                Some(v as i64)
            },
            None => None,
        }
    } else {
        if lo == hi {
            return None;
        }
        match digits_upto(cs, lo, hi, 0x7fff_ffff_ffff_ffff) {
            Some(v) => Some(v as i64),
            None => None,
        }
    }
}

/// Reads `cs[lo..hi]` as an `i32`.
pub fn parse_i32(cs: &[char], lo: usize, hi: usize) -> (r: Option<i32>)
    requires
        lo <= hi <= cs@.len(),
    ensures
        r == i32_value(cs@.subrange(lo as int, hi as int)),
{
    match parse_i64(cs, lo, hi) {
        Some(v) => if -0x8000_0000 <= v && v <= 0x7fff_ffff {
            Some(v as i32)
        } else {
            None
        },
        None => {
            proof {
                let s = cs@.subrange(lo as int, hi as int);
                if let Some(v) = int_value(s) {
                    assert(!(i64::MIN <= v <= i64::MAX));
                }
            }
            None
        },
    }
}

/// Reads `cs[lo..hi]` as a `usize`.
pub fn parse_usize(cs: &[char], lo: usize, hi: usize) -> (r: Option<usize>)
    requires
        lo <= hi <= cs@.len(),
    ensures
        r == usize_value(cs@.subrange(lo as int, hi as int)),
{
    let ghost s = cs@.subrange(lo as int, hi as int);
    if lo < hi {
        assert(s[0] == cs@[lo as int]);
    }
    let start = if lo < hi && cs[lo] == '+' {
        lo + 1
    } else {
        lo
    };
    if start == hi {
        return None;
    }
    if lo < hi && cs[lo] == '+' {
        assert(s.drop_first() =~= cs@.subrange(lo + 1, hi as int));
    }
    match digits_upto(cs, start, hi, usize::MAX as u128) {
        Some(v) => Some(v as usize),
        None => {
            proof {
                if lo < hi && cs@[lo as int] == '-' {
                    assert(!all_digits(s)) by {
                        assert(!is_digit(s[0]));
                    }
                }
            }
            None
        },
    }
}

/// Appends the decimal text of `n` to `out`.
pub fn push_nat(out: &mut String, n: u128)
    ensures
        final(out)@ == old(out)@ + nat_text(n as nat),
    decreases n,
{
    let ghost o = old(out)@;
    if n >= 10 {
        push_nat(out, n / 10);
    }
    let ghost mid = out@;
    out.push(digit((n % 10) as u8));
    proof {
        if n >= 10 {
            assert(nat_text(n as nat) == nat_text((n / 10) as nat).push(digit_char((n % 10) as nat)));
            assert(mid.push(digit_char((n % 10) as nat)) =~= o + nat_text(n as nat));
        } else {
            assert(n % 10 == n);
            assert(nat_text(n as nat) == seq![digit_char(n as nat)]);
            assert(mid == o);
            assert(o.push(digit_char(n as nat)) =~= o + nat_text(n as nat));
        }
    }
}

/// Appends the decimal text of `v` to `out`.
pub fn push_int(out: &mut String, v: i64)
    ensures
        final(out)@ == old(out)@ + int_text(v as int),
{
    if v < 0 {
        out.push('-');
        push_nat(out, (0 - (v as i128)) as u128);
        assert(out@ =~= old(out)@ + int_text(v as int));
    } else {
        push_nat(out, v as u128);
    }
}

} // verus!

verus! {

// ---------------------------------------------------------------------------
// splitting

/// `s` cut at every `c`, the `c`s dropped: always at least one piece.
pub open spec fn split(s: Seq<char>, c: char) -> Seq<Seq<char>>
    decreases s.len(),
{
    if s.len() == 0 {
        seq![Seq::empty()]
    } else {
        let r = split(s.drop_last(), c);
        if s.last() == c {
            r.push(Seq::empty())
        } else {
            r.update(r.len() - 1, r.last().push(s.last()))
        }
    }
}

pub proof fn lemma_split_len(s: Seq<char>, c: char)
    ensures
        split(s, c).len() >= 1,
    decreases s.len(),
{
    if s.len() > 0 {
        lemma_split_len(s.drop_last(), c);
    }
}

/// `s` cut before every character of `d`, each piece starting with one;
/// what comes before the first such character is dropped.
pub open spec fn chunks(s: Seq<char>, d: Seq<char>) -> Seq<Seq<char>>
    decreases s.len(),
{
    if s.len() == 0 {
        Seq::empty()
    } else {
        let r = chunks(s.drop_last(), d);
        if d.contains(s.last()) {
            r.push(seq![s.last()])
        } else if r.len() == 0 {
            r
        } else {
            r.update(r.len() - 1, r.last().push(s.last()))
        }
    }
}

/// The pieces of `cs` that `bounds` mark.
pub open spec fn pieces(cs: Seq<char>, bounds: Seq<(usize, usize)>) -> Seq<Seq<char>> {
    bounds.map_values(|b: (usize, usize)| cs.subrange(b.0 as int, b.1 as int))
}

pub open spec fn bounds_within(bounds: Seq<(usize, usize)>, lo: int, hi: int) -> bool {
    forall|i: int|
        0 <= i < bounds.len() ==> lo <= (#[trigger] bounds[i]).0 <= bounds[i].1 <= hi
}

/// Each of `bounds` marks a non-empty piece of `lo..hi`.
pub open spec fn nonempty_within(bounds: Seq<(usize, usize)>, lo: int, hi: int) -> bool {
    forall|i: int|
        0 <= i < bounds.len() ==> lo <= (#[trigger] bounds[i]).0 < bounds[i].1 <= hi
}

/// The bounds of the pieces of `split(cs, c)`.
pub fn split_bounds(cs: &[char], c: char) -> (r: Vec<(usize, usize)>)
    ensures
        bounds_within(r@, 0, cs@.len() as int),
        pieces(cs@, r@) == split(cs@, c),
{
    let mut r: Vec<(usize, usize)> = Vec::new();
    let mut start: usize = 0;
    let mut i: usize = 0;
    assert(cs@.take(0) =~= Seq::<char>::empty());
    assert(pieces(cs@, r@).push(cs@.subrange(0, 0)) =~= split(Seq::<char>::empty(), c));
    while i < cs.len()
        invariant
            start <= i <= cs@.len(),
            bounds_within(r@, 0, start as int),
            split(cs@.take(i as int), c) == pieces(cs@, r@).push(
                cs@.subrange(start as int, i as int),
            ),
        decreases cs@.len() - i,
    {
        let ghost prev = pieces(cs@, r@);
        assert(cs@.take(i + 1).drop_last() =~= cs@.take(i as int));
        assert(cs@.take(i + 1).last() == cs@[i as int]);
        if cs[i] == c {
            r.push((start, i));
            assert(pieces(cs@, r@) =~= prev.push(cs@.subrange(start as int, i as int)));
            assert(split(cs@.take(i + 1), c) == split(cs@.take(i as int), c).push(Seq::empty()));
            start = i + 1;
            assert(cs@.subrange(start as int, i + 1) =~= Seq::<char>::empty());
            assert(split(cs@.take(i + 1), c) =~= pieces(cs@, r@).push(
                cs@.subrange(start as int, i + 1),
            ));
        } else {
            assert(cs@.subrange(start as int, i + 1) =~= cs@.subrange(start as int, i as int).push(
                cs@[i as int],
            ));
            assert(split(cs@.take(i + 1), c) =~= prev.push(cs@.subrange(start as int, i + 1)));
        }
        i = i + 1;
    }
    let ghost prev = pieces(cs@, r@);
    r.push((start, cs.len()));
    assert(cs@.take(cs@.len() as int) =~= cs@);
    assert(pieces(cs@, r@) =~= prev.push(cs@.subrange(start as int, cs@.len() as int)));
    r
}

fn contains_char(d: &[char], c: char) -> (r: bool)
    ensures
        r == d@.contains(c),
{
    let mut i: usize = 0;
    while i < d.len()
        invariant
            i <= d@.len(),
            forall|j: int| 0 <= j < i ==> d@[j] != c,
        decreases d@.len() - i,
    {
        if d[i] == c {
            return true;
        }
        i = i + 1;
    }
    false
}

/// The bounds of the pieces of `chunks(cs[lo..hi], d)`.
pub fn chunk_bounds(cs: &[char], lo: usize, hi: usize, d: &[char]) -> (r: Vec<(usize, usize)>)
    requires
        lo <= hi <= cs@.len(),
    ensures
        nonempty_within(r@, lo as int, hi as int),
        pieces(cs@, r@) == chunks(cs@.subrange(lo as int, hi as int), d@),
{
    let ghost s = cs@.subrange(lo as int, hi as int);
    let mut r: Vec<(usize, usize)> = Vec::new();
    let mut open = false;
    let mut start: usize = lo;
    let mut i: usize = lo;
    assert(s.take(0) =~= Seq::<char>::empty());
    assert(pieces(cs@, r@) =~= Seq::<Seq<char>>::empty());
    while i < hi
        invariant
            lo <= start <= i <= hi,
            hi <= cs@.len(),
            s == cs@.subrange(lo as int, hi as int),
            nonempty_within(r@, lo as int, start as int),
            open ==> start < i,
            !open ==> r@.len() == 0,
            chunks(s.take(i - lo), d@) == if open {
                pieces(cs@, r@).push(cs@.subrange(start as int, i as int))
            } else {
                pieces(cs@, r@)
            },
        decreases hi - i,
    {
        let ghost prev = pieces(cs@, r@);
        assert(s.take(i - lo + 1).drop_last() =~= s.take(i - lo));
        assert(s.take(i - lo + 1).last() == cs@[i as int]);
        let ch = cs[i];
        if contains_char(d, ch) {
            if open {
                r.push((start, i));
                assert(pieces(cs@, r@) =~= prev.push(cs@.subrange(start as int, i as int)));
            }
            let ghost done = pieces(cs@, r@);
            open = true;
            start = i;
            assert(cs@.subrange(i as int, i + 1) =~= seq![ch]);
            assert(chunks(s.take(i - lo + 1), d@) =~= done.push(cs@.subrange(start as int, i + 1)));
        } else if open {
            assert(cs@.subrange(start as int, i + 1) =~= cs@.subrange(start as int, i as int).push(
                ch,
            ));
            assert(chunks(s.take(i - lo + 1), d@) =~= prev.push(cs@.subrange(start as int, i + 1)));
        } else {
            start = i + 1;
        }
        i = i + 1;
    }
    assert(s.take(hi - lo) =~= s);
    if open {
        let ghost prev = pieces(cs@, r@);
        r.push((start, hi));
        assert(pieces(cs@, r@) =~= prev.push(cs@.subrange(start as int, hi as int)));
    }
    r
}

} // verus!

verus! {

// ---------------------------------------------------------------------------
// reading what was written

proof fn lemma_digit(d: nat)
    requires
        d < 10,
    ensures
        is_digit(digit_char(d)),
        digit_value(digit_char(d)) == d,
{
}

proof fn lemma_nat_text(n: nat)
    ensures
        nat_text(n).len() >= 1,
        all_digits(nat_text(n)),
        digits_value(nat_text(n)) == n,
    decreases n,
{
    if n < 10 {
        lemma_digit(n);
        assert(nat_text(n) =~= seq![digit_char(n)]);
        assert(nat_text(n).drop_last() =~= Seq::<char>::empty());
        assert(digits_value(Seq::<char>::empty()) == 0);
        assert(digits_value(nat_text(n)) == digits_value(nat_text(n).drop_last()) * 10
            + digit_value(nat_text(n).last()));
    } else {
        lemma_nat_text(n / 10);
        lemma_digit(n % 10);
        let t = nat_text(n);
        assert(t.drop_last() =~= nat_text(n / 10));
        assert(t.last() == digit_char(n % 10));
        assert forall|i: int| 0 <= i < t.len() implies is_digit(#[trigger] t[i]) by {
            if i < t.len() - 1 {
                assert(t[i] == nat_text(n / 10)[i]);
            } else {
                assert(t[i] == t.last());
            }
        }
        assert(digits_value(t) == digits_value(nat_text(n / 10)) * 10 + digit_value(t.last()));
        assert(digit_value(t.last()) == n % 10);
        assert((n / 10) * 10 + n % 10 == n);
    }
}

/// The text of a natural number is digits only.
pub proof fn lemma_nat_text_digits(n: nat)
    ensures
        all_digits(nat_text(n)),
{
    lemma_nat_text(n);
}

/// The text of an integer reads back as that integer; it is a minus sign
/// and digits, never empty.
pub proof fn lemma_int_text_int_value(v: int)
    ensures
        int_value(int_text(v)) == Some(v),
        int_text(v).len() > 0,
        is_digit(int_text(v)[0]) || int_text(v)[0] == '-',
        forall|i: int| 0 <= i < int_text(v).len() ==> is_digit(#[trigger] int_text(v)[i]) || int_text(v)[i] == '-',
{
    let t = int_text(v);
    if v < 0 {
        lemma_nat_text((-v) as nat);
        assert(t.drop_first() =~= nat_text((-v) as nat));
        assert(t[0] == '-');
        assert forall|i: int| 0 <= i < t.len() implies is_digit(#[trigger] t[i]) || t[i] == '-' by {
            if i > 0 {
                assert(t[i] == nat_text((-v) as nat)[i - 1]);
            }
        }
    } else {
        lemma_nat_text(v as nat);
        assert(is_digit(t[0]));
    }
}

/// The text of an `i64` reads back as that `i64`.
pub proof fn lemma_int_text_value(v: i64)
    ensures
        i64_value(int_text(v as int)) == Some(v),
{
    lemma_int_text_int_value(v as int);
}

} // verus!
