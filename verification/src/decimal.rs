//! Decimal digit strings as ASCII bytes: formatting, parsing, padding and
//! trimming, used by the fixed-width record files.

use vstd::prelude::*;
use vstd::arithmetic::div_mod::lemma_fundamental_div_mod;

verus! {

/// ASCII code of the space character.
pub const SPACE: u8 = 32;

/// ASCII code of the line feed character.
pub const NEWLINE: u8 = 10;

/// The decimal digits of `n`, most significant first, as ASCII bytes.
pub open spec fn spec_decimal(n: nat) -> Seq<u8>
    decreases n,
{
    if n < 10 {
        seq![(48 + n) as u8]
    } else {
        spec_decimal(n / 10).push((48 + n % 10) as u8)
    }
}

pub open spec fn is_digit(b: u8) -> bool {
    48 <= b <= 57
}

pub open spec fn all_digits(s: Seq<u8>) -> bool {
    forall|i: int| 0 <= i < s.len() ==> is_digit(#[trigger] s[i])
}

/// Numeric value of a digit string, most significant digit first.
pub open spec fn spec_dec_value(s: Seq<u8>) -> nat
    decreases s.len(),
{
    if s.len() == 0 {
        0
    } else {
        spec_dec_value(s.drop_last()) * 10 + (if is_digit(s.last()) {
            (s.last() - 48) as nat
        } else {
            0
        })
    }
}

pub proof fn lemma_decimal_digits(n: nat)
    ensures
        all_digits(spec_decimal(n)),
        spec_decimal(n).len() >= 1,
    decreases n,
{
    if n >= 10 {
        lemma_decimal_digits(n / 10);
        assert forall|i: int| 0 <= i < spec_decimal(n).len() implies is_digit(
            #[trigger] spec_decimal(n)[i],
        ) by {
            if i < spec_decimal(n).len() - 1 {
                assert(spec_decimal(n)[i] == spec_decimal(n / 10)[i]);
            }
        }
    }
}

pub proof fn lemma_decimal_value(n: nat)
    ensures
        spec_dec_value(spec_decimal(n)) == n,
    decreases n,
{
    if n < 10 {
        let s = spec_decimal(n);
        assert(s.drop_last() =~= Seq::<u8>::empty());
        assert(spec_dec_value(Seq::<u8>::empty()) == 0);
        assert(s.last() == (48 + n) as u8);
        assert(spec_dec_value(s) == n);
    } else {
        lemma_decimal_value(n / 10);
        let s = spec_decimal(n);
        assert(s.drop_last() =~= spec_decimal(n / 10));
        assert(s.last() == (48 + n % 10) as u8);
        assert(spec_dec_value(s) == (n / 10) * 10 + n % 10);
        lemma_fundamental_div_mod(n as int, 10);
    }
}


/// The digit string of `n`, most significant digit first.
pub fn decimal_bytes(n: usize) -> (r: Vec<u8>)
    ensures
        r@ == spec_decimal(n as nat),
    decreases n,
{
    if n < 10 {
        let mut v: Vec<u8> = Vec::new();
        v.push(48 + n as u8);
        assert(v@ =~= spec_decimal(n as nat));
        v
    } else {
        let mut v = decimal_bytes(n / 10);
        v.push(48 + (n % 10) as u8);
        assert(v@ =~= spec_decimal(n as nat));
        v
    }
}

/// The number of decimal digits of `n`.
pub fn decimal_len(n: usize) -> (r: usize)
    ensures
        r == spec_decimal(n as nat).len(),
{
    decimal_bytes(n).len()
}

/// The value of a prefix of a digit string never exceeds the whole string's.
pub proof fn lemma_dec_value_take_le(s: Seq<u8>, i: int)
    requires
        0 <= i <= s.len(),
    ensures
        spec_dec_value(s.take(i)) <= spec_dec_value(s),
    decreases s.len() - i,
{
    if i < s.len() {
        lemma_dec_value_take_le(s, i + 1);
        assert(s.take(i + 1).drop_last() =~= s.take(i));
        assert(spec_dec_value(s.take(i)) <= spec_dec_value(s.take(i + 1)));
    } else {
        assert(s.take(i) =~= s);
    }
}

/// Parses the decimal digits at `bytes[start..end]`. Returns the value when
/// the range is a non-empty run of digits whose value fits in `usize`, and
/// `None` otherwise.
pub fn parse_dec_value(bytes: &Vec<u8>, start: usize, end: usize) -> (r: Option<usize>)
    requires
        start <= end <= bytes@.len(),
    ensures
        ({
            let f = bytes@.subrange(start as int, end as int);
            &&& r is Some <==> (f.len() > 0 && all_digits(f) && spec_dec_value(f)
                <= usize::MAX)
            &&& r is Some ==> r->Some_0 == spec_dec_value(f)
        }),
{
    let ghost f = bytes@.subrange(start as int, end as int);
    if start == end {
        return None;
    }
    let mut acc: usize = 0;
    let mut i: usize = start;
    while i < end
        invariant
            start <= i <= end <= bytes@.len(),
            f == bytes@.subrange(start as int, end as int),
            all_digits(f.take(i - start)),
            acc == spec_dec_value(f.take(i - start)),
        decreases end - i,
    {
        let b = bytes[i];
        if b < 48 || b > 57 {
            assert(f[i - start] == b);
            return None;
        }
        let d = (b - 48) as usize;
        if acc > (usize::MAX - d) / 10 {
            proof {
                assert(f.take(i - start + 1).drop_last() =~= f.take(i - start));
                assert(f.take(i - start + 1).last() == b);
                assert(acc * 10 > usize::MAX - d) by {
                    if acc * 10 <= usize::MAX - d {
                        vstd::arithmetic::div_mod::lemma_div_is_ordered(
                            (acc * 10) as int, (usize::MAX - d) as int, 10);
                        vstd::arithmetic::div_mod::lemma_div_by_multiple(acc as int, 10);
                    }
                }
                assert(spec_dec_value(f.take(i - start + 1)) > usize::MAX);
                lemma_dec_value_take_le(f, i - start + 1);
            }
            return None;
        }
        proof {
            assert(f.take(i - start + 1).drop_last() =~= f.take(i - start));
            assert(f.take(i - start + 1).last() == b);
            assert(acc * 10 <= usize::MAX - d) by {
                vstd::arithmetic::mul::lemma_mul_inequality(
                    acc as int, ((usize::MAX - d) / 10) as int, 10);
                vstd::arithmetic::div_mod::lemma_fundamental_div_mod(
                    (usize::MAX - d) as int, 10);
            }
        }
        acc = acc * 10 + d;
        i = i + 1;
    }
    proof {
        assert(f.take(end - start) =~= f);
    }
    Some(acc)
}

pub open spec fn is_ws(b: u8) -> bool {
    b == 32 || b == 9 || b == 10 || b == 13
}

/// `s` with trailing ASCII whitespace removed.
pub open spec fn spec_trim_right(s: Seq<u8>) -> Seq<u8>
    decreases s.len(),
{
    if s.len() > 0 && is_ws(s.last()) {
        spec_trim_right(s.drop_last())
    } else {
        s
    }
}

/// `s` with leading ASCII whitespace removed.
pub open spec fn spec_trim_left(s: Seq<u8>) -> Seq<u8>
    decreases s.len(),
{
    if s.len() > 0 && is_ws(s[0]) {
        spec_trim_left(s.drop_first())
    } else {
        s
    }
}

/// `s` with whitespace removed from both ends.
pub open spec fn spec_trim(s: Seq<u8>) -> Seq<u8> {
    spec_trim_left(spec_trim_right(s))
}

fn is_ws_byte(b: u8) -> (r: bool)
    ensures
        r == is_ws(b),
{
    b == 32 || b == 9 || b == 10 || b == 13
}

/// Narrows `[start, end)` to the subrange left after trimming whitespace from
/// both ends.
pub fn trim_range(bytes: &Vec<u8>, start: usize, end: usize) -> (r: (usize, usize))
    requires
        start <= end <= bytes@.len(),
    ensures
        start <= r.0 <= r.1 <= end,
        bytes@.subrange(r.0 as int, r.1 as int) == spec_trim(
            bytes@.subrange(start as int, end as int),
        ),
{
    let mut lo = start;
    let mut hi = end;
    while lo < hi && is_ws_byte(bytes[hi - 1])
        invariant
            start <= lo <= hi <= end <= bytes@.len(),
            lo == start,
            spec_trim_right(bytes@.subrange(start as int, end as int)) == spec_trim_right(
                bytes@.subrange(lo as int, hi as int),
            ),
        decreases hi - lo,
    {
        proof {
            let cur = bytes@.subrange(lo as int, hi as int);
            assert(cur.drop_last() =~= bytes@.subrange(lo as int, hi - 1));
        }
        hi = hi - 1;
    }
    proof {
        let cur = bytes@.subrange(lo as int, hi as int);
        assert(spec_trim_right(cur) =~= cur);
    }
    while lo < hi && is_ws_byte(bytes[lo])
        invariant
            start <= lo <= hi <= end <= bytes@.len(),
            spec_trim(bytes@.subrange(start as int, end as int)) == spec_trim_left(
                bytes@.subrange(lo as int, hi as int),
            ),
        decreases hi - lo,
    {
        proof {
            let cur = bytes@.subrange(lo as int, hi as int);
            assert(cur.drop_first() =~= bytes@.subrange(lo + 1, hi as int));
        }
        lo = lo + 1;
    }
    proof {
        let cur = bytes@.subrange(lo as int, hi as int);
        assert(spec_trim_left(cur) =~= cur);
    }
    (lo, hi)
}

/// `s` truncated or right-padded with spaces to exactly `w` bytes.
pub open spec fn spec_pad(s: Seq<u8>, w: nat) -> Seq<u8> {
    if s.len() >= w {
        s.take(w as int)
    } else {
        s + Seq::new((w - s.len()) as nat, |i: int| SPACE)
    }
}

/// Appends `s` truncated or right-padded to exactly `width` bytes onto `out`.
pub fn push_padded(out: &mut Vec<u8>, s: &Vec<u8>, width: usize)
    ensures
        final(out)@ == old(out)@ + spec_pad(s@, width as nat),
{
    let ghost base = out@;
    let n = if s.len() < width {
        s.len()
    } else {
        width
    };
    let mut i: usize = 0;
    while i < n
        invariant
            i <= n,
            n <= s@.len(),
            n <= width,
            out@ == base + s@.take(i as int),
        decreases n - i,
    {
        proof {
            assert(s@.take(i + 1) =~= s@.take(i as int).push(s@[i as int]));
        }
        out.push(s[i]);
        i = i + 1;
    }
    while i < width
        invariant
            n <= i <= width,
            n <= s@.len(),
            out@ == base + s@.take(n as int) + Seq::new((i - n) as nat, |j: int| SPACE),
        decreases width - i,
    {
        proof {
            assert(
                (base + s@.take(n as int) + Seq::new((i - n) as nat, |j: int| SPACE)).push(SPACE)
                =~= base + s@.take(n as int) + Seq::new((i + 1 - n) as nat, |j: int| SPACE));
        }
        out.push(SPACE);
        i = i + 1;
    }
    proof {
        if s@.len() >= width {
            assert(Seq::new(0, |j: int| SPACE) =~= Seq::<u8>::empty());
            assert(out@ =~= base + spec_pad(s@, width as nat));
        } else {
            assert(s@.take(n as int) =~= s@);
            assert(out@ =~= base + spec_pad(s@, width as nat));
        }
    }
}

} // verus!
