//! Decimal notation for unsigned integers: the digit string of a value, the
//! value of a digit string, and the facts tying the two together.

use vstd::prelude::*;

verus! {

/// Is `c` one of the ten decimal digit characters?
pub open spec fn is_digit(c: char) -> bool {
    c == '0' || c == '1' || c == '2' || c == '3' || c == '4' || c == '5' || c == '6' || c == '7'
        || c == '8' || c == '9'
}

/// Numeric value of a digit character (meaningful only when `is_digit(c)`).
pub open spec fn digit_val(c: char) -> nat {
    if c == '0' {
        0
    } else if c == '1' {
        1
    } else if c == '2' {
        2
    } else if c == '3' {
        3
    } else if c == '4' {
        4
    } else if c == '5' {
        5
    } else if c == '6' {
        6
    } else if c == '7' {
        7
    } else if c == '8' {
        8
    } else {
        9
    }
}

/// Digit character of a value below ten.
pub open spec fn digit_char(d: nat) -> char {
    if d == 0 {
        '0'
    } else if d == 1 {
        '1'
    } else if d == 2 {
        '2'
    } else if d == 3 {
        '3'
    } else if d == 4 {
        '4'
    } else if d == 5 {
        '5'
    } else if d == 6 {
        '6'
    } else if d == 7 {
        '7'
    } else if d == 8 {
        '8'
    } else {
        '9'
    }
}

/// Shortest decimal digit string of `n` (no leading zeros, except for `0`
/// itself).
pub open spec fn spec_digits(n: nat) -> Seq<char>
    decreases n,
{
    if n < 10 {
        seq![digit_char(n)]
    } else {
        spec_digits(n / 10).push(digit_char(n % 10))
    }
}

/// Value of a digit string read in base ten.
pub open spec fn digits_val(ds: Seq<char>) -> nat
    decreases ds.len(),
{
    if ds.len() == 0 {
        0
    } else {
        digits_val(ds.drop_last()) * 10 + digit_val(ds.last())
    }
}

/// Every character of `ds` is a decimal digit.
pub open spec fn all_digits(ds: Seq<char>) -> bool {
    forall|i: int| 0 <= i < ds.len() ==> is_digit(ds[i])
}

/// Splits `s` into its longest prefix of digit characters and the remainder.
pub open spec fn take_digits(s: Seq<char>) -> (Seq<char>, Seq<char>)
    decreases s.len(),
{
    if s.len() > 0 && is_digit(s[0]) {
        let (d, r) = take_digits(s.drop_first());
        (seq![s[0]] + d, r)
    } else {
        (Seq::empty(), s)
    }
}

/// The whole of `s` read as a decimal number, if that is what it is:
/// non-empty, digits only, and within `u64` range.
pub open spec fn spec_parse_id(s: Seq<char>) -> Option<u64> {
    if s.len() > 0 && all_digits(s) && digits_val(s) <= u64::MAX {
        Some(digits_val(s) as u64)
    } else {
        None
    }
}

proof fn lemma_digit_char_val(d: nat)
    requires
        d < 10,
    ensures
        digit_val(digit_char(d)) == d,
        is_digit(digit_char(d)),
{
}

pub proof fn lemma_spec_digits_shape(n: nat)
    ensures
        spec_digits(n).len() >= 1,
        all_digits(spec_digits(n)),
    decreases n,
{
    if n >= 10 {
        lemma_spec_digits_shape(n / 10);
    }
}

/// Reading back the digit string of `n` yields `n`.
pub proof fn lemma_digits_val_of_spec_digits(n: nat)
    ensures
        digits_val(spec_digits(n)) == n,
    decreases n,
{
    if n < 10 {
        lemma_digit_char_val(n);
        let s = spec_digits(n);
        assert(s == seq![digit_char(n)]);
        assert(s.len() == 1);
        assert(s.drop_last() =~= Seq::<char>::empty());
        assert(s.last() == digit_char(n));
        assert(digits_val(s) == digits_val(s.drop_last()) * 10 + digit_val(s.last()));
    } else {
        assert(0 < n / 10 < n) by (nonlinear_arith)
            requires
                n >= 10,
        ;
        lemma_digits_val_of_spec_digits(n / 10);
        lemma_digit_char_val(n % 10);
        let s = spec_digits(n);
        assert(s == spec_digits(n / 10).push(digit_char(n % 10)));
        assert(s.len() > 0);
        assert(s.drop_last() =~= spec_digits(n / 10));
        assert(s.last() == digit_char(n % 10));
        assert(digits_val(s) == digits_val(s.drop_last()) * 10 + digit_val(s.last()));
        assert((n / 10) * 10 + n % 10 == n) by (nonlinear_arith);
    }
}

/// A digit prefix followed by a non-digit (or nothing) splits back apart.
pub proof fn lemma_take_digits_of_concat(ds: Seq<char>, rest: Seq<char>)
    requires
        all_digits(ds),
        rest.len() == 0 || !is_digit(rest[0]),
    ensures
        take_digits(ds + rest) == (ds, rest),
    decreases ds.len(),
{
    if ds.len() == 0 {
        assert(ds + rest =~= rest);
    } else {
        assert((ds + rest)[0] == ds[0]);
        assert((ds + rest).drop_first() =~= ds.drop_first() + rest);
        lemma_take_digits_of_concat(ds.drop_first(), rest);
        assert(seq![(ds + rest)[0]] + ds.drop_first() =~= ds);
    }
}

/// Extending a digit string on the right never lowers its value.
proof fn lemma_digits_val_prefix_le(a: Seq<char>, b: Seq<char>)
    ensures
        digits_val(a) <= digits_val(a + b),
    decreases b.len(),
{
    if b.len() == 0 {
        assert(a + b =~= a);
    } else {
        lemma_digits_val_prefix_le(a, b.drop_last());
        assert((a + b).drop_last() =~= a + b.drop_last());
        assert(digits_val(a + b) == digits_val(a + b.drop_last()) * 10 + digit_val(
            (a + b).last(),
        ));
    }
}

/// Exact value of a one-character extension on the right.
proof fn lemma_digits_val_push(a: Seq<char>, c: char)
    ensures
        digits_val(a.push(c)) == digits_val(a) * 10 + digit_val(c),
{
    assert(a.push(c).drop_last() =~= a);
    assert(a.push(c).last() == c);
}

/// Leading decimal number of `s`: its longest digit prefix read as a `u64`,
/// with the remainder of `s`.  Nothing when there is no digit prefix or the
/// value does not fit.
pub open spec fn spec_parse_u64(s: Seq<char>) -> Option<(u64, Seq<char>)> {
    let (ds, rest) = take_digits(s);
    if ds.len() > 0 && digits_val(ds) <= u64::MAX {
        Some((digits_val(ds) as u64, rest))
    } else {
        None
    }
}

/// Digit character of a value below ten, as executable code.
fn digit_char_of(d: u8) -> (c: char)
    requires
        d < 10,
    ensures
        c == digit_char(d as nat),
{
    if d == 0 {
        '0'
    } else if d == 1 {
        '1'
    } else if d == 2 {
        '2'
    } else if d == 3 {
        '3'
    } else if d == 4 {
        '4'
    } else if d == 5 {
        '5'
    } else if d == 6 {
        '6'
    } else if d == 7 {
        '7'
    } else if d == 8 {
        '8'
    } else {
        '9'
    }
}

/// Decimal digit test, as executable code.
fn is_digit_char(c: char) -> (b: bool)
    ensures
        b == is_digit(c),
{
    c == '0' || c == '1' || c == '2' || c == '3' || c == '4' || c == '5' || c == '6' || c == '7'
        || c == '8' || c == '9'
}

/// Numeric value of a known digit character, as executable code.
fn digit_val_req(c: char) -> (d: u8)
    requires
        is_digit(c),
    ensures
        d == digit_val(c),
        d < 10,
{
    if c == '0' {
        0
    } else if c == '1' {
        1
    } else if c == '2' {
        2
    } else if c == '3' {
        3
    } else if c == '4' {
        4
    } else if c == '5' {
        5
    } else if c == '6' {
        6
    } else if c == '7' {
        7
    } else if c == '8' {
        8
    } else {
        9
    }
}

/// Reads the decimal number that starts at position `i` of `s`, returning its
/// value and the position just past its digits.
pub fn scan_u64(s: &Vec<char>, i: usize) -> (r: Option<(u64, usize)>)
    requires
        i <= s@.len(),
    ensures
        r matches Some(p) ==> i < p.1 <= s@.len() && spec_parse_u64(s@.skip(i as int)) == Some(
            (p.0, s@.skip(p.1 as int)),
        ),
        r is None ==> spec_parse_u64(s@.skip(i as int)) is None,
{
    let ghost orig = s@.skip(i as int);
    // Find the end of the digit run.
    let mut j: usize = i;
    while j < s.len() && is_digit_char(s[j])
        invariant
            i <= j <= s@.len(),
            all_digits(s@.subrange(i as int, j as int)),
            take_digits(orig) == (
                s@.subrange(i as int, j as int) + take_digits(s@.skip(j as int)).0,
                take_digits(s@.skip(j as int)).1,
            ),
        decreases s@.len() - j,
    {
        proof {
            assert(s@.skip(j as int)[0] == s@[j as int]);
            assert(s@.skip(j as int).drop_first() =~= s@.skip(j as int + 1));
            assert(take_digits(s@.skip(j as int)) == (
                seq![s@[j as int]] + take_digits(s@.skip(j as int + 1)).0,
                take_digits(s@.skip(j as int + 1)).1,
            ));
            assert(s@.subrange(i as int, j as int) + (seq![s@[j as int]] + take_digits(
                s@.skip(j as int + 1),
            ).0) =~= s@.subrange(i as int, j as int + 1) + take_digits(s@.skip(j as int + 1)).0);
            assert(s@.subrange(i as int, j as int + 1) =~= s@.subrange(i as int, j as int).push(
                s@[j as int],
            ));
        }
        j += 1;
    }
    proof {
        if j < s@.len() {
            assert(s@.skip(j as int)[0] == s@[j as int]);
        }
        assert(take_digits(s@.skip(j as int)).0 =~= Seq::<char>::empty());
        assert(s@.subrange(i as int, j as int) + Seq::<char>::empty() =~= s@.subrange(
            i as int,
            j as int,
        ));
        assert(take_digits(orig) == (s@.subrange(i as int, j as int), s@.skip(j as int)));
    }
    if j == i {
        return None;
    }
    let ghost ds = s@.subrange(i as int, j as int);
    // Accumulate the value, watching for overflow.
    let mut acc: u64 = 0;
    let mut k: usize = i;
    while k < j
        invariant
            i <= k <= j <= s@.len(),
            orig == s@.skip(i as int),
            ds == s@.subrange(i as int, j as int),
            all_digits(ds),
            take_digits(orig) == (ds, s@.skip(j as int)),
            acc == digits_val(s@.subrange(i as int, k as int)),
        decreases j - k,
    {
        proof {
            assert(ds[k - i] == s@[k as int]);
            assert(is_digit(s@[k as int]));
        }
        let d = digit_val_req(s[k]);
        proof {
            assert(s@.subrange(i as int, k as int + 1) =~= s@.subrange(i as int, k as int).push(
                s@[k as int],
            ));
            lemma_digits_val_push(s@.subrange(i as int, k as int), s@[k as int]);
        }
        if acc > (u64::MAX - d as u64) / 10 {
            proof {
                let q = (u64::MAX - d as u64) / 10;
                assert(u64::MAX - d as u64 == q * 10 + (u64::MAX - d as u64) % 10);
                assert(acc * 10 >= (q + 1) * 10);
                assert(digits_val(s@.subrange(i as int, k as int + 1)) > u64::MAX);
                lemma_digits_val_prefix_le(
                    s@.subrange(i as int, k as int + 1),
                    s@.subrange(k as int + 1, j as int),
                );
                assert(s@.subrange(i as int, k as int + 1) + s@.subrange(k as int + 1, j as int)
                    =~= ds);
                assert(digits_val(ds) > u64::MAX);
                assert(take_digits(orig).0 == ds);
                assert(spec_parse_u64(orig) is None);
            }
            return None;
        }
        proof {
            let q = (u64::MAX - d as u64) / 10;
            assert(u64::MAX - d as u64 == q * 10 + (u64::MAX - d as u64) % 10);
            assert(acc * 10 <= q * 10);
        }
        acc = acc * 10 + d as u64;
        k += 1;
    }
    proof {
        assert(s@.subrange(i as int, k as int) == ds);
        assert(ds.len() > 0);
    }
    Some((acc, j))
}

/// The whole of `s` read as a decimal `u64`, if that is what it is.
pub fn parse_u64_str(s: &str) -> (r: Option<u64>)
    ensures
        r == spec_parse_id(s@),
{
    let n = s.unicode_len();
    if n == 0 {
        return None;
    }
    let mut acc: u64 = 0;
    let mut k: usize = 0;
    while k < n
        invariant
            0 <= k <= n == s@.len(),
            all_digits(s@.take(k as int)),
            acc == digits_val(s@.take(k as int)),
        decreases n - k,
    {
        let c = s.get_char(k);
        if !is_digit_char(c) {
            return None;
        }
        let d = digit_val_req(c);
        proof {
            assert(s@.take(k as int + 1) =~= s@.take(k as int).push(s@[k as int]));
            lemma_digits_val_push(s@.take(k as int), s@[k as int]);
        }
        if acc > (u64::MAX - d as u64) / 10 {
            proof {
                let q = (u64::MAX - d as u64) / 10;
                assert(u64::MAX - d as u64 == q * 10 + (u64::MAX - d as u64) % 10);
                assert(acc * 10 >= (q + 1) * 10);
                assert(digits_val(s@.take(k as int + 1)) > u64::MAX);
                lemma_digits_val_prefix_le(s@.take(k as int + 1), s@.skip(k as int + 1));
                assert(s@.take(k as int + 1) + s@.skip(k as int + 1) =~= s@);
                assert(digits_val(s@) > u64::MAX);
            }
            return None;
        }
        proof {
            let q = (u64::MAX - d as u64) / 10;
            assert(u64::MAX - d as u64 == q * 10 + (u64::MAX - d as u64) % 10);
            assert(acc * 10 <= q * 10);
        }
        acc = acc * 10 + d as u64;
        k += 1;
    }
    proof {
        assert(s@.take(n as int) =~= s@);
    }
    Some(acc)
}

/// Appends the decimal digit string of `n` to `out`.
pub fn push_digits(out: &mut Vec<char>, n: u64)
    ensures
        final(out)@ == old(out)@ + spec_digits(n as nat),
    decreases n,
{
    if n < 10 {
        out.push(digit_char_of(n as u8));
        assert(out@ =~= old(out)@ + spec_digits(n as nat));
    } else {
        push_digits(out, n / 10);
        out.push(digit_char_of((n % 10) as u8));
        assert(out@ =~= old(out)@ + spec_digits(n as nat));
    }
}

} // verus!
