//! ASCII decimal numbers: how bencode writes lengths and integers, and how it reads them back.
use vstd::prelude::*;

verus! {

/// The ASCII code of `0`.
pub const ZERO: u8 = 48;
/// The ASCII code of `1`.
pub const ONE: u8 = 49;
/// The ASCII code of `9`.
pub const NINE: u8 = 57;
/// The ASCII code of `-`.
pub const MINUS: u8 = 45;
/// The ASCII code of `+`.
pub const PLUS: u8 = 43;

pub open spec fn is_digit(b: u8) -> bool {
    ZERO <= b <= NINE
}

pub open spec fn is_nonzero_digit(b: u8) -> bool {
    ONE <= b <= NINE
}

pub open spec fn all_digits(s: Seq<u8>) -> bool {
    forall|i: int| 0 <= i < s.len() ==> #[trigger] is_digit(s[i])
}

/// The decimal spelling of `n`, most significant digit first, without leading zeros.
pub open spec fn nat_digits(n: nat) -> Seq<u8>
    decreases n,
{
    if n < 10 {
        seq![(ZERO + n) as u8]
    } else {
        nat_digits(n / 10) + seq![(ZERO + n % 10) as u8]
    }
}

/// The decimal spelling of `i`, with a leading `-` when it is negative.
pub open spec fn int_digits(i: int) -> Seq<u8> {
    if i < 0 {
        seq![MINUS] + nat_digits((-i) as nat)
    } else {
        nat_digits(i as nat)
    }
}

/// The number that a run of digits spells.
pub open spec fn digits_value(s: Seq<u8>) -> nat
    decreases s.len(),
{
    if s.len() == 0 {
        0
    } else {
        digits_value(s.drop_last()) * 10 + (s.last() - ZERO) as nat
    }
}

/// How many digits `s` starts with.
pub open spec fn digit_run(s: Seq<u8>) -> nat
    decreases s.len(),
{
    if s.len() > 0 && is_digit(s[0]) {
        1 + digit_run(s.drop_first())
    } else {
        0
    }
}

/// An unsigned decimal at the start of `s`: either a lone `0`, or a nonzero digit followed by
/// as many digits as there are. Gives the value and the number of bytes it takes; `None` when
/// `s` starts otherwise or the value does not fit in a `u64`.
pub open spec fn spec_dec_uint(s: Seq<u8>) -> Option<(nat, nat)> {
    if s.len() == 0 {
        None
    } else if s[0] == ZERO {
        Some((0, 1))
    } else if is_nonzero_digit(s[0]) {
        let n = digit_run(s);
        let v = digits_value(s.take(n as int));
        if v <= u64::MAX {
            Some((v, n))
        } else {
            None
        }
    } else {
        None
    }
}

/// A signed decimal at the start of `s`: either a lone `0`, or an optional `+` or `-` followed
/// by a nonzero digit and as many digits as there are. `None` when `s` starts otherwise or the
/// value does not fit in an `i64`.
pub open spec fn spec_dec_int(s: Seq<u8>) -> Option<(int, nat)> {
    if s.len() == 0 {
        None
    } else if s[0] == ZERO {
        Some((0, 1))
    } else {
        let k: int = if s[0] == MINUS || s[0] == PLUS { 1 } else { 0 };
        if k < s.len() && is_nonzero_digit(s[k]) {
            let rest = s.skip(k);
            let n = digit_run(rest);
            let mag = digits_value(rest.take(n as int));
            let v: int = if s[0] == MINUS { -mag } else { mag as int };
            if i64::MIN <= v <= i64::MAX {
                Some((v, (k + n) as nat))
            } else {
                None
            }
        } else {
            None
        }
    }
}

pub proof fn lemma_nat_digits_shape(n: nat)
    ensures
        nat_digits(n).len() >= 1,
        all_digits(nat_digits(n)),
        n == 0 <==> nat_digits(n)[0] == ZERO,
        is_digit(nat_digits(n)[0]),
        digits_value(nat_digits(n)) == n,
    decreases n,
{
    let d = nat_digits(n);
    if n >= 10 {
        lemma_nat_digits_shape(n / 10);
        assert(d.drop_last() =~= nat_digits(n / 10));
        assert(d[0] == nat_digits(n / 10)[0]);
        assert(d.last() == (ZERO + n % 10) as u8);
        assert(((ZERO + n % 10) as u8) - ZERO == n % 10);
        assert(digits_value(d) == digits_value(d.drop_last()) * 10 + (d.last() - ZERO) as nat);
        assert(n == (n / 10) * 10 + n % 10);
    } else {
        assert(d.drop_last() =~= Seq::<u8>::empty());
        assert(((ZERO + n) as u8) - ZERO == n);
        assert(digits_value(d) == digits_value(d.drop_last()) * 10 + (d.last() - ZERO) as nat);
    }
}

pub proof fn lemma_digit_run_le(s: Seq<u8>)
    ensures
        digit_run(s) <= s.len(),
    decreases s.len(),
{
    if s.len() > 0 {
        lemma_digit_run_le(s.drop_first());
    }
}

/// A run of digits followed by a non-digit (or nothing) is exactly as long as the run.
pub proof fn lemma_digit_run(ds: Seq<u8>, rest: Seq<u8>)
    requires
        all_digits(ds),
        rest.len() == 0 || !is_digit(rest[0]),
    ensures
        digit_run(ds + rest) == ds.len(),
        (ds + rest).take(ds.len() as int) == ds,
    decreases ds.len(),
{
    assert((ds + rest).take(ds.len() as int) =~= ds);
    if ds.len() > 0 {
        lemma_digit_run(ds.drop_first(), rest);
        assert((ds + rest).drop_first() =~= ds.drop_first() + rest);
    } else {
        assert(ds + rest =~= rest);
    }
}

/// The digits of `s` up to `i` and a non-digit (or the end) at `i` give a run of length `i`.
pub proof fn lemma_digit_run_at(s: Seq<u8>, i: int)
    requires
        0 <= i <= s.len(),
        all_digits(s.take(i)),
        i == s.len() || !is_digit(s[i]),
    ensures
        digit_run(s) == i,
{
    lemma_digit_run(s.take(i), s.skip(i));
    assert(s.take(i) + s.skip(i) =~= s);
}

pub proof fn lemma_digits_value_push(s: Seq<u8>, d: u8)
    ensures
        digits_value(s.push(d)) == digits_value(s) * 10 + (d - ZERO) as nat,
{
    assert(s.push(d).drop_last() =~= s);
}

/// Reading back what `nat_digits` wrote gives the same number and length.
pub proof fn lemma_dec_uint_of_digits(n: nat, rest: Seq<u8>)
    requires
        n <= u64::MAX,
        rest.len() == 0 || !is_digit(rest[0]),
    ensures
        spec_dec_uint(nat_digits(n) + rest) == Some((n, nat_digits(n).len())),
{
    lemma_nat_digits_shape(n);
    lemma_digit_run(nat_digits(n), rest);
}

/// Reading back what `int_digits` wrote gives the same number and length.
pub proof fn lemma_dec_int_of_digits(i: int, rest: Seq<u8>)
    requires
        i64::MIN <= i <= i64::MAX,
        rest.len() == 0 || !is_digit(rest[0]),
    ensures
        spec_dec_int(int_digits(i) + rest) == Some((i, int_digits(i).len())),
{
    if i >= 0 {
        lemma_nat_digits_shape(i as nat);
        lemma_digit_run(nat_digits(i as nat), rest);
        let s = int_digits(i) + rest;
        assert(s[0] == nat_digits(i as nat)[0]);
        assert(s.skip(0) =~= s);
    } else {
        let m = (-i) as nat;
        lemma_nat_digits_shape(m);
        lemma_digit_run(nat_digits(m), rest);
        let s = int_digits(i) + rest;
        assert(s.skip(1) =~= nat_digits(m) + rest);
        assert(s[0] == MINUS);
        assert(s[1] == nat_digits(m)[0]);
    }
}

/// Appends the decimal spelling of `n`.
pub fn push_u64_digits(out: &mut Vec<u8>, n: u64)
    ensures
        final(out)@ == old(out)@ + nat_digits(n as nat),
    decreases n,
{
    if n >= 10 {
        push_u64_digits(out, n / 10);
    }
    let d: u8 = (n % 10) as u8;
    out.push(ZERO + d);
    proof {
        if n >= 10 {
            assert(final(out)@ =~= old(out)@ + nat_digits(n as nat));
        } else {
            assert(final(out)@ =~= old(out)@ + nat_digits(n as nat));
        }
    }
}

/// Appends the decimal spelling of `i`, with a leading `-` when it is negative.
pub fn push_i64_digits(out: &mut Vec<u8>, i: i64)
    ensures
        final(out)@ == old(out)@ + int_digits(i as int),
{
    if i < 0 {
        out.push(MINUS);
        let m: u64 = if i == i64::MIN {
            9223372036854775808u64
        } else {
            (-i) as u64
        };
        push_u64_digits(out, m);
        assert(final(out)@ =~= old(out)@ + int_digits(i as int));
    } else {
        push_u64_digits(out, i as u64);
    }
}

/// Reads the run of digits at the start of `s`, which starts with a nonzero digit.
/// Gives its value and length, or `None` when the value does not fit in a `u64`.
fn digit_run_value(s: &[u8]) -> (r: Option<(u64, usize)>)
    requires
        s@.len() > 0,
        is_nonzero_digit(s@[0]),
    ensures
        ({
            let n = digit_run(s@);
            let v = digits_value(s@.take(n as int));
            match r {
                Some((value, len)) => v <= u64::MAX && value == v && len == n && 0 < len <= s@.len(),
                None => v > u64::MAX,
            }
        }),
{
    let mut i: usize = 0;
    let mut v: u64 = 0;
    let mut overflow = false;
    while i < s.len() && ZERO <= s[i] && s[i] <= NINE
        invariant
            0 <= i <= s@.len(),
            all_digits(s@.take(i as int)),
            !overflow ==> v == digits_value(s@.take(i as int)),
            overflow ==> digits_value(s@.take(i as int)) > u64::MAX,
        decreases s@.len() - i,
    {
        let d = s[i] - ZERO;
        proof {
            assert(s@.take(i + 1) =~= s@.take(i as int).push(s@[i as int]));
            lemma_digits_value_push(s@.take(i as int), s@[i as int]);
        }
        if !overflow {
            match v.checked_mul(10) {
                Some(v10) => match v10.checked_add(d as u64) {
                    Some(v2) => {
                        v = v2;
                    },
                    None => {
                        overflow = true;
                    },
                },
                None => {
                    overflow = true;
                },
            }
        }
        i = i + 1;
        assert(all_digits(s@.take(i as int))) by {
            assert forall|j: int| 0 <= j < i implies #[trigger] is_digit(s@.take(i as int)[j]) by {
                if j < i - 1 {
                    assert(s@.take(i as int)[j] == s@.take(i - 1)[j]);
                }
            }
        }
    }
    proof {
        lemma_digit_run_at(s@, i as int);
    }
    if overflow {
        None
    } else {
        Some((v, i))
    }
}

/// Reads an unsigned decimal at the start of `s`, as `spec_dec_uint` says.
pub fn dec_uint(s: &[u8]) -> (r: Option<(u64, usize)>)
    ensures
        match r {
            Some((v, n)) => spec_dec_uint(s@) == Some((v as nat, n as nat)) && 0 < n <= s@.len(),
            None => spec_dec_uint(s@) is None,
        },
{
    if s.len() == 0 {
        None
    } else if s[0] == ZERO {
        Some((0, 1))
    } else if ONE <= s[0] && s[0] <= NINE {
        digit_run_value(s)
    } else {
        None
    }
}

/// Reads a signed decimal at the start of `s`, as `spec_dec_int` says.
pub fn dec_int(s: &[u8]) -> (r: Option<(i64, usize)>)
    ensures
        match r {
            Some((v, n)) => spec_dec_int(s@) == Some((v as int, n as nat)) && 0 < n <= s@.len(),
            None => spec_dec_int(s@) is None,
        },
{
    if s.len() == 0 {
        return None;
    }
    if s[0] == ZERO {
        return Some((0, 1));
    }
    let k: usize = if s[0] == MINUS || s[0] == PLUS { 1 } else { 0 };
    if k >= s.len() || !(ONE <= s[k] && s[k] <= NINE) {
        return None;
    }
    let rest = vstd::slice::slice_subrange(s, k, s.len());
    assert(rest@ == s@.skip(k as int));
    proof {
        lemma_digit_run_le(rest@);
    }
    match digit_run_value(rest) {
        None => None,
        Some((mag, n)) => {
            if s[0] == MINUS {
                if mag > 9223372036854775808u64 {
                    None
                } else if mag == 9223372036854775808u64 {
                    Some((i64::MIN, k + n))
                } else {
                    Some((-(mag as i64), k + n))
                }
            } else {
                if mag > 9223372036854775807u64 {
                    None
                } else {
                    Some((mag as i64, k + n))
                }
            }
        },
    }
}

} // verus!
