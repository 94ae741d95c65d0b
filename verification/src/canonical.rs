//! Canonical bencoding: integers without a `+` sign (the reader already refuses leading zeros
//! and dictionary keys out of order). Writing out what canonical bytes read as gives those
//! very bytes back.
use vstd::prelude::*;
use vstd::arithmetic::div_mod::lemma_fundamental_div_mod_converse;
use crate::bencode_model::{
    parse_bytes, parse_entries, parse_integer_at, parse_items, parse_value, serialize_bytes,
    serialize_entries, serialize_items, serialize_value, Value, DICT_START, END, INT_START,
    LIST_START,
};
use crate::decimal::{
    all_digits, digit_run, digits_value, int_digits, is_digit, is_nonzero_digit, nat_digits,
    spec_dec_int, spec_dec_uint, MINUS, PLUS, ZERO,
};

verus! {

/// The value bencoded at the start of `s` is written canonically: its integers carry no `+`
/// sign.
pub open spec fn canonical_value(s: Seq<u8>) -> bool
    decreases s.len(), 1nat,
{
    if s.len() == 0 {
        false
    } else if s[0] == INT_START {
        s.len() > 1 && s[1] != PLUS
    } else if is_digit(s[0]) {
        true
    } else if s[0] == LIST_START {
        canonical_items(s.drop_first())
    } else if s[0] == DICT_START {
        canonical_entries(s.drop_first())
    } else {
        false
    }
}

/// The items of a list, up to its closing `e`, are written canonically.
pub open spec fn canonical_items(s: Seq<u8>) -> bool
    decreases s.len(), 2nat,
{
    if s.len() == 0 {
        false
    } else if s[0] == END {
        true
    } else {
        match parse_value(s) {
            Some((v, n)) => 0 < n <= s.len() && canonical_value(s) && canonical_items(
                s.skip(n as int),
            ),
            None => false,
        }
    }
}

/// The entries of a dictionary, up to its closing `e`, are written canonically.
pub open spec fn canonical_entries(s: Seq<u8>) -> bool
    decreases s.len(), 2nat,
{
    if s.len() == 0 {
        false
    } else if s[0] == END {
        true
    } else {
        match parse_bytes(s) {
            Some((k, n1)) => {
                let s2 = s.skip(n1 as int);
                &&& 0 < n1 <= s.len()
                &&& match parse_value(s2) {
                    Some((v, n2)) => 0 < n2 <= s2.len() && canonical_value(s2) && canonical_entries(
                        s2.skip(n2 as int),
                    ),
                    None => false,
                }
            },
            None => false,
        }
    }
}

proof fn lemma_digit_run_prefix(s: Seq<u8>)
    ensures
        digit_run(s) <= s.len(),
        all_digits(s.take(digit_run(s) as int)),
    decreases s.len(),
{
    if s.len() > 0 && is_digit(s[0]) {
        let t = s.drop_first();
        lemma_digit_run_prefix(t);
        let r = digit_run(t) as int;
        assert(s.take(r + 1) =~= seq![s[0]] + t.take(r));
        assert forall|i: int| 0 <= i < r + 1 implies #[trigger] is_digit(s.take(r + 1)[i]) by {
            if i > 0 {
                assert(s.take(r + 1)[i] == t.take(r)[i - 1]);
            }
        }
    } else {
        assert(s.take(0) =~= seq![]);
    }
}

/// Digits that do not start with a zero are the decimal spelling of their value.
proof fn lemma_digits_canonical(d: Seq<u8>)
    requires
        d.len() >= 1,
        all_digits(d),
        is_nonzero_digit(d[0]),
    ensures
        digits_value(d) >= 1,
        nat_digits(digits_value(d)) == d,
    decreases d.len(),
{
    let p = d.drop_last();
    let c = (d.last() - ZERO) as nat;
    assert(is_digit(d.last()));
    assert(digits_value(d) == digits_value(p) * 10 + c);
    if p.len() == 0 {
        assert(digits_value(p) == 0);
        assert(digits_value(d) == c);
        assert(nat_digits(c) == seq![(ZERO + c) as u8]);
        assert(d =~= seq![d[0]]);
    } else {
        assert(p[0] == d[0]);
        assert forall|i: int| 0 <= i < p.len() implies #[trigger] is_digit(p[i]) by {
            assert(p[i] == d[i]);
        }
        lemma_digits_canonical(p);
        let v = digits_value(d);
        let q = digits_value(p);
        assert(v >= 10);
        lemma_fundamental_div_mod_converse(v as int, 10, q as int, c as int);
        assert(nat_digits(v) == nat_digits(v / 10) + seq![(ZERO + v % 10) as u8]);
        assert(((ZERO + c) as u8) == d.last());
        assert(d =~= p + seq![d.last()]);
    }
}

/// What an unsigned decimal reads is spelt as it was written.
proof fn lemma_dec_uint_canonical(s: Seq<u8>)
    requires
        spec_dec_uint(s) is Some,
    ensures
        ({
            let (v, n) = spec_dec_uint(s).unwrap();
            n <= s.len() && s.take(n as int) == nat_digits(v)
        }),
{
    if s[0] == ZERO {
        assert(s.take(1) =~= seq![ZERO]);
        assert(nat_digits(0) == seq![(ZERO + 0) as u8]);
    } else {
        lemma_digit_run_prefix(s);
        let n = digit_run(s) as int;
        assert(n >= 1);
        assert(s.take(n)[0] == s[0]);
        lemma_digits_canonical(s.take(n));
    }
}

/// What a signed decimal without a `+` reads is spelt as it was written.
proof fn lemma_dec_int_canonical(s: Seq<u8>)
    requires
        spec_dec_int(s) is Some,
        s[0] != PLUS,
    ensures
        ({
            let (i, n) = spec_dec_int(s).unwrap();
            n <= s.len() && s.take(n as int) == int_digits(i)
        }),
{
    if s[0] == ZERO {
        assert(s.take(1) =~= seq![ZERO]);
        assert(nat_digits(0) == seq![(ZERO + 0) as u8]);
    } else {
        let k: int = if s[0] == MINUS { 1 } else { 0 };
        let rest = s.skip(k);
        lemma_digit_run_prefix(rest);
        let n = digit_run(rest) as int;
        assert(n >= 1);
        assert(rest.take(n)[0] == rest[0]);
        lemma_digits_canonical(rest.take(n));
        if k == 1 {
            assert(s.take(1 + n) =~= seq![MINUS] + rest.take(n));
        } else {
            assert(s.take(n) =~= rest.take(n));
        }
    }
}

/// A byte string reads back as it is written.
proof fn lemma_bytes_canonical(s: Seq<u8>)
    requires
        parse_bytes(s) is Some,
    ensures
        ({
            let (b, n) = parse_bytes(s).unwrap();
            n <= s.len() && serialize_bytes(b) == s.take(n as int)
        }),
{
    let (len, n0) = spec_dec_uint(s).unwrap();
    lemma_dec_uint_canonical(s);
    let (b, n) = parse_bytes(s).unwrap();
    assert(b.len() == len);
    assert(s.take(n as int) =~= s.take(n0 as int) + seq![s[n0 as int]] + b);
}

/// Writing out what canonical bytes read as gives those bytes back: when the value at the
/// start of `s` is written canonically, its bencoding is exactly the bytes it was read from.
pub proof fn lemma_canonical_reencodes(s: Seq<u8>)
    requires
        canonical_value(s),
        parse_value(s) is Some,
    ensures
        ({
            let (v, n) = parse_value(s).unwrap();
            n <= s.len() && serialize_value(v) == s.take(n as int)
        }),
    decreases s.len(), 1nat,
{
    let (v, n) = parse_value(s).unwrap();
    if s[0] == INT_START {
        let t = s.drop_first();
        let (i, n0) = spec_dec_int(t).unwrap();
        assert(t[0] == s[1]);
        lemma_dec_int_canonical(t);
        assert(s.take(n as int) =~= seq![INT_START] + t.take(n0 as int) + seq![END]);
    } else if is_digit(s[0]) {
        lemma_bytes_canonical(s);
    } else if s[0] == LIST_START {
        let t = s.drop_first();
        let (items, m) = parse_items(t).unwrap();
        lemma_canonical_items(t);
        assert(s.take(n as int) =~= seq![LIST_START] + t.take(m as int));
    } else {
        let t = s.drop_first();
        let (es, m) = parse_entries(t, seq![]).unwrap();
        lemma_canonical_entries(t, seq![]);
        assert(es.skip(0) =~= es);
        assert(s.take(n as int) =~= seq![DICT_START] + t.take(m as int));
    }
}

proof fn lemma_canonical_items(s: Seq<u8>)
    requires
        canonical_items(s),
        parse_items(s) is Some,
    ensures
        ({
            let (items, m) = parse_items(s).unwrap();
            m <= s.len() && serialize_items(items) + seq![END] == s.take(m as int)
        }),
    decreases s.len(), 2nat,
{
    let (items, m) = parse_items(s).unwrap();
    if s[0] == END {
        assert(s.take(1) =~= seq![END]);
        assert(serialize_items(items) == Seq::<u8>::empty());
    } else {
        let (v, n) = parse_value(s).unwrap();
        let t = s.skip(n as int);
        let (vs, k) = parse_items(t).unwrap();
        lemma_canonical_reencodes(s);
        lemma_canonical_items(t);
        assert(items == seq![v] + vs);
        assert((seq![v] + vs)[0] == v);
        assert((seq![v] + vs).drop_first() =~= vs);
        assert(serialize_items(items) == serialize_value(v) + serialize_items(vs));
        assert(s.take(m as int) =~= s.take(n as int) + t.take(k as int));
    }
}

/// Entries that begin with `acc` and then one more: their tail past `acc` is that entry and
/// the tail past it.
proof fn lemma_entries_tail(
    es: Seq<(Seq<u8>, Value)>,
    acc: Seq<(Seq<u8>, Value)>,
    e: (Seq<u8>, Value),
)
    requires
        acc.len() + 1 <= es.len(),
        es.take(acc.len() + 1 as int) == acc.push(e),
    ensures
        es.take(acc.len() as int) == acc,
        serialize_entries(es.skip(acc.len() as int)) == serialize_bytes(e.0) + serialize_value(e.1)
            + serialize_entries(es.skip(acc.len() + 1 as int)),
{
    let n = acc.len() as int;
    assert(es.take(n) =~= es.take(n + 1).take(n));
    assert(acc.push(e).take(n) =~= acc);
    let tail = es.skip(n);
    assert(tail[0] == es.take(n + 1)[n]);
    assert(tail[0] == e);
    assert(tail.drop_first() =~= es.skip(n + 1));
}

proof fn lemma_canonical_entries(s: Seq<u8>, acc: Seq<(Seq<u8>, Value)>)
    requires
        canonical_entries(s),
        parse_entries(s, acc) is Some,
    ensures
        ({
            let (es, m) = parse_entries(s, acc).unwrap();
            &&& m <= s.len()
            &&& acc.len() <= es.len()
            &&& es.take(acc.len() as int) == acc
            &&& serialize_entries(es.skip(acc.len() as int)) + seq![END] == s.take(m as int)
        }),
    decreases s.len(), 2nat,
{
    let (es, m) = parse_entries(s, acc).unwrap();
    if s[0] == END {
        assert(es == acc);
        assert(es.take(acc.len() as int) =~= acc);
        assert(es.skip(acc.len() as int) =~= seq![]);
        assert(s.take(1) =~= seq![END]);
    } else {
        let (k, n1) = parse_bytes(s).unwrap();
        let s2 = s.skip(n1 as int);
        let (v, n2) = parse_value(s2).unwrap();
        let s3 = s2.skip(n2 as int);
        let acc2 = acc.push((k, v));
        lemma_bytes_canonical(s);
        lemma_canonical_reencodes(s2);
        lemma_canonical_entries(s3, acc2);
        let m3 = parse_entries(s3, acc2).unwrap().1;
        assert(parse_entries(s3, acc2).unwrap().0 == es);
        lemma_entries_tail(es, acc, (k, v));
        assert(s.take(m as int) =~= s.take(n1 as int) + s2.take(n2 as int) + s3.take(m3 as int));
    }
}

} // verus!
