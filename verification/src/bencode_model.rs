//! The mathematical model of bencode: values, their byte encoding, and the grammar that reads
//! them back, with the laws that tie the two together.
use vstd::prelude::*;
use vstd::utf8::{decode_utf8, valid_utf8};
use crate::decimal::{
    int_digits, is_digit, lemma_dec_int_of_digits, lemma_dec_uint_of_digits, lemma_nat_digits_shape,
    nat_digits, spec_dec_int, spec_dec_uint,
};

verus! {

/// The ASCII code of `i`, which opens an integer.
pub const INT_START: u8 = 105;
/// The ASCII code of `l`, which opens a list.
pub const LIST_START: u8 = 108;
/// The ASCII code of `d`, which opens a dictionary.
pub const DICT_START: u8 = 100;
/// The ASCII code of `e`, which closes integers, lists and dictionaries.
pub const END: u8 = 101;
/// The ASCII code of `:`, which separates a byte string's length from its bytes.
pub const COLON: u8 = 58;

/// A bencoded value.
pub enum Value {
    Bytes(Seq<u8>),
    Int(int),
    List(Seq<Value>),
    /// Entries in the order of their keys.
    Dict(Seq<(Seq<u8>, Value)>),
}

/// Byte-wise lexicographic order, the order in which dictionary keys are kept.
pub open spec fn bytes_lt(a: Seq<u8>, b: Seq<u8>) -> bool
    decreases a.len(),
{
    if a.len() == 0 {
        b.len() > 0
    } else if b.len() == 0 {
        false
    } else if a[0] != b[0] {
        a[0] < b[0]
    } else {
        bytes_lt(a.drop_first(), b.drop_first())
    }
}

/// The keys of `es` are strictly increasing.
pub open spec fn keys_sorted(es: Seq<(Seq<u8>, Value)>) -> bool {
    forall|i: int, j: int| 0 <= i < j < es.len() ==> bytes_lt(#[trigger] es[i].0, #[trigger] es[j].0)
}

/// Every key of `a` comes before every key of `b`.
pub open spec fn keys_before(a: Seq<(Seq<u8>, Value)>, b: Seq<(Seq<u8>, Value)>) -> bool {
    forall|i: int, j: int| 0 <= i < a.len() && 0 <= j < b.len() ==> bytes_lt(#[trigger] a[i].0, #[trigger] b[j].0)
}

/// Puts `(k, v)` into entries kept in key order: a present key gets the new value,
/// a new key goes where the order puts it.
pub open spec fn dict_insert(es: Seq<(Seq<u8>, Value)>, k: Seq<u8>, v: Value) -> Seq<(Seq<u8>, Value)>
    decreases es.len(),
{
    if es.len() == 0 {
        seq![(k, v)]
    } else if es[0].0 == k {
        seq![(k, v)] + es.drop_first()
    } else if bytes_lt(k, es[0].0) {
        seq![(k, v)] + es
    } else {
        seq![es[0]] + dict_insert(es.drop_first(), k, v)
    }
}

/// The value stored under `key`, the first entry that has it.
pub open spec fn entries_get(es: Seq<(Seq<u8>, Value)>, key: Seq<u8>) -> Option<Value>
    decreases es.len(),
{
    if es.len() == 0 {
        None
    } else if es[0].0 == key {
        Some(es[0].1)
    } else {
        entries_get(es.drop_first(), key)
    }
}

/// What a dictionary holds under `key`; `None` for a key it lacks and for any other value.
pub open spec fn dict_get(v: Value, key: Seq<u8>) -> Option<Value> {
    match v {
        Value::Dict(es) => entries_get(es, key),
        _ => None,
    }
}

/// A value that bencode can carry: integers fit in an `i64`, lengths in a `u64`,
/// and dictionary keys are strictly increasing.
pub open spec fn wf_value(v: Value) -> bool
    decreases v,
{
    match v {
        Value::Bytes(b) => b.len() <= u64::MAX,
        Value::Int(i) => i64::MIN <= i <= i64::MAX,
        Value::List(items) => wf_items(items),
        Value::Dict(es) => keys_sorted(es) && wf_entries(es),
    }
}

pub open spec fn wf_items(items: Seq<Value>) -> bool
    decreases items,
{
    if items.len() == 0 {
        true
    } else {
        wf_value(items[0]) && wf_items(items.drop_first())
    }
}

pub open spec fn wf_entries(es: Seq<(Seq<u8>, Value)>) -> bool
    decreases es,
{
    if es.len() == 0 {
        true
    } else {
        es[0].0.len() <= u64::MAX && wf_value(es[0].1) && wf_entries(es.drop_first())
    }
}

/// The bencoding of a byte string: its length in decimal, `:`, then the bytes.
pub open spec fn serialize_bytes(b: Seq<u8>) -> Seq<u8> {
    nat_digits(b.len()) + seq![COLON] + b
}

/// The bencoding of a value.
pub open spec fn serialize_value(v: Value) -> Seq<u8>
    decreases v,
{
    match v {
        Value::Bytes(b) => serialize_bytes(b),
        Value::Int(i) => seq![INT_START] + int_digits(i) + seq![END],
        Value::List(items) => seq![LIST_START] + serialize_items(items) + seq![END],
        Value::Dict(es) => seq![DICT_START] + serialize_entries(es) + seq![END],
    }
}

pub open spec fn serialize_items(items: Seq<Value>) -> Seq<u8>
    decreases items,
{
    if items.len() == 0 {
        seq![]
    } else {
        serialize_value(items[0]) + serialize_items(items.drop_first())
    }
}

pub open spec fn serialize_entries(es: Seq<(Seq<u8>, Value)>) -> Seq<u8>
    decreases es,
{
    if es.len() == 0 {
        seq![]
    } else {
        serialize_bytes(es[0].0) + serialize_value(es[0].1) + serialize_entries(
            es.drop_first(),
        )
    }
}

/// A byte string at the start of `s`: its length in decimal, `:`, and that many bytes.
/// Gives the bytes and how many bytes of `s` the whole takes.
pub open spec fn parse_bytes(s: Seq<u8>) -> Option<(Seq<u8>, nat)> {
    match spec_dec_uint(s) {
        Some((len, n)) => if n < s.len() && s[n as int] == COLON && n + 1 + len <= s.len() {
            Some((s.subrange(n + 1 as int, n + 1 + len as int), (n + 1 + len) as nat))
        } else {
            None
        },
        None => None,
    }
}

/// An integer at the start of `s`: `i`, a signed decimal, `e`.
pub open spec fn parse_integer_at(s: Seq<u8>) -> Option<(Value, nat)> {
    if s.len() > 0 && s[0] == INT_START {
        match spec_dec_int(s.drop_first()) {
            Some((i, n)) => if 1 + n < s.len() && s[1 + n as int] == END {
                Some((Value::Int(i), n + 2))
            } else {
                None
            },
            None => None,
        }
    } else {
        None
    }
}

/// A byte string at the start of `s`, as a value.
pub open spec fn parse_bytestring_at(s: Seq<u8>) -> Option<(Value, nat)> {
    match parse_bytes(s) {
        Some((b, n)) => Some((Value::Bytes(b), n)),
        None => None,
    }
}

/// A list at the start of `s`: `l`, values, `e`.
pub open spec fn parse_list_at(s: Seq<u8>) -> Option<(Value, nat)>
    decreases s.len(), 0nat,
{
    if s.len() > 0 && s[0] == LIST_START {
        match parse_items(s.drop_first()) {
            Some((items, n)) => Some((Value::List(items), n + 1)),
            None => None,
        }
    } else {
        None
    }
}

/// A dictionary at the start of `s`: `d`, pairs of a byte string key and a value, `e`.
/// The keys come in strictly increasing byte order.
pub open spec fn parse_dict_at(s: Seq<u8>) -> Option<(Value, nat)>
    decreases s.len(), 0nat,
{
    if s.len() > 0 && s[0] == DICT_START {
        match parse_entries(s.drop_first(), seq![]) {
            Some((es, n)) => Some((Value::Dict(es), n + 1)),
            None => None,
        }
    } else {
        None
    }
}

/// The value that `s` starts with, and how many bytes it takes. The first byte decides:
/// `i` an integer, a digit a byte string, `l` a list, `d` a dictionary.
pub open spec fn parse_value(s: Seq<u8>) -> Option<(Value, nat)>
    decreases s.len(), 1nat,
{
    if s.len() == 0 {
        None
    } else if s[0] == INT_START {
        parse_integer_at(s)
    } else if is_digit(s[0]) {
        parse_bytestring_at(s)
    } else if s[0] == LIST_START {
        parse_list_at(s)
    } else if s[0] == DICT_START {
        parse_dict_at(s)
    } else {
        None
    }
}

/// The items of a list up to and including its closing `e`.
pub open spec fn parse_items(s: Seq<u8>) -> Option<(Seq<Value>, nat)>
    decreases s.len(), 2nat,
{
    if s.len() == 0 {
        None
    } else if s[0] == END {
        Some((seq![], 1))
    } else {
        match parse_value(s) {
            Some((v, n)) => if 0 < n <= s.len() {
                match parse_items(s.skip(n as int)) {
                    Some((vs, m)) => Some((seq![v] + vs, n + m)),
                    None => None,
                }
            } else {
                None
            },
            None => None,
        }
    }
}

/// The key `k` may come after the entries `acc`: they are empty, or their last key comes
/// before it in byte order.
pub open spec fn key_follows(acc: Seq<(Seq<u8>, Value)>, k: Seq<u8>) -> bool {
    acc.len() == 0 || bytes_lt(acc.last().0, k)
}

/// The entries of a dictionary up to and including its closing `e`, each key and value
/// appended to `acc` in turn. The keys must come in strictly increasing byte order: a key that
/// does not come after the one before it is refused.
pub open spec fn parse_entries(s: Seq<u8>, acc: Seq<(Seq<u8>, Value)>) -> Option<
    (Seq<(Seq<u8>, Value)>, nat),
>
    decreases s.len(), 2nat,
{
    if s.len() == 0 {
        None
    } else if s[0] == END {
        Some((acc, 1))
    } else {
        match parse_bytes(s) {
            Some((k, n1)) => if 0 < n1 <= s.len() && key_follows(acc, k) {
                let s2 = s.skip(n1 as int);
                match parse_value(s2) {
                    Some((v, n2)) => if 0 < n2 <= s2.len() {
                        match parse_entries(s2.skip(n2 as int), acc.push((k, v))) {
                            Some((es, m)) => Some((es, n1 + n2 + m)),
                            None => None,
                        }
                    } else {
                        None
                    },
                    None => None,
                }
            } else {
                None
            },
            None => None,
        }
    }
}

pub proof fn lemma_bytes_lt_irreflexive(a: Seq<u8>)
    ensures
        !bytes_lt(a, a),
    decreases a.len(),
{
    if a.len() > 0 {
        lemma_bytes_lt_irreflexive(a.drop_first());
    }
}

pub proof fn lemma_bytes_lt_transitive(a: Seq<u8>, b: Seq<u8>, c: Seq<u8>)
    requires
        bytes_lt(a, b),
        bytes_lt(b, c),
    ensures
        bytes_lt(a, c),
    decreases a.len(),
{
    if a.len() > 0 && b.len() > 0 && c.len() > 0 && a[0] == b[0] && b[0] == c[0] {
        lemma_bytes_lt_transitive(a.drop_first(), b.drop_first(), c.drop_first());
    }
}

pub proof fn lemma_bytes_lt_total(a: Seq<u8>, b: Seq<u8>)
    ensures
        a == b || bytes_lt(a, b) || bytes_lt(b, a),
    decreases a.len(),
{
    if a.len() > 0 && b.len() > 0 && a[0] == b[0] {
        lemma_bytes_lt_total(a.drop_first(), b.drop_first());
        if a.drop_first() == b.drop_first() {
            assert(a =~= seq![a[0]] + a.drop_first());
            assert(b =~= seq![b[0]] + b.drop_first());
        }
    } else if a.len() == 0 && b.len() == 0 {
        assert(a =~= b);
    }
}

pub proof fn lemma_bytes_lt_asymmetric(a: Seq<u8>, b: Seq<u8>)
    requires
        bytes_lt(a, b),
    ensures
        !bytes_lt(b, a),
{
    if bytes_lt(b, a) {
        lemma_bytes_lt_transitive(a, b, a);
        lemma_bytes_lt_irreflexive(a);
    }
}

/// Inserting at the place where the keys stop being smaller than `k`:
/// the entry there is replaced when it has `k`, else the new one goes in before it.
pub proof fn lemma_dict_insert_at(es: Seq<(Seq<u8>, Value)>, k: Seq<u8>, v: Value, p: int)
    requires
        0 <= p <= es.len(),
        forall|j: int| 0 <= j < p ==> bytes_lt(#[trigger] es[j].0, k),
        p < es.len() ==> !bytes_lt(es[p].0, k),
    ensures
        dict_insert(es, k, v) == (if p < es.len() && es[p].0 == k {
            es.update(p, (k, v))
        } else {
            es.insert(p, (k, v))
        }),
    decreases p,
{
    if p == 0 {
        if es.len() > 0 {
            if es[0].0 == k {
                assert(seq![(k, v)] + es.drop_first() =~= es.update(0, (k, v)));
            } else {
                lemma_bytes_lt_total(es[0].0, k);
                assert(seq![(k, v)] + es =~= es.insert(0, (k, v)));
            }
        } else {
            assert(seq![(k, v)] =~= es.insert(0, (k, v)));
        }
    } else {
        let e0 = es[0];
        lemma_bytes_lt_asymmetric(e0.0, k);
        lemma_bytes_lt_irreflexive(k);
        assert(e0.0 != k);
        let rest = es.drop_first();
        assert forall|j: int| 0 <= j < p - 1 implies bytes_lt(#[trigger] rest[j].0, k) by {
            assert(rest[j] == es[j + 1]);
        }
        lemma_dict_insert_at(rest, k, v, p - 1);
        if p < es.len() && es[p].0 == k {
            assert(seq![e0] + rest.update(p - 1, (k, v)) =~= es.update(p, (k, v)));
        } else {
            assert(seq![e0] + rest.insert(p - 1, (k, v)) =~= es.insert(p, (k, v)));
        }
    }
}

/// A key smaller than every key of `es` and than `k` stays smaller than every key after an insert.
pub proof fn lemma_dict_insert_bound(es: Seq<(Seq<u8>, Value)>, k: Seq<u8>, v: Value, b: Seq<u8>)
    requires
        forall|j: int| 0 <= j < es.len() ==> bytes_lt(b, #[trigger] es[j].0),
        bytes_lt(b, k),
    ensures
        forall|j: int|
            0 <= j < dict_insert(es, k, v).len() ==> bytes_lt(b, #[trigger] dict_insert(es, k, v)[j].0),
    decreases es.len(),
{
    let r = dict_insert(es, k, v);
    if es.len() > 0 {
        let rest = es.drop_first();
        assert forall|j: int| 0 <= j < rest.len() implies bytes_lt(b, #[trigger] rest[j].0) by {
            assert(rest[j] == es[j + 1]);
        }
        lemma_dict_insert_bound(rest, k, v, b);
        if es[0].0 == k {
            assert forall|j: int| 0 <= j < r.len() implies bytes_lt(b, #[trigger] r[j].0) by {
                if j > 0 {
                    assert(r[j] == es[j]);
                }
            }
        } else if bytes_lt(k, es[0].0) {
            assert forall|j: int| 0 <= j < r.len() implies bytes_lt(b, #[trigger] r[j].0) by {
                if j > 0 {
                    assert(r[j] == es[j - 1]);
                }
            }
        } else {
            let ri = dict_insert(rest, k, v);
            assert forall|j: int| 0 <= j < r.len() implies bytes_lt(b, #[trigger] r[j].0) by {
                if j > 0 {
                    assert(r[j] == ri[j - 1]);
                }
            }
        }
    }
}

/// Inserting keeps the keys sorted and the entries well formed.
pub proof fn lemma_dict_insert_wf(es: Seq<(Seq<u8>, Value)>, k: Seq<u8>, v: Value)
    requires
        keys_sorted(es),
        wf_entries(es),
        k.len() <= u64::MAX,
        wf_value(v),
    ensures
        keys_sorted(dict_insert(es, k, v)),
        wf_entries(dict_insert(es, k, v)),
    decreases es.len(),
{
    let r = dict_insert(es, k, v);
    if es.len() == 0 {
        assert(wf_entries(r.drop_first())) by {
            assert(r.drop_first() =~= Seq::<(Seq<u8>, Value)>::empty());
        }
    } else {
        let e0 = es[0];
        let rest = es.drop_first();
        assert(keys_sorted(rest)) by {
            assert forall|i: int, j: int| 0 <= i < j < rest.len() implies bytes_lt(
                #[trigger] rest[i].0,
                #[trigger] rest[j].0,
            ) by {
                assert(rest[i] == es[i + 1] && rest[j] == es[j + 1]);
            }
        }
        if e0.0 == k {
            assert(r.drop_first() =~= rest);
            assert forall|i: int, j: int| 0 <= i < j < r.len() implies bytes_lt(
                #[trigger] r[i].0,
                #[trigger] r[j].0,
            ) by {
                assert(r[j] == es[j]);
                if i > 0 {
                    assert(r[i] == es[i]);
                }
            }
        } else if bytes_lt(k, e0.0) {
            assert(r.drop_first() =~= es);
            assert forall|i: int, j: int| 0 <= i < j < r.len() implies bytes_lt(
                #[trigger] r[i].0,
                #[trigger] r[j].0,
            ) by {
                assert(r[j] == es[j - 1]);
                if i > 0 {
                    assert(r[i] == es[i - 1]);
                } else if j > 1 {
                    lemma_bytes_lt_transitive(k, e0.0, es[j - 1].0);
                }
            }
        } else {
            lemma_bytes_lt_total(k, e0.0);
            lemma_dict_insert_wf(rest, k, v);
            let ri = dict_insert(rest, k, v);
            assert(r.drop_first() =~= ri);
            assert forall|j: int| 0 <= j < rest.len() implies bytes_lt(e0.0, #[trigger] rest[j].0) by {
                assert(rest[j] == es[j + 1]);
            }
            lemma_dict_insert_bound(rest, k, v, e0.0);
            assert forall|i: int, j: int| 0 <= i < j < r.len() implies bytes_lt(
                #[trigger] r[i].0,
                #[trigger] r[j].0,
            ) by {
                assert(r[j] == ri[j - 1]);
                if i > 0 {
                    assert(r[i] == ri[i - 1]);
                }
            }
        }
    }
}

/// Inserting a key larger than all present ones appends it.
pub proof fn lemma_parse_bytes_bounds(s: Seq<u8>)
    ensures
        parse_bytes(s) matches Some((b, n)) ==> 2 <= n <= s.len() && b.len() <= u64::MAX,
{
    if s.len() > 0 && s[0] != crate::decimal::ZERO && crate::decimal::is_nonzero_digit(s[0]) {
        assert(crate::decimal::digit_run(s) >= 1);
    }
}

proof fn lemma_wf_items_cons(v: Value, vs: Seq<Value>)
    ensures
        wf_items(seq![v] + vs) == (wf_value(v) && wf_items(vs)),
{
    assert((seq![v] + vs).drop_first() =~= vs);
}

/// Every item of a well-formed list is well formed.
pub proof fn lemma_wf_items_index(items: Seq<Value>, i: int)
    requires
        wf_items(items),
        0 <= i < items.len(),
    ensures
        wf_value(items[i]),
    decreases i,
{
    if i > 0 {
        lemma_wf_items_index(items.drop_first(), i - 1);
    }
}

/// Every entry of well-formed entries has a key whose length fits a `u64` and a well-formed
/// value.
pub proof fn lemma_wf_entries_index(es: Seq<(Seq<u8>, Value)>, i: int)
    requires
        wf_entries(es),
        0 <= i < es.len(),
    ensures
        es[i].0.len() <= u64::MAX,
        wf_value(es[i].1),
    decreases i,
{
    if i > 0 {
        lemma_wf_entries_index(es.drop_first(), i - 1);
    }
}

/// What a well-formed dictionary holds under a key is well formed.
pub proof fn lemma_dict_get_wf(v: Value, key: Seq<u8>)
    requires
        wf_value(v),
    ensures
        dict_get(v, key) matches Some(x) ==> wf_value(x),
{
    if let Value::Dict(es) = v {
        lemma_entries_get_wf(es, key);
    }
}

proof fn lemma_entries_get_wf(es: Seq<(Seq<u8>, Value)>, key: Seq<u8>)
    requires
        wf_entries(es),
    ensures
        entries_get(es, key) matches Some(x) ==> wf_value(x),
    decreases es.len(),
{
    if es.len() > 0 {
        lemma_entries_get_wf(es.drop_first(), key);
    }
}

/// The dictionary made by putting the entries `es` into `acc` one after the other with
/// `dict_insert`: keys in order, each once, a later value for a key replacing an earlier one.
pub open spec fn insert_all(acc: Seq<(Seq<u8>, Value)>, es: Seq<(Seq<u8>, Value)>) -> Seq<
    (Seq<u8>, Value),
>
    decreases es.len(),
{
    if es.len() == 0 {
        acc
    } else {
        insert_all(dict_insert(acc, es[0].0, es[0].1), es.drop_first())
    }
}

/// Inserting one more entry after the others.
pub proof fn lemma_insert_all_push(
    acc: Seq<(Seq<u8>, Value)>,
    es: Seq<(Seq<u8>, Value)>,
    e: (Seq<u8>, Value),
)
    ensures
        insert_all(acc, es.push(e)) == dict_insert(insert_all(acc, es), e.0, e.1),
    decreases es.len(),
{
    if es.len() == 0 {
        let d = dict_insert(acc, e.0, e.1);
        assert(es.push(e).drop_first() =~= seq![]);
        assert(es.push(e)[0] == e);
        assert(insert_all(d, es.push(e).drop_first()) == d);
        assert(insert_all(acc, es) == acc);
    } else {
        assert(es.push(e)[0] == es[0]);
        assert(es.push(e).drop_first() =~= es.drop_first().push(e));
        lemma_insert_all_push(dict_insert(acc, es[0].0, es[0].1), es.drop_first(), e);
    }
}

/// Inserting well-formed entries into a well-formed dictionary gives a well-formed one.
pub proof fn lemma_insert_all_wf(acc: Seq<(Seq<u8>, Value)>, es: Seq<(Seq<u8>, Value)>)
    requires
        keys_sorted(acc),
        wf_entries(acc),
        wf_entries(es),
    ensures
        keys_sorted(insert_all(acc, es)),
        wf_entries(insert_all(acc, es)),
    decreases es.len(),
{
    if es.len() > 0 {
        lemma_dict_insert_wf(acc, es[0].0, es[0].1);
        lemma_insert_all_wf(dict_insert(acc, es[0].0, es[0].1), es.drop_first());
    }
}

pub proof fn lemma_parse_value_wf(s: Seq<u8>)
    ensures
        parse_value(s) matches Some((v, n)) ==> 0 < n <= s.len() && wf_value(v),
    decreases s.len(), 1nat,
{
    if s.len() > 0 {
        if s[0] == INT_START {
        } else if is_digit(s[0]) {
            lemma_parse_bytes_bounds(s);
        } else if s[0] == LIST_START {
            lemma_parse_items_wf(s.drop_first());
        } else if s[0] == DICT_START {
            lemma_parse_entries_wf(s.drop_first(), seq![]);
        }
    }
}

pub proof fn lemma_parse_items_wf(s: Seq<u8>)
    ensures
        parse_items(s) matches Some((vs, n)) ==> 0 < n <= s.len() && wf_items(vs),
    decreases s.len(), 2nat,
{
    if s.len() > 0 && s[0] != END {
        lemma_parse_value_wf(s);
        if let Some((v, n)) = parse_value(s) {
            if 0 < n <= s.len() {
                lemma_parse_items_wf(s.skip(n as int));
                if let Some((vs, m)) = parse_items(s.skip(n as int)) {
                    lemma_wf_items_cons(v, vs);
                }
            }
        }
    }
}

proof fn lemma_wf_entries_push(es: Seq<(Seq<u8>, Value)>, e: (Seq<u8>, Value))
    ensures
        wf_entries(es.push(e)) == (wf_entries(es) && e.0.len() <= u64::MAX && wf_value(e.1)),
    decreases es.len(),
{
    if es.len() == 0 {
        assert(es.push(e).drop_first() =~= es);
        assert(wf_entries(es));
        assert(es.push(e)[0] == e);
    } else {
        assert(es.push(e)[0] == es[0]);
        assert(es.push(e).drop_first() =~= es.drop_first().push(e));
        lemma_wf_entries_push(es.drop_first(), e);
    }
}

/// Appending a well-formed entry whose key comes after the last keeps the entries sorted and
/// well formed.
pub proof fn lemma_push_entry_wf(acc: Seq<(Seq<u8>, Value)>, k: Seq<u8>, v: Value)
    requires
        keys_sorted(acc),
        key_follows(acc, k),
    ensures
        keys_sorted(acc.push((k, v))),
        forall|j: int| 0 <= j < acc.len() ==> bytes_lt(#[trigger] acc[j].0, k),
        wf_entries(acc) && k.len() <= u64::MAX && wf_value(v) ==> wf_entries(acc.push((k, v))),
{
    assert forall|j: int| 0 <= j < acc.len() implies bytes_lt(#[trigger] acc[j].0, k) by {
        if j < acc.len() - 1 {
            lemma_bytes_lt_transitive(acc[j].0, acc[acc.len() - 1].0, k);
        }
    }
    let acc2 = acc.push((k, v));
    assert forall|i: int, j: int| 0 <= i < j < acc2.len() implies bytes_lt(
        #[trigger] acc2[i].0,
        #[trigger] acc2[j].0,
    ) by {
        if j < acc.len() {
            assert(acc2[i] == acc[i] && acc2[j] == acc[j]);
        } else {
            assert(acc2[i] == acc[i]);
        }
    }
    lemma_wf_entries_push(acc, (k, v));
}

pub proof fn lemma_parse_entries_wf(s: Seq<u8>, acc: Seq<(Seq<u8>, Value)>)
    requires
        keys_sorted(acc),
        wf_entries(acc),
    ensures
        parse_entries(s, acc) matches Some((es, n)) ==> 0 < n <= s.len() && keys_sorted(es)
            && wf_entries(es),
    decreases s.len(), 2nat,
{
    if s.len() > 0 && s[0] != END {
        lemma_parse_bytes_bounds(s);
        if let Some((k, n1)) = parse_bytes(s) {
            let s2 = s.skip(n1 as int);
            lemma_parse_value_wf(s2);
            if let Some((v, n2)) = parse_value(s2) {
                if 0 < n2 <= s2.len() && key_follows(acc, k) {
                    lemma_push_entry_wf(acc, k, v);
                    lemma_parse_entries_wf(s2.skip(n2 as int), acc.push((k, v)));
                }
            }
        }
    }
}

proof fn lemma_serialize_value_starts(v: Value)
    ensures
        serialize_value(v).len() >= 1,
        serialize_value(v)[0] != END,
{
    match v {
        Value::Bytes(b) => {
            lemma_nat_digits_shape(b.len());
        },
        _ => {},
    }
}

proof fn lemma_parse_serialized_bytes(b: Seq<u8>, rest: Seq<u8>)
    requires
        b.len() <= u64::MAX,
    ensures
        parse_bytes(serialize_bytes(b) + rest) == Some((b, serialize_bytes(b).len())),
        is_digit((serialize_bytes(b) + rest)[0]),
{
    let d = nat_digits(b.len());
    let s = serialize_bytes(b) + rest;
    lemma_nat_digits_shape(b.len());
    assert(s =~= d + (seq![COLON] + b + rest));
    lemma_dec_uint_of_digits(b.len(), seq![COLON] + b + rest);
    assert(s.subrange(d.len() + 1 as int, d.len() + 1 + b.len() as int) =~= b);
}

proof fn lemma_serialize_parse_value(v: Value, rest: Seq<u8>)
    requires
        wf_value(v),
    ensures
        parse_value(serialize_value(v) + rest) == Some((v, serialize_value(v).len())),
    decreases v,
{
    let s = serialize_value(v) + rest;
    match v {
        Value::Bytes(b) => {
            lemma_parse_serialized_bytes(b, rest);
        },
        Value::Int(i) => {
            let d = int_digits(i);
            assert(s.drop_first() =~= d + (seq![END] + rest));
            lemma_dec_int_of_digits(i, seq![END] + rest);
            assert(s[1 + d.len() as int] == END);
        },
        Value::List(items) => {
            assert(s.drop_first() =~= serialize_items(items) + seq![END] + rest);
            lemma_serialize_parse_items(items, rest);
        },
        Value::Dict(es) => {
            assert(s.drop_first() =~= serialize_entries(es) + seq![END] + rest);
            assert(es =~= Seq::<(Seq<u8>, Value)>::empty() + es);
            lemma_serialize_parse_entries(es, seq![], rest);
        },
    }
}

proof fn lemma_serialize_parse_items(items: Seq<Value>, rest: Seq<u8>)
    requires
        wf_items(items),
    ensures
        parse_items(serialize_items(items) + seq![END] + rest) == Some(
            (items, serialize_items(items).len() + 1),
        ),
    decreases items,
{
    let s = serialize_items(items) + seq![END] + rest;
    if items.len() == 0 {
        assert(s =~= seq![END] + rest);
        assert(items =~= seq![]);
    } else {
        let x = items[0];
        let tail = items.drop_first();
        let sx = serialize_value(x);
        let t = serialize_items(tail) + seq![END] + rest;
        assert(s =~= sx + t);
        lemma_serialize_value_starts(x);
        lemma_serialize_parse_value(x, t);
        assert(s.skip(sx.len() as int) =~= t);
        lemma_serialize_parse_items(tail, rest);
        assert(seq![x] + tail =~= items);
    }
}

proof fn lemma_entries_step(es: Seq<(Seq<u8>, Value)>, acc: Seq<(Seq<u8>, Value)>)
    requires
        es.len() > 0,
        keys_sorted(es),
        keys_before(acc, es),
    ensures
        forall|j: int| 0 <= j < acc.len() ==> bytes_lt(#[trigger] acc[j].0, es[0].0),
        keys_sorted(es.drop_first()),
        keys_before(acc.push(es[0]), es.drop_first()),
{
    let tail = es.drop_first();
    let acc2 = acc.push(es[0]);
    assert forall|j: int| 0 <= j < acc.len() implies bytes_lt(#[trigger] acc[j].0, es[0].0) by {
        assert(bytes_lt(acc[j].0, es[0].0));
    }
    assert forall|i: int, j: int| 0 <= i < j < tail.len() implies bytes_lt(
        #[trigger] tail[i].0,
        #[trigger] tail[j].0,
    ) by {
        assert(tail[i] == es[i + 1] && tail[j] == es[j + 1]);
    }
    assert forall|i: int, j: int| 0 <= i < acc2.len() && 0 <= j < tail.len() implies bytes_lt(
        #[trigger] acc2[i].0,
        #[trigger] tail[j].0,
    ) by {
        assert(tail[j] == es[j + 1]);
        if i < acc.len() {
            assert(acc2[i] == acc[i]);
            assert(bytes_lt(acc[i].0, es[j + 1].0));
        } else {
            assert(bytes_lt(es[0].0, es[j + 1].0));
        }
    }
}

proof fn lemma_parse_entries_step(
    s: Seq<u8>,
    acc: Seq<(Seq<u8>, Value)>,
    k: Seq<u8>,
    n1: nat,
    v: Value,
    n2: nat,
)
    requires
        s.len() > 0,
        s[0] != END,
        parse_bytes(s) == Some((k, n1)),
        0 < n1 <= s.len(),
        parse_value(s.skip(n1 as int)) == Some((v, n2)),
        0 < n2 <= s.len() - n1,
        key_follows(acc, k),
    ensures
        parse_entries(s, acc) == match parse_entries(
            s.skip(n1 as int).skip(n2 as int),
            acc.push((k, v)),
        ) {
            Some((es, m)) => Some((es, n1 + n2 + m)),
            None => None,
        },
{
}

#[verifier::spinoff_prover]
proof fn lemma_serialize_parse_entries(
    es: Seq<(Seq<u8>, Value)>,
    acc: Seq<(Seq<u8>, Value)>,
    rest: Seq<u8>,
)
    requires
        keys_sorted(es),
        wf_entries(es),
        keys_before(acc, es),
    ensures
        parse_entries(serialize_entries(es) + seq![END] + rest, acc) == Some(
            (acc + es, serialize_entries(es).len() + 1),
        ),
    decreases es,
{
    let s = serialize_entries(es) + seq![END] + rest;
    if es.len() == 0 {
        assert(s =~= seq![END] + rest);
        assert(acc + es =~= acc);
    } else {
        let (k, v) = es[0];
        let tail = es.drop_first();
        let sk = serialize_bytes(k);
        let sv = serialize_value(v);
        let t = serialize_entries(tail) + seq![END] + rest;
        assert(s =~= sk + (sv + t));
        lemma_parse_serialized_bytes(k, sv + t);
        let s2 = s.skip(sk.len() as int);
        assert(s2 =~= sv + t);
        lemma_serialize_parse_value(v, t);
        assert(s2.skip(sv.len() as int) =~= t);
        lemma_serialize_value_starts(v);
        lemma_entries_step(es, acc);
        lemma_parse_entries_step(s, acc, k, sk.len(), v, sv.len());
        let acc2 = acc.push((k, v));
        lemma_serialize_parse_entries(tail, acc2, rest);
        assert(acc2 + tail =~= acc + es);
    }
}

/// Round trip: bencoding a well-formed value and reading it back gives the same value and
/// takes exactly the bytes written, whatever bytes follow.
pub proof fn lemma_parse_serialize_roundtrip(v: Value, rest: Seq<u8>)
    requires
        wf_value(v),
    ensures
        parse_value(serialize_value(v) + rest) == Some((v, serialize_value(v).len())),
{
    lemma_serialize_parse_value(v, rest);
}

/// Whatever the grammar reads is a well-formed value taking some of the input, and writing
/// it out again gives bytes that read back to it.
pub proof fn lemma_parsed_value_reencodes(s: Seq<u8>)
    requires
        parse_value(s) is Some,
    ensures
        ({
            let (v, n) = parse_value(s).unwrap();
            &&& 0 < n <= s.len()
            &&& wf_value(v)
            &&& parse_value(serialize_value(v)) == Some((v, serialize_value(v).len()))
        }),
{
    lemma_parse_value_wf(s);
    let (v, n) = parse_value(s).unwrap();
    lemma_serialize_parse_value(v, seq![]);
    assert(serialize_value(v) + seq![] =~= serialize_value(v));
}

pub proof fn lemma_serialize_items_append(a: Seq<Value>, b: Seq<Value>)
    ensures
        serialize_items(a + b) == serialize_items(a) + serialize_items(b),
    decreases a.len(),
{
    if a.len() == 0 {
        assert(a + b =~= b);
        assert(serialize_items(a) + serialize_items(b) =~= serialize_items(b));
    } else {
        lemma_serialize_items_append(a.drop_first(), b);
        assert((a + b).drop_first() =~= a.drop_first() + b);
        assert((a + b)[0] == a[0]);
        assert(serialize_items(a + b) =~= serialize_items(a) + serialize_items(b));
    }
}

pub proof fn lemma_serialize_entries_append(a: Seq<(Seq<u8>, Value)>, b: Seq<(Seq<u8>, Value)>)
    ensures
        serialize_entries(a + b) == serialize_entries(a) + serialize_entries(b),
    decreases a.len(),
{
    if a.len() == 0 {
        assert(a + b =~= b);
        assert(serialize_entries(a) + serialize_entries(b) =~= serialize_entries(b));
    } else {
        lemma_serialize_entries_append(a.drop_first(), b);
        assert((a + b).drop_first() =~= a.drop_first() + b);
        assert((a + b)[0] == a[0]);
        assert(serialize_entries(a + b) =~= serialize_entries(a) + serialize_entries(b));
    }
}

pub proof fn lemma_serialize_items_single(x: Value)
    ensures
        serialize_items(seq![x]) == serialize_value(x),
{
    assert(seq![x].drop_first() =~= Seq::<Value>::empty());
    assert(serialize_items(Seq::<Value>::empty()) == Seq::<u8>::empty());
    assert(serialize_value(x) + Seq::<u8>::empty() =~= serialize_value(x));
}

pub proof fn lemma_serialize_entries_single(e: (Seq<u8>, Value))
    ensures
        serialize_entries(seq![e]) == serialize_bytes(e.0) + serialize_value(e.1),
{
    assert(seq![e].drop_first() =~= Seq::<(Seq<u8>, Value)>::empty());
    assert(serialize_entries(Seq::<(Seq<u8>, Value)>::empty()) == Seq::<u8>::empty());
    assert(serialize_bytes(e.0) + serialize_value(e.1) + Seq::<u8>::empty() =~= serialize_bytes(e.0)
        + serialize_value(e.1));
}

/// The integer a value holds, when it is an integer.
pub open spec fn int_of(v: Value) -> Option<int> {
    match v {
        Value::Int(i) => Some(i),
        _ => None,
    }
}

/// The text a value holds, when it is a byte string that is valid UTF-8.
pub open spec fn text_of(v: Value) -> Option<Seq<char>> {
    match v {
        Value::Bytes(b) => if valid_utf8(b) {
            Some(decode_utf8(b))
        } else {
            None
        },
        _ => None,
    }
}

/// The texts of all the values, when every one of them holds text.
pub open spec fn texts(items: Seq<Value>) -> Option<Seq<Seq<char>>>
    decreases items.len(),
{
    if items.len() == 0 {
        Some(seq![])
    } else {
        match (texts(items.drop_last()), text_of(items.last())) {
            (Some(ts), Some(t)) => Some(ts.push(t)),
            _ => None,
        }
    }
}

/// The texts of a list of byte strings; `None` for any other value, or when one item is no text.
pub open spec fn list_texts(v: Value) -> Option<Seq<Seq<char>>> {
    match v {
        Value::List(items) => texts(items),
        _ => None,
    }
}

/// The texts of those items that are lists of texts, one after the other; items of any other
/// kind are passed over.
pub open spec fn flat_texts(items: Seq<Value>) -> Seq<Seq<char>>
    decreases items.len(),
{
    if items.len() == 0 {
        seq![]
    } else {
        flat_texts(items.drop_last()) + match list_texts(items.last()) {
            Some(ts) => ts,
            None => seq![],
        }
    }
}

/// The texts of a list of lists of texts, flattened; `None` when the value is no list.
pub open spec fn list_flat_texts(v: Value) -> Option<Seq<Seq<char>>> {
    match v {
        Value::List(items) => Some(flat_texts(items)),
        _ => None,
    }
}

} // verus!
