//! Bencode: the tree that a bencoded buffer holds, the reader that builds it from bytes,
//! the writer that turns it back into bytes, and lookups into it.
use vstd::prelude::*;
use vstd::slice::slice_subrange;
use crate::bencode_model::{
    bytes_lt, dict_insert, entries_get, lemma_dict_insert_at, lemma_parse_bytes_bounds,
    lemma_parse_value_wf, parse_bytes, parse_bytestring_at, parse_dict_at, parse_entries,
    parse_integer_at, parse_items, parse_list_at, parse_value, Value, COLON, DICT_START, END,
    INT_START, LIST_START, serialize_value, serialize_items, serialize_entries, serialize_bytes,
    lemma_serialize_items_append, lemma_serialize_entries_append, dict_get, int_of, text_of,
    texts, list_texts, flat_texts, list_flat_texts, wf_value, wf_entries, keys_sorted, insert_all,
    lemma_insert_all_push, lemma_insert_all_wf, lemma_wf_items_index, lemma_wf_entries_index,
};
use crate::decimal::{push_i64_digits, push_u64_digits};
use crate::digest::{sha1, sha1_digest};
use crate::text::utf8_text;
use crate::decimal::{dec_int, dec_uint, NINE, ZERO};

verus! {

/// A bencoded value whose byte strings borrow from the buffer it was read from.
/// Dictionary entries are kept in the byte order of their keys, each key once: the reader and
/// `AST::dictionary` build them so, and writing a value out asks for it (`wf_value`).
#[derive(Debug, PartialEq, Eq, PartialOrd, Ord)]
pub enum AST<'a> {
    ByteString(&'a [u8]),
    Integer(i64),
    List(Vec<AST<'a>>),
    Dictionary(Vec<(&'a [u8], AST<'a>)>),
}

/// The reader found no bencoded value where it looked.
#[derive(Debug, PartialEq, Eq, Clone, Copy)]
pub struct ParseError;

pub open spec fn view_value<'a>(a: AST<'a>) -> Value
    decreases a,
{
    match a {
        AST::ByteString(b) => Value::Bytes(b@),
        AST::Integer(i) => Value::Int(i as int),
        AST::List(v) => Value::List(
            Seq::new(
                v@.len(),
                |i: int|
                    if 0 <= i < v@.len() {
                        view_value(v@[i])
                    } else {
                        Value::Int(0)
                    },
            ),
        ),
        AST::Dictionary(d) => Value::Dict(
            Seq::new(
                d@.len(),
                |i: int|
                    if 0 <= i < d@.len() {
                        (d@[i].0@, view_value(d@[i].1))
                    } else {
                        (Seq::empty(), Value::Int(0))
                    },
            ),
        ),
    }
}

impl<'a> View for AST<'a> {
    type V = Value;

    open spec fn view(&self) -> Value {
        view_value(*self)
    }
}

/// The values of a run of trees.
pub open spec fn views<'a>(v: Seq<AST<'a>>) -> Seq<Value> {
    Seq::new(v.len(), |i: int| v[i]@)
}

/// The entries of a run of dictionary entries.
pub open spec fn entry_views<'a>(d: Seq<(&'a [u8], AST<'a>)>) -> Seq<(Seq<u8>, Value)> {
    Seq::new(d.len(), |i: int| (d[i].0@, d[i].1@))
}

pub proof fn lemma_view_list<'a>(v: Vec<AST<'a>>)
    ensures
        AST::List(v)@ == Value::List(views(v@)),
{
    let x = view_value(AST::List(v));
    if let Value::List(items) = x {
        assert(items =~= views(v@));
    }
}

pub proof fn lemma_view_dict<'a>(d: Vec<(&'a [u8], AST<'a>)>)
    ensures
        AST::Dictionary(d)@ == Value::Dict(entry_views(d@)),
{
    let x = view_value(AST::Dictionary(d));
    if let Value::Dict(es) = x {
        assert(es =~= entry_views(d@));
    }
}

/// What a reader leaves behind: on success the value `expected` gives, with the input moved
/// past the bytes it took; on failure an error, with the input as it was.
pub open spec fn read_outcome<'a>(
    r: Result<AST<'a>, ParseError>,
    before: Seq<u8>,
    after: Seq<u8>,
    expected: Option<(Value, nat)>,
) -> bool {
    match expected {
        Some((v, n)) => r matches Ok(a) && a@ == v && after == before.skip(n as int),
        None => r is Err && after == before,
    }
}

/// `a` comes before `b` in byte order.
pub(crate) fn slice_lt(a: &[u8], b: &[u8]) -> (r: bool)
    ensures
        r == bytes_lt(a@, b@),
{
    let mut i: usize = 0;
    assert(a@.skip(0) =~= a@ && b@.skip(0) =~= b@);
    while i < a.len() && i < b.len() && a[i] == b[i]
        invariant
            0 <= i <= a@.len(),
            i <= b@.len(),
            bytes_lt(a@, b@) == bytes_lt(a@.skip(i as int), b@.skip(i as int)),
        decreases a@.len() - i,
    {
        proof {
            let sa = a@.skip(i as int);
            let sb = b@.skip(i as int);
            assert(sa.drop_first() =~= a@.skip(i + 1));
            assert(sb.drop_first() =~= b@.skip(i + 1));
        }
        i = i + 1;
    }
    proof {
        let sa = a@.skip(i as int);
        let sb = b@.skip(i as int);
        if i < a.len() && i < b.len() {
            assert(sa[0] == a@[i as int] && sb[0] == b@[i as int]);
        }
    }
    if i == a.len() {
        i < b.len()
    } else if i == b.len() {
        false
    } else {
        a[i] < b[i]
    }
}

/// `a` and `b` hold the same bytes.
pub(crate) fn slice_eq(a: &[u8], b: &[u8]) -> (r: bool)
    ensures
        r == (a@ == b@),
{
    if a.len() != b.len() {
        return false;
    }
    let mut i: usize = 0;
    while i < a.len()
        invariant
            a@.len() == b@.len(),
            0 <= i <= a@.len(),
            forall|j: int| 0 <= j < i ==> a@[j] == b@[j],
        decreases a@.len() - i,
    {
        if a[i] != b[i] {
            return false;
        }
        i = i + 1;
    }
    assert(a@ =~= b@);
    true
}

/// What a reader of a slice gives: the value `expected` gives and the number of bytes it
/// took, or an error when `expected` is `None`.
pub open spec fn slice_outcome<'a>(
    r: Result<(AST<'a>, usize), ParseError>,
    expected: Option<(Value, nat)>,
) -> bool {
    match expected {
        Some((v, n)) => r matches Ok((a, m)) && a@ == v && m == n,
        None => r is Err,
    }
}

fn read_bytestring<'a>(s: &'a [u8]) -> (r: Result<(AST<'a>, usize), ParseError>)
    ensures
        slice_outcome(r, parse_bytestring_at(s@)),
{
    match dec_uint(s) {
        None => Err(ParseError),
        Some((len, n)) => {
            if n < s.len() && s[n] == COLON && len <= (s.len() - n - 1) as u64 {
                let start = n + 1;
                let end = start + len as usize;
                let b = slice_subrange(s, start, end);
                Ok((AST::ByteString(b), end))
            } else {
                Err(ParseError)
            }
        },
    }
}

fn read_integer<'a>(s: &'a [u8]) -> (r: Result<(AST<'a>, usize), ParseError>)
    ensures
        slice_outcome(r, parse_integer_at(s@)),
{
    if s.len() == 0 || s[0] != INT_START {
        return Err(ParseError);
    }
    let digits = slice_subrange(s, 1, s.len());
    assert(digits@ =~= s@.drop_first());
    match dec_int(digits) {
        None => Err(ParseError),
        Some((i, n)) => {
            if n + 1 < s.len() && s[n + 1] == END {
                Ok((AST::Integer(i), n + 2))
            } else {
                Err(ParseError)
            }
        },
    }
}

fn read_list<'a>(s: &'a [u8]) -> (r: Result<(AST<'a>, usize), ParseError>)
    ensures
        slice_outcome(r, parse_list_at(s@)),
    decreases s@.len(), 0nat,
{
    if s.len() == 0 || s[0] != LIST_START {
        return Err(ParseError);
    }
    let ghost target = parse_items(s@.drop_first());
    let mut pos: usize = 1;
    let mut items: Vec<AST<'a>> = Vec::new();
    assert(s@.skip(1) =~= s@.drop_first());
    assert(views(items@) + seq![] =~= seq![]);
    loop
        invariant
            1 <= pos <= s@.len(),
            s@[0] == LIST_START,
            target == parse_items(s@.drop_first()),
            match parse_items(s@.skip(pos as int)) {
                Some((vs, m)) => target == Some((views(items@) + vs, (pos - 1 + m) as nat)),
                None => target is None,
            },
        decreases s@.len() - pos,
    {
        let ghost c = s@.skip(pos as int);
        if pos == s.len() {
            return Err(ParseError);
        }
        if s[pos] == END {
            proof {
                lemma_view_list(items);
                assert(views(items@) + seq![] =~= views(items@));
            }
            return Ok((AST::List(items), pos + 1));
        }
        let rest = slice_subrange(s, pos, s.len());
        proof {
            lemma_parse_value_wf(c);
        }
        match read_value(rest) {
            Err(_) => {
                return Err(ParseError);
            },
            Ok((v, n)) => {
                proof {
                    let (pv, _) = parse_value(c).unwrap();
                    assert(c.skip(n as int) =~= s@.skip(pos + n));
                    if let Some((vs, m)) = parse_items(c.skip(n as int)) {
                        assert(views(items@.push(v)) =~= views(items@).push(v@));
                        assert(views(items@) + (seq![pv] + vs) =~= views(items@.push(v)) + vs);
                    }
                }
                items.push(v);
                pos = pos + n;
            },
        }
    }
}

/// Puts `(k, v)` into entries kept in key order: a present key gets the new value,
/// a new key goes where the order puts it.
fn insert_entry<'a>(es: &mut Vec<(&'a [u8], AST<'a>)>, k: &'a [u8], v: AST<'a>)
    ensures
        entry_views(final(es)@) == dict_insert(entry_views(old(es)@), k@, v@),
{
    let ghost ev = entry_views(es@);
    let mut p: usize = 0;
    while p < es.len() && slice_lt(es[p].0, k)
        invariant
            0 <= p <= es@.len(),
            ev == entry_views(es@),
            forall|j: int| 0 <= j < p ==> bytes_lt(#[trigger] ev[j].0, k@),
        decreases es@.len() - p,
    {
        p = p + 1;
    }
    proof {
        lemma_dict_insert_at(ev, k@, v@, p as int);
    }
    if p < es.len() && slice_eq(es[p].0, k) {
        es.remove(p);
        es.insert(p, (k, v));
        assert(entry_views(es@) =~= ev.update(p as int, (k@, v@)));
    } else {
        es.insert(p, (k, v));
        assert(entry_views(es@) =~= ev.insert(p as int, (k@, v@)));
    }
}

/// One key and value of a dictionary at the start of `s`, and how many bytes they take.
fn read_entry<'a>(s: &'a [u8]) -> (r: Result<((&'a [u8], AST<'a>), usize), ParseError>)
    ensures
        match parse_bytes(s@) {
            Some((k, n1)) => match parse_value(s@.skip(n1 as int)) {
                Some((v, n2)) => r matches Ok((e, m)) && e.0@ == k && e.1@ == v && m == n1 + n2
                    && m <= s@.len(),
                None => r is Err,
            },
            None => r is Err,
        },
    decreases s@.len(), 0nat,
{
    proof {
        lemma_parse_bytes_bounds(s@);
    }
    let (k, n1) = match read_bytestring(s) {
        Err(_) => {
            return Err(ParseError);
        },
        Ok((AST::ByteString(k), n1)) => (k, n1),
        Ok(_) => {
            return Err(ParseError);
        },
    };
    let rest = slice_subrange(s, n1, s.len());
    proof {
        lemma_parse_value_wf(rest@);
    }
    match read_value(rest) {
        Err(_) => Err(ParseError),
        Ok((v, n2)) => Ok(((k, v), n1 + n2)),
    }
}

fn read_dictionary<'a>(s: &'a [u8]) -> (r: Result<(AST<'a>, usize), ParseError>)
    ensures
        slice_outcome(r, parse_dict_at(s@)),
    decreases s@.len(), 0nat,
{
    if s.len() == 0 || s[0] != DICT_START {
        return Err(ParseError);
    }
    let ghost target = parse_entries(s@.drop_first(), seq![]);
    let mut pos: usize = 1;
    let mut es: Vec<(&'a [u8], AST<'a>)> = Vec::new();
    assert(s@.skip(1) =~= s@.drop_first());
    assert(entry_views(es@) =~= seq![]);
    loop
        invariant
            1 <= pos <= s@.len(),
            s@[0] == DICT_START,
            target == parse_entries(s@.drop_first(), seq![]),
            match parse_entries(s@.skip(pos as int), entry_views(es@)) {
                Some((d, m)) => target == Some((d, (pos - 1 + m) as nat)),
                None => target is None,
            },
        decreases s@.len() - pos,
    {
        let ghost c = s@.skip(pos as int);
        let ghost acc = entry_views(es@);
        if pos == s.len() {
            return Err(ParseError);
        }
        if s[pos] == END {
            proof {
                lemma_view_dict(es);
            }
            return Ok((AST::Dictionary(es), pos + 1));
        }
        let rest = slice_subrange(s, pos, s.len());
        match read_entry(rest) {
            Err(_) => {
                return Err(ParseError);
            },
            Ok(((k, v), n)) => {
                proof {
                    let (_, n1) = parse_bytes(c).unwrap();
                    let (_, n2) = parse_value(c.skip(n1 as int)).unwrap();
                    assert(c.skip(n1 as int).skip(n2 as int) =~= s@.skip(pos + n));
                }
                let follows = es.len() == 0 || slice_lt(es[es.len() - 1].0, k);
                if !follows {
                    return Err(ParseError);
                }
                let ghost ev = entry_views(es@);
                let ghost kv = (k@, v@);
                es.push((k, v));
                assert(entry_views(es@) =~= ev.push(kv));
                pos = pos + n;
            },
        }
    }
}

fn read_value<'a>(s: &'a [u8]) -> (r: Result<(AST<'a>, usize), ParseError>)
    ensures
        slice_outcome(r, parse_value(s@)),
    decreases s@.len(), 1nat,
{
    if s.len() == 0 {
        Err(ParseError)
    } else if s[0] == INT_START {
        read_integer(s)
    } else if ZERO <= s[0] && s[0] <= NINE {
        read_bytestring(s)
    } else if s[0] == LIST_START {
        read_list(s)
    } else if s[0] == DICT_START {
        read_dictionary(s)
    } else {
        Err(ParseError)
    }
}

/// Runs a reader of slices on `input` and moves `input` past what it took.
fn advance<'a>(input: &mut &'a [u8], r: Result<(AST<'a>, usize), ParseError>) -> (out: Result<AST<'a>, ParseError>)
    requires
        r matches Ok((_, n)) ==> n <= old(input)@.len(),
    ensures
        match r {
            Ok((a, n)) => out == Ok::<AST<'a>, ParseError>(a) && final(input)@ == old(input)@.skip(n as int),
            Err(_) => out is Err && final(input)@ == old(input)@,
        },
{
    match r {
        Ok((a, n)) => {
            let s: &'a [u8] = *input;
            *input = slice_subrange(s, n, s.len());
            Ok(a)
        },
        Err(e) => Err(e),
    }
}

/// Reads a byte string, its length in decimal, `:`, and that many bytes,
/// and moves `input` past it. On failure `input` is left as it was.
pub fn parse_bytestring<'a>(input: &mut &'a [u8]) -> (r: Result<AST<'a>, ParseError>)
    ensures
        read_outcome(r, old(input)@, final(input)@, parse_bytestring_at(old(input)@)),
{
    proof {
        lemma_parse_bytes_bounds(input@);
    }
    let r = read_bytestring(*input);
    advance(input, r)
}

/// Reads an integer, `i`, a signed decimal, `e`, and moves `input` past it.
/// On failure `input` is left as it was.
pub fn parse_integer<'a>(input: &mut &'a [u8]) -> (r: Result<AST<'a>, ParseError>)
    ensures
        read_outcome(r, old(input)@, final(input)@, parse_integer_at(old(input)@)),
{
    let r = read_integer(*input);
    advance(input, r)
}

/// Reads a list, `l`, bencoded values, `e`, and moves `input` past it.
/// On failure `input` is left as it was.
pub fn parse_list<'a>(input: &mut &'a [u8]) -> (r: Result<AST<'a>, ParseError>)
    ensures
        read_outcome(r, old(input)@, final(input)@, parse_list_at(old(input)@)),
{
    proof {
        crate::bencode_model::lemma_parse_items_wf(input@.drop_first());
    }
    let r = read_list(*input);
    advance(input, r)
}

/// Reads a dictionary, `d`, pairs of a byte string key and a bencoded value, `e`, and moves
/// `input` past it. The keys must come in strictly increasing byte order: a key out of order
/// or given twice is refused. On failure `input` is left as it was.
pub fn parse_dictionary<'a>(input: &mut &'a [u8]) -> (r: Result<AST<'a>, ParseError>)
    ensures
        read_outcome(r, old(input)@, final(input)@, parse_dict_at(old(input)@)),
{
    proof {
        lemma_parse_value_wf(input@);
    }
    let r = read_dictionary(*input);
    advance(input, r)
}

/// Reads one bencoded value from the start of `input` and moves `input` past it.
/// The first byte decides what is read: `i` an integer, a digit a byte string,
/// `l` a list, `d` a dictionary. On failure `input` is left as it was.
pub fn parse_bencode<'a>(input: &mut &'a [u8]) -> (r: Result<AST<'a>, ParseError>)
    ensures
        read_outcome(r, old(input)@, final(input)@, parse_value(old(input)@)),
{
    proof {
        lemma_parse_value_wf(input@);
    }
    let r = read_value(*input);
    advance(input, r)
}

/// The texts of a run of string slices.
pub open spec fn str_views(v: Seq<&str>) -> Seq<Seq<char>> {
    Seq::new(v.len(), |i: int| v[i]@)
}

/// The texts of a run of strings.
pub open spec fn string_views(v: Seq<String>) -> Seq<Seq<char>> {
    Seq::new(v.len(), |i: int| v[i]@)
}

/// Appends the bytes of `b`.
fn push_bytes(out: &mut Vec<u8>, b: &[u8])
    ensures
        final(out)@ == old(out)@ + b@,
{
    let mut i: usize = 0;
    while i < b.len()
        invariant
            0 <= i <= b@.len(),
            out@ == old(out)@ + b@.take(i as int),
        decreases b@.len() - i,
    {
        out.push(b[i]);
        i = i + 1;
        assert(out@ =~= old(out)@ + b@.take(i as int));
    }
    assert(b@.take(b@.len() as int) =~= b@);
}

/// Appends the bencoding of the byte string `b`.
fn push_bytestring(out: &mut Vec<u8>, b: &[u8])
    ensures
        final(out)@ == old(out)@ + serialize_bytes(b@),
{
    push_u64_digits(out, b.len() as u64);
    out.push(COLON);
    push_bytes(out, b);
    assert(final(out)@ =~= old(out)@ + serialize_bytes(b@));
}

/// Strings made from the texts of `v`, one each.
fn to_strings(v: &Vec<&str>) -> (r: Vec<String>)
    ensures
        string_views(r@) == str_views(v@),
{
    let mut r: Vec<String> = Vec::new();
    let mut i: usize = 0;
    while i < v.len()
        invariant
            0 <= i <= v@.len(),
            r@.len() == i,
            forall|j: int| 0 <= j < i ==> #[trigger] r@[j]@ == v@[j]@,
        decreases v@.len() - i,
    {
        r.push(v[i].to_owned());
        i = i + 1;
    }
    assert(string_views(r@) =~= str_views(v@));
    r
}

impl<'a> AST<'a> {
    /// Appends the bencoding of this value.
    #[verifier::loop_isolation(false)]
    fn write_to(&self, out: &mut Vec<u8>)
        requires
            wf_value(self@),
        ensures
            final(out)@ == old(out)@ + serialize_value(self@),
        decreases self,
    {
        match self {
            AST::ByteString(b) => {
                push_bytestring(out, b);
            },
            AST::Integer(i) => {
                out.push(INT_START);
                push_i64_digits(out, *i);
                out.push(END);
                assert(final(out)@ =~= old(out)@ + serialize_value(self@));
            },
            AST::List(items) => {
                proof {
                    lemma_view_list(*items);
                }
                out.push(LIST_START);
                let ghost start = out@;
                let ghost vs = views(items@);
                let mut i: usize = 0;
                assert(vs.take(0) =~= seq![]);
                while i < items.len()
                    invariant
                        0 <= i <= items@.len(),
                        vs == views(items@),
                        out@ == start + serialize_items(vs.take(i as int)),
                    decreases items@.len() - i,
                {
                    proof {
                        lemma_wf_items_index(vs, i as int);
                    }
                    items[i].write_to(out);
                    proof {
                        lemma_serialize_items_append(vs.take(i as int), seq![vs[i as int]]);
                        assert(vs.take(i + 1) =~= vs.take(i as int) + seq![vs[i as int]]);
                        crate::bencode_model::lemma_serialize_items_single(vs[i as int]);
                    }
                    i = i + 1;
                }
                out.push(END);
                assert(vs.take(items@.len() as int) =~= vs);
                assert(final(out)@ =~= old(out)@ + serialize_value(self@));
            },
            AST::Dictionary(es) => {
                proof {
                    lemma_view_dict(*es);
                }
                out.push(DICT_START);
                let ghost start = out@;
                let ghost ev = entry_views(es@);
                let mut i: usize = 0;
                assert(ev.take(0) =~= seq![]);
                while i < es.len()
                    invariant
                        0 <= i <= es@.len(),
                        ev == entry_views(es@),
                        out@ == start + serialize_entries(ev.take(i as int)),
                    decreases es@.len() - i,
                {
                    push_bytestring(out, es[i].0);
                    proof {
                        lemma_wf_entries_index(ev, i as int);
                    }
                    es[i].1.write_to(out);
                    proof {
                        let e = ev[i as int];
                        lemma_serialize_entries_append(ev.take(i as int), seq![e]);
                        assert(ev.take(i + 1) =~= ev.take(i as int) + seq![e]);
                        crate::bencode_model::lemma_serialize_entries_single(e);
                        assert(out@ =~= start + serialize_entries(ev.take(i + 1)));
                    }
                    i = i + 1;
                }
                out.push(END);
                assert(ev.take(es@.len() as int) =~= ev);
                assert(final(out)@ =~= old(out)@ + serialize_value(self@));
            },
        }
    }

    /// A dictionary of the given entries, put in one after the other: the keys in byte order,
    /// each once, a later value for a key replacing an earlier one.
    pub fn dictionary(entries: Vec<(&'a [u8], AST<'a>)>) -> (r: AST<'a>)
        ensures
            r@ == Value::Dict(insert_all(seq![], entry_views(entries@))),
            wf_entries(entry_views(entries@)) ==> wf_value(r@),
    {
        let ghost ev = entry_views(entries@);
        let mut rest = entries;
        let n = rest.len();
        let mut es: Vec<(&'a [u8], AST<'a>)> = Vec::new();
        let mut i: usize = 0;
        assert(ev.take(0) =~= seq![]);
        assert(entry_views(es@) =~= seq![]);
        while rest.len() > 0
            invariant
                0 <= i <= ev.len(),
                ev.len() == n,
                entry_views(rest@) == ev.skip(i as int),
                entry_views(es@) == insert_all(seq![], ev.take(i as int)),
            decreases rest@.len(),
        {
            let ghost before = rest@;
            let (k, v) = rest.remove(0);
            proof {
                assert(entry_views(before).len() == before.len());
                assert(ev.skip(i as int).len() > 0);
                assert(rest@ =~= before.drop_first());
                assert(entry_views(before)[0] == (k@, v@));
                assert(ev.skip(i as int)[0] == ev[i as int]);
                assert(entry_views(rest@) =~= entry_views(before).drop_first());
                assert(ev.skip(i as int).drop_first() =~= ev.skip(i + 1));
                assert(entry_views(rest@) =~= ev.skip(i + 1));
                assert((k@, v@) == ev[i as int]);
                assert(ev.take(i + 1) =~= ev.take(i as int).push(ev[i as int]));
                lemma_insert_all_push(seq![], ev.take(i as int), ev[i as int]);
            }
            insert_entry(&mut es, k, v);
            i = i + 1;
        }
        assert(ev.take(i as int) =~= ev);
        proof {
            lemma_view_dict(es);
            if wf_entries(ev) {
                lemma_insert_all_wf(seq![], ev);
            }
        }
        AST::Dictionary(es)
    }

    /// The bencoding of this value.
    pub fn serialize(&'a self) -> (r: Vec<u8>)
        requires
            wf_value(self@),
        ensures
            r@ == serialize_value(self@),
    {
        let mut out: Vec<u8> = Vec::new();
        self.write_to(&mut out);
        assert(out@ =~= serialize_value(self@));
        out
    }

    /// The SHA-1 digest of the bencoding of this value.
    pub fn hash(&'a self) -> (r: [u8; 20])
        requires
            wf_value(self@),
        ensures
            r@ == sha1_digest(serialize_value(self@)),
    {
        let bencode = self.serialize();
        sha1(bencode.as_slice())
    }

    /// What this dictionary holds under `key`; `None` when it lacks the key or is no dictionary.
    pub fn get_from_dict(&'a self, key: &'a [u8]) -> (r: Option<&'a AST<'a>>)
        ensures
            match r {
                Some(v) => dict_get(self@, key@) == Some(v@),
                None => dict_get(self@, key@) is None,
            },
    {
        match self {
            AST::Dictionary(es) => {
                proof {
                    lemma_view_dict(*es);
                }
                let ghost ev = entry_views(es@);
                let mut i: usize = 0;
                assert(ev.skip(0) =~= ev);
                while i < es.len()
                    invariant
                        0 <= i <= es@.len(),
                        ev == entry_views(es@),
                        self@ == Value::Dict(ev),
                        entries_get(ev, key@) == entries_get(ev.skip(i as int), key@),
                    decreases es@.len() - i,
                {
                    proof {
                        assert(ev.skip(i as int)[0] == ev[i as int]);
                        assert(ev.skip(i as int).drop_first() =~= ev.skip(i + 1));
                    }
                    if slice_eq(es[i].0, key) {
                        assert(ev[i as int] == (es@[i as int].0@, es@[i as int].1@));
                        return Some(&es[i].1);
                    }
                    i = i + 1;
                }
                None
            },
            _ => None,
        }
    }

    /// The integer this value holds, when it is an integer.
    pub fn int_value(&self) -> (r: Option<i64>)
        ensures
            match r {
                Some(i) => int_of(self@) == Some(i as int),
                None => int_of(self@) is None,
            },
    {
        if let AST::Integer(i) = self {
            return Some(*i);
        }
        None
    }

    /// The integer this dictionary holds under `key`, when there is one.
    pub fn get_int(&self, key: &'a [u8]) -> (r: Option<i64>)
        ensures
            match r {
                Some(i) => dict_get(self@, key@) == Some(Value::Int(i as int)),
                None => !(dict_get(self@, key@) matches Some(Value::Int(_))),
            },
    {
        if let Some(AST::Integer(i)) = self.get_from_dict(key) {
            return Some(*i);
        }
        None
    }

    /// The text this value holds, when it is a byte string that is valid UTF-8.
    pub fn as_text(&'a self) -> (r: Option<&'a str>)
        ensures
            match r {
                Some(s) => text_of(self@) == Some(s@),
                None => text_of(self@) is None,
            },
    {
        if let AST::ByteString(bs) = self {
            return utf8_text(bs);
        }
        None
    }

    /// The text this dictionary holds under `key`, when there is one.
    pub fn get_text(&'a self, key: &'a [u8]) -> (r: Option<&'a str>)
        ensures
            match r {
                Some(s) => dict_get(self@, key@) matches Some(v) && text_of(v) == Some(s@),
                None => !(dict_get(self@, key@) matches Some(v) && text_of(v) is Some),
            },
    {
        match self.get_from_dict(key) {
            Some(v) => v.as_text(),
            None => None,
        }
    }

    /// The text this value holds, as a new string, when it is a byte string that is valid UTF-8.
    pub fn str(&self) -> (r: Option<String>)
        ensures
            match r {
                Some(s) => text_of(self@) == Some(s@),
                None => text_of(self@) is None,
            },
    {
        if let AST::ByteString(bs) = self {
            if let Some(s) = utf8_text(bs) {
                return Some(s.to_owned());
            }
            return None;
        }
        None
    }

    /// The text this dictionary holds under `key`, as a new string, when there is one.
    pub fn get_str(&'a self, key: &'a [u8]) -> (r: Option<String>)
        ensures
            match r {
                Some(s) => dict_get(self@, key@) matches Some(v) && text_of(v) == Some(s@),
                None => !(dict_get(self@, key@) matches Some(v) && text_of(v) is Some),
            },
    {
        match self.get_text(key) {
            Some(s) => Some(s.to_owned()),
            None => None,
        }
    }

    /// The items of this value, when it is a list.
    pub fn list(&'a self) -> (r: Option<&'a Vec<AST<'a>>>)
        ensures
            match r {
                Some(l) => self@ == Value::List(views(l@)),
                None => !(self@ is List),
            },
    {
        if let AST::List(l) = self {
            proof {
                lemma_view_list(*l);
            }
            return Some(l);
        }
        None
    }

    /// The texts of this list, when it is a list of byte strings that are all valid UTF-8.
    pub fn text_list(&'a self) -> (r: Option<Vec<&'a str>>)
        ensures
            match r {
                Some(v) => list_texts(self@) == Some(str_views(v@)),
                None => list_texts(self@) is None,
            },
    {
        let l = match self.list() {
            Some(l) => l,
            None => {
                return None;
            },
        };
        let ghost vs = views(l@);
        let mut out: Vec<&'a str> = Vec::new();
        let mut i: usize = 0;
        assert(vs.take(0) =~= seq![]);
        assert(str_views(out@) =~= seq![]);
        while i < l.len()
            invariant
                0 <= i <= l@.len(),
                vs == views(l@),
                self@ == Value::List(vs),
                texts(vs.take(i as int)) == Some(str_views(out@)),
            decreases l@.len() - i,
        {
            let ghost before = out@;
            assert(vs.take(i + 1).drop_last() =~= vs.take(i as int));
            match l[i].as_text() {
                Some(s) => {
                    out.push(s);
                    assert(str_views(out@) =~= str_views(before).push(s@));
                },
                None => {
                    assert(texts(vs.take(i + 1)) is None);
                    proof {
                        lemma_texts_none_grows(vs, i + 1, vs.len() as int);
                        assert(vs.take(vs.len() as int) =~= vs);
                    }
                    return None;
                },
            }
            i = i + 1;
        }
        assert(vs.take(l@.len() as int) =~= vs);
        Some(out)
    }

    /// The texts of this list, as new strings, when it is a list of byte strings that are all
    /// valid UTF-8.
    pub fn get_list_of_str(&'a self) -> (r: Option<Vec<String>>)
        ensures
            match r {
                Some(v) => list_texts(self@) == Some(string_views(v@)),
                None => list_texts(self@) is None,
            },
    {
        match self.text_list() {
            Some(v) => Some(to_strings(&v)),
            None => None,
        }
    }

    /// The texts of those items of this list that are lists of texts, one after the other;
    /// items of any other kind are passed over. `None` when this value is no list.
    pub fn flat_text_list(&'a self) -> (r: Option<Vec<&'a str>>)
        ensures
            match r {
                Some(v) => list_flat_texts(self@) == Some(str_views(v@)),
                None => list_flat_texts(self@) is None,
            },
    {
        let l = match self.list() {
            Some(l) => l,
            None => {
                return None;
            },
        };
        let ghost vs = views(l@);
        let mut out: Vec<&'a str> = Vec::new();
        let mut i: usize = 0;
        assert(vs.take(0) =~= seq![]);
        assert(str_views(out@) =~= seq![]);
        while i < l.len()
            invariant
                0 <= i <= l@.len(),
                vs == views(l@),
                self@ == Value::List(vs),
                flat_texts(vs.take(i as int)) == str_views(out@),
            decreases l@.len() - i,
        {
            let ghost before = out@;
            assert(vs.take(i + 1).drop_last() =~= vs.take(i as int));
            match l[i].text_list() {
                Some(inner) => {
                    let mut j: usize = 0;
                    while j < inner.len()
                        invariant
                            0 <= j <= inner@.len(),
                            out@ == before + inner@.take(j as int),
                        decreases inner@.len() - j,
                    {
                        out.push(inner[j]);
                        j = j + 1;
                        assert(out@ =~= before + inner@.take(j as int));
                    }
                    assert(inner@.take(inner@.len() as int) =~= inner@);
                    assert(str_views(out@) =~= str_views(before) + str_views(inner@));
                },
                None => {
                    assert(str_views(before) + seq![] =~= str_views(before));
                },
            }
            i = i + 1;
        }
        assert(vs.take(l@.len() as int) =~= vs);
        Some(out)
    }

    /// The texts of those items of this list that are lists of texts, as new strings, one after
    /// the other; items of any other kind are passed over. `None` when this value is no list.
    pub fn get_list_of_list_of_str(&'a self) -> (r: Option<Vec<String>>)
        ensures
            match r {
                Some(v) => list_flat_texts(self@) == Some(string_views(v@)),
                None => list_flat_texts(self@) is None,
            },
    {
        match self.flat_text_list() {
            Some(v) => Some(to_strings(&v)),
            None => None,
        }
    }
}

/// Once one item has no text, no longer prefix has texts either.
pub proof fn lemma_texts_none_grows(vs: Seq<Value>, i: int, j: int)
    requires
        0 <= i <= j <= vs.len(),
        texts(vs.take(i)) is None,
    ensures
        texts(vs.take(j)) is None,
    decreases j - i,
{
    if j > i {
        lemma_texts_none_grows(vs, i, j - 1);
        assert(vs.take(j).drop_last() =~= vs.take(j - 1));
    }
}

} // verus!
