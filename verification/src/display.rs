//! The texts the values of the library are shown as.
use vstd::prelude::*;
use vstd::utf8::{decode_utf8, valid_utf8};
use crate::bencode_model::Value;
use crate::bencoding_parser::{entry_views, lemma_view_dict, lemma_view_list, views, AST};
use crate::decimal::{int_digits, lemma_nat_digits_shape, push_i64_digits, MINUS};
use crate::peer::TorrentTcpMessage;
use crate::pieces::{byte_has, Bitfield};
use crate::text::{ascii_string, ascii_text, utf8_text};
use crate::torrent_file::ConversionError;
use crate::torrent_tcp_message::Message;

verus! {

/// The decimal spelling of `i` as text.
pub open spec fn int_text(i: int) -> Seq<char> {
    ascii_text(int_digits(i))
}

/// Two spaces for each level of indentation.
pub open spec fn pad(n: nat) -> Seq<char>
    decreases n,
{
    if n == 0 {
        seq![]
    } else {
        pad((n - 1) as nat) + "  "@
    }
}

/// The indentation one level deeper.
pub open spec fn deeper(indent: usize) -> usize {
    if indent < usize::MAX {
        (indent + 1) as usize
    } else {
        indent
    }
}

/// A byte string as text: between double quotes when it is UTF-8, else `<HASHES>`.
pub open spec fn bytes_text(b: Seq<u8>) -> Seq<char> {
    if valid_utf8(b) {
        "\""@ + decode_utf8(b) + "\""@
    } else {
        "<HASHES>"@
    }
}

/// A value as text, at the given indentation: lists on one line between brackets, items
/// separated by `, `; dictionaries between braces, one entry `key => value` a line, entries
/// separated by `,`, each line indented one level deeper than the closing brace.
pub open spec fn pretty(v: Value, indent: usize) -> Seq<char>
    decreases v,
{
    match v {
        Value::Bytes(b) => bytes_text(b),
        Value::Int(i) => int_text(i),
        Value::List(items) => if items.len() == 0 {
            "[]"@
        } else {
            "["@ + pretty(items[0], deeper(indent)) + pretty_tail(items.drop_first(), deeper(indent))
                + "]"@
        },
        Value::Dict(es) => if es.len() == 0 {
            "{}"@
        } else {
            "{\n"@ + entry_line(es[0], indent) + entries_tail(es.drop_first(), indent) + "\n"@ + pad(
                indent as nat,
            ) + "}"@
        },
    }
}

/// The items after the first, each after `, `.
pub open spec fn pretty_tail(items: Seq<Value>, indent: usize) -> Seq<char>
    decreases items,
{
    if items.len() == 0 {
        seq![]
    } else {
        ", "@ + pretty(items[0], indent) + pretty_tail(items.drop_first(), indent)
    }
}

/// The line of a dictionary entry.
pub open spec fn entry_line(e: (Seq<u8>, Value), indent: usize) -> Seq<char>
    decreases e,
{
    "  "@ + pad(indent as nat) + bytes_text(e.0) + " => "@ + pretty(e.1, deeper(indent))
}

/// The entries after the first, each after `,` and a line break.
pub open spec fn entries_tail(es: Seq<(Seq<u8>, Value)>, indent: usize) -> Seq<char>
    decreases es,
{
    if es.len() == 0 {
        seq![]
    } else {
        ",\n"@ + entry_line(es[0], indent) + entries_tail(es.drop_first(), indent)
    }
}

proof fn lemma_pretty_tail_push(items: Seq<Value>, x: Value, indent: usize)
    ensures
        pretty_tail(items.push(x), indent) == pretty_tail(items, indent) + ", "@ + pretty(x, indent),
    decreases items.len(),
{
    if items.len() == 0 {
        assert(items.push(x).drop_first() =~= seq![]);
        assert(items.push(x)[0] == x);
        assert(pretty_tail(items.push(x).drop_first(), indent) =~= seq![]);
        assert(pretty_tail(items, indent) =~= seq![]);
        assert(pretty_tail(items.push(x), indent) =~= ", "@ + pretty(x, indent));
    } else {
        lemma_pretty_tail_push(items.drop_first(), x, indent);
        assert(items.push(x).drop_first() =~= items.drop_first().push(x));
        assert(pretty_tail(items.push(x), indent) =~= pretty_tail(items, indent) + ", "@ + pretty(
            x,
            indent,
        ));
    }
}

proof fn lemma_entries_tail_push(es: Seq<(Seq<u8>, Value)>, e: (Seq<u8>, Value), indent: usize)
    ensures
        entries_tail(es.push(e), indent) == entries_tail(es, indent) + ",\n"@ + entry_line(e, indent),
    decreases es.len(),
{
    if es.len() == 0 {
        assert(es.push(e).drop_first() =~= seq![]);
        assert(es.push(e)[0] == e);
        assert(entries_tail(es.push(e).drop_first(), indent) =~= seq![]);
        assert(entries_tail(es, indent) =~= seq![]);
        assert(entries_tail(es.push(e), indent) =~= ",\n"@ + entry_line(e, indent));
    } else {
        lemma_entries_tail_push(es.drop_first(), e, indent);
        assert(es.push(e).drop_first() =~= es.drop_first().push(e));
        assert(entries_tail(es.push(e), indent) =~= entries_tail(es, indent) + ",\n"@ + entry_line(
            e,
            indent,
        ));
    }
}

proof fn lemma_pretty_list(vs: Seq<Value>, indent: usize)
    requires
        vs.len() > 0,
    ensures
        pretty(Value::List(vs), indent) == "["@ + pretty(vs[0], deeper(indent)) + pretty_tail(
            vs.drop_first(),
            deeper(indent),
        ) + "]"@,
{
}

proof fn lemma_pretty_dict(es: Seq<(Seq<u8>, Value)>, indent: usize)
    requires
        es.len() > 0,
    ensures
        pretty(Value::Dict(es), indent) == "{\n"@ + entry_line(es[0], indent) + entries_tail(
            es.drop_first(),
            indent,
        ) + "\n"@ + pad(indent as nat) + "}"@,
{
}

/// The decimal spelling of `i`.
pub fn int_string(i: i64) -> (r: String)
    ensures
        r@ == int_text(i as int),
{
    let mut digits: Vec<u8> = Vec::new();
    push_i64_digits(&mut digits, i);
    proof {
        assert(digits@ =~= int_digits(i as int));
        let n: nat = if i < 0 { (-i) as nat } else { i as nat };
        lemma_nat_digits_shape(n);
        assert forall|k: int| 0 <= k < digits@.len() implies #[trigger] digits@[k] < 128 by {
            if i < 0 {
                if k > 0 {
                    assert(digits@[k] == crate::decimal::nat_digits(n)[k - 1]);
                    assert(crate::decimal::is_digit(crate::decimal::nat_digits(n)[k - 1]));
                } else {
                    assert(digits@[k] == MINUS);
                }
            } else {
                assert(crate::decimal::is_digit(crate::decimal::nat_digits(n)[k]));
            }
        }
    }
    ascii_string(digits.as_slice())
}

/// The indentation `indent` levels deep.
fn pad_string(indent: usize) -> (r: String)
    ensures
        r@ == pad(indent as nat),
{
    let mut out = String::new();
    let mut i: usize = 0;
    while i < indent
        invariant
            0 <= i <= indent,
            out@ == pad(i as nat),
        decreases indent - i,
    {
        out.append("  ");
        i = i + 1;
    }
    out
}

/// Appends a byte string as text.
fn write_bytes_text(out: &mut String, b: &[u8])
    ensures
        final(out)@ == old(out)@ + bytes_text(b@),
{
    match utf8_text(b) {
        Some(s) => {
            out.append("\"");
            out.append(s);
            out.append("\"");
        },
        None => {
            out.append("<HASHES>");
        },
    }
}

/// Appends the items of a list as text, the first one bare and each other one after `, `.
#[verifier::loop_isolation(false)]
fn write_items<'a>(items: &Vec<AST<'a>>, out: &mut String, next: usize)
    requires
        items@.len() > 0,
    ensures
        final(out)@ == old(out)@ + pretty(views(items@)[0], next) + pretty_tail(
            views(items@).drop_first(),
            next,
        ),
    decreases items,
{
    let ghost vs = views(items@);
    items[0].write_pretty(out, next);
    let ghost start = out@;
    let mut i: usize = 1;
    assert(vs.take(1).drop_first() =~= seq![]);
    while i < items.len()
        invariant
            1 <= i <= items@.len(),
            vs == views(items@),
            out@ == start + pretty_tail(vs.take(i as int).drop_first(), next),
        decreases items@.len() - i,
    {
        out.append(", ");
        items[i].write_pretty(out, next);
        proof {
            assert(vs.take(i + 1).drop_first() =~= vs.take(i as int).drop_first().push(vs[i as int]));
            lemma_pretty_tail_push(vs.take(i as int).drop_first(), vs[i as int], next);
        }
        i = i + 1;
    }
    assert(vs.take(items@.len() as int) =~= vs);
}

/// The lines of the entries, separated by `,` and a line break.
pub open spec fn entries_text(es: Seq<(Seq<u8>, Value)>, indent: usize) -> Seq<char> {
    if es.len() == 0 {
        seq![]
    } else {
        entry_line(es[0], indent) + entries_tail(es.drop_first(), indent)
    }
}

proof fn lemma_entries_text_push(es: Seq<(Seq<u8>, Value)>, e: (Seq<u8>, Value), indent: usize)
    ensures
        entries_text(es.push(e), indent) == entries_text(es, indent) + (if es.len() == 0 {
            seq![]
        } else {
            ",\n"@
        }) + entry_line(e, indent),
{
    if es.len() == 0 {
        assert(es.push(e).drop_first() =~= seq![]);
        assert(es.push(e)[0] == e);
        assert(entries_tail(es.push(e).drop_first(), indent) =~= seq![]);
        assert(entries_text(es.push(e), indent) =~= entry_line(e, indent));
    } else {
        assert(es.push(e)[0] == es[0]);
        assert(es.push(e).drop_first() =~= es.drop_first().push(e));
        lemma_entries_tail_push(es.drop_first(), e, indent);
        assert(entries_text(es.push(e), indent) =~= entries_text(es, indent) + ",\n"@ + entry_line(
            e,
            indent,
        ));
    }
}

/// Appends the entries of a dictionary as text, one line each, the lines separated by `,`
/// and a line break.
#[verifier::loop_isolation(false)]
#[verifier::spinoff_prover]
#[verifier::rlimit(40)]
fn write_entries<'a>(es: &Vec<(&'a [u8], AST<'a>)>, out: &mut String, indent: usize)
    ensures
        final(out)@ == old(out)@ + entries_text(entry_views(es@), indent),
    decreases es,
{
    let ghost ev = entry_views(es@);
    let next = if indent < usize::MAX {
        indent + 1
    } else {
        indent
    };
    let margin = pad_string(indent);
    let ghost start = out@;
    let mut i: usize = 0;
    assert(ev.take(0) =~= seq![]);
    while i < es.len()
        invariant
            0 <= i <= es@.len(),
            ev == entry_views(es@),
            next == deeper(indent),
            margin@ == pad(indent as nat),
            out@ == start + entries_text(ev.take(i as int), indent),
        decreases es@.len() - i,
    {
        let ghost before = out@;
        if i > 0 {
            out.append(",\n");
        }
        let ghost line_start = out@;
        out.append("  ");
        out.append(margin.as_str());
        write_bytes_text(out, es[i].0);
        out.append(" => ");
        es[i].1.write_pretty(out, next);
        proof {
            let e = ev[i as int];
            assert(e == (es@[i as int].0@, es@[i as int].1@));
            assert(out@ =~= line_start + entry_line(e, indent));
            lemma_entries_text_push(ev.take(i as int), e, indent);
            assert(ev.take(i + 1) =~= ev.take(i as int).push(e));
        }
        i = i + 1;
    }
    assert(ev.take(es@.len() as int) =~= ev);
}

impl<'a> AST<'a> {
    /// Appends this value as text, at the given indentation.
    fn write_pretty(&self, out: &mut String, indent: usize)
        ensures
            final(out)@ == old(out)@ + pretty(self@, indent),
        decreases self,
    {
        match self {
            AST::ByteString(b) => {
                write_bytes_text(out, b);
            },
            AST::Integer(i) => {
                let s = int_string(*i);
                out.append(s.as_str());
            },
            AST::List(items) => {
                proof {
                    lemma_view_list(*items);
                }
                if items.len() == 0 {
                    out.append("[]");
                    return;
                }
                let next = if indent < usize::MAX {
                    indent + 1
                } else {
                    indent
                };
                out.append("[");
                write_items(items, out, next);
                out.append("]");
                proof {
                    lemma_pretty_list(views(items@), indent);
                    assert(out@ =~= old(out)@ + pretty(Value::List(views(items@)), indent));
                }
            },
            AST::Dictionary(es) => {
                proof {
                    lemma_view_dict(*es);
                }
                if es.len() == 0 {
                    out.append("{}");
                    return;
                }
                out.append("{\n");
                write_entries(es, out, indent);
                assert(entry_views(es@).len() > 0);
                let margin = pad_string(indent);
                out.append("\n");
                out.append(margin.as_str());
                out.append("}");
                proof {
                    lemma_pretty_dict(entry_views(es@), indent);
                    assert(out@ =~= old(out)@ + pretty(Value::Dict(entry_views(es@)), indent));
                }
            },
        }
    }

    /// This value as text: byte strings that are UTF-8 in double quotes, others as
    /// `<HASHES>`, integers in decimal, lists on one line, dictionaries one entry a line.
    pub fn to_string(&self) -> (r: String)
        ensures
            r@ == pretty(self@, 0),
    {
        let mut out = String::new();
        self.write_pretty(&mut out, 0);
        assert(out@ =~= pretty(self@, 0));
        out
    }
}

/// The first `n` bits of a byte as `0`s and `1`s, the most significant first.
pub open spec fn bits_text(b: u8, n: nat) -> Seq<char>
    decreases n,
{
    if n == 0 {
        seq![]
    } else {
        bits_text(b, (n - 1) as nat) + if byte_has(b, (n - 1) as u32) {
            "1"@
        } else {
            "0"@
        }
    }
}

/// The bits of the bytes, a byte's eight bits together, bytes separated by a space.
pub open spec fn bytes_bits_text(bytes: Seq<u8>) -> Seq<char>
    decreases bytes.len(),
{
    if bytes.len() == 0 {
        seq![]
    } else if bytes.len() == 1 {
        bits_text(bytes[0], 8)
    } else {
        bytes_bits_text(bytes.drop_last()) + " "@ + bits_text(bytes.last(), 8)
    }
}

/// A bitfield as text: the bits of its first four bytes (32 pieces) between brackets,
/// followed by `...` when it has more bytes.
pub open spec fn bitfield_text(bytes: Seq<u8>) -> Seq<char> {
    let shown = if bytes.len() < 4 {
        bytes
    } else {
        bytes.take(4)
    };
    "["@ + bytes_bits_text(shown) + (if bytes.len() > 4 {
        "..."@
    } else {
        seq![]
    }) + "]"@
}

/// Appends the eight bits of a byte.
fn write_bits(out: &mut String, b: u8)
    ensures
        final(out)@ == old(out)@ + bits_text(b, 8),
{
    let ghost start = out@;
    let mut k: u32 = 0;
    while k < 8
        invariant
            0 <= k <= 8,
            out@ == start + bits_text(b, k as nat),
        decreases 8 - k,
    {
        if b & (0x80u8 >> k) != 0 {
            out.append("1");
        } else {
            out.append("0");
        }
        k = k + 1;
    }
}

impl Bitfield {
    /// This bitfield as text: the bits of its first four bytes, then `...` if there are more.
    pub fn to_string(&self) -> (r: String)
        ensures
            r@ == bitfield_text(self.bytes@),
    {
        let ghost bytes = self.bytes@;
        let display_limit: usize = if self.bytes.len() < 4 {
            self.bytes.len()
        } else {
            4
        };
        let ghost shown = if bytes.len() < 4 {
            bytes
        } else {
            bytes.take(4)
        };
        assert(shown =~= bytes.take(display_limit as int));
        let mut bits = String::new();
        let mut i: usize = 0;
        assert(bytes.take(0) =~= seq![]);
        while i < display_limit
            invariant
                0 <= i <= display_limit <= bytes.len(),
                bytes == self.bytes@,
                bits@ == bytes_bits_text(bytes.take(i as int)),
            decreases display_limit - i,
        {
            let ghost before = bits@;
            if i > 0 {
                bits.append(" ");
            }
            write_bits(&mut bits, self.bytes[i]);
            proof {
                assert(bytes.take(i + 1).drop_last() =~= bytes.take(i as int));
                assert(bytes.take(i + 1).last() == bytes[i as int]);
                if i == 0 {
                    assert(bytes.take(1)[0] == bytes[0]);
                }
            }
            i = i + 1;
        }
        if self.bytes.len() > 4 {
            bits.append("...");
        }
        let mut out = String::new();
        out.append("[");
        out.append(bits.as_str());
        out.append("]");
        assert(out@ =~= bitfield_text(bytes));
        out
    }
}

/// The name a message is shown by.
pub open spec fn message_name(m: Message) -> Seq<char> {
    match m {
        Message::KeepAlive => "KeepAlive"@,
        Message::Choke => "Choke"@,
        Message::Unchoke => "Unchoke"@,
        Message::Interested => "Interested"@,
        Message::NotInterested => "NotInterested"@,
        Message::Have(_) => "Have"@,
        Message::Bitfield(_) => "Bitfield"@,
        Message::Piece { .. } => "Piece"@,
        Message::Request { .. } => "Request"@,
        Message::Cancel { .. } => "Cancel"@,
    }
}

impl TorrentTcpMessage {
    /// The name of this message's kind.
    pub fn to_string(&self) -> (r: String)
        ensures
            r@ == message_name(self@),
    {
        match self {
            TorrentTcpMessage::KeepAlive => "KeepAlive".to_owned(),
            TorrentTcpMessage::Choke => "Choke".to_owned(),
            TorrentTcpMessage::Unchoke => "Unchoke".to_owned(),
            TorrentTcpMessage::Interested => "Interested".to_owned(),
            TorrentTcpMessage::NotInterested => "NotInterested".to_owned(),
            TorrentTcpMessage::Have(_) => "Have".to_owned(),
            TorrentTcpMessage::Bitfield(_) => "Bitfield".to_owned(),
            TorrentTcpMessage::Piece { .. } => "Piece".to_owned(),
            TorrentTcpMessage::Request { .. } => "Request".to_owned(),
            TorrentTcpMessage::Cancel { .. } => "Cancel".to_owned(),
        }
    }
}

impl ConversionError {
    /// The error as text: the fields that could not be found, between brackets.
    pub fn to_string(&self) -> (r: String)
        ensures
            r@ == "Failed to find ["@ + self.failed_to_find@ + "] field(s)"@,
    {
        let mut out = String::new();
        out.append("Failed to find [");
        out.append(self.failed_to_find.as_str());
        out.append("] field(s)");
        out
    }
}

} // verus!
