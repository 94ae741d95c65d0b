//! The reader against a reader written with `winnow` combinators, as the grammar is usually
//! written, keys in increasing order: both must accept the same inputs, read the same values
//! and stop at the same byte.
use std::collections::BTreeMap;
use torrent_reader::bencoding_parser::{parse_bencode, AST};
use winnow::ascii;
use winnow::combinator as comb;
use winnow::error::{ContextError, StrContext};
use winnow::token;
use winnow::Parser;

#[derive(Debug, Clone, PartialEq, Eq, PartialOrd, Ord)]
enum Node<'a> {
    ByteString(&'a [u8]),
    Integer(i64),
    List(Vec<Node<'a>>),
    Dictionary(BTreeMap<Node<'a>, Node<'a>>),
}

fn node_bencode<'a>(input: &mut &'a [u8]) -> Result<Node<'a>, ContextError> {
    comb::alt((
        node_integer.context(StrContext::Label("Parsing an Integer")),
        node_bytestring.context(StrContext::Label("Parsing a ByteString")),
        node_list.context(StrContext::Label("Parsing a List")),
        node_dictionary.context(StrContext::Label("Parsing a Dictionary")),
    ))
    .parse_next(input)
}

fn node_bytestring<'a>(input: &mut &'a [u8]) -> Result<Node<'a>, ContextError> {
    let num: u64 = ascii::dec_uint(input)?;
    token::literal(':').parse_next(input)?;
    let n_tokens = token::take(num).parse_next(input)?;
    Ok(Node::ByteString(n_tokens))
}

fn node_integer<'a>(input: &mut &'a [u8]) -> Result<Node<'a>, ContextError> {
    token::literal('i').parse_next(input)?;
    let int: i64 = ascii::dec_int(input)?;
    token::literal('e').parse_next(input)?;
    Ok(Node::Integer(int))
}

fn node_list<'a>(input: &mut &'a [u8]) -> Result<Node<'a>, ContextError> {
    token::literal('l').parse_next(input)?;
    let res: (Vec<Node<'a>>, char) = comb::repeat_till(0.., node_bencode, 'e').parse_next(input)?;
    Ok(Node::List(res.0))
}

fn node_dictionary<'a>(input: &mut &'a [u8]) -> Result<Node<'a>, ContextError> {
    token::literal('d').parse_next(input)?;
    let res: (Vec<(Node<'a>, Node<'a>)>, char) =
        comb::repeat_till(0.., (node_bytestring, node_bencode), 'e').parse_next(input)?;
    // Keys must appear in strictly increasing byte order.
    if res.0.windows(2).any(|w| w[0].0 >= w[1].0) {
        return Err(ContextError::new());
    }
    Ok(Node::Dictionary(res.0.into_iter().collect()))
}

fn to_ast<'a>(n: &Node<'a>) -> AST<'a> {
    match n {
        Node::ByteString(b) => AST::ByteString(b),
        Node::Integer(i) => AST::Integer(*i),
        Node::List(items) => AST::List(items.iter().map(to_ast).collect()),
        Node::Dictionary(map) => AST::Dictionary(
            map.iter()
                .map(|(k, v)| match k {
                    Node::ByteString(b) => (*b, to_ast(v)),
                    _ => panic!("dictionary key that is no byte string"),
                })
                .collect(),
        ),
    }
}

fn same_reading(bytes: &[u8]) {
    let mut a: &[u8] = bytes;
    let mut b: &[u8] = bytes;
    let ours = parse_bencode(&mut a);
    let theirs = node_bencode(&mut b);
    match (ours, theirs) {
        (Ok(x), Ok(y)) => {
            assert_eq!(x, to_ast(&y), "input {:?}", bytes);
            assert_eq!(a, b, "input {:?}", bytes);
        }
        (Err(_), Err(_)) => assert_eq!(a, bytes),
        (x, y) => panic!("input {:?}: {:?} against {:?}", String::from_utf8_lossy(bytes), x, y),
    }
}

#[test]
fn agrees_on_chosen_inputs() {
    let inputs: [&[u8]; 40] = [
        b"", b"i", b"ie", b"i0e", b"i00e", b"i-0e", b"i+0e", b"i+5e", b"i-5e", b"i05e",
        b"i9223372036854775807e", b"i9223372036854775808e", b"i-9223372036854775808e",
        b"i-9223372036854775809e", b"0:", b"00:", b"1:", b"1:a", b"2:abc", b"18446744073709551615:a",
        b"18446744073709551616:a", b"le", b"l", b"li1ei2ee", b"llee", b"lle", b"de", b"d", b"d1:ae",
        b"d1:ai1ee", b"d1:bi1e1:ai2ee", b"d1:ai1e1:ai2ee", b"di1ei2ee", b"d1:a", b"d3:cow3:moo4:spam4:eggse",
        b"l4:spami7ee", b"x", b"-1:", b"+1:a", b"d0:le0:dee",
    ];
    for input in inputs {
        same_reading(input);
    }
}

#[test]
fn agrees_on_generated_inputs() {
    let alphabet: &[u8] = b"ilde0123:-+9e";
    let mut seed: u64 = 0x2545_f491_4f6c_dd1d;
    for _ in 0..20000 {
        seed = seed.wrapping_mul(6364136223846793005).wrapping_add(1442695040888963407);
        let len = (seed >> 59) as usize;
        let mut bytes = Vec::with_capacity(len);
        let mut s = seed;
        for _ in 0..len {
            s = s.wrapping_mul(6364136223846793005).wrapping_add(1442695040888963407);
            bytes.push(alphabet[(s >> 60) as usize % alphabet.len()]);
        }
        same_reading(&bytes);
    }
}

#[test]
fn agrees_on_well_formed_documents() {
    let docs: [&[u8]; 4] = [
        b"d8:announce22:http://one.example/ann4:infod6:lengthi5e4:name1:x12:piece lengthi2e6:pieces0:ee",
        b"d8:intervali1800e5:peers6:\x7f\x00\x00\x01\x1a\xe1e",
        b"lli1eeld1:ali2eeeee",
        b"d1:ad1:bd1:cleeee",
    ];
    for d in docs {
        same_reading(d);
    }
}
