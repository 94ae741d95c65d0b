use torrent_reader::bencoding_parser::{
    parse_bencode, parse_bytestring, parse_dictionary, parse_integer, parse_list, ParseError, AST,
};

fn parse_all(bytes: &[u8]) -> Result<AST<'_>, ParseError> {
    let mut input: &[u8] = bytes;
    let r = parse_bencode(&mut input);
    if r.is_ok() {
        assert!(input.is_empty(), "trailing bytes left");
    }
    r
}

#[test]
fn reads_byte_strings() {
    assert_eq!(parse_all(b"4:spam"), Ok(AST::ByteString(b"spam")));
    assert_eq!(parse_all(b"0:"), Ok(AST::ByteString(b"")));
    let mut input: &[u8] = b"3:abcdef";
    assert_eq!(parse_bytestring(&mut input), Ok(AST::ByteString(b"abc")));
    assert_eq!(input, b"def");
}

#[test]
fn byte_string_errors_leave_input() {
    for bad in [&b"5:spam"[..], b"4spam", b":spam", b"04:spam", b""] {
        let mut input: &[u8] = bad;
        assert_eq!(parse_bencode(&mut input), Err(ParseError));
        assert_eq!(input, bad);
    }
}

#[test]
fn reads_integers() {
    assert_eq!(parse_all(b"i3e"), Ok(AST::Integer(3)));
    assert_eq!(parse_all(b"i-3e"), Ok(AST::Integer(-3)));
    assert_eq!(parse_all(b"i0e"), Ok(AST::Integer(0)));
    assert_eq!(parse_all(b"i+7e"), Ok(AST::Integer(7)));
    assert_eq!(parse_all(b"i9223372036854775807e"), Ok(AST::Integer(i64::MAX)));
    assert_eq!(parse_all(b"i-9223372036854775808e"), Ok(AST::Integer(i64::MIN)));
    let mut input: &[u8] = b"i42ei1e";
    assert_eq!(parse_integer(&mut input), Ok(AST::Integer(42)));
    assert_eq!(input, b"i1e");
}

#[test]
fn rejects_bad_integers() {
    for bad in [&b"i03e"[..], b"i-0e", b"ie", b"i9223372036854775808e", b"i12", b"i1x"] {
        let mut input: &[u8] = bad;
        assert_eq!(parse_bencode(&mut input), Err(ParseError), "{:?}", bad);
        assert_eq!(input, bad);
    }
}

#[test]
fn reads_lists() {
    assert_eq!(
        parse_all(b"l4:spam4:eggse"),
        Ok(AST::List(vec![AST::ByteString(b"spam"), AST::ByteString(b"eggs")]))
    );
    assert_eq!(parse_all(b"le"), Ok(AST::List(vec![])));
    assert_eq!(
        parse_all(b"lli1eee"),
        Ok(AST::List(vec![AST::List(vec![AST::Integer(1)])]))
    );
    let mut input: &[u8] = b"l";
    assert_eq!(parse_list(&mut input), Err(ParseError));
    assert_eq!(input, b"l");
}

#[test]
fn reads_dictionaries() {
    assert_eq!(
        parse_all(b"d3:cow3:moo4:spam4:eggse"),
        Ok(AST::Dictionary(vec![
            (&b"cow"[..], AST::ByteString(b"moo")),
            (&b"spam"[..], AST::ByteString(b"eggs")),
        ]))
    );
    assert_eq!(
        parse_all(b"d4:spaml1:a1:bee"),
        Ok(AST::Dictionary(vec![(
            &b"spam"[..],
            AST::List(vec![AST::ByteString(b"a"), AST::ByteString(b"b")])
        )]))
    );
    assert_eq!(parse_all(b"de"), Ok(AST::Dictionary(vec![])));
    let d = parse_all(
        b"d9:publisher3:bob17:publisher-webpage15:www.example.com18:publisher.location4:homee",
    )
    .unwrap();
    assert_eq!(d.get_str(b"publisher"), Some("bob".to_string()));
    assert_eq!(d.get_str(b"publisher-webpage"), Some("www.example.com".to_string()));
    assert_eq!(d.get_str(b"publisher.location"), Some("home".to_string()));
}

#[test]
fn dictionary_keys_must_be_increasing() {
    for bad in [&b"d1:b1:x1:a1:ye"[..], b"d1:bi1e1:ai2ee", b"d1:ai1e1:ai2ee", b"ld1:b0:1:a0:ee"] {
        let mut input: &[u8] = bad;
        assert_eq!(parse_bencode(&mut input), Err(ParseError), "{:?}", bad);
        assert_eq!(input, bad);
    }
    let mut input: &[u8] = b"d1:ai1e1:bi2ee";
    assert_eq!(
        parse_dictionary(&mut input),
        Ok(AST::Dictionary(vec![(&b"a"[..], AST::Integer(1)), (&b"b"[..], AST::Integer(2))]))
    );
    // A proper prefix comes first.
    let mut input: &[u8] = b"d1:a0:2:aa0:e";
    assert!(parse_bencode(&mut input).is_ok());
    // Keys must be byte strings.
    assert_eq!(parse_all(b"di1ei2ee"), Err(ParseError));
}

#[test]
fn serialize_roundtrip_on_values() {
    let samples: [&[u8]; 6] = [
        b"4:spam",
        b"i-42e",
        b"l4:spami7ee",
        b"d3:cow3:moo4:spaml1:a1:bee",
        b"d4:infod6:lengthi5e4:name1:x12:piece lengthi2e6:pieces0:ee",
        b"lled1:ad1:ble1:cleeee",
    ];
    for s in samples {
        let ast = parse_all(s).unwrap_or_else(|_| panic!("{}", String::from_utf8_lossy(s)));
        assert_eq!(ast.serialize(), s.to_vec());
    }
}

#[test]
fn hash_is_sha1_of_bencoding() {
    let ast = parse_all(b"d3:cow3:moo4:spam4:eggse").unwrap();
    let digest = ast.hash();
    let expected: [u8; 20] =
        <sha1::Sha1 as sha1::Digest>::digest(b"d3:cow3:moo4:spam4:eggse").into();
    assert_eq!(digest, expected);
    assert_ne!(digest.to_vec(), ast.serialize());
}

#[test]
fn accessors() {
    let d = parse_all(b"d1:ai5e1:b3:xyz1:cl1:p1:qe1:dll1:u1:vel1:wei3ee1:e2:\xff\xfee").unwrap();
    assert_eq!(d.get_int(b"a"), Some(5));
    assert_eq!(d.get_int(b"b"), None);
    assert_eq!(d.get_str(b"b"), Some("xyz".to_string()));
    assert_eq!(d.get_str(b"e"), None);
    assert_eq!(d.get_str(b"zz"), None);
    assert_eq!(d.get_from_dict(b"a"), Some(&AST::Integer(5)));
    assert_eq!(d.get_from_dict(b"q"), None);
    let c = d.get_from_dict(b"c").unwrap();
    assert_eq!(c.list().map(|l| l.len()), Some(2));
    assert_eq!(c.get_list_of_str(), Some(vec!["p".to_string(), "q".to_string()]));
    let dd = d.get_from_dict(b"d").unwrap();
    assert_eq!(dd.get_list_of_str(), None);
    assert_eq!(
        dd.get_list_of_list_of_str(),
        Some(vec!["u".to_string(), "v".to_string(), "w".to_string()])
    );
    assert_eq!(d.get_from_dict(b"a").unwrap().int_value(), Some(5));
    assert_eq!(d.get_from_dict(b"b").unwrap().int_value(), None);
    assert_eq!(d.get_from_dict(b"b").unwrap().str(), Some("xyz".to_string()));
    assert_eq!(AST::Integer(1).get_from_dict(b"a"), None);
    assert_eq!(AST::Integer(1).list(), None);
    assert_eq!(AST::Integer(1).get_list_of_list_of_str(), None);
}

#[test]
fn shows_values_as_text() {
    assert_eq!(AST::ByteString(b"spam").to_string(), "\"spam\"");
    assert_eq!(AST::ByteString(b"\xff").to_string(), "<HASHES>");
    assert_eq!(AST::Integer(-12).to_string(), "-12");
    assert_eq!(AST::List(vec![]).to_string(), "[]");
    assert_eq!(AST::Dictionary(vec![]).to_string(), "{}");
    assert_eq!(
        AST::List(vec![AST::Integer(1), AST::ByteString(b"a")]).to_string(),
        "[1, \"a\"]"
    );
    let d = parse_all(b"d1:ai1e1:bd1:ci2eee").unwrap();
    assert_eq!(
        d.to_string(),
        "{\n  \"a\" => 1,\n  \"b\" => {\n    \"c\" => 2\n  }\n}"
    );
}

#[test]
fn dictionaries_are_built_in_key_order() {
    let d = AST::dictionary(vec![
        (&b"spam"[..], AST::ByteString(b"eggs")),
        (&b"cow"[..], AST::ByteString(b"moo")),
    ]);
    assert_eq!(d.serialize(), b"d3:cow3:moo4:spam4:eggse".to_vec());
    let twice = AST::dictionary(vec![
        (&b"b"[..], AST::Integer(1)),
        (&b"a"[..], AST::Integer(2)),
        (&b"b"[..], AST::Integer(3)),
    ]);
    assert_eq!(
        twice,
        AST::Dictionary(vec![(&b"a"[..], AST::Integer(2)), (&b"b"[..], AST::Integer(3))])
    );
    assert_eq!(twice.serialize(), b"d1:ai2e1:bi3ee".to_vec());
    assert_eq!(AST::dictionary(vec![]).serialize(), b"de".to_vec());
}
