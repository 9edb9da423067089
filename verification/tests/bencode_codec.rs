use torrent_client::bencode::{BencodeValue, Error};

fn string(text: &str) -> BencodeValue {
    BencodeValue::String(text.as_bytes().to_vec())
}

fn dict(entries: Vec<(&str, BencodeValue)>) -> BencodeValue {
    BencodeValue::from_map(
        entries
            .into_iter()
            .map(|(key, value)| (key.as_bytes().to_vec(), value))
            .collect(),
    )
}

#[test]
fn lib_bstring() {
    let value0 = BencodeValue::try_from_bytes(b"6:foobar").unwrap();
    let value1 = BencodeValue::try_from_bytes(b"3:foo").unwrap();
    let value2 = BencodeValue::try_from_bytes(b"1:f").unwrap();
    let value3 = BencodeValue::try_from_bytes(b"15:foobarfoobarfoo").unwrap();
    let value4 = BencodeValue::try_from_bytes(b"0:").unwrap();

    assert_eq!(value0, string("foobar"));
    assert_eq!(value1, string("foo"));
    assert_eq!(value2, string("f"));
    assert_eq!(value3, string("foobarfoobarfoo"));
    assert_eq!(value4, string(""));

    assert_eq!(string("foobar").to_byte_string(), b"6:foobar".to_vec());
    assert_eq!(string("foo").to_byte_string(), b"3:foo".to_vec());
    assert_eq!(string("f").to_byte_string(), b"1:f".to_vec());
    assert_eq!(string("foobarfoobarfoo").to_byte_string(), b"15:foobarfoobarfoo".to_vec());
    assert_eq!(string("").to_byte_string(), b"0:".to_vec());
}

#[test]
fn lib_binteger() {
    let value0 = BencodeValue::try_from_bytes(b"i42e").unwrap();
    let value1 = BencodeValue::try_from_bytes(b"i2147483647e").unwrap();
    let value2 = BencodeValue::try_from_bytes(b"i0e").unwrap();
    let value3 = BencodeValue::try_from_bytes(b"i-61e").unwrap();
    let value4 = BencodeValue::try_from_bytes(b"i4294967300e").unwrap();

    assert_eq!(value0, BencodeValue::Integer(42));
    assert_eq!(value1, BencodeValue::Integer(2147483647));
    assert_eq!(value2, BencodeValue::Integer(0));
    assert_eq!(value3, BencodeValue::Integer(-61));
    assert_eq!(value4, BencodeValue::Integer(4294967300));

    assert_eq!(BencodeValue::Integer(42).to_byte_string(), b"i42e".to_vec());
    assert_eq!(BencodeValue::Integer(2147483647).to_byte_string(), b"i2147483647e".to_vec());
    assert_eq!(BencodeValue::Integer(0).to_byte_string(), b"i0e".to_vec());
    assert_eq!(BencodeValue::Integer(-61).to_byte_string(), b"i-61e".to_vec());
    assert_eq!(BencodeValue::Integer(4294967300).to_byte_string(), b"i4294967300e".to_vec());
}

fn sample_lists() -> Vec<BencodeValue> {
    vec![
        BencodeValue::List(vec![string("spam"), BencodeValue::Integer(42)]),
        BencodeValue::List(vec![string("spam")]),
        BencodeValue::List(vec![BencodeValue::Integer(42)]),
        BencodeValue::List(vec![]),
        BencodeValue::List(vec![BencodeValue::List(vec![BencodeValue::List(vec![
            BencodeValue::List(vec![]),
        ])])]),
        BencodeValue::List(vec![BencodeValue::List(vec![
            BencodeValue::Integer(-42),
            BencodeValue::List(vec![BencodeValue::List(vec![])]),
        ])]),
    ]
}

#[test]
fn lib_blist() {
    let expected = sample_lists();
    let value0 = BencodeValue::try_from_bytes(b"l4:spami42ee").unwrap();
    let value1 = BencodeValue::try_from_bytes(b"l4:spame").unwrap();
    let value2 = BencodeValue::try_from_bytes(b"li42ee").unwrap();
    let value3 = BencodeValue::try_from_bytes(b"le").unwrap();
    let value4 = BencodeValue::try_from_bytes(b"lllleeee").unwrap();
    let value5 = BencodeValue::try_from_bytes(b"lli-42elleeee").unwrap();

    assert_eq!(value0, expected[0]);
    assert_eq!(value1, expected[1]);
    assert_eq!(value2, expected[2]);
    assert_eq!(value3, expected[3]);
    assert_eq!(value4, expected[4]);
    assert_eq!(value5, expected[5]);

    assert_eq!(expected[0].to_byte_string(), b"l4:spami42ee".to_vec());
    assert_eq!(expected[1].to_byte_string(), b"l4:spame".to_vec());
    assert_eq!(expected[2].to_byte_string(), b"li42ee".to_vec());
    assert_eq!(expected[3].to_byte_string(), b"le".to_vec());
    assert_eq!(expected[4].to_byte_string(), b"lllleeee".to_vec());
    assert_eq!(expected[5].to_byte_string(), b"lli-42elleeee".to_vec());
}

fn sample_dicts() -> Vec<BencodeValue> {
    vec![
        dict(vec![("spam", string("foo"))]),
        dict(vec![("e", BencodeValue::Integer(-40012))]),
        dict(vec![]),
        dict(vec![("spam", string("foo")), ("b", BencodeValue::Integer(8))]),
        dict(vec![(
            "spam",
            dict(vec![(
                "spam",
                dict(vec![(
                    "spam",
                    dict(vec![("spam", dict(vec![("spam", BencodeValue::Integer(-42))]))]),
                )]),
            )]),
        )]),
        dict(vec![(
            "e",
            BencodeValue::List(vec![
                string("bar"),
                dict(vec![("e", BencodeValue::Integer(-1008))]),
            ]),
        )]),
    ]
}

#[test]
fn lib_bdict() {
    let expected = sample_dicts();
    let value0 = BencodeValue::try_from_bytes(b"d4:spam3:fooe").unwrap();
    let value1 = BencodeValue::try_from_bytes(b"d1:ei-40012ee").unwrap();
    let value2 = BencodeValue::try_from_bytes(b"de").unwrap();
    let value3 = BencodeValue::try_from_bytes(b"d4:spam3:foo1:bi8ee").unwrap();
    let value4 =
        BencodeValue::try_from_bytes(b"d4:spamd4:spamd4:spamd4:spamd4:spami-42eeeeee").unwrap();
    let value5 = BencodeValue::try_from_bytes(b"d1:el3:bard1:ei-1008eeee").unwrap();

    assert_eq!(value0, expected[0]);
    assert_eq!(value1, expected[1]);
    assert_eq!(value2, expected[2]);
    assert_eq!(value3, expected[3]);
    assert_eq!(value4, expected[4]);
    assert_eq!(value5, expected[5]);

    assert_eq!(expected[0].to_byte_string(), b"d4:spam3:fooe".to_vec());
    assert_eq!(expected[1].to_byte_string(), b"d1:ei-40012ee".to_vec());
    assert_eq!(expected[2].to_byte_string(), b"de".to_vec());
    assert_eq!(expected[3].to_byte_string(), b"d1:bi8e4:spam3:fooe".to_vec());
    assert_eq!(
        expected[4].to_byte_string(),
        b"d4:spamd4:spamd4:spamd4:spamd4:spami-42eeeeee".to_vec()
    );
    assert_eq!(expected[5].to_byte_string(), b"d1:el3:bard1:ei-1008eeee".to_vec());
}

#[test]
fn bencode_bstring() {
    let value0 = BencodeValue::try_from_bytes(b"6:foobar").unwrap();
    let value1 = BencodeValue::try_from_bytes(b"3:foo").unwrap();
    let value2 = BencodeValue::try_from_bytes(b"1:f").unwrap();
    let value3 = BencodeValue::try_from_bytes(b"15:foobarfoobarfoo").unwrap();
    let value4 = BencodeValue::try_from_bytes(b"0:").unwrap();

    assert_eq!(value0, string("foobar"));
    assert_eq!(value1, string("foo"));
    assert_eq!(value2, string("f"));
    assert_eq!(value3, string("foobarfoobarfoo"));
    assert_eq!(value4, string(""));
}

#[test]
fn bencode_binteger() {
    let value0 = BencodeValue::try_from_bytes(b"i42e").unwrap();
    let value1 = BencodeValue::try_from_bytes(b"i2147483647e").unwrap();
    let value2 = BencodeValue::try_from_bytes(b"i0e").unwrap();
    let value3 = BencodeValue::try_from_bytes(b"i-61e").unwrap();
    let value4 = BencodeValue::try_from_bytes(b"i4294967300e").unwrap();

    assert_eq!(value0, BencodeValue::Integer(42));
    assert_eq!(value1, BencodeValue::Integer(2147483647));
    assert_eq!(value2, BencodeValue::Integer(0));
    assert_eq!(value3, BencodeValue::Integer(-61));
    assert_eq!(value4, BencodeValue::Integer(4294967300));
}

#[test]
fn bencode_blist() {
    let expected = sample_lists();
    let value0 = BencodeValue::try_from_bytes(b"l4:spami42ee").unwrap();
    let value1 = BencodeValue::try_from_bytes(b"l4:spame").unwrap();
    let value2 = BencodeValue::try_from_bytes(b"li42ee").unwrap();
    let value3 = BencodeValue::try_from_bytes(b"le").unwrap();
    let value4 = BencodeValue::try_from_bytes(b"lllleeee").unwrap();
    let value5 = BencodeValue::try_from_bytes(b"lli-42elleeee").unwrap();

    assert_eq!(value0, expected[0]);
    assert_eq!(value1, expected[1]);
    assert_eq!(value2, expected[2]);
    assert_eq!(value3, expected[3]);
    assert_eq!(value4, expected[4]);
    assert_eq!(value5, expected[5]);
}

#[test]
fn bencode_bdict() {
    let expected = sample_dicts();
    let value0 = BencodeValue::try_from_bytes(b"d4:spam3:fooe").unwrap();
    let value1 = BencodeValue::try_from_bytes(b"d1:ei-40012ee").unwrap();
    let value2 = BencodeValue::try_from_bytes(b"de").unwrap();
    let value3 = BencodeValue::try_from_bytes(b"d4:spam3:foo1:bi8ee").unwrap();
    let value4 =
        BencodeValue::try_from_bytes(b"d4:spamd4:spamd4:spamd4:spamd4:spami-42eeeeee").unwrap();
    let value5 = BencodeValue::try_from_bytes(b"d1:el3:bard1:ei-1008eeee").unwrap();

    assert_eq!(value0, expected[0]);
    assert_eq!(value1, expected[1]);
    assert_eq!(value2, expected[2]);
    assert_eq!(value3, expected[3]);
    assert_eq!(value4, expected[4]);
    assert_eq!(value5, expected[5]);
}

#[test]
fn integer_edges() {
    assert_eq!(BencodeValue::try_from_bytes(b"i-42e"), Ok(BencodeValue::Integer(-42)));
    assert_eq!(BencodeValue::try_from_bytes(b"i-0e"), Err(Error::Syntax));
    assert_eq!(BencodeValue::try_from_bytes(b"i03e"), Err(Error::Syntax));
    assert_eq!(
        BencodeValue::try_from_bytes(b"i9223372036854775807e"),
        Ok(BencodeValue::Integer(i64::MAX))
    );
    assert_eq!(
        BencodeValue::try_from_bytes(b"i-9223372036854775808e"),
        Ok(BencodeValue::Integer(i64::MIN))
    );
    assert_eq!(BencodeValue::try_from_bytes(b"i9223372036854775808e"), Err(Error::OutOfRange));
    assert_eq!(BencodeValue::try_from_bytes(b"i-9223372036854775809e"), Err(Error::OutOfRange));
    assert_eq!(
        BencodeValue::try_from_bytes(b"i99999999999999999999999999e"),
        Err(Error::OutOfRange)
    );
    assert_eq!(BencodeValue::Integer(i64::MIN).to_byte_string(), b"i-9223372036854775808e".to_vec());
}

#[test]
fn spam_dictionary_round_trip() {
    let bytes = b"d4:spam3:fooe";
    let value = BencodeValue::try_from_bytes(bytes).unwrap();
    assert_eq!(
        value,
        BencodeValue::Dict(vec![(b"spam".to_vec(), BencodeValue::String(b"foo".to_vec()))])
    );
    assert_eq!(value.to_byte_string(), bytes.to_vec());
}

#[test]
fn canonical_inputs_round_trip() {
    let corpus: Vec<&[u8]> = vec![
        b"0:",
        b"le",
        b"de",
        b"i0e",
        b"i-1e",
        b"4:\x00\xff\x80e",
        b"d1:ad1:bd1:cleee1:bi5ee",
        b"l1:a1:bli1ei2eed1:xi-3eee",
        b"d8:announce3:url4:infod6:lengthi20e4:name1:x12:piece lengthi16eee",
    ];
    for input in corpus {
        let value = BencodeValue::try_from_bytes(input).unwrap();
        assert_eq!(value.to_byte_string(), input.to_vec());
        assert_eq!(BencodeValue::try_from_bytes(&value.to_byte_string()), Ok(value));
    }
}

#[test]
fn keys_come_out_in_byte_order() {
    let value = dict(vec![
        ("zeta", BencodeValue::Integer(1)),
        ("alpha", BencodeValue::Integer(2)),
        ("Zulu", BencodeValue::Integer(3)),
        ("alp", BencodeValue::Integer(4)),
        ("alpha", BencodeValue::Integer(5)),
    ]);
    assert_eq!(
        value,
        BencodeValue::Dict(vec![
            (b"Zulu".to_vec(), BencodeValue::Integer(3)),
            (b"alp".to_vec(), BencodeValue::Integer(4)),
            (b"alpha".to_vec(), BencodeValue::Integer(5)),
            (b"zeta".to_vec(), BencodeValue::Integer(1)),
        ])
    );
    assert_eq!(value.to_byte_string(), b"d4:Zului3e3:alpi4e5:alphai5e4:zetai1ee".to_vec());
}

#[test]
fn decoder_sorts_keys_and_keeps_the_later_duplicate() {
    let value = BencodeValue::try_from_bytes(b"d1:bi1e1:ai2e1:bi3ee").unwrap();
    assert_eq!(
        value,
        BencodeValue::Dict(vec![
            (b"a".to_vec(), BencodeValue::Integer(2)),
            (b"b".to_vec(), BencodeValue::Integer(3)),
        ])
    );
    assert_eq!(value.to_byte_string(), b"d1:ai2e1:bi3ee".to_vec());
}

#[test]
fn malformed_input_is_refused() {
    let syntax: Vec<&[u8]> = vec![
        b"",
        b"x",
        b"-5:hello",
        b"5:abc",
        b"03:abc",
        b"3abc",
        b"i42",
        b"ie",
        b"i-e",
        b"i4x2e",
        b"l4:spam",
        b"d4:spam",
        b"d4:spam3:foo",
        b"di1e3:fooe",
        b"99999999999999999999999999:a",
        b"e",
    ];
    for input in syntax {
        assert_eq!(BencodeValue::try_from_bytes(input), Err(Error::Syntax));
    }
    assert_eq!(BencodeValue::try_from_bytes(b"i1ei2e"), Err(Error::TrailingData));
    assert_eq!(BencodeValue::try_from_bytes(b"0:x"), Err(Error::TrailingData));
    assert_eq!(BencodeValue::try_from_bytes(b"lee"), Err(Error::TrailingData));
    assert_eq!(
        BencodeValue::try_from_bytes(b"li99999999999999999999ee"),
        Err(Error::OutOfRange)
    );
}

#[test]
fn deep_nesting_decodes() {
    let depth = 200;
    let mut input = vec![b'l'; depth];
    input.extend(vec![b'e'; depth]);
    let value = BencodeValue::try_from_bytes(&input).unwrap();
    assert_eq!(value.to_byte_string(), input);
}

#[test]
fn a_clone_is_the_same_value() {
    for value in sample_dicts().into_iter().chain(sample_lists()) {
        let copy = value.clone();
        assert_eq!(copy, value);
        assert_eq!(copy.to_byte_string(), value.to_byte_string());
    }
}
