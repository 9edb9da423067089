use torrent_client::bencode::builder::{
    map_key_from_bytes, serialize_newtype_variant, EnumDeserializer, MapSerializer, SeqSerializer,
    StructVariantSerializer, TupleVariantSerializer,
};
use torrent_client::bencode::dict::{key_order, KeyOrder};
use torrent_client::bencode::typed::ValueKind;
use torrent_client::bencode::{BencodeValue, Error};

#[test]
fn integers_are_bounds_checked_on_the_way_in() {
    assert_eq!(BencodeValue::from_bool(true), BencodeValue::Integer(1));
    assert_eq!(BencodeValue::from_bool(false), BencodeValue::Integer(0));
    assert_eq!(BencodeValue::from_i8(-128), BencodeValue::Integer(-128));
    assert_eq!(BencodeValue::from_i16(-32768), BencodeValue::Integer(-32768));
    assert_eq!(BencodeValue::from_i32(i32::MIN), BencodeValue::Integer(-2147483648));
    assert_eq!(BencodeValue::from_i64(i64::MIN), BencodeValue::Integer(i64::MIN));
    assert_eq!(BencodeValue::from_u8(255), BencodeValue::Integer(255));
    assert_eq!(BencodeValue::from_u16(65535), BencodeValue::Integer(65535));
    assert_eq!(BencodeValue::from_u32(u32::MAX), BencodeValue::Integer(4294967295));
    assert_eq!(
        BencodeValue::from_u64(9223372036854775807),
        Ok(BencodeValue::Integer(i64::MAX))
    );
    assert_eq!(BencodeValue::from_u64(9223372036854775808), Err(Error::InvalidValue));
    assert_eq!(BencodeValue::from_i128(-9223372036854775808), Ok(BencodeValue::Integer(i64::MIN)));
    assert_eq!(BencodeValue::from_i128(-9223372036854775809), Err(Error::InvalidValue));
    assert_eq!(BencodeValue::from_i128(9223372036854775808), Err(Error::InvalidValue));
    assert_eq!(BencodeValue::from_u128(7), Ok(BencodeValue::Integer(7)));
    assert_eq!(BencodeValue::from_u128(u128::MAX), Err(Error::InvalidValue));
}

#[test]
fn integers_are_bounds_checked_on_the_way_out() {
    let big = BencodeValue::Integer(300);
    let negative = BencodeValue::Integer(-1);
    let text = BencodeValue::String(b"7".to_vec());
    assert_eq!(big.to_u8(), Err(Error::InvalidValue));
    assert_eq!(big.to_i8(), Err(Error::InvalidValue));
    assert_eq!(big.to_u16(), Ok(300));
    assert_eq!(big.to_i16(), Ok(300));
    assert_eq!(big.to_u32(), Ok(300));
    assert_eq!(big.to_i32(), Ok(300));
    assert_eq!(big.to_u64(), Ok(300));
    assert_eq!(big.to_i64(), Ok(300));
    assert_eq!(negative.to_u8(), Err(Error::InvalidValue));
    assert_eq!(negative.to_u16(), Err(Error::InvalidValue));
    assert_eq!(negative.to_u32(), Err(Error::InvalidValue));
    assert_eq!(negative.to_u64(), Err(Error::InvalidValue));
    assert_eq!(negative.to_i8(), Ok(-1));
    assert_eq!(BencodeValue::Integer(4294967296).to_u32(), Err(Error::InvalidValue));
    assert_eq!(BencodeValue::Integer(2147483648).to_i32(), Err(Error::InvalidValue));
    assert_eq!(BencodeValue::Integer(-129).to_i8(), Err(Error::InvalidValue));
    assert_eq!(BencodeValue::Integer(32768).to_i16(), Err(Error::InvalidValue));
    assert_eq!(text.to_u8(), Err(Error::InvalidType));
    assert_eq!(text.to_i64(), Err(Error::InvalidType));
    assert_eq!(text.to_bool(), Err(Error::InvalidType));
    assert_eq!(BencodeValue::Integer(0).to_bool(), Ok(false));
    assert_eq!(BencodeValue::Integer(-3).to_bool(), Ok(true));
}

#[test]
fn strings_lists_and_fields() {
    let text = BencodeValue::from_str("spam");
    assert_eq!(text, BencodeValue::String(b"spam".to_vec()));
    assert_eq!(BencodeValue::from_bytes(&[0, 255]), BencodeValue::String(vec![0, 255]));
    assert_eq!(BencodeValue::from_byte_buf(vec![1, 2]), BencodeValue::String(vec![1, 2]));
    assert_eq!(text.as_bytes(), Ok(&b"spam".to_vec()));
    assert_eq!(text.to_byte_buf(), Ok(b"spam".to_vec()));
    assert_eq!(BencodeValue::Integer(1).as_bytes(), Err(Error::InvalidType));
    assert_eq!(text.kind(), ValueKind::Bytes);
    assert_eq!(BencodeValue::Integer(1).kind(), ValueKind::Signed);

    let list = BencodeValue::from_seq(vec![BencodeValue::Integer(1), BencodeValue::Integer(2)]);
    assert_eq!(list.kind(), ValueKind::List);
    assert_eq!(list.as_list().unwrap().len(), 2);
    assert_eq!(text.as_list(), Err(Error::InvalidType));

    let record = BencodeValue::from_map(vec![
        (b"name".to_vec(), BencodeValue::from_str("x")),
        (b"length".to_vec(), BencodeValue::Integer(20)),
        (b"extra".to_vec(), BencodeValue::Integer(0)),
    ]);
    assert_eq!(record.kind(), ValueKind::Dict);
    assert_eq!(record.get(b"length"), Ok(&BencodeValue::Integer(20)));
    assert_eq!(record.get(b"name"), Ok(&BencodeValue::String(b"x".to_vec())));
    assert_eq!(record.get(b"pieces"), Err(Error::MissingField));
    assert_eq!(list.get(b"length"), Err(Error::InvalidType));
    assert_eq!(record.as_dict().unwrap().len(), 3);
    assert_eq!(list.as_dict(), Err(Error::InvalidType));
}

#[test]
fn keys_are_ordered_by_bytes() {
    assert_eq!(key_order(b"a", b"b"), KeyOrder::Before);
    assert_eq!(key_order(b"b", b"a"), KeyOrder::After);
    assert_eq!(key_order(b"abc", b"abc"), KeyOrder::Same);
    assert_eq!(key_order(b"ab", b"abc"), KeyOrder::Before);
    assert_eq!(key_order(b"abc", b"ab"), KeyOrder::After);
    assert_eq!(key_order(b"", b""), KeyOrder::Same);
    assert_eq!(key_order(b"", b"\x00"), KeyOrder::Before);
    assert_eq!(key_order(b"Z", b"a"), KeyOrder::Before);
    assert_eq!(key_order(b"\xff", b"a"), KeyOrder::After);
    assert_eq!(key_order(b"piece length", b"pieces"), KeyOrder::Before);
}

#[test]
fn builders_make_lists_and_dictionaries() {
    let mut list = SeqSerializer::new(Some(2));
    list.serialize_element(BencodeValue::Integer(1));
    list.serialize_element(BencodeValue::from_str("a"));
    assert_eq!(list.end().to_byte_string(), b"li1e1:ae".to_vec());

    let mut map = MapSerializer::new();
    map.serialize_key(b"b".to_vec());
    map.serialize_value(BencodeValue::Integer(1));
    map.serialize_field(b"a".to_vec(), BencodeValue::Integer(2));
    map.serialize_key(b"b".to_vec());
    map.serialize_value(BencodeValue::Integer(3));
    assert_eq!(map.end().to_byte_string(), b"d1:ai2e1:bi3ee".to_vec());

    assert_eq!(
        serialize_newtype_variant(b"Some".to_vec(), BencodeValue::Integer(1)).to_byte_string(),
        b"d4:Somei1ee".to_vec()
    );

    let mut tuple = TupleVariantSerializer::new(b"Pair".to_vec(), 2);
    tuple.serialize_field(BencodeValue::Integer(1));
    tuple.serialize_field(BencodeValue::Integer(2));
    assert_eq!(tuple.end().to_byte_string(), b"d4:Pairli1ei2eee".to_vec());

    let mut fields = StructVariantSerializer::new(b"Point".to_vec(), 2);
    fields.serialize_field(b"y".to_vec(), BencodeValue::Integer(2));
    fields.serialize_field(b"x".to_vec(), BencodeValue::Integer(1));
    assert_eq!(fields.end().to_byte_string(), b"d5:Pointd1:xi1e1:yi2eee".to_vec());
}

#[test]
fn keys_and_variants_must_be_text() {
    assert_eq!(map_key_from_bytes(b"spam"), Ok("spam".to_string()));
    assert_eq!(map_key_from_bytes(&[0xff, 0xfe]), Err(Error::InvalidValue));

    assert!(matches!(
        BencodeValue::from_str("Unit").deserialize_enum(),
        Ok(EnumDeserializer::String(name)) if name == "Unit"
    ));
    assert!(matches!(
        BencodeValue::String(vec![0xc3, 0x28]).deserialize_enum(),
        Err(Error::InvalidValue)
    ));
    assert!(matches!(
        BencodeValue::from_map(vec![(b"V".to_vec(), BencodeValue::Integer(1))]).deserialize_enum(),
        Ok(EnumDeserializer::Struct(entries)) if entries.len() == 1
    ));
    assert!(matches!(BencodeValue::Integer(1).deserialize_enum(), Err(Error::InvalidValue)));
    assert!(matches!(BencodeValue::List(vec![]).deserialize_enum(), Err(Error::InvalidValue)));
}
