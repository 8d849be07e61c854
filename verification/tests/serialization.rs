use matt_db::serialization::{
    DataType, DataValue, DeserializationError, Deserializer, ReadByteStream, SerializationError,
    Serializer,
};

fn round_trip(values: Vec<DataValue>, types: Vec<DataType>) {
    let serialized = Serializer::serialize(&types, &values).unwrap();

    let mut stream = ReadByteStream::new(&serialized);
    let deserialized = Deserializer::deserialize(&mut stream, &types).unwrap();
    println!("{:?}", deserialized);
    assert_eq!(values, deserialized)
}

#[test]
fn test_ints() {
    round_trip(
        vec![DataValue::Int(5), DataValue::Int(10)],
        vec![DataType::Int, DataType::Int],
    )
}

#[test]
fn test_chars() {
    round_trip(
        vec![
            DataValue::Char("test".to_string()),
            DataValue::Char("my_char".to_string()),
        ],
        vec![DataType::Char(10), DataType::Char(10)],
    )
}

#[test]
fn test_mix() {
    round_trip(
        vec![
            DataValue::Int(5),
            DataValue::Char("test".to_string()),
            DataValue::Int(10),
            DataValue::Char("my_char".to_string()),
        ],
        vec![
            DataType::Int,
            DataType::Char(10),
            DataType::Int,
            DataType::Char(7),
        ],
    )
}

#[test]
fn raises_string_overflow() {
    let res = Serializer::serialize(
        &vec![DataType::Char(3)],
        &vec![DataValue::Char("overflow".to_string())],
    );
    assert_eq!(res, Err(SerializationError::StringOverflow(3, 8)))
}

#[test]
fn to_rust_type() {
    let values = vec![DataValue::Int(5)];
    let types = vec![DataType::Int];
    let serialized = Serializer::serialize(&types, &values).unwrap();

    let mut stream = ReadByteStream::new(&serialized);
    let res = Deserializer::deserialize_next(&mut stream, DataType::Int);
    let DataValue::Int(x) = (match res {
        Ok(x) => x,
        Err(_) => panic!(),
    }) else {
        panic!()
    };
    assert_eq!(x, 5)
}

#[test]
fn int_encodings_are_big_endian_with_a_flipped_bit() {
    assert_eq!(
        Serializer::serialize_single(&DataType::Int, &DataValue::Int(5)).unwrap(),
        vec![0x00, 0x00, 0x80, 0x05]
    );
    assert_eq!(
        Serializer::serialize_single(&DataType::SmallInt, &DataValue::SmallInt(1)).unwrap(),
        vec![0x00, 0x81]
    );
    assert_eq!(
        Serializer::serialize_single(&DataType::BigInt, &DataValue::BigInt(-1)).unwrap(),
        vec![0xff, 0xff, 0xff, 0xff, 0x7f, 0xff, 0xff, 0xff]
    );
}

#[test]
fn chars_are_padded_with_zeros() {
    assert_eq!(
        Serializer::serialize_single(&DataType::Char(5), &DataValue::Char("ab".to_string()))
            .unwrap(),
        vec![b'a', b'b', 0, 0, 0]
    );
}

#[test]
fn type_mismatch_is_reported() {
    let res = Serializer::serialize(&[DataType::Int], &[DataValue::SmallInt(3)]);
    assert_eq!(
        res,
        Err(SerializationError::TypeMismatch(
            DataType::Int,
            DataValue::SmallInt(3)
        ))
    );
}

#[test]
fn fewer_values_than_types_leaves_zeros() {
    let res = Serializer::serialize(&[DataType::SmallInt, DataType::Int], &[DataValue::SmallInt(0)]);
    assert_eq!(res, Ok(vec![0x00, 0x80, 0, 0, 0, 0]));
}

#[test]
fn short_buffer_is_reported() {
    let res = Deserializer::deserialize_from_bytes(&[0, 0, 0], &[DataType::Int]);
    assert_eq!(res, Err(DeserializationError::BufferUnexpectedEnd));
}

#[test]
fn invalid_utf8_is_reported() {
    let res = Deserializer::deserialize_from_bytes(&[0xff, 0xfe], &[DataType::Char(2)]);
    assert!(matches!(
        res,
        Err(DeserializationError::StringDeserializeError(_))
    ));
}

#[test]
fn trailing_nuls_are_trimmed() {
    let res = Deserializer::deserialize_from_bytes(&[b'h', b'i', 0, 0], &[DataType::Char(4)]);
    assert_eq!(res, Ok(vec![DataValue::Char("hi".to_string())]));
}

#[test]
fn deserialize_from_start_reads_the_row_at_the_offset() {
    let bytes = Serializer::serialize(
        &[DataType::SmallInt, DataType::Int],
        &[DataValue::SmallInt(7), DataValue::Int(-3)],
    )
    .unwrap();
    let res = Deserializer::deserialize_from_start(&bytes, 2, &[DataType::Int]);
    assert_eq!(res, Ok(vec![DataValue::Int(-3)]));
}

#[test]
fn stream_reads_rows_in_turn() {
    let types = [DataType::SmallInt];
    let bytes = Serializer::serialize(
        &[DataType::SmallInt, DataType::SmallInt],
        &[DataValue::SmallInt(1), DataValue::SmallInt(2)],
    )
    .unwrap();
    let mut stream = ReadByteStream::new(&bytes);
    assert_eq!(stream.next(&types), Ok(vec![DataValue::SmallInt(1)]));
    assert_eq!(stream.next(&types), Ok(vec![DataValue::SmallInt(2)]));
    assert_eq!(stream.next(&types), Err(DeserializationError::BufferUnexpectedEnd));
}

#[test]
fn value_and_type_sizes() {
    assert_eq!(DataValue::Char("héllo".to_string()).size(), 6);
    assert_eq!(DataValue::BigInt(0).size(), 8);
    assert_eq!(DataType::Char(12).size(), 12);
    assert_eq!(DataType::SmallInt.size(), 2);
}

#[test]
fn a_row_wider_than_memory_stops_at_the_first_short_field() {
    let res = Deserializer::deserialize_from_bytes(&[], &[DataType::Char(usize::MAX), DataType::Int]);
    assert_eq!(res, Err(DeserializationError::BufferUnexpectedEnd));
}
