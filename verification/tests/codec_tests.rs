use yatlv::{
    decode_bool, decode_u16, decode_u32, decode_u64, decode_u8, Error, FrameBuilder,
    FrameBuilderLike, FrameParser, PacketFrameBuilder,
};

#[test]
fn can_make_an_empty_frame() {
    let data = Vec::with_capacity(100);
    let bld = FrameBuilder::new(data);
    let data = bld.close();
    assert_eq!(&[1, 0, 0, 0, 0], &data[..]);
}

#[test]
fn can_make_an_empty_packet_frame() {
    let data = Vec::with_capacity(100);
    let bld = PacketFrameBuilder::new(data);
    let data = bld.close();
    assert_eq!(&[0, 0, 0, 5, 1, 0, 0, 0, 0], &data[..]);
}

#[test]
fn can_add_data_to_frame() {
    let data = Vec::with_capacity(100);
    let mut bld = FrameBuilder::new(data);
    bld.add_data(1022, &[9, 255]);
    let data = bld.close();
    assert_eq!(
        &[
            1, // frame format
            0, 0, 0, 1, // field count = 1
            3, 254, // tag = 1022
            0, 0, 0, 2, // field length = 2
            9, 255, // field value
        ],
        &data[..]
    );
}

#[test]
fn can_add_data_to_packet_frame() {
    let data = Vec::with_capacity(100);
    let mut bld = PacketFrameBuilder::new(data);
    bld.add_data(1022, &[9, 255]);
    let data = bld.close();
    assert_eq!(
        &[
            0, 0, 0, 13, // frame size = 13
            1,  // frame format
            0, 0, 0, 1, // field count = 1
            3, 254, // tag = 1022
            0, 0, 0, 2, // field length = 2
            9, 255, // field value
        ],
        &data[..]
    );
}

#[test]
fn can_add_child_to_frame() {
    let data = Vec::with_capacity(100);
    let mut bld = FrameBuilder::new(data);
    let mut child_bld = bld.add_child(1022);
    child_bld.add_data(60, &[9, 255]);
    bld.end_child(child_bld);
    let data = bld.close();
    assert_eq!(
        &[
            1, // frame format
            0, 0, 0, 1, // field count = 1
            3, 254, // tag = 1022
            0, 0, 0, 13, // child frame size
            1,  // child frame format
            0, 0, 0, 1, // child frame field count
            0, 60, // field-tag in child frame
            0, 0, 0, 2, // field-length in child frame
            9, 255, // field-value in child frame
        ],
        &data[..]
    );
}

#[test]
fn can_add_child_to_packet_frame() {
    let data = Vec::with_capacity(100);
    let mut bld = PacketFrameBuilder::new(data);
    let mut child_bld = bld.add_child(1022);
    child_bld.add_data(60, &[9, 255]);
    bld.end_child(child_bld);
    let data = bld.close();
    assert_eq!(
        &[
            0, 0, 0, 24, // packet size
            1,  // frame format
            0, 0, 0, 1, // field count = 1
            3, 254, // tag = 1022
            0, 0, 0, 13, // child frame size
            1,  // child frame format
            0, 0, 0, 1, // child frame field count
            0, 60, // field-tag in child frame
            0, 0, 0, 2, // field-length in child frame
            9, 255, // field-value in child frame
        ],
        &data[..]
    );
}

#[test]
fn can_add_bool_to_frame() {
    let data = Vec::with_capacity(100);
    let mut bld = FrameBuilder::new(data);
    bld.add_bool(1022, true);
    bld.add_bool(1021, false);
    let data = bld.close();
    assert_eq!(
        &[
            1, // frame format
            0, 0, 0, 2, // field count = 2
            3, 254, // tag = 1022
            0, 0, 0, 1,   // field length = 1
            255, // field value
            3, 253, // tag = 1021
            0, 0, 0, 1, // field length = 1
            0, // field value
        ],
        &data[..]
    );
}

#[test]
fn can_add_u8_to_frame() {
    let data = Vec::with_capacity(100);
    let mut bld = FrameBuilder::new(data);
    bld.add_u8(1022, 89);
    let data = bld.close();
    assert_eq!(
        &[
            1, // frame format
            0, 0, 0, 1, // field count = 1
            3, 254, // tag = 1022
            0, 0, 0, 1,  // field length = 1
            89, // field value
        ],
        &data[..]
    );
}

#[test]
fn can_add_u16_to_frame() {
    let data = Vec::with_capacity(100);
    let mut bld = FrameBuilder::new(data);
    bld.add_u16(1022, 1009);
    let data = bld.close();
    assert_eq!(
        &[
            1, // frame format
            0, 0, 0, 1, // field count = 1
            3, 254, // tag = 1022
            0, 0, 0, 2, // field length = 2
            3, 241, // field value (1009)
        ],
        &data[..]
    );
}

#[test]
fn can_add_u32_to_frame() {
    let data = Vec::with_capacity(100);
    let mut bld = FrameBuilder::new(data);
    bld.add_u32(1022, 156090);
    let data = bld.close();
    assert_eq!(
        &[
            1, // frame format
            0, 0, 0, 1, // field count = 1
            3, 254, // tag = 1022
            0, 0, 0, 4, // field length = 4
            0, 2, 97, 186, // field value (156090)
        ],
        &data[..]
    );
}

#[test]
fn can_add_u64_to_frame() {
    let data = Vec::with_capacity(100);
    let mut bld = FrameBuilder::new(data);
    bld.add_u64(1022, 156234234090);
    let data = bld.close();
    assert_eq!(
        &[
            1, // frame format
            0, 0, 0, 1, // field count = 1
            3, 254, // tag = 1022
            0, 0, 0, 8, // field length = 8
            0, 0, 0, 36, 96, 73, 56, 234, // field value (156234234090)
        ],
        &data[..]
    );
}

#[test]
fn can_add_utf8_to_frame() {
    let data = Vec::with_capacity(100);
    let mut bld = FrameBuilder::new(data);
    bld.add_str(1022, "hello");
    let data = bld.close();
    assert_eq!(
        &[
            1, // frame format
            0, 0, 0, 1, // field count = 1
            3, 254, // tag = 1022
            0, 0, 0, 5, // field length = 5
            104, 101, 108, 108, 111, // field value ("hello")
        ],
        &data[..]
    );
}

#[test]
fn can_not_parse_a_frame_if_there_is_not_enough_data_for_frame_format() {
    let data: &[u8] = &[];
    assert_eq!(
        Some(Error::IncompleteFrameFormat),
        FrameParser::new(data).err()
    );
}

#[test]
fn can_not_parse_a_frame_if_frame_format_is_not_recognized() {
    let data: &[u8] = &[8];
    assert_eq!(
        Some(Error::InvalidFrameFormat(8)),
        FrameParser::new(data).err()
    );
}

#[test]
fn can_not_parse_a_frame_if_there_is_not_enough_data_for_field_count() {
    let data: &[u8] = &[1, 0, 0, 0]; // need four bytes for a field count.
    assert_eq!(
        Some(Error::IncompleteFrameFieldCount),
        FrameParser::new(data).err()
    );
}

#[test]
fn can_not_parse_a_frame_if_there_is_not_enough_data_for_field_tag_and_length() {
    let data: &[u8] = &[
        1, // frame format
        0, 0, 0, 1, // field count = 1
        0, 1, // tag = 1
        0, 0, 0, // incomplete field length
    ];
    assert_eq!(
        Some(Error::IncompleteFieldTagOrLength),
        FrameParser::new(data).err()
    );
}

#[test]
fn can_not_parse_a_frame_if_there_is_not_enough_data_for_a_field_value() {
    let data: &[u8] = &[
        1, // frame format
        0, 0, 0, 1, // field count = 1
        0, 1, // tag = 1
        0, 0, 0, 4, // field length = 4
        1, 2, 3, // incomplete value
    ];
    assert_eq!(
        Some(Error::IncompleteFieldValue(4, 3)),
        FrameParser::new(data).err()
    );
}

#[test]
fn can_not_parse_a_frame_if_there_is_excess_data() {
    let data: &[u8] = &[
        1, // frame format
        0, 0, 0, 1, // field count = 1
        0, 1, // tag = 1
        0, 0, 0, 4, // field length = 4
        1, 2, 3, 4, // value
        5, // excess data
    ];
    assert_eq!(Some(Error::UnexpectedData), FrameParser::new(data).err());
}

#[test]
fn can_read_data_from_frame() {
    let data: &[u8] = &[
        1, // frame format
        0, 0, 0, 1, // field count = 1
        0, 1, // tag = 1
        0, 0, 0, 4, // field length = 4
        1, 2, 3, 4, //
    ];
    let frame = FrameParser::new(data).unwrap();
    assert_eq!(&[1, 2, 3, 4], frame.get_data(1).unwrap().as_slice());
}

#[test]
fn can_read_datas_from_a_frame() {
    let data: &[u8] = &[
        1, // frame format
        0, 0, 0, 3, // field count = 3
        0, 1, // tag = 1
        0, 0, 0, 2, // field length = 2
        10, 11, //
        0, 2, // tag = 2, will be skipped
        0, 0, 0, 2, // field length = 2
        20, 22, //
        0, 1, // tag = 1
        0, 0, 0, 2, // field length = 2
        30, 33, //
    ];
    let frame = FrameParser::new(data).unwrap();
    let expected: Vec<Vec<u8>> = vec![vec![10, 11], vec![30, 33]];
    let actual: Vec<Vec<u8>> = frame.get_datas(1);
    assert_eq!(expected, actual);
}

#[test]
fn can_attempt_to_read_data_from_a_frame_if_it_is_not_there() {
    let data: &[u8] = &[
        1, // frame format
        0, 0, 0, 1, // field count = 1
        0, 1, // tag = 1
        0, 0, 0, 4, // field length = 4
        1, 2, 3, 4, //
    ];
    let frame = FrameParser::new(data).unwrap();
    assert_eq!(None, frame.get_data(3));
}

#[test]
fn can_not_decode_u8_with_zero_bytes() {
    assert_eq!(Some(Error::IncompatibleFieldLength(0)), decode_u8(&[]).err());
}

#[test]
fn can_decode_compatible_values_into_u8() {
    assert_eq!(Ok(8), decode_u8(&[8]));
    assert_eq!(Ok(8), decode_u8(&[0, 8]));
    assert_eq!(Ok(8), decode_u8(&[0, 0, 0, 8]));
    assert_eq!(Ok(8), decode_u8(&[0, 0, 0, 0, 0, 0, 0, 8]));
}

#[test]
fn can_not_decode_incompatible_values_into_u8() {
    assert_eq!(Some(Error::IncompatibleFieldValue), decode_u8(&[1, 8]).err());
    assert_eq!(
        Some(Error::IncompatibleFieldValue),
        decode_u8(&[0, 0, 1, 8]).err()
    );
    assert_eq!(
        Some(Error::IncompatibleFieldValue),
        decode_u8(&[0, 0, 0, 0, 0, 0, 1, 8]).err()
    );
}

#[test]
fn can_read_u8_from_a_frame() {
    let data = Vec::new();
    let mut bld = FrameBuilder::new(data);
    bld.add_u8(100, 250);
    bld.add_u16(200, 251);
    bld.add_u32(300, 252);
    bld.add_u64(400, 253);
    let data = bld.close();

    let frame = FrameParser::new(&data).unwrap();
    assert_eq!(Some(250), frame.get_u8(100).unwrap());
    assert_eq!(Some(251), frame.get_u8(200).unwrap());
    assert_eq!(Some(252), frame.get_u8(300).unwrap());
    assert_eq!(Some(253), frame.get_u8(400).unwrap());
}

#[test]
fn can_read_u8s_from_a_frame() {
    let data: &[u8] = &[
        1, // frame format
        0, 0, 0, 3, // field count = 3
        0, 1, // tag = 1
        0, 0, 0, 1, // field length = 1
        10, //
        0, 2, // tag = 2, will be skipped
        0, 0, 0, 1, // field length = 1
        20, //
        0, 1, // tag = 1
        0, 0, 0, 1, // field length = 1
        30, //
    ];
    let frame = FrameParser::new(data).unwrap();
    let expected: Vec<Result<u8, Error>> = vec![Ok(10), Ok(30)];
    let actual: Vec<Result<u8, Error>> = frame.get_u8s(1);
    assert_eq!(expected, actual);
}

#[test]
fn can_not_decode_u16_with_zero_bytes() {
    assert_eq!(
        Some(Error::IncompatibleFieldLength(0)),
        decode_u16(&[]).err()
    );
}

#[test]
fn can_decode_compatible_values_into_u16() {
    assert_eq!(Ok(8), decode_u16(&[8]));
    assert_eq!(Ok(3080), decode_u16(&[12, 8]));
    assert_eq!(Ok(3080), decode_u16(&[0, 0, 12, 8]));
    assert_eq!(Ok(3080), decode_u16(&[0, 0, 0, 0, 0, 0, 12, 8]));
}

#[test]
fn can_not_decode_incompatible_values_into_u16() {
    assert_eq!(
        Some(Error::IncompatibleFieldValue),
        decode_u16(&[0, 1, 255, 255]).err()
    );
    assert_eq!(
        Some(Error::IncompatibleFieldValue),
        decode_u16(&[0, 0, 0, 0, 0, 1, 255, 255]).err()
    );
}

#[test]
fn can_read_u16_from_a_frame() {
    let data = Vec::new();
    let mut bld = FrameBuilder::new(data);
    bld.add_u8(100, 90);
    bld.add_u16(200, 1025);
    bld.add_u32(300, 1026);
    bld.add_u64(400, 1027);
    let data = bld.close();

    let frame = FrameParser::new(&data).unwrap();
    assert_eq!(Some(90), frame.get_u16(100).unwrap());
    assert_eq!(Some(1025), frame.get_u16(200).unwrap());
    assert_eq!(Some(1026), frame.get_u16(300).unwrap());
    assert_eq!(Some(1027), frame.get_u16(400).unwrap());
}

#[test]
fn can_read_u16s_from_a_frame() {
    let data: &[u8] = &[
        1, // frame format
        0, 0, 0, 3, // field count = 3
        0, 1, // tag = 1
        0, 0, 0, 1, // field length = 1
        10, //
        0, 2, // tag = 2, will be skipped
        0, 0, 0, 1, // field length = 1
        20, //
        0, 1, // tag = 1
        0, 0, 0, 1, // field length = 1
        30, //
    ];
    let frame = FrameParser::new(data).unwrap();
    let expected: Vec<Result<u16, Error>> = vec![Ok(10), Ok(30)];
    let actual: Vec<Result<u16, Error>> = frame.get_u16s(1);
    assert_eq!(expected, actual);
}

#[test]
fn can_not_decode_u32_with_zero_bytes() {
    assert_eq!(
        Some(Error::IncompatibleFieldLength(0)),
        decode_u32(&[]).err()
    );
}

#[test]
fn can_decode_compatible_values_into_u32() {
    assert_eq!(Ok(8), decode_u32(&[8]));
    assert_eq!(Ok(3080), decode_u32(&[12, 8]));
    assert_eq!(Ok(1744964616), decode_u32(&[104, 2, 12, 8]));
    assert_eq!(Ok(1744964616), decode_u32(&[0, 0, 0, 0, 104, 2, 12, 8]));
}

#[test]
fn can_not_decode_incompatible_values_into_u32() {
    assert_eq!(
        Some(Error::IncompatibleFieldValue),
        decode_u32(&[0, 0, 0, 1, 255, 255, 255, 255]).err()
    );
}

#[test]
fn can_read_u32_from_a_frame() {
    let data = Vec::new();
    let mut bld = FrameBuilder::new(data);
    bld.add_u8(100, 90);
    bld.add_u16(200, 1025);
    bld.add_u32(300, 1744964616);
    bld.add_u64(400, 1744964617);
    let data = bld.close();

    let frame = FrameParser::new(&data).unwrap();
    assert_eq!(Some(90), frame.get_u32(100).unwrap());
    assert_eq!(Some(1025), frame.get_u32(200).unwrap());
    assert_eq!(Some(1744964616), frame.get_u32(300).unwrap());
    assert_eq!(Some(1744964617), frame.get_u32(400).unwrap());
}

#[test]
fn can_read_u32s_from_a_frame() {
    let data: &[u8] = &[
        1, // frame format
        0, 0, 0, 3, // field count = 3
        0, 1, // tag = 1
        0, 0, 0, 1, // field length = 1
        10, //
        0, 2, // tag = 2, will be skipped
        0, 0, 0, 1, // field length = 1
        20, //
        0, 1, // tag = 1
        0, 0, 0, 1, // field length = 1
        30, //
    ];
    let frame = FrameParser::new(data).unwrap();
    let expected: Vec<Result<u32, Error>> = vec![Ok(10), Ok(30)];
    let actual: Vec<Result<u32, Error>> = frame.get_u32s(1);
    assert_eq!(expected, actual);
}

#[test]
fn can_not_decode_u64_with_zero_bytes() {
    assert_eq!(
        Some(Error::IncompatibleFieldLength(0)),
        decode_u64(&[]).err()
    );
}

#[test]
fn can_decode_compatible_values_into_u64() {
    assert_eq!(Ok(8), decode_u64(&[8]));
    assert_eq!(Ok(3080), decode_u64(&[12, 8]));
    assert_eq!(Ok(1744964616), decode_u64(&[104, 2, 12, 8]));
    assert_eq!(
        Ok(150626523450313736),
        decode_u64(&[2, 23, 34, 6, 104, 2, 12, 8])
    );
}

#[test]
fn can_read_u64_from_a_frame() {
    let data = Vec::new();
    let mut bld = FrameBuilder::new(data);
    bld.add_u8(100, 90);
    bld.add_u16(200, 1025);
    bld.add_u32(300, 1744964616);
    bld.add_u64(400, 150626523450313736);
    let data = bld.close();

    let frame = FrameParser::new(&data).unwrap();
    assert_eq!(Some(90), frame.get_u64(100).unwrap());
    assert_eq!(Some(1025), frame.get_u64(200).unwrap());
    assert_eq!(Some(1744964616), frame.get_u64(300).unwrap());
    assert_eq!(Some(150626523450313736), frame.get_u64(400).unwrap());
}

#[test]
fn can_read_u64s_from_a_frame() {
    let data: &[u8] = &[
        1, // frame format
        0, 0, 0, 3, // field count = 3
        0, 1, // tag = 1
        0, 0, 0, 1, // field length = 1
        10, //
        0, 2, // tag = 2, will be skipped
        0, 0, 0, 1, // field length = 1
        20, //
        0, 1, // tag = 1
        0, 0, 0, 1, // field length = 1
        30, //
    ];
    let frame = FrameParser::new(data).unwrap();
    let expected: Vec<Result<u64, Error>> = vec![Ok(10), Ok(30)];
    let actual: Vec<Result<u64, Error>> = frame.get_u64s(1);
    assert_eq!(expected, actual);
}

#[test]
fn can_not_decode_bool_with_zero_bytes() {
    assert_eq!(
        Some(Error::IncompatibleFieldLength(0)),
        decode_bool(&[]).err()
    );
}

#[test]
fn can_decode_compatible_values_into_bool() {
    assert_eq!(Ok(false), decode_bool(&[0x00]));
    assert_eq!(Ok(true), decode_bool(&[0xFF]));
}

#[test]
fn can_not_decode_incompatible_values_into_bool() {
    assert_eq!(
        Some(Error::IncompatibleFieldValue),
        decode_bool(&[0x01]).err()
    );
}

#[test]
fn can_read_bool_from_a_frame() {
    let data = Vec::new();
    let mut bld = FrameBuilder::new(data);
    bld.add_bool(100, true);
    bld.add_bool(200, false);
    let data = bld.close();

    let frame = FrameParser::new(&data).unwrap();
    assert_eq!(Some(true), frame.get_bool(100).unwrap());
    assert_eq!(Some(false), frame.get_bool(200).unwrap());
}

#[test]
fn can_read_bools_from_a_frame() {
    let data = Vec::new();
    let mut bld = FrameBuilder::new(data);
    bld.add_bool(1, false);
    bld.add_bool(2, false); // will be ignored
    bld.add_bool(1, true);
    let data = bld.close();

    let frame = FrameParser::new(&data).unwrap();
    let expected: Vec<Result<bool, Error>> = vec![Ok(false), Ok(true)];
    let actual: Vec<Result<bool, Error>> = frame.get_bools(1);
    assert_eq!(expected, actual);
}

#[test]
fn can_read_str_from_a_frame() {
    let test_str = "short test string";
    let data = Vec::new();
    let mut bld = FrameBuilder::new(data);
    bld.add_str(100, test_str);
    let data = bld.close();

    let frame = FrameParser::new(&data).unwrap();
    assert_eq!(Some(test_str), frame.get_str(100).unwrap());
}

#[test]
fn can_read_strs_from_a_frame() {
    let data = Vec::new();
    let mut bld = FrameBuilder::new(data);
    bld.add_str(1, "hello");
    bld.add_str(2, "welcome"); // will be ignored
    bld.add_str(1, "goodbye");
    let data = bld.close();

    let frame = FrameParser::new(&data).unwrap();
    let expected: Vec<Result<&str, Error>> = vec![Ok("hello"), Ok("goodbye")];
    let actual: Vec<Result<&str, Error>> = frame.get_strs(1);
    assert_eq!(expected, actual);
}

#[test]
fn can_read_child_frame() {
    let data = Vec::new();
    let mut bld = FrameBuilder::new(data);
    bld.add_u8(100, 1);
    let mut bld2 = bld.add_child(200);
    bld2.add_u8(300, 3);
    bld.end_child(bld2);
    let data = bld.close();

    let frame = FrameParser::new(&data).unwrap();
    let child_frame = frame.get_child(200).unwrap().unwrap();
    assert_eq!(Some(3), child_frame.get_u8(300).unwrap());
}
