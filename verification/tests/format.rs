use memkv::bytes::{move_down, write_at, zero_fill};
use memkv::format::{u64_from_be_bytes, u64_to_be_bytes};
use memkv::gaps::{queue_gap, shift_gaps};
use memkv::{
    InvalidDataTypeError, KeyDoesNotExistError, MemKvError, MemKvPage, MemKvPageEntry,
    MemKvPageEntryHeader, MemKvPageGap, Value, ValueDataType, HEADER_SIZE, KV_PAGE_SIZE,
};
use memmap::MmapMut;

fn blank() -> MmapMut {
    MmapMut::map_anon(KV_PAGE_SIZE as usize).unwrap()
}

fn page_over(bytes: &[u8]) -> MemKvPage {
    let mut mmap = blank();
    mmap[0..bytes.len()].copy_from_slice(bytes);
    MemKvPage::new(mmap).unwrap()
}

#[test]
fn constants_of_the_format() {
    assert_eq!(KV_PAGE_SIZE, 4 * 1024 * 1024);
    assert_eq!(HEADER_SIZE, 18);
}

#[test]
fn big_endian_bytes_of_an_integer() {
    assert_eq!(u64_to_be_bytes(0x0102030405060708), [1, 2, 3, 4, 5, 6, 7, 8]);
    assert_eq!(u64_to_be_bytes(123), [0, 0, 0, 0, 0, 0, 0, 123]);
    assert_eq!(u64_to_be_bytes(0), [0; 8]);
    assert_eq!(u64_to_be_bytes(u64::MAX), [255; 8]);
    assert_eq!(u64_to_be_bytes(256), 256u64.to_be_bytes());
}

#[test]
fn integer_of_big_endian_bytes() {
    assert_eq!(u64_from_be_bytes(&[1, 2, 3, 4, 5, 6, 7, 8]), 0x0102030405060708);
    assert_eq!(u64_from_be_bytes(&[0, 0, 0, 0, 0, 0, 1, 0]), 256);
    assert_eq!(u64_from_be_bytes(&[255; 8]), u64::MAX);
    for x in [0u64, 1, 255, 256, 65535, 1 << 32, (1 << 63) + 12345, u64::MAX] {
        assert_eq!(u64_from_be_bytes(&u64_to_be_bytes(x)), x);
    }
}

#[test]
fn type_bytes() {
    assert_eq!(ValueDataType::String.to_byte(), 1);
    assert_eq!(ValueDataType::Integer.to_byte(), 2);
    assert_eq!(ValueDataType::Blob.to_byte(), 3);
    assert_eq!(ValueDataType::try_from(1u8), Ok(ValueDataType::String));
    assert_eq!(ValueDataType::try_from(2u8), Ok(ValueDataType::Integer));
    assert_eq!(ValueDataType::try_from(3u8), Ok(ValueDataType::Blob));
    assert_eq!(ValueDataType::try_from(0u8), Err(InvalidDataTypeError));
    assert_eq!(ValueDataType::try_from(4u8), Err(InvalidDataTypeError));
    assert_eq!(ValueDataType::try_from(255u8), Err(InvalidDataTypeError));
    assert_eq!(format!("{:?}", ValueDataType::String), "String");
    assert_eq!(format!("{:?}", ValueDataType::Integer), "Integer");
    assert_eq!(format!("{:?}", ValueDataType::Blob), "Blob");
}

#[test]
fn payload_length_and_kind_of_a_value() {
    let text = Value::String(String::from("value"));
    assert_eq!(text.get_bytes_length(), 5);
    assert_eq!(text.get_data_type(), ValueDataType::String);
    let wide = Value::String(String::from("\u{e9}\u{1f980}"));
    assert_eq!(wide.get_bytes_length(), 6);
    let number = Value::Integer(123);
    assert_eq!(number.get_bytes_length(), 8);
    assert_eq!(number.get_data_type(), ValueDataType::Integer);
    let blob = Value::Blob(vec![1, 2, 3]);
    assert_eq!(blob.get_bytes_length(), 3);
    assert_eq!(blob.get_data_type(), ValueDataType::Blob);
    assert_eq!(Value::Blob(vec![]).get_bytes_length(), 0);
}

#[test]
fn header_of_a_new_entry() {
    let header = MemKvPageEntryHeader::new(29, "peter", &[0; 8], ValueDataType::Integer);
    assert_eq!(
        header,
        MemKvPageEntryHeader {
            data_type: ValueDataType::Integer,
            flags: 0,
            key_size: 5,
            value_size: 8,
            offset: 29,
        }
    );
    assert_eq!(header.get_absolute_data_offset(), 47);
    assert_eq!(header.get_entry_size(), 31);
    let albert = MemKvPageEntryHeader::new(0, "albert", b"value", ValueDataType::String);
    assert_eq!(albert.get_entry_size(), 29);
    assert_eq!(albert.get_absolute_data_offset(), 18);
    let wide = MemKvPageEntryHeader::new(0, "\u{e9}", b"", ValueDataType::Blob);
    assert_eq!(wide.key_size, 2);
    assert_eq!(wide.get_entry_size(), 20);
}

#[test]
fn a_new_entry_carries_the_encoded_value() {
    let entry = MemKvPageEntry::new(
        60,
        "tom",
        Value::String(String::from("my third value")),
        ValueDataType::String,
    );
    assert_eq!(entry.key, "tom");
    assert_eq!(entry.value, Value::String(String::from("my third value")));
    assert_eq!(entry.value_data, b"my third value".to_vec());
    assert_eq!(entry.header.offset, 60);
    assert_eq!(entry.header.key_size, 3);
    assert_eq!(entry.header.value_size, 14);
    assert_eq!(entry.header.flags, 0);
    assert_eq!(entry.header.get_entry_size(), 35);

    let number = MemKvPageEntry::new(0, "n", Value::Integer(258), ValueDataType::Integer);
    assert_eq!(number.value_data, vec![0, 0, 0, 0, 0, 0, 1, 2]);
    assert_eq!(number.header.value_size, 8);

    let blob = MemKvPageEntry::new(0, "b", Value::Blob(vec![9, 8, 7]), ValueDataType::Blob);
    assert_eq!(blob.value_data, vec![9, 8, 7]);
    assert_eq!(blob.header.data_type, ValueDataType::Blob);
}

#[test]
fn gap_of_a_header() {
    let header = MemKvPageEntryHeader {
        data_type: ValueDataType::Blob,
        flags: 1,
        key_size: 3,
        value_size: 41,
        offset: 95,
    };
    assert_eq!(MemKvPageGap::new(header), MemKvPageGap { offset: 95, length: 62 });
}

#[test]
fn an_entry_as_it_lies_in_the_page() {
    let mut page = MemKvPage::new(blank()).unwrap();
    page.insert("peter", Value::Integer(123)).unwrap();
    page.insert("tom", Value::String(String::from("hi"))).unwrap();
    page.insert("dan", Value::Blob(vec![0xde, 0xad])).unwrap();
    let bytes = page.as_bytes();
    let peter: Vec<u8> = vec![
        2, 0, 0, 0, 0, 0, 0, 0, 0, 5, 0, 0, 0, 0, 0, 0, 0, 8, b'p', b'e', b't', b'e', b'r', 0, 0, 0,
        0, 0, 0, 0, 123,
    ];
    assert_eq!(bytes[0..31], peter[..]);
    let tom: Vec<u8> = vec![
        1, 0, 0, 0, 0, 0, 0, 0, 0, 3, 0, 0, 0, 0, 0, 0, 0, 2, b't', b'o', b'm', b'h', b'i',
    ];
    assert_eq!(bytes[31..54], tom[..]);
    let dan: Vec<u8> = vec![
        3, 0, 0, 0, 0, 0, 0, 0, 0, 3, 0, 0, 0, 0, 0, 0, 0, 2, b'd', b'a', b'n', 0xde, 0xad,
    ];
    assert_eq!(bytes[54..77], dan[..]);
    assert_eq!(bytes[77], 0);
    assert_eq!(page.offset(), 77);
}

#[test]
fn reading_the_parts_of_an_entry() {
    let mut page = MemKvPage::new(blank()).unwrap();
    page.insert("albert", Value::String(String::from("value"))).unwrap();
    page.insert("peter", Value::Integer(123)).unwrap();

    let header = page.read_header_from_offset(29).unwrap();
    assert_eq!(
        header,
        MemKvPageEntryHeader {
            data_type: ValueDataType::Integer,
            flags: 0,
            key_size: 5,
            value_size: 8,
            offset: 29,
        }
    );
    assert_eq!(page.read_header("peter"), Ok(header));
    assert_eq!(page.read_key(&header), Ok(String::from("peter")));
    assert_eq!(
        page.read_value(&header),
        Ok((Value::Integer(123), vec![0, 0, 0, 0, 0, 0, 0, 123]))
    );

    let entry = page.read_entry("albert").unwrap();
    assert_eq!(entry.key, "albert");
    assert_eq!(entry.value, Value::String(String::from("value")));
    assert_eq!(entry.value_data, b"value".to_vec());
    assert_eq!(entry.header.offset, 0);
    assert_eq!(entry.header.get_entry_size(), 29);

    assert_eq!(
        page.read_header("nobody"),
        Err(MemKvError::KeyDoesNotExist(KeyDoesNotExistError))
    );
    assert_eq!(
        page.read_entry("nobody").err(),
        Some(MemKvError::KeyDoesNotExist(KeyDoesNotExistError))
    );
}

#[test]
fn no_header_is_read_where_none_lies() {
    let mut page = MemKvPage::new(blank()).unwrap();
    page.insert("albert", Value::String(String::from("value"))).unwrap();
    // Beyond the cursor the type byte is zero.
    assert_eq!(page.read_header_from_offset(29), Err(InvalidDataTypeError));
    // Fewer than eighteen bytes are left.
    assert_eq!(page.read_header_from_offset(KV_PAGE_SIZE - 17), Err(InvalidDataTypeError));
    assert_eq!(page.read_header_from_offset(KV_PAGE_SIZE), Err(InvalidDataTypeError));
    assert_eq!(page.read_header_from_offset(u64::MAX), Err(InvalidDataTypeError));
    assert!(page.read_header_from_offset(0).is_ok());
}

#[test]
fn a_header_in_the_last_eighteen_bytes_is_read() {
    let mut mmap = blank();
    let at = KV_PAGE_SIZE as usize - 18;
    mmap[at] = 3;
    mmap[at + 1] = 1;
    mmap[at + 9] = 7;
    let page = MemKvPage::new(mmap).unwrap();
    let header = page.read_header_from_offset(KV_PAGE_SIZE - 18).unwrap();
    assert_eq!(header.data_type, ValueDataType::Blob);
    assert_eq!(header.flags, 1);
    assert_eq!(header.key_size, 7);
    assert_eq!(header.value_size, 0);
    // Its key would run past the end of the page.
    assert_eq!(page.read_key(&header), Err(InvalidDataTypeError));
    assert_eq!(page.read_value(&header), Err(InvalidDataTypeError));
}

#[test]
fn an_unknown_type_byte_is_refused() {
    let mut image = vec![0u8; 18];
    image[0] = 4;
    let page = page_over(&image);
    assert_eq!(page.read_header_from_offset(0), Err(InvalidDataTypeError));
}

#[test]
fn a_key_that_is_not_utf8_is_refused() {
    let mut image = vec![1u8, 0];
    image.extend_from_slice(&2u64.to_be_bytes());
    image.extend_from_slice(&1u64.to_be_bytes());
    image.extend_from_slice(&[0xff, 0xfe, b'v']);
    let page = page_over(&image);
    let header = page.read_header_from_offset(0).unwrap();
    assert_eq!(header.key_size, 2);
    assert_eq!(page.read_key(&header), Err(InvalidDataTypeError));
    assert_eq!(
        page.read_value(&header),
        Ok((Value::String(String::from("v")), vec![b'v']))
    );
}

#[test]
fn a_payload_that_does_not_fit_its_kind_is_refused() {
    // Text that is not UTF-8.
    let mut image = vec![1u8, 0];
    image.extend_from_slice(&1u64.to_be_bytes());
    image.extend_from_slice(&2u64.to_be_bytes());
    image.extend_from_slice(&[b'k', 0xc3, 0x28]);
    let page = page_over(&image);
    let header = page.read_header_from_offset(0).unwrap();
    assert_eq!(page.read_key(&header), Ok(String::from("k")));
    assert_eq!(page.read_value(&header), Err(InvalidDataTypeError));

    // An integer of seven bytes.
    let mut image = vec![2u8, 0];
    image.extend_from_slice(&1u64.to_be_bytes());
    image.extend_from_slice(&7u64.to_be_bytes());
    image.extend_from_slice(&[b'k', 0, 0, 0, 0, 0, 0, 5]);
    let page = page_over(&image);
    let header = page.read_header_from_offset(0).unwrap();
    assert_eq!(page.read_value(&header), Err(InvalidDataTypeError));

    // The same bytes as a blob are fine.
    let mut image = vec![3u8, 0];
    image.extend_from_slice(&1u64.to_be_bytes());
    image.extend_from_slice(&7u64.to_be_bytes());
    image.extend_from_slice(&[b'k', 0, 0, 0, 0, 0, 0, 5]);
    let page = page_over(&image);
    let header = page.read_header_from_offset(0).unwrap();
    assert_eq!(
        page.read_value(&header),
        Ok((Value::Blob(vec![0, 0, 0, 0, 0, 0, 5]), vec![0, 0, 0, 0, 0, 0, 5]))
    );
}

#[test]
fn sizes_that_overrun_the_page_are_refused() {
    let mut image = vec![3u8, 0];
    image.extend_from_slice(&u64::MAX.to_be_bytes());
    image.extend_from_slice(&u64::MAX.to_be_bytes());
    let page = page_over(&image);
    let header = page.read_header_from_offset(0).unwrap();
    assert_eq!(header.key_size, u64::MAX);
    assert_eq!(page.read_key(&header), Err(InvalidDataTypeError));
    assert_eq!(page.read_value(&header), Err(InvalidDataTypeError));
}

#[test]
fn writing_bytes_into_a_slice() {
    let mut page = vec![1u8, 2, 3, 4, 5, 6];
    assert_eq!(write_at(&mut page, 2, &[9, 8]), 4);
    assert_eq!(page, vec![1, 2, 9, 8, 5, 6]);
    assert_eq!(write_at(&mut page, 6, &[]), 6);
    assert_eq!(page, vec![1, 2, 9, 8, 5, 6]);
    assert_eq!(write_at(&mut page, 0, &[7, 7, 7, 7, 7, 7]), 6);
    assert_eq!(page, vec![7; 6]);
}

#[test]
fn moving_bytes_down_over_a_gap() {
    let mut page = vec![0u8, 1, 2, 3, 4, 5, 6, 7];
    move_down(&mut page, 1, 3, 7);
    assert_eq!(page, vec![0, 3, 4, 5, 6, 5, 6, 7]);
    let mut page = vec![0u8, 1, 2, 3];
    move_down(&mut page, 2, 2, 4);
    assert_eq!(page, vec![0, 1, 2, 3]);
    let mut page = vec![0u8, 1, 2, 3];
    move_down(&mut page, 0, 4, 4);
    assert_eq!(page, vec![0, 1, 2, 3]);
}

#[test]
fn clearing_bytes() {
    let mut page = vec![1u8, 2, 3, 4, 5];
    zero_fill(&mut page, 1, 3);
    assert_eq!(page, vec![1, 0, 0, 4, 5]);
    zero_fill(&mut page, 5, 5);
    assert_eq!(page, vec![1, 0, 0, 4, 5]);
    zero_fill(&mut page, 0, 5);
    assert_eq!(page, vec![0; 5]);
}

#[test]
fn queueing_a_gap_where_its_offset_belongs() {
    let mut gaps: Vec<MemKvPageGap> = Vec::new();
    assert_eq!(queue_gap(&mut gaps, MemKvPageGap { offset: 50, length: 20 }), 0);
    assert_eq!(queue_gap(&mut gaps, MemKvPageGap { offset: 10, length: 30 }), 1);
    assert_eq!(queue_gap(&mut gaps, MemKvPageGap { offset: 90, length: 18 }), 0);
    assert_eq!(queue_gap(&mut gaps, MemKvPageGap { offset: 70, length: 19 }), 1);
    assert_eq!(
        gaps,
        vec![
            MemKvPageGap { offset: 90, length: 18 },
            MemKvPageGap { offset: 70, length: 19 },
            MemKvPageGap { offset: 50, length: 20 },
            MemKvPageGap { offset: 10, length: 30 },
        ]
    );
    assert_eq!(gaps.pop(), Some(MemKvPageGap { offset: 10, length: 30 }));
}

#[test]
fn lowering_the_offsets_of_gaps() {
    let mut gaps = vec![
        MemKvPageGap { offset: 90, length: 18 },
        MemKvPageGap { offset: 50, length: 20 },
    ];
    shift_gaps(&mut gaps, 30);
    assert_eq!(
        gaps,
        vec![
            MemKvPageGap { offset: 60, length: 18 },
            MemKvPageGap { offset: 20, length: 20 },
        ]
    );
    let mut none: Vec<MemKvPageGap> = Vec::new();
    shift_gaps(&mut none, 5);
    assert_eq!(none, vec![]);
}
