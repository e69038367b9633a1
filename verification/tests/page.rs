use memkv::{
    KeyAlreadyExistsError, KeyDoesNotExistError, MemKvError, MemKvPage, MemKvPageGap,
    MemmapCreationFailureError, NoSpaceLeftError, Value, KV_PAGE_SIZE,
};
use memmap::MmapMut;

fn fresh_page() -> MemKvPage {
    let mmap = MmapMut::map_anon(KV_PAGE_SIZE as usize).unwrap();
    MemKvPage::new(mmap).unwrap()
}

fn text(s: &str) -> Value {
    Value::String(String::from(s))
}

fn person_blob() -> Vec<u8> {
    let mut person = serde_json::Map::new();
    person.insert(
        String::from("name"),
        serde_json::Value::String(String::from("peter pan")),
    );
    person.insert(String::from("age"), serde_json::Value::from(20u8));
    person.insert(String::from("phones"), serde_json::Value::Array(vec![]));
    serde_json::to_vec(&serde_json::Value::Object(person)).unwrap()
}

fn filled_page() -> MemKvPage {
    let mut page = fresh_page();
    page.insert("albert", text("value")).unwrap();
    page.insert("peter", Value::Integer(123)).unwrap();
    page.insert("tom", text("my third value")).unwrap();
    page.insert("dan", Value::Blob(person_blob())).unwrap();
    page
}

#[test]
fn test_put_and_get() {
    let mut kvmap = fresh_page();
    kvmap.insert("albert", text("value")).unwrap();
    kvmap.insert("peter", Value::Integer(123)).unwrap();
    kvmap.insert("tom", text("my third value")).unwrap();
    let person_a = person_blob();
    kvmap.insert("dan", Value::Blob(person_a.clone())).unwrap();

    if let Value::String(value1) = kvmap.get("albert").unwrap() {
        assert_eq!(value1, "value");
    } else {
        panic!();
    }
    if let Value::Integer(value2) = kvmap.get("peter").unwrap() {
        assert_eq!(value2, 123);
    } else {
        panic!();
    }
    if let Value::String(value3) = kvmap.get("tom").unwrap() {
        assert_eq!(value3, "my third value");
    } else {
        panic!();
    }
    if let Value::Blob(value4) = kvmap.get("dan").unwrap() {
        let read_back: serde_json::Value = serde_json::from_slice(&value4).unwrap();
        assert_eq!(read_back["name"], "peter pan");
        assert_eq!(read_back["age"], 20);
        assert_eq!(value4, person_a);
    } else {
        panic!("test");
    }

    assert_eq!(kvmap.offset(), 157);
    assert_eq!(kvmap.offset_of("peter").unwrap(), 29);
    kvmap.delete("albert").unwrap();
    kvmap.delete("dan").unwrap();
    // The gap with the smallest offset goes first: the room of "albert".
    kvmap.defrag();
    assert_eq!(kvmap.offset_of("peter").unwrap(), 0);
    assert_eq!(kvmap.offset(), 128);
    // What is left is the room of "dan", which now ends at the cursor.
    kvmap.defrag();
    assert_eq!(kvmap.offset_of("peter").unwrap(), 0);
    assert_eq!(kvmap.offset(), 66);
    kvmap.defrag();
    assert_eq!(kvmap.offset(), 66);
}

#[test]
fn mixed_insert_offsets_with_a_33_byte_blob() {
    let mut page = fresh_page();
    page.insert("albert", text("value")).unwrap();
    assert_eq!(page.offset(), 29);
    page.insert("peter", Value::Integer(123)).unwrap();
    assert_eq!(page.offset(), 60);
    page.insert("tom", text("my third value")).unwrap();
    assert_eq!(page.offset(), 95);
    let blob: Vec<u8> = (0u8..33).collect();
    page.insert("dan", Value::Blob(blob.clone())).unwrap();
    assert_eq!(page.offset(), 149);
    assert_eq!(page.offset_of("albert"), Some(0));
    assert_eq!(page.offset_of("peter"), Some(29));
    assert_eq!(page.offset_of("tom"), Some(60));
    assert_eq!(page.offset_of("dan"), Some(95));
    assert_eq!(page.get("albert"), Ok(text("value")));
    assert_eq!(page.get("peter"), Ok(Value::Integer(123)));
    assert_eq!(page.get("tom"), Ok(text("my third value")));
    assert_eq!(page.get("dan"), Ok(Value::Blob(blob)));
}

#[test]
fn delete_then_first_defrag_moves_the_tail_down() {
    let mut page = filled_page();
    let before: Vec<u8> = page.as_bytes()[0..157].to_vec();
    page.delete("albert").unwrap();
    page.delete("dan").unwrap();
    assert_eq!(
        page.gap_queue(),
        vec![
            MemKvPageGap { offset: 95, length: 62 },
            MemKvPageGap { offset: 0, length: 29 },
        ]
    );
    page.defrag();
    assert_eq!(page.offset(), 128);
    assert_eq!(page.offset_of("peter"), Some(0));
    assert_eq!(page.offset_of("tom"), Some(31));
    assert_eq!(page.offset_of("albert"), None);
    assert_eq!(page.offset_of("dan"), None);
    // The tombstone of "dan" moved down with the rest, and so did its gap.
    assert_eq!(page.gap_queue(), vec![MemKvPageGap { offset: 66, length: 62 }]);
    let bytes = page.as_bytes();
    assert_eq!(bytes[0..66], before[29..95]);
    assert_eq!(bytes[66], 3);
    assert_eq!(bytes[67], 1);
    assert_eq!(bytes[68..128], before[97..157]);
    assert!(bytes[128..157].iter().all(|b| *b == 0));
    assert_eq!(page.get("peter"), Ok(Value::Integer(123)));
    assert_eq!(page.get("tom"), Ok(text("my third value")));
}

#[test]
fn second_defrag_takes_the_gap_at_the_cursor() {
    let mut page = filled_page();
    page.delete("albert").unwrap();
    page.delete("dan").unwrap();
    page.defrag();
    let before: Vec<u8> = page.as_bytes()[0..157].to_vec();
    page.defrag();
    assert_eq!(page.offset(), 66);
    assert_eq!(page.gap_queue(), vec![]);
    assert_eq!(page.offset_of("peter"), Some(0));
    assert_eq!(page.offset_of("tom"), Some(31));
    // Nothing is moved or cleared when the gap ends at the cursor.
    assert_eq!(page.as_bytes()[0..157], before[..]);
    assert_eq!(page.get("peter"), Ok(Value::Integer(123)));
    assert_eq!(page.get("tom"), Ok(text("my third value")));
}

#[test]
fn defrag_with_no_gap_changes_nothing() {
    let mut page = filled_page();
    let before: Vec<u8> = page.as_bytes()[0..200].to_vec();
    page.defrag();
    assert_eq!(page.offset(), 157);
    assert_eq!(page.offset_of("peter"), Some(29));
    assert_eq!(page.as_bytes()[0..200], before[..]);
}

#[test]
fn capacity_rejection_by_value_length_alone() {
    let mut page = fresh_page();
    let too_long = vec![7u8; KV_PAGE_SIZE as usize + 1];
    assert_eq!(
        page.insert("big", Value::Blob(too_long)),
        Err(MemKvError::NoSpaceLeft(NoSpaceLeftError))
    );
    assert_eq!(page.offset(), 0);
    assert_eq!(page.offset_of("big"), None);

    page.insert("albert", text("value")).unwrap();
    let room = KV_PAGE_SIZE as usize - 29;
    assert_eq!(
        page.insert("big", Value::Blob(vec![7u8; room + 1])),
        Err(MemKvError::NoSpaceLeft(NoSpaceLeftError))
    );
    assert_eq!(page.offset(), 29);
}

#[test]
fn capacity_rejection_when_header_and_key_do_not_fit() {
    let mut page = fresh_page();
    // The value alone fits, the entry does not: 18 + 3 bytes are missing.
    let value = vec![1u8; KV_PAGE_SIZE as usize - 20];
    assert_eq!(
        page.insert("big", Value::Blob(value)),
        Err(MemKvError::NoSpaceLeft(NoSpaceLeftError))
    );
    assert_eq!(page.offset(), 0);
    assert_eq!(page.get("big"), Err(MemKvError::KeyDoesNotExist(KeyDoesNotExistError)));
}

#[test]
fn an_entry_may_fill_the_page_to_its_last_byte() {
    let mut page = fresh_page();
    let value = vec![9u8; KV_PAGE_SIZE as usize - 18 - 3];
    page.insert("big", Value::Blob(value.clone())).unwrap();
    assert_eq!(page.offset(), KV_PAGE_SIZE);
    assert_eq!(page.get("big"), Ok(Value::Blob(value)));
    assert_eq!(
        page.insert("x", Value::Blob(vec![])),
        Err(MemKvError::NoSpaceLeft(NoSpaceLeftError))
    );
    assert_eq!(
        page.insert("x", Value::Integer(1)),
        Err(MemKvError::NoSpaceLeft(NoSpaceLeftError))
    );
    page.delete("big").unwrap();
    page.defrag();
    assert_eq!(page.offset(), 0);
    page.insert("x", Value::Integer(1)).unwrap();
    assert_eq!(page.get("x"), Ok(Value::Integer(1)));
}

#[test]
fn oversized_value_under_a_present_key_is_no_space_left() {
    let mut page = fresh_page();
    page.insert("albert", text("value")).unwrap();
    assert_eq!(
        page.insert("albert", Value::Blob(vec![0u8; KV_PAGE_SIZE as usize])),
        Err(MemKvError::NoSpaceLeft(NoSpaceLeftError))
    );
    assert_eq!(
        page.insert("albert", Value::Blob(vec![0u8; KV_PAGE_SIZE as usize - 29])),
        Err(MemKvError::KeyAlreadyExists(KeyAlreadyExistsError))
    );
}

#[test]
fn clear_forgets_every_key() {
    let mut page = filled_page();
    page.delete("tom").unwrap();
    page.delete_page();
    assert_eq!(page.offset(), 0);
    assert_eq!(page.gap_queue(), vec![]);
    for key in ["albert", "peter", "tom", "dan"] {
        assert_eq!(page.get(key), Err(MemKvError::KeyDoesNotExist(KeyDoesNotExistError)));
        assert_eq!(page.offset_of(key), None);
    }
    // The page takes entries again as a new one would.
    page.insert("albert", text("value")).unwrap();
    page.insert("peter", Value::Integer(123)).unwrap();
    assert_eq!(page.offset(), 60);
    assert_eq!(page.offset_of("albert"), Some(0));
    assert_eq!(page.offset_of("peter"), Some(29));
    assert_eq!(page.get("albert"), Ok(text("value")));
    assert_eq!(page.get("peter"), Ok(Value::Integer(123)));
    page.defrag();
    assert_eq!(page.offset(), 60);
}

#[test]
fn clear_leaves_the_bytes_where_they_are() {
    let mut page = filled_page();
    let before: Vec<u8> = page.as_bytes()[0..157].to_vec();
    page.delete_page();
    assert_eq!(page.as_bytes()[0..157], before[..]);
}

#[test]
fn get_is_idempotent() {
    let page = filled_page();
    let image: Vec<u8> = page.as_bytes()[0..256].to_vec();
    let first = page.get("tom");
    let second = page.get("tom");
    assert_eq!(first, second);
    assert_eq!(first, Ok(text("my third value")));
    assert_eq!(page.offset(), 157);
    assert_eq!(page.as_bytes()[0..256], image[..]);
    assert_eq!(page.get("nobody"), page.get("nobody"));
}

#[test]
fn round_trip_of_every_kind_of_value() {
    let mut page = fresh_page();
    let values = vec![
        ("text", text("plain")),
        ("umlaut", text("gr\u{fc}\u{df}e \u{2014} \u{1f980}")),
        ("empty text", text("")),
        ("zero", Value::Integer(0)),
        ("max", Value::Integer(u64::MAX)),
        ("blob", Value::Blob(vec![0, 255, 1, 254])),
        ("empty blob", Value::Blob(vec![])),
        ("", text("under the empty key")),
        ("\u{e9}t\u{e9}", Value::Integer(7)),
    ];
    for (key, value) in values.iter() {
        page.insert(key, value.clone()).unwrap();
        assert_eq!(page.get(key), Ok(value.clone()));
    }
    for (key, value) in values.iter() {
        assert_eq!(page.get(key), Ok(value.clone()));
    }
}

#[test]
fn delete_removes() {
    let mut page = filled_page();
    assert_eq!(page.delete("peter"), Ok(()));
    assert_eq!(page.get("peter"), Err(MemKvError::KeyDoesNotExist(KeyDoesNotExistError)));
    assert_eq!(page.offset_of("peter"), None);
    assert_eq!(page.get("tom"), Ok(text("my third value")));
    assert_eq!(page.delete("peter"), Err(MemKvError::KeyDoesNotExist(KeyDoesNotExistError)));
    assert_eq!(page.delete("nobody"), Err(MemKvError::KeyDoesNotExist(KeyDoesNotExistError)));
}

#[test]
fn delete_sets_the_flag_byte_and_nothing_else() {
    let mut page = filled_page();
    let before: Vec<u8> = page.as_bytes()[0..157].to_vec();
    page.delete("peter").unwrap();
    let after = page.as_bytes();
    assert_eq!(before[30], 0);
    assert_eq!(after[30], 1);
    assert_eq!(after[0..30], before[0..30]);
    assert_eq!(after[31..157], before[31..157]);
    assert_eq!(page.offset(), 157);
    assert_eq!(page.gap_queue(), vec![MemKvPageGap { offset: 29, length: 31 }]);
}

#[test]
fn second_insert_under_a_key_is_refused() {
    let mut page = fresh_page();
    page.insert("albert", text("value")).unwrap();
    assert_eq!(
        page.insert("albert", text("other")),
        Err(MemKvError::KeyAlreadyExists(KeyAlreadyExistsError))
    );
    assert_eq!(page.get("albert"), Ok(text("value")));
    assert_eq!(page.offset(), 29);
    page.delete("albert").unwrap();
    page.insert("albert", text("other")).unwrap();
    assert_eq!(page.get("albert"), Ok(text("other")));
    assert_eq!(page.offset(), 58);
    assert_eq!(page.offset_of("albert"), Some(29));
}

#[test]
fn cursor_never_falls_outside_defrag_and_clear() {
    let mut page = fresh_page();
    let mut last = page.offset();
    for (i, key) in ["a", "b", "c", "d", "e"].iter().enumerate() {
        page.insert(key, Value::Integer(i as u64)).unwrap();
        assert!(page.offset() >= last);
        last = page.offset();
        let _ = page.get(key);
        assert_eq!(page.offset(), last);
        let _ = page.insert(key, Value::Integer(0));
        assert_eq!(page.offset(), last);
    }
    page.delete("b").unwrap();
    assert_eq!(page.offset(), last);
    let _ = page.delete("b");
    assert_eq!(page.offset(), last);
}

#[test]
fn sizes_of_all_entries_add_up_to_the_cursor() {
    let mut page = fresh_page();
    let mut sum: u64 = 0;
    let pairs = vec![
        ("albert", text("value")),
        ("peter", Value::Integer(123)),
        ("tom", text("my third value")),
        ("dan", Value::Blob(vec![1; 33])),
    ];
    for (key, value) in pairs {
        sum += 18 + key.len() as u64 + value.get_bytes_length() as u64;
        page.insert(key, value).unwrap();
        assert_eq!(page.offset(), sum);
    }
    page.delete("peter").unwrap();
    page.delete("dan").unwrap();
    assert_eq!(page.offset(), sum);
    let gaps: u64 = page.gap_queue().iter().map(|g| g.length).sum();
    assert_eq!(gaps, 31 + 54);
    assert_eq!(sum - gaps, 29 + 35);
}

#[test]
fn defrag_until_nothing_is_left_to_reclaim() {
    let mut page = fresh_page();
    let keys = ["k0", "k1", "k2", "k3", "k4", "k5", "k6", "k7"];
    for (i, key) in keys.iter().enumerate() {
        page.insert(key, text(&"x".repeat(i))).unwrap();
    }
    for key in ["k6", "k1", "k4", "k0"] {
        page.delete(key).unwrap();
    }
    let mut steps = 0;
    while !page.gap_queue().is_empty() {
        let gaps_before = page.gap_queue().len();
        page.defrag();
        assert_eq!(page.gap_queue().len(), gaps_before - 1);
        steps += 1;
    }
    assert_eq!(steps, 4);
    let live: u64 = [2u64, 3, 5, 7].iter().map(|i| 18 + 2 + i).sum();
    assert_eq!(page.offset(), live);
    for i in [2usize, 3, 5, 7] {
        assert_eq!(page.get(keys[i]), Ok(text(&"x".repeat(i))));
    }
    assert_eq!(page.offset_of("k2"), Some(0));
    assert_eq!(page.offset_of("k3"), Some(22));
    assert_eq!(page.offset_of("k5"), Some(45));
    assert_eq!(page.offset_of("k7"), Some(70));
    let offset = page.offset();
    page.defrag();
    assert_eq!(page.offset(), offset);
}

#[test]
fn bytes_beyond_the_cursor_stay_zero() {
    let mut page = fresh_page();
    assert!(page.as_bytes().iter().all(|b| *b == 0));
    page.insert("albert", text("value")).unwrap();
    page.insert("peter", Value::Integer(123)).unwrap();
    page.insert("tom", text("my third value")).unwrap();
    let offset = page.offset() as usize;
    assert!(page.as_bytes()[offset..].iter().all(|b| *b == 0));
    page.delete("albert").unwrap();
    assert!(page.as_bytes()[offset..].iter().all(|b| *b == 0));
    page.defrag();
    let offset = page.offset() as usize;
    assert_eq!(offset, 66);
    assert!(page.as_bytes()[offset..].iter().all(|b| *b == 0));
}

#[test]
fn a_key_inserted_again_survives_the_reclaiming_of_its_old_entry() {
    let mut page = fresh_page();
    page.insert("albert", text("first")).unwrap();
    page.insert("peter", Value::Integer(1)).unwrap();
    page.delete("albert").unwrap();
    page.insert("albert", text("second")).unwrap();
    assert_eq!(page.offset_of("albert"), Some(60));
    page.delete("peter").unwrap();
    page.defrag();
    assert_eq!(page.offset_of("albert"), Some(31));
    assert_eq!(page.get("albert"), Ok(text("second")));
    assert_eq!(page.gap_queue(), vec![MemKvPageGap { offset: 0, length: 31 }]);
    page.defrag();
    assert_eq!(page.offset_of("albert"), Some(0));
    assert_eq!(page.get("albert"), Ok(text("second")));
    assert_eq!(page.offset(), 30);
}

#[test]
fn gaps_are_kept_by_descending_offset() {
    let mut page = fresh_page();
    for key in ["a", "b", "c", "d", "e"] {
        page.insert(key, Value::Integer(0)).unwrap();
    }
    page.delete("c").unwrap();
    page.delete("a").unwrap();
    page.delete("e").unwrap();
    assert_eq!(
        page.gap_queue(),
        vec![
            MemKvPageGap { offset: 108, length: 27 },
            MemKvPageGap { offset: 54, length: 27 },
            MemKvPageGap { offset: 0, length: 27 },
        ]
    );
    page.defrag();
    assert_eq!(
        page.gap_queue(),
        vec![
            MemKvPageGap { offset: 81, length: 27 },
            MemKvPageGap { offset: 27, length: 27 },
        ]
    );
    assert_eq!(page.offset_of("b"), Some(0));
    assert_eq!(page.offset_of("d"), Some(54));
    assert_eq!(page.offset(), 108);
}

#[test]
fn a_mapping_of_another_size_is_refused() {
    let small = MmapMut::map_anon(4096).unwrap();
    assert_eq!(MemKvPage::new(small).err(), Some(MemmapCreationFailureError));
    let large = MmapMut::map_anon(KV_PAGE_SIZE as usize + 1).unwrap();
    assert_eq!(MemKvPage::new(large).err(), Some(MemmapCreationFailureError));
}

#[test]
fn a_new_page_takes_the_mapping_as_it_is() {
    let mut mmap = MmapMut::map_anon(KV_PAGE_SIZE as usize).unwrap();
    mmap[100] = 42;
    let page = MemKvPage::new(mmap).unwrap();
    assert_eq!(page.as_bytes().len(), KV_PAGE_SIZE as usize);
    assert_eq!(page.as_bytes()[100], 42);
    assert_eq!(page.offset(), 0);
    assert_eq!(page.gap_queue(), vec![]);
}

#[test]
fn the_mapping_can_be_flushed_after_a_change() {
    let mut page = fresh_page();
    assert!(page.mapping().flush().is_ok());
    page.insert("albert", text("value")).unwrap();
    assert!(page.mapping().flush().is_ok());
    assert_eq!(page.mapping().len(), KV_PAGE_SIZE as usize);
    assert_eq!(page.mapping()[0..29], page.as_bytes()[0..29]);
    assert_eq!(page.mapping()[18..24], b"albert"[..]);
    assert_eq!(page.get("albert"), Ok(text("value")));
}
