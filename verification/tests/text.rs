use raft_kv::bytes::{be_bytes_u32, be_bytes_u64, be_number, read_frame_at, FrameAt};
use raft_kv::numbers::{decimal_text, parse_number, parse_usize, push_decimal, push_padded, push_signed};
use raft_kv::sections::{replace_section, update_readme};
use raft_kv::text::{compare_text, same_text, Position, TextMap};

#[test]
fn numbers_are_written_in_decimal() {
    for n in [0, 7, 10, 99, 100, 1234567890, u64::MAX] {
        assert_eq!(decimal_text(n), n.to_string());
        assert_eq!(parse_number(&decimal_text(n), u64::MAX), Some(n));
    }
    for n in [0, -1, 42, -42, i64::MIN, i64::MAX] {
        let mut text = String::from("x");
        push_signed(&mut text, n);
        assert_eq!(text, format!("x{n}"));
    }
    let mut text = String::new();
    push_decimal(&mut text, 5);
    push_padded(&mut text, 42, 5);
    push_padded(&mut text, 123456, 5);
    assert_eq!(text, "500042123456");
}

#[test]
fn numbers_are_read_in_decimal() {
    for text in ["0", "+7", "007", "18446744073709551615", "18446744073709551616", "", "+", "-1", "1x", " 1", "++1", "1+"] {
        assert_eq!(parse_number(text, u64::MAX), text.parse::<u64>().ok(), "{text:?}");
        assert_eq!(parse_usize(text), text.parse::<usize>().ok(), "{text:?}");
    }
    assert_eq!(parse_number("255", 255), Some(255));
    assert_eq!(parse_number("256", 255), None);
}

#[test]
fn texts_are_ordered_as_strings() {
    let texts = ["", "a", "aa", "ab", "b", "é", "z", "日", "\u{10000}", "\u{ffff}"];
    for a in texts {
        for b in texts {
            assert_eq!(same_text(a, b), a == b);
            let expected = if a < b {
                Position::Before
            } else if a == b {
                Position::Same
            } else {
                Position::After
            };
            assert_eq!(compare_text(a, b), expected);
        }
    }
}

#[test]
fn maps_keep_their_keys_in_order() {
    let mut map: TextMap<u32> = TextMap::new();
    assert!(map.is_empty());
    for (i, key) in ["m", "c", "x", "a", "c"].iter().enumerate() {
        map.insert(key.to_string(), i as u32);
    }
    let entries: Vec<(&str, u32)> =
        map.as_slice().iter().map(|(key, value)| (key.as_str(), *value)).collect();
    assert_eq!(entries, [("a", 3), ("c", 4), ("m", 0), ("x", 2)]);
    assert_eq!(map.get("c"), Some(&4));
    assert_eq!(map.get("d"), None);
    map.remove("c");
    map.remove("d");
    assert_eq!(map.get("c"), None);
    assert_eq!(map.as_slice().len(), 3);
}

#[test]
fn bytes_are_big_endian() {
    assert_eq!(be_bytes_u32(258), [0, 0, 1, 2]);
    assert_eq!(be_bytes_u64(u64::MAX - 1), [255, 255, 255, 255, 255, 255, 255, 254]);
    assert_eq!(be_number(&[9, 0, 0, 1, 2], 1, 4), 258);
    assert_eq!(be_number(&be_bytes_u64(77), 0, 8), 77);
}

#[test]
fn frames_are_found_by_their_length() {
    let bytes = [0, 0, 0, 2, 7, 8, 0, 0, 0, 5, 1];
    assert_eq!(read_frame_at(&bytes, 0), FrameAt::Whole { start: 4, end: 6 });
    assert_eq!(read_frame_at(&bytes, 6), FrameAt::Torn);
    assert_eq!(read_frame_at(&bytes, 10), FrameAt::Torn);
    assert_eq!(read_frame_at(&bytes, 11), FrameAt::End);
    // What is left of a length is torn, whatever it holds.
    assert_eq!(read_frame_at(&[0, 0, 0], 0), FrameAt::Torn);
    assert_eq!(read_frame_at(&[0], 0), FrameAt::Torn);
    assert_eq!(read_frame_at(&[0, 1, 0], 0), FrameAt::Torn);
    assert_eq!(read_frame_at(&[0, 0, 0, 0], 0), FrameAt::Whole { start: 4, end: 4 });
}

#[test]
fn a_section_is_replaced() {
    let document = "head\n<!-- t:start -->\nold\n<!-- t:end -->\ntail\n";
    assert_eq!(
        replace_section(document, "t", "new\n\u{a0} \n"),
        "head\n<!-- t:start -->\nnew\n<!-- t:end -->\ntail\n"
    );
    assert_eq!(replace_section(document, "u", "new"), document);
    assert_eq!(replace_section("<!-- t:start -->", "t", "new"), "<!-- t:start -->");
    assert_eq!(replace_section("<!-- t:end -->", "t", "new"), "<!-- t:end -->");
    // The first markers count, in whatever order they stand.
    assert_eq!(
        replace_section("a<!-- t:end -->b<!-- t:start -->c", "t", ""),
        "a<!-- t:end -->b<!-- t:start -->\n\n<!-- t:end -->b<!-- t:start -->c"
    );
}

#[test]
fn both_tables_go_into_the_readme() {
    let readme = "<!-- metrics:start --><!-- metrics:end -->|<!-- replication:start --><!-- replication:end -->";
    assert_eq!(
        update_readme(readme, "R\n", "M\n"),
        "<!-- metrics:start -->\nM\n<!-- metrics:end -->|<!-- replication:start -->\nR\n<!-- replication:end -->"
    );
}
