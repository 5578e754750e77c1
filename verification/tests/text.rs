use mdlive::order::{bytes_at_most, text_at_most};
use mdlive::table::Table;
use mdlive::text::{
    chars_of, decimal_text, find_text, has_text, html_escape, joined, parse_u32, replace_char,
    same_text, split_at_char, text_after, text_of,
};
use mdlive::time::FileTime;

#[test]
fn escaping_replaces_the_four_characters() {
    assert_eq!(html_escape("a & <b> \"c\""), "a &amp; &lt;b&gt; &quot;c&quot;");
    assert_eq!(html_escape("&amp;"), "&amp;amp;");
    assert_eq!(html_escape("it's ö"), "it's ö");
    assert_eq!(html_escape(""), "");
}

#[test]
fn escaped_text_has_no_markup_and_differs_with_the_text() {
    let texts = ["<", ">", "\"", "&lt;", "&gt;", "&quot;", "&", "&amp;", "a<b", "<<>>"];
    for a in texts {
        let escaped = html_escape(a);
        assert!(!escaped.contains('<') && !escaped.contains('>') && !escaped.contains('"'));
        for b in texts {
            assert_eq!(html_escape(b) == escaped, a == b);
        }
    }
}

#[test]
fn replacing_leaves_other_characters() {
    assert_eq!(replace_char("a.b.c", '.', "--"), "a--b--c");
    assert_eq!(replace_char("abc", '.', "--"), "abc");
    assert_eq!(replace_char("..", '.', ""), "");
}

#[test]
fn numbers_are_written_and_read() {
    assert_eq!(decimal_text(0), "0");
    assert_eq!(decimal_text(42), "42");
    assert_eq!(decimal_text(u128::MAX), u128::MAX.to_string());
    for s in [
        "", "0", "7", "007", "+5", "-5", "+", "++1", "4294967295", "4294967296", "99999999999999999999",
        "1a", " 1", "１",
    ] {
        assert_eq!(parse_u32(&chars_of(s)), s.parse::<u32>().ok(), "{s:?}");
    }
    for n in [0u32, 9, 10, 4294967295] {
        assert_eq!(parse_u32(&chars_of(&decimal_text(n as u128))), Some(n));
    }
}

#[test]
fn text_is_split_at_every_separator() {
    for s in ["", ".", "a", "a.b", ".a.", "a..b", "ö.ü"] {
        let pieces: Vec<String> = split_at_char(s, '.').iter().map(|p| text_of(p)).collect();
        let expected: Vec<&str> = s.split('.').collect();
        assert_eq!(pieces, expected, "{s:?}");
    }
}

#[test]
fn text_is_found_at_its_first_place() {
    let s = chars_of("abcabc");
    assert_eq!(find_text(&s, &chars_of("bc"), 0), Some(1));
    assert_eq!(find_text(&s, &chars_of("bc"), 2), Some(4));
    assert_eq!(find_text(&s, &chars_of("x"), 0), None);
    assert_eq!(find_text(&s, &chars_of(""), 6), Some(6));
    assert_eq!(find_text(&s, &chars_of(""), 7), None);
    assert!(has_text("picker=1", "picker"));
    assert!(!has_text("picke", "picker"));
    assert!(has_text("x", ""));
}

#[test]
fn prefixes_and_joins() {
    assert_eq!(text_after("v1.2", "v"), Some("1.2".to_string()));
    assert_eq!(text_after("1.2", "v"), None);
    assert_eq!(text_after("v", "v1"), None);
    assert_eq!(joined("a", "b"), "ab");
    assert!(same_text("ä", "ä"));
    assert!(!same_text("a", "ä"));
}

#[test]
fn texts_are_ordered_as_by_std() {
    let texts = ["", "a", "b", "ab", "A", "ä", "a/b", "a.b", "\u{ffff}", "\u{10000}"];
    for a in texts {
        for b in texts {
            assert_eq!(text_at_most(a, b), a <= b, "{a:?} {b:?}");
            assert_eq!(bytes_at_most(a.as_bytes(), b.as_bytes()), a.as_bytes() <= b.as_bytes());
        }
    }
}

#[test]
fn table_keeps_one_value_per_key() {
    let mut table: Table<String> = Table::new();
    table.insert("a".into(), "1".into());
    table.insert("b".into(), "2".into());
    table.insert("a".into(), "3".into());
    assert_eq!(table.len(), 2);
    assert_eq!(table.get("a"), Some(&"3".to_string()));
    assert!(table.remove("a"));
    assert!(!table.remove("a"));
    assert!(!table.contains_key("a"));
    assert_eq!(table.key_at(0), "b");
    assert_eq!(table.value_at(0), "2");
    assert_eq!(table.into_entries(), vec![("b".to_string(), "2".to_string())]);
}

#[test]
fn times_are_compared_across_the_epoch() {
    let before = FileTime::BeforeEpoch { secs: 1, nanos: 500 };
    let earlier = FileTime::BeforeEpoch { secs: 2, nanos: 0 };
    let epoch = FileTime::AfterEpoch { secs: 0, nanos: 0 };
    let zero = FileTime::BeforeEpoch { secs: 0, nanos: 0 };
    let after = FileTime::AfterEpoch { secs: 5, nanos: 7 };
    let later = FileTime::AfterEpoch { secs: 5, nanos: 8 };
    assert!(before.is_later_than(earlier) && !earlier.is_later_than(before));
    assert!(epoch.is_later_than(before) && !before.is_later_than(epoch));
    assert!(!epoch.is_later_than(zero) && !zero.is_later_than(epoch));
    assert!(later.is_later_than(after) && !after.is_later_than(later));
    assert_eq!(after.to_epoch(), 5);
    assert_eq!(before.to_epoch(), 0);
}
