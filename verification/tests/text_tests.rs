//! Hashing, ordering and plain text.

use graph_rag_engine::collation::{rank, Rank};
use graph_rag_engine::context::contains;
use graph_rag_engine::cutting::{chars_of, cut, find, lines_of, split_once, trim};
use graph_rag_engine::hash::fnv1a;
use graph_rag_engine::string_map::StringMap;
use graph_rag_engine::sweep::order_of_sweep;
use graph_rag_engine::text::push_decimal;

#[test]
fn fnv1a_known_values() {
    assert_eq!(fnv1a(""), 0xcbf2_9ce4_8422_2325);
    assert_eq!(fnv1a("a"), 0xaf63_dc4c_8601_ec8c);
    assert_eq!(fnv1a("foobar"), 0x8594_4171_f739_67e8);
}

#[test]
fn fnv1a_hashes_the_bytes_of_a_text() {
    assert_eq!(fnv1a("b"), 0xaf63_df4c_8601_f1a5);
    assert!(fnv1a("a") < fnv1a("b"));
    assert_ne!(fnv1a("é"), fnv1a("e"));
}

#[test]
fn sweep_goes_by_place_then_by_number() {
    assert_eq!(order_of_sweep(&vec![9, 3, 9, 1, 3]), vec![3, 1, 4, 0, 2]);
    let none: Vec<usize> = Vec::new();
    assert_eq!(order_of_sweep(&Vec::new()), none);
}

#[test]
fn sweep_visits_each_node_once() {
    let places: Vec<u64> = (0..50).map(|i| fnv1a(&format!("n{i}"))).collect();
    let mut order = order_of_sweep(&places);
    order.sort();
    assert_eq!(order, (0..50).collect::<Vec<usize>>());
}

#[test]
fn decimal_numbers() {
    for n in [0, 7, 10, 99, 100, 4096, usize::MAX] {
        let mut out = String::from("n=");
        push_decimal(&mut out, n);
        assert_eq!(out, format!("n={n}"));
    }
}

#[test]
fn texts_are_ordered_by_bytes() {
    assert!(matches!(rank("", ""), Rank::Same));
    assert!(matches!(rank("", "a"), Rank::Before));
    assert!(matches!(rank("ab", "a"), Rank::After));
    assert!(matches!(rank("Z", "a"), Rank::Before));
    assert!(matches!(rank("é", "z"), Rank::After));
    assert!(matches!(rank("日本", "日本"), Rank::Same));
}

#[test]
fn cutting_counts_characters() {
    assert_eq!(cut("añ日🦀b", 0), ("", "añ日🦀b"));
    assert_eq!(cut("añ日🦀b", 2), ("añ", "日🦀b"));
    assert_eq!(cut("añ日🦀b", 4), ("añ日🦀", "b"));
    assert_eq!(cut("añ日🦀b", 5), ("añ日🦀b", ""));
}

#[test]
fn trimming_takes_white_space_of_all_scripts() {
    for s in [
        "",
        "   ",
        "a",
        "  a b  ",
        "\t\r\n a \u{b}\u{c}",
        "\u{a0}\u{2003}x\u{3000}\u{85}",
        "\u{1680}\u{2028}\u{2029}\u{202f}\u{205f}y z\u{2000}\u{200a}",
        "\u{200b}not blank\u{200b}",
        "\u{180e}",
    ] {
        assert_eq!(trim(s), s.trim());
    }
}

#[test]
fn white_space_is_that_of_the_language() {
    for v in 0u32..0x11_0000 {
        if let Some(c) = char::from_u32(v) {
            if c.is_whitespace() || v < 0x3100 {
                let s = c.to_string();
                assert_eq!(trim(&s), s.trim(), "character {v:x}");
            }
        }
    }
}

#[test]
fn first_place_of_a_pattern() {
    let s = chars_of("abcabcabd");
    assert_eq!(find(&s, &chars_of("abd")), Some(6));
    assert_eq!(find(&s, &chars_of("abc")), Some(0));
    assert_eq!(find(&s, &chars_of("")), Some(0));
    assert_eq!(find(&s, &chars_of("abcabcabdx")), None);
    assert_eq!(find(&chars_of(""), &chars_of("")), Some(0));
    assert!(contains("Größe", "öß"));
    assert!(!contains("Größe", "os"));
    assert!(contains("", ""));
}

#[test]
fn splitting_at_the_first_place() {
    assert_eq!(split_once("a -- b -- c", " -- "), Some(("a", "b -- c")));
    assert_eq!(split_once(" --  -- ", " -- "), Some(("", " -- ")));
    assert_eq!(split_once("a--b", " -- "), None);
}

#[test]
fn lines_end_with_newlines() {
    assert_eq!(lines_of("a\nb\n\nc"), vec!["a", "b", "", "c"]);
    assert_eq!(lines_of(""), vec![""]);
    assert_eq!(lines_of("é\r\nx\n"), vec!["é\r", "x", ""]);
}

#[test]
fn string_map_lists_keys_in_order() {
    let mut m: StringMap<usize> = StringMap::new();
    assert!(m.is_empty());
    for (i, k) in ["pear", "fig", "apple", "fig", "Zebra"].iter().enumerate() {
        let before = m.insert(k.to_string(), i);
        assert_eq!(before, if i == 3 { Some(1) } else { None });
    }
    assert_eq!(m.len(), 4);
    assert_eq!(m.keys(), &vec!["Zebra", "apple", "fig", "pear"]);
    assert_eq!(m.get("fig"), Some(&3));
    assert_eq!(m.get("figs"), None);
    assert_eq!(m.index_of("pear"), Some(3));
    assert_eq!(m.index_of("a"), None);
    assert!(m.contains_key("apple") && !m.contains_key(""));
    *m.value_at_mut(1) = 40;
    assert_eq!((m.key_at(1).as_str(), *m.value_at(1)), ("apple", 40));
}
