use std::sync::Arc;

use rope::rope_mod::Rope;

fn rope_of(fragments: &[&str]) -> Rope {
    let mut rope = Rope::new();
    for f in fragments {
        rope.add_string(f.to_string());
    }
    rope
}

#[test]
fn hello_world_scenario() {
    let mut rope = Rope::new();
    rope.add_string("Hello, ".to_string());
    rope.add_string("World!".to_string());
    assert_eq!(rope.get_text(), "Hello, World!");
    assert_eq!(rope.get_length(), 13);
    assert_eq!(rope.char_at(7), Some('W'));
    assert_eq!(rope.substring(0, 5), Some("Hello".to_string()));
}

#[test]
fn empty_append_then_rebuild() {
    let mut rope = Rope::new();
    rope.add_string(String::new());
    rope.rebuild();
    assert_eq!(rope.get_text(), "");
    assert_eq!(rope.get_length(), 0);
    assert_eq!(rope.get_depth(), 0);
}

#[test]
fn thousand_small_appends_rebuild_is_shallow() {
    let mut rope = Rope::new();
    let mut expected = String::new();
    for k in 0..1000usize {
        let piece: String = match k % 3 {
            0 => "a".to_string(),
            1 => "bc".to_string(),
            _ => "def".to_string(),
        };
        expected.push_str(&piece);
        rope.add_string(piece);
    }
    assert!(rope.get_depth() > 1000);
    rope.rebuild();
    assert_eq!(rope.get_text(), expected);
    // at most 2000 leaves: 2^11 = 2048, so a level-wise pairing needs 12 levels
    assert!(rope.get_depth() <= 12, "depth {}", rope.get_depth());
}

#[test]
fn text_is_concatenation_with_interleaved_rebuilds() {
    let fragments = ["one ", "", "two ", "x", "three", " four five", "é✓"];
    let mut rope = Rope::new();
    let mut expected = String::new();
    for (k, f) in fragments.iter().enumerate() {
        rope.add_string(f.to_string());
        expected.push_str(f);
        if k % 2 == 1 {
            rope.rebuild();
        }
        assert_eq!(rope.get_text(), expected);
    }
}

#[test]
fn length_counts_characters_not_bytes() {
    let rope = rope_of(&["héllo ", "wörld ✓", "日本語"]);
    let text = rope.get_text();
    assert_eq!(text, "héllo wörld ✓日本語");
    assert_eq!(rope.get_length(), text.chars().count());
    assert_eq!(rope.get_length(), 16);
}

#[test]
fn rebuild_keeps_text_and_length() {
    let mut rope = rope_of(&["a", "", "bcd", "efgh", "i", "jklmnop"]);
    let text = rope.get_text();
    let length = rope.get_length();
    rope.rebuild();
    assert_eq!(rope.get_text(), text);
    assert_eq!(rope.get_length(), length);
    rope.rebuild();
    assert_eq!(rope.get_text(), text);
    assert_eq!(rope.get_length(), length);
}

#[test]
fn rebuild_reduces_depth() {
    let mut rope = Rope::new();
    for _ in 0..64 {
        rope.add_string("ab".to_string());
    }
    assert_eq!(rope.get_depth(), 65);
    rope.rebuild();
    // 128 one-character leaves pair up into a perfect tree of 8 levels
    assert_eq!(rope.get_depth(), 8);
}

#[test]
fn char_at_matches_every_character() {
    let mut rope = rope_of(&["The quick ", "brown fox ", "jumps ö✓", "", "z"]);
    for round in 0..2 {
        let chars: Vec<char> = rope.get_text().chars().collect();
        for (k, c) in chars.iter().enumerate() {
            assert_eq!(rope.char_at(k), Some(*c), "offset {} round {}", k, round);
        }
        rope.rebuild();
    }
}

#[test]
fn substring_matches_every_range() {
    let mut rope = rope_of(&["ab", "cdé", "", "f", "ghij✓", "klmnopq"]);
    for round in 0..2 {
        let chars: Vec<char> = rope.get_text().chars().collect();
        let n = chars.len();
        for i in 0..=n {
            for j in i..=n {
                let expected: String = chars[i..j].iter().collect();
                assert_eq!(rope.substring(i, j), Some(expected), "[{}, {}) round {}", i, j, round);
            }
        }
        rope.rebuild();
    }
}

#[test]
fn substring_in_right_subtree_uses_left_weight() {
    let rope = rope_of(&["0123", "4567", "89AB"]);
    assert_eq!(rope.substring(5, 7), Some("56".to_string()));
    assert_eq!(rope.substring(9, 12), Some("9AB".to_string()));
    assert_eq!(rope.substring(3, 9), Some("345678".to_string()));
    assert_eq!(rope.substring(12, 12), Some(String::new()));
}

#[test]
fn out_of_range_queries_are_absent() {
    let rope = rope_of(&["Hello, ", "World!"]);
    assert_eq!(rope.char_at(rope.get_length()), None);
    assert_eq!(rope.char_at(usize::MAX), None);
    assert_eq!(rope.substring(5, 2), None);
    assert_eq!(rope.substring(0, 14), None);
    assert_eq!(rope.substring(13, 14), None);
}

#[test]
fn empty_rope_queries_are_absent() {
    let rope = Rope::new();
    assert_eq!(rope.get_text(), "");
    assert_eq!(rope.get_length(), 0);
    assert_eq!(rope.char_at(0), None);
    assert_eq!(rope.substring(0, 0), None);
    assert_eq!(rope.substring(5, 2), None);
    assert_eq!(rope.get_depth(), 0);
}

#[test]
fn rope_of_only_empty_fragments_is_empty() {
    let mut rope = rope_of(&["", "", ""]);
    assert_eq!(rope.get_length(), 0);
    assert_eq!(rope.char_at(0), None);
    assert_eq!(rope.substring(0, 0), None);
    rope.rebuild();
    assert_eq!(rope.get_text(), "");
    assert_eq!(rope.get_depth(), 0);
}

#[test]
fn append_shares_and_grows_one_level() {
    let mut rope = Rope::new();
    rope.add_string("abc".to_string());
    assert_eq!(rope.get_depth(), 2);
    rope.add_string("de".to_string());
    assert_eq!(rope.get_depth(), 3);
    rope.add_string("f".to_string());
    assert_eq!(rope.get_depth(), 4);
    assert_eq!(rope.get_text(), "abcdef");
}

#[test]
fn single_leaf_after_rebuild() {
    let mut rope = rope_of(&["x"]);
    rope.rebuild();
    assert_eq!(rope.get_depth(), 1);
    assert_eq!(rope.get_text(), "x");
    assert_eq!(rope.char_at(0), Some('x'));
    assert_eq!(rope.substring(0, 1), Some("x".to_string()));
}

#[test]
fn arc_clone_keeps_shared_text() {
    let rope = rope_of(&["shared"]);
    let same = Arc::new(rope);
    let other = Arc::clone(&same);
    assert_eq!(other.get_text(), "shared");
}

#[test]
fn from_chunks_appends_whole_text() {
    let text = "Lorem ipsum dolor sit amet, ✓ consectetur — adipiscing elit.";
    for chunk_len in [0usize, 1, 2, 3, 7, 128] {
        let mut rope = Rope::from_chunks(text, chunk_len);
        assert_eq!(rope.get_text(), text);
        assert_eq!(rope.get_length(), text.chars().count());
        rope.rebuild();
        assert_eq!(rope.get_text(), text);
    }
    let rope = Rope::from_chunks("abcdefg", 3);
    // three fragments, each appended under a new root
    assert_eq!(rope.get_depth(), 4);
    assert_eq!(Rope::from_chunks("", 4).get_length(), 0);
}
