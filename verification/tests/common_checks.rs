use bpe_tokenizer_editor::ids::IdAllocator;
use bpe_tokenizer_editor::merge_set::MergeSet;
use bpe_tokenizer_editor::text::{
    char_len, char_token_at, decimal_string, eviction_reason_string, is_special_token, joined,
    prefix_of, same_token, space_marker_token, suffix_of, token_order, TokenOrder,
};
use bpe_tokenizer_editor::token_file::{parse_token_list, TokenListError};
use bpe_tokenizer_editor::token_set::TokenSet;
use bpe_tokenizer_editor::tokenizer::{is_bpe_model, Merge};
use bpe_tokenizer_editor::vocab::Vocabulary;

#[test]
fn merge_result_concatenates() {
    let m = Merge("ab".to_string(), "c".to_string());
    assert_eq!(m.result(), "abc");
    let m = Merge::new("".to_string(), "x".to_string());
    assert_eq!(m.result(), "x");
    let d = m.duplicate();
    assert_eq!(d.0, "");
    assert_eq!(d.1, "x");
    assert_eq!(m.to_pair(), ("".to_string(), "x".to_string()));
}

#[test]
fn only_bpe_models_are_accepted() {
    assert!(is_bpe_model("BPE"));
    assert!(!is_bpe_model("bpe"));
    assert!(!is_bpe_model("WordPiece"));
    assert!(!is_bpe_model(""));
    assert!(!is_bpe_model("BPE "));
}

#[test]
fn token_order_is_lexicographic_by_code_point() {
    assert_eq!(token_order("a", "b"), TokenOrder::Before);
    assert_eq!(token_order("b", "a"), TokenOrder::After);
    assert_eq!(token_order("abc", "abc"), TokenOrder::Same);
    assert_eq!(token_order("ab", "abc"), TokenOrder::Before);
    assert_eq!(token_order("abc", "ab"), TokenOrder::After);
    assert_eq!(token_order("", ""), TokenOrder::Same);
    assert_eq!(token_order("", "a"), TokenOrder::Before);
    assert_eq!(token_order("Z", "a"), TokenOrder::Before);
    assert_eq!(token_order("z", "\u{e9}"), TokenOrder::Before);
    assert_eq!(token_order("\u{2581}a", "\u{2581}b"), TokenOrder::Before);
    assert_eq!(token_order("\u{ffff}", "\u{10000}"), TokenOrder::Before);
}

#[test]
fn token_order_agrees_with_str_order() {
    let words = ["", "a", "ab", "b", "\u{e9}", "\u{2581}", "\u{10348}", "zz", "<unk>", "[CLS]"];
    for a in words.iter() {
        for b in words.iter() {
            let expected = if a < b {
                TokenOrder::Before
            } else if a == b {
                TokenOrder::Same
            } else {
                TokenOrder::After
            };
            assert_eq!(token_order(a, b), expected);
            assert_eq!(same_token(a, b), a == b);
        }
    }
}

#[test]
fn lengths_are_counted_in_characters() {
    assert_eq!(char_len(""), 0);
    assert_eq!(char_len("abc"), 3);
    assert_eq!(char_len("\u{2581}a"), 2);
    assert_eq!(char_len("\u{10348}"), 1);
}

#[test]
fn pieces_are_cut_at_characters() {
    assert_eq!(prefix_of("h\u{e9}llo", 2), "h\u{e9}");
    assert_eq!(suffix_of("h\u{e9}llo", 2), "llo");
    assert_eq!(char_token_at("h\u{e9}llo", 1), "\u{e9}");
    assert_eq!(prefix_of("abc", 0), "");
    assert_eq!(suffix_of("abc", 3), "");
    assert_eq!(joined("ab", "\u{e9}"), "ab\u{e9}");
}

#[test]
fn special_tokens_are_bracketed() {
    assert!(is_special_token("<unk>"));
    assert!(is_special_token("[CLS]"));
    assert!(is_special_token("<>"));
    assert!(is_special_token("[]"));
    assert!(!is_special_token("<"));
    assert!(!is_special_token(">"));
    assert!(!is_special_token(""));
    assert!(!is_special_token("<unk]"));
    assert!(!is_special_token("[unk>"));
    assert!(!is_special_token("a<b>"));
    assert!(!is_special_token("<b>a"));
}

#[test]
fn space_marker_is_the_lower_block() {
    assert_eq!(space_marker_token(), "\u{2581}");
}

#[test]
fn numbers_are_written_in_decimal() {
    assert_eq!(decimal_string(0), "0");
    assert_eq!(decimal_string(7), "7");
    assert_eq!(decimal_string(10), "10");
    assert_eq!(decimal_string(1234567890), "1234567890");
    assert_eq!(decimal_string(909), "909");
}

#[test]
fn eviction_reason_names_length_and_production() {
    assert_eq!(
        eviction_reason_string(3, true),
        "Removed to keep vocab size fixed. len=3, merge_produced=true"
    );
    assert_eq!(
        eviction_reason_string(12, false),
        "Removed to keep vocab size fixed. len=12, merge_produced=false"
    );
}

#[test]
fn vocabulary_is_a_map() {
    let mut v = Vocabulary::new();
    assert_eq!(v.len(), 0);
    assert!(!v.contains("a"));
    v.insert("b".to_string(), 7);
    v.insert("a".to_string(), 3);
    v.insert("c".to_string(), 9);
    assert_eq!(v.len(), 3);
    assert_eq!(v.get("a"), Some(3));
    assert_eq!(v.get("b"), Some(7));
    assert_eq!(v.get("d"), None);
    assert_eq!(v.token_at(0), "a");
    assert_eq!(v.token_at(1), "b");
    assert_eq!(v.id_at(2), 9);
    v.insert("b".to_string(), 8);
    assert_eq!(v.len(), 3);
    assert_eq!(v.get("b"), Some(8));
    assert_eq!(v.remove("a"), Some(3));
    assert_eq!(v.remove("a"), None);
    assert_eq!(v.len(), 2);
    assert_eq!(v.search("b"), Ok(0));
    assert_eq!(v.search("bb"), Err(1));
    assert_eq!(v.search("a"), Err(0));
    assert_eq!(v.search("z"), Err(2));
    v.set_id_at(1, 1);
    assert_eq!(v.get("c"), Some(1));
}

#[test]
fn vocabulary_from_entries_keeps_the_later_pair() {
    let v = Vocabulary::from_entries(vec![
        ("b".to_string(), 1),
        ("a".to_string(), 2),
        ("b".to_string(), 3),
    ]);
    assert_eq!(v.len(), 2);
    assert_eq!(v.get("b"), Some(3));
    assert_eq!(
        v.to_entries(),
        vec![("a".to_string(), 2), ("b".to_string(), 3)]
    );
}

#[test]
fn allocator_never_hands_out_a_released_id() {
    let mut ids = IdAllocator::new();
    assert_eq!(ids.next_id(), 1);
    ids.reserve(5);
    ids.reserve(2);
    assert_eq!(ids.next_id(), 6);
    assert!(ids.is_used(5));
    assert!(ids.is_used(2));
    assert!(!ids.is_used(3));
    assert_eq!(ids.allocate(), 6);
    assert_eq!(ids.allocate(), 7);
    ids.release(6);
    ids.release(2);
    assert!(!ids.is_used(6));
    assert_eq!(ids.allocate(), 8);
    assert_eq!(ids.next_id(), 9);
    ids.reset_dense(3);
    assert_eq!(ids.next_id(), 3);
    assert!(ids.is_used(0) && ids.is_used(1) && ids.is_used(2));
    assert!(!ids.is_used(3));
    assert!(!ids.is_used(7));
    assert_eq!(ids.allocate(), 3);
}

#[test]
fn token_set_holds_each_token_once() {
    let mut s = TokenSet::new();
    assert_eq!(s.len(), 0);
    assert!(s.insert("a"));
    assert!(s.insert("b"));
    assert!(!s.insert("a"));
    assert_eq!(s.len(), 2);
    assert!(s.contains("a"));
    assert!(!s.contains("c"));
    assert_eq!(s.token_at(0), "a");
    assert_eq!(s.token_at(1), "b");
    let c = s.copy();
    assert_eq!(c.len(), 2);
    assert!(c.contains("b"));
    let t = TokenSet::from_tokens(&vec!["x".to_string(), "y".to_string(), "x".to_string()]);
    assert_eq!(t.len(), 2);
    assert!(t.contains("x") && t.contains("y"));
    let e = TokenSet::from_entries(&vec![("p".to_string(), 1), ("q".to_string(), 2)]);
    assert!(e.contains("p") && e.contains("q") && !e.contains("x"));
    let outside = e.entries_outside(&vec![
        ("p".to_string(), 5),
        ("r".to_string(), 6),
        ("s".to_string(), 7),
    ]);
    assert_eq!(outside, vec![("r".to_string(), 6), ("s".to_string(), 7)]);
}

#[test]
fn merge_set_tells_pairs_apart() {
    let mut s = MergeSet::new();
    assert!(!s.contains("a", "b"));
    s.insert("a", "b");
    s.insert("a", "c");
    s.insert("b", "a");
    assert!(s.contains("a", "b"));
    assert!(s.contains("a", "c"));
    assert!(s.contains("b", "a"));
    assert!(!s.contains("b", "c"));
    assert!(!s.contains("ab", ""));
    s.insert("ab", "");
    assert!(s.contains("ab", ""));
    assert!(!s.contains("a", "b "));
}

#[test]
fn token_lists_are_json_arrays_of_strings() {
    assert_eq!(
        parse_token_list("[\"a\", \"b\\u00e9\", \"\"]"),
        Ok(vec!["a".to_string(), "b\u{e9}".to_string(), "".to_string()])
    );
    assert_eq!(parse_token_list(" [ ] "), Ok(Vec::<String>::new()));
    assert_eq!(parse_token_list("[1, 2]"), Err(TokenListError::Malformed));
    assert_eq!(parse_token_list("{\"a\": 1}"), Err(TokenListError::Malformed));
    assert_eq!(parse_token_list("[\"a\""), Err(TokenListError::Malformed));
    assert_eq!(parse_token_list(""), Err(TokenListError::Malformed));
    assert_eq!(parse_token_list("\"a\""), Err(TokenListError::Malformed));
}
