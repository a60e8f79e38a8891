use bpe_tokenizer_editor::tokenizer::Merge;
use bpe_tokenizer_editor::vocab::Vocabulary;
use bpe_tokenizer_editor::BPETokenizerEditor;

fn editor(vocab: &[(&str, u32)], merges: &[(&str, &str)]) -> BPETokenizerEditor {
    let mut vocabulary = Vocabulary::new();
    for (token, id) in vocab {
        vocabulary.insert(token.to_string(), *id);
    }
    let merge_list: Vec<Merge> = merges
        .iter()
        .map(|(a, b)| Merge(a.to_string(), b.to_string()))
        .collect();
    BPETokenizerEditor::new(vocabulary, merge_list)
}

fn pairs(list: &[(&str, &str)]) -> Vec<(String, String)> {
    list.iter().map(|(a, b)| (a.to_string(), b.to_string())).collect()
}

fn sorted(mut tokens: Vec<String>) -> Vec<String> {
    tokens.sort();
    tokens
}

fn names(list: &[&str]) -> Vec<String> {
    list.iter().map(|t| t.to_string()).collect()
}

#[test]
fn new_editor_starts_the_cursor_past_the_largest_id() {
    let e = editor(&[("a", 0), ("b", 5), ("c", 10)], &[("a", "b")]);
    assert_eq!(e.vocab_size(), 3);
    assert_eq!(e.merges_count(), 1);
    assert_eq!(e.ids.next_id(), 11);
    assert!(e.ids.is_used(0) && e.ids.is_used(5) && e.ids.is_used(10));
    assert!(!e.ids.is_used(1));
    assert!(e.has_token("b"));
    assert!(!e.has_token("ab"));
    assert_eq!(e.token_id("c"), Some(10));
    assert_eq!(e.token_id("x"), None);
}

#[test]
fn new_editor_of_nothing_starts_the_cursor_at_one() {
    let mut e = editor(&[], &[]);
    assert_eq!(e.vocab_size(), 0);
    assert_eq!(e.ids.next_id(), 1);
    assert!(e.add_token_atomic("a"));
    assert_eq!(e.token_id("a"), Some(1));
}

#[test]
fn index_gives_first_producer_and_users() {
    let e = editor(
        &[("a", 0), ("b", 1), ("c", 2), ("ab", 3), ("abc", 4)],
        &[("a", "b"), ("ab", "c"), ("a", "bc"), ("a", "a"), ("b", "a")],
    );
    assert_eq!(e.producer_of("ab"), Some(0));
    assert_eq!(e.producer_of("abc"), Some(1));
    assert_eq!(e.producer_of("aa"), Some(3));
    assert_eq!(e.producer_of("ba"), Some(4));
    assert_eq!(e.producer_of("a"), None);
    assert_eq!(e.users_of("a"), vec![0, 2, 3, 4]);
    assert_eq!(e.users_of("b"), vec![0, 4]);
    assert_eq!(e.users_of("ab"), vec![1]);
    assert_eq!(e.users_of("bc"), vec![2]);
    assert_eq!(e.users_of("abc"), Vec::<usize>::new());
    assert!(e.has_merge("a", "bc"));
    assert!(!e.has_merge("abc", ""));
}

#[test]
fn index_follows_the_merge_list_after_rebuild() {
    let mut e = editor(&[("a", 0), ("b", 1)], &[("a", "b")]);
    e.merges.push(Merge("b".to_string(), "a".to_string()));
    e.merges.insert(0, Merge("a".to_string(), "a".to_string()));
    e.rebuild_indices();
    assert_eq!(e.producer_of("aa"), Some(0));
    assert_eq!(e.producer_of("ab"), Some(1));
    assert_eq!(e.producer_of("ba"), Some(2));
    assert_eq!(e.users_of("a"), vec![0, 1, 2]);
    for (i, m) in e.merges.iter().enumerate() {
        let first = e.producer_of(&m.result()).unwrap();
        assert!(first <= i);
        assert_eq!(e.merges[first].result(), m.result());
    }
}

#[test]
fn atomic_addition_takes_the_next_id() {
    let mut e = editor(&[("a", 0), ("b", 5)], &[]);
    assert!(e.add_token_atomic("<pad>"));
    assert!(!e.add_token_atomic("<pad>"));
    assert!(!e.add_token_atomic("a"));
    assert_eq!(e.token_id("<pad>"), Some(6));
    assert!(e.add_token_atomic("zz"));
    assert_eq!(e.token_id("zz"), Some(7));
    assert_eq!(e.merges_count(), 0);
    assert_eq!(e.vocab_size(), 4);
}

#[test]
fn addition_of_a_present_token_changes_nothing() {
    let mut e = editor(&[("a", 0), ("ab", 1)], &[]);
    let r = e.add_token_with_merges("ab");
    assert_eq!(r.token, "ab");
    assert!(!r.added);
    assert_eq!(r.method, "already_exists");
    assert!(r.added_merges.is_empty());
    assert_eq!(e.vocab_size(), 2);
    assert_eq!(e.ids.next_id(), 2);
}

#[test]
fn addition_of_a_single_character() {
    let mut e = editor(&[("a", 0)], &[]);
    let r = e.add_token_with_merges("\u{e9}");
    assert!(r.added);
    assert_eq!(r.method, "single_char");
    assert!(r.added_merges.is_empty());
    assert_eq!(e.token_id("\u{e9}"), Some(1));
    assert_eq!(e.merges_count(), 0);
}

#[test]
fn addition_by_char_chain_on_empty_vocabulary() {
    let mut e = editor(&[], &[]);
    let r = e.add_token_with_merges("abc");
    assert!(r.added);
    assert_eq!(r.method, "char_chain");
    assert_eq!(r.added_merges, pairs(&[("a", "b"), ("ab", "c")]));
    assert_eq!(e.merges_count(), 2);
    assert_eq!(e.vocab_size(), 5);
    assert_eq!(e.token_id("a"), Some(1));
    assert_eq!(e.token_id("b"), Some(2));
    assert_eq!(e.token_id("ab"), Some(3));
    assert_eq!(e.token_id("c"), Some(4));
    assert_eq!(e.token_id("abc"), Some(5));
    assert_eq!(e.producer_of("abc"), Some(1));
}

#[test]
fn char_chain_counts_follow_the_different_characters() {
    let mut e = editor(&[], &[]);
    let r = e.add_token_with_merges("aaa");
    assert_eq!(r.method, "char_chain");
    assert_eq!(r.added_merges, pairs(&[("a", "a"), ("aa", "a")]));
    assert_eq!(e.vocab_size(), 3);

    let mut e = editor(&[], &[]);
    let r = e.add_token_with_merges("abab");
    assert_eq!(r.added_merges.len(), 3);
    assert_eq!(e.vocab_size(), 5);

    let mut e = editor(&[], &[]);
    let r = e.add_token_with_merges("abcd");
    assert_eq!(r.added_merges.len(), 3);
    assert_eq!(e.vocab_size(), 7);
}

#[test]
fn char_chain_where_no_prefix_is_a_token() {
    let mut e = editor(&[("b", 0), ("c", 1), ("x", 2)], &[]);
    let r = e.add_token_with_merges("abc");
    assert_eq!(r.method, "char_chain");
    assert_eq!(r.added_merges, pairs(&[("a", "b"), ("ab", "c")]));
    assert_eq!(e.token_id("a"), Some(3));
    assert_eq!(e.token_id("ab"), Some(4));
    assert_eq!(e.token_id("abc"), Some(5));
    assert_eq!(e.vocab_size(), 6);
}

#[test]
fn addition_of_abc_to_a_b_c_goes_by_the_prefix_a() {
    let mut e = editor(&[("a", 0), ("b", 1), ("c", 2)], &[]);
    let r = e.add_token_with_merges("abc");
    assert!(r.added);
    assert_eq!(r.method, "longest_prefix");
    assert_eq!(r.added_merges, pairs(&[("b", "c"), ("a", "bc")]));
    assert_eq!(e.token_id("bc"), Some(3));
    assert_eq!(e.token_id("abc"), Some(4));
    assert_eq!(e.vocab_size(), 5);
    assert!(!e.has_token("ab"));
    assert_eq!(e.get_merges(), pairs(&[("b", "c"), ("a", "bc")]));
}

#[test]
fn addition_by_longest_prefix() {
    let mut e = editor(
        &[("a", 0), ("b", 1), ("ab", 2), ("c", 3), ("d", 4)],
        &[("a", "b")],
    );
    let r = e.add_token_with_merges("abcd");
    assert_eq!(r.method, "longest_prefix");
    assert_eq!(r.added_merges, pairs(&[("c", "d"), ("ab", "cd")]));
    assert_eq!(e.token_id("cd"), Some(5));
    assert_eq!(e.token_id("abcd"), Some(6));
    assert_eq!(e.merges_count(), 3);

    let r = e.add_token_with_merges("abc");
    assert_eq!(r.method, "longest_prefix");
    assert_eq!(r.added_merges, pairs(&[("ab", "c")]));
    assert_eq!(e.token_id("abc"), Some(7));
}

#[test]
fn longest_prefix_keeps_a_merge_that_is_there() {
    let mut e = editor(&[("ab", 0), ("c", 1)], &[("ab", "c")]);
    let r = e.add_token_with_merges("abc");
    assert_eq!(r.method, "longest_prefix");
    assert!(r.added_merges.is_empty());
    assert_eq!(e.token_id("abc"), Some(2));
    assert_eq!(e.merges_count(), 1);
}

#[test]
fn prefixes_are_cut_at_characters_not_bytes() {
    let mut e = editor(&[("\u{e9}", 0)], &[]);
    let r = e.add_token_with_merges("\u{e9}\u{e8}");
    assert_eq!(r.method, "longest_prefix");
    assert_eq!(r.added_merges, pairs(&[("\u{e9}", "\u{e8}")]));
    assert_eq!(e.token_id("\u{e8}"), Some(1));
    assert_eq!(e.token_id("\u{e9}\u{e8}"), Some(2));
}

#[test]
fn empty_token_goes_in_alone() {
    let mut e = editor(&[("a", 0)], &[]);
    let r = e.add_token_with_merges("");
    assert!(r.added);
    assert_eq!(r.method, "char_chain");
    assert!(r.added_merges.is_empty());
    assert_eq!(e.token_id(""), Some(1));
}

#[test]
fn char_chain_reports_only_new_merges() {
    let mut e = editor(&[("b", 0), ("ab", 1)], &[("a", "b")]);
    let r = e.add_token_with_merges("abc");
    assert_eq!(r.method, "longest_prefix");
    assert_eq!(r.added_merges, pairs(&[("ab", "c")]));
    let mut e = editor(&[("x", 0)], &[("a", "b"), ("ab", "c")]);
    let r = e.add_token_with_merges("abcd");
    assert_eq!(r.method, "char_chain");
    assert_eq!(r.added_merges, pairs(&[("abc", "d")]));
    assert_eq!(e.token_id("a"), Some(1));
    assert_eq!(e.token_id("b"), Some(2));
    assert_eq!(e.token_id("ab"), Some(3));
    assert_eq!(e.token_id("c"), Some(4));
    assert_eq!(e.token_id("abc"), Some(5));
    assert_eq!(e.token_id("d"), Some(6));
    assert_eq!(e.token_id("abcd"), Some(7));
    assert_eq!(e.get_merges(), pairs(&[("a", "b"), ("ab", "c"), ("abc", "d")]));
}

#[test]
fn merge_is_added_once() {
    let mut e = editor(&[("a", 0), ("b", 1)], &[]);
    assert!(e.add_merge_if_missing("a", "b"));
    assert!(!e.add_merge_if_missing("a", "b"));
    assert!(e.add_merge_if_missing("b", "a"));
    assert_eq!(e.get_merges(), pairs(&[("a", "b"), ("b", "a")]));
    assert_eq!(e.producer_of("ba"), Some(1));
    let set = e.get_merge_set();
    assert!(set.contains("a", "b"));
    assert!(set.contains("b", "a"));
    assert!(!set.contains("a", "a"));
}

#[test]
fn removal_takes_what_was_built_from_the_token() {
    let mut e = editor(
        &[("a", 0), ("b", 1), ("c", 2), ("ab", 3), ("abc", 4), ("bc", 5)],
        &[("a", "b"), ("ab", "c"), ("b", "c")],
    );
    let r = e.remove_token_and_dependencies("ab");
    assert_eq!(r.root_token, "ab");
    assert_eq!(sorted(r.removed_tokens), names(&["ab", "abc"]));
    assert_eq!(r.removed_merges, pairs(&[("a", "b"), ("ab", "c")]));
    assert_eq!(e.get_merges(), pairs(&[("b", "c")]));
    assert_eq!(e.vocab_size(), 4);
    assert!(!e.has_token("ab"));
    assert!(!e.has_token("abc"));
    assert!(e.has_token("a") && e.has_token("b") && e.has_token("c") && e.has_token("bc"));
    assert!(!e.ids.is_used(3));
    assert!(!e.ids.is_used(4));
    assert!(e.ids.is_used(5));
    assert_eq!(e.ids.next_id(), 6);
    assert_eq!(e.producer_of("bc"), Some(0));
    assert_eq!(e.producer_of("ab"), None);
}

#[test]
fn removal_of_a_character_cascades() {
    let mut e = editor(
        &[("a", 0), ("b", 1), ("c", 2), ("ab", 3), ("abc", 4), ("bc", 5)],
        &[("a", "b"), ("ab", "c"), ("b", "c")],
    );
    let r = e.remove_token_and_dependencies("b");
    assert_eq!(sorted(r.removed_tokens), names(&["ab", "abc", "b", "bc"]));
    assert_eq!(r.removed_merges.len(), 3);
    assert_eq!(e.merges_count(), 0);
    assert_eq!(e.vocab_size(), 2);
    assert!(e.has_token("a") && e.has_token("c"));
}

#[test]
fn removal_leaves_no_merge_that_names_a_removed_token() {
    let mut e = editor(
        &[("a", 0), ("b", 1), ("c", 2), ("ab", 3), ("abc", 4), ("ca", 5), ("cab", 6)],
        &[("a", "b"), ("ab", "c"), ("c", "a"), ("ca", "b"), ("c", "ab"), ("a", "bc")],
    );
    let r = e.remove_token_and_dependencies("ab");
    let gone = r.removed_tokens;
    for m in e.get_merges() {
        assert!(!gone.contains(&m.0));
        assert!(!gone.contains(&m.1));
        assert!(!gone.contains(&format!("{}{}", m.0, m.1)));
    }
    for t in gone.iter() {
        assert!(!e.has_token(t));
    }
    assert_eq!(sorted(gone), names(&["ab", "abc", "cab"]));
    assert_eq!(e.get_merges(), pairs(&[("c", "a")]));
}

#[test]
fn removal_takes_every_producer_of_the_token() {
    let mut e = editor(
        &[("a", 0), ("b", 1), ("c", 2), ("ab", 3), ("bc", 4), ("abc", 5)],
        &[("a", "b"), ("b", "c"), ("a", "bc"), ("ab", "c")],
    );
    let r = e.remove_token_and_dependencies("abc");
    assert_eq!(r.removed_tokens, names(&["abc"]));
    assert_eq!(r.removed_merges, pairs(&[("a", "bc"), ("ab", "c")]));
    assert_eq!(e.get_merges(), pairs(&[("a", "b"), ("b", "c")]));
    assert_eq!(e.vocab_size(), 5);
}

#[test]
fn removal_of_an_absent_token_takes_its_merges() {
    let mut e = editor(&[("a", 0), ("b", 1)], &[("a", "b"), ("a", "x")]);
    let r = e.remove_token_and_dependencies("x");
    assert_eq!(sorted(r.removed_tokens), names(&["ax", "x"]));
    assert_eq!(r.removed_merges, pairs(&[("a", "x")]));
    assert_eq!(e.vocab_size(), 2);
    assert_eq!(e.merges_count(), 1);

    let r = e.remove_token_and_dependencies("zz");
    assert_eq!(r.removed_tokens, names(&["zz"]));
    assert!(r.removed_merges.is_empty());
    assert_eq!(e.vocab_size(), 2);
    assert_eq!(e.merges_count(), 1);
}

#[test]
fn removal_ends_on_a_cycle() {
    let mut e = editor(&[("", 0), ("a", 1)], &[("a", ""), ("", "a"), ("a", "a")]);
    let r = e.remove_token_and_dependencies("a");
    assert_eq!(sorted(r.removed_tokens), names(&["a", "aa"]));
    assert_eq!(r.removed_merges.len(), 3);
    assert_eq!(e.merges_count(), 0);
    assert!(e.has_token(""));
}

#[test]
fn validation_partitions_the_merges() {
    let e = editor(
        &[("a", 0), ("b", 1), ("ab", 2)],
        &[("a", "b"), ("b", "a"), ("ab", "a"), ("a", "b")],
    );
    let (valid, invalid) = e.validate_merges();
    assert_eq!(valid, vec![0, 3]);
    assert_eq!(invalid.len(), 2);
    assert_eq!(invalid[0].0, 1);
    assert_eq!(invalid[0].1.to_pair(), ("b".to_string(), "a".to_string()));
    assert_eq!(invalid[1].0, 2);
    assert_eq!(invalid[1].1.result(), "aba");
}

#[test]
fn repair_strips_the_dangling_merges() {
    let mut e = editor(
        &[("a", 0), ("b", 1), ("ab", 2)],
        &[("a", "b"), ("b", "a"), ("ab", "a"), ("a", "b")],
    );
    assert_eq!(e.remove_invalid_merges(), 2);
    assert_eq!(e.get_merges(), pairs(&[("a", "b"), ("a", "b")]));
    assert_eq!(e.vocab_size(), 3);
    let (valid, invalid) = e.validate_merges();
    assert_eq!(valid, vec![0, 1]);
    assert!(invalid.is_empty());
    assert_eq!(e.remove_invalid_merges(), 0);
    assert_eq!(e.merges_count(), 2);
    assert_eq!(e.producer_of("ab"), Some(0));
    assert_eq!(e.users_of("a"), vec![0, 1]);
}
