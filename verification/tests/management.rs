use bpe_tokenizer_editor::token_set::TokenSet;
use bpe_tokenizer_editor::tokenizer::Merge;
use bpe_tokenizer_editor::vocab::Vocabulary;
use bpe_tokenizer_editor::BPETokenizerEditor;

fn make(vocab: &[(&str, u32)], merges: &[(&str, &str)]) -> BPETokenizerEditor {
    let mut vocabulary = Vocabulary::new();
    for (token, id) in vocab {
        vocabulary.insert(token.to_string(), *id);
    }
    let merge_list: Vec<Merge> = merges
        .iter()
        .map(|(a, b)| Merge(a.to_string(), b.to_string()))
        .collect();
    BPETokenizerEditor::new(vocabulary, merge_list)
}

fn strings(list: &[&str]) -> Vec<String> {
    list.iter().map(|t| t.to_string()).collect()
}

fn set(list: &[&str]) -> TokenSet {
    TokenSet::from_tokens(&strings(list))
}

fn ordered(mut tokens: Vec<String>) -> Vec<String> {
    tokens.sort();
    tokens
}

#[test]
fn protected_set_holds_characters_specials_marker_and_extra() {
    let e = make(
        &[("a", 0), ("ab", 1), ("<unk>", 2), ("[CLS]", 3), ("\u{e9}", 4), ("<x", 5), ("hello", 6)],
        &[],
    );
    let p = e.build_protected_set(&set(&["hello", "absent"]));
    assert!(p.contains("a"));
    assert!(p.contains("\u{e9}"));
    assert!(p.contains("<unk>"));
    assert!(p.contains("[CLS]"));
    assert!(p.contains("\u{2581}"));
    assert!(p.contains("hello"));
    assert!(p.contains("absent"));
    assert!(!p.contains("ab"));
    assert!(!p.contains("<x"));
    assert!(!p.contains("b"));
    assert_eq!(p.len(), 7);
}

#[test]
fn victim_is_the_longest_candidate() {
    let e = make(&[("a", 0), ("ab", 1), ("abcd", 2), ("abc", 3)], &[]);
    let p = e.build_protected_set(&TokenSet::new());
    let (token, reason) = e.select_token_to_remove(&p).unwrap();
    assert_eq!(token, "abcd");
    assert_eq!(reason, "Removed to keep vocab size fixed. len=4, merge_produced=false");
}

#[test]
fn victim_of_equal_length_is_a_production() {
    let e = make(
        &[("a", 0), ("b", 1), ("aa", 2), ("ab", 3), ("zz", 4)],
        &[("z", "z")],
    );
    let p = e.build_protected_set(&TokenSet::new());
    let (token, reason) = e.select_token_to_remove(&p).unwrap();
    assert_eq!(token, "zz");
    assert_eq!(reason, "Removed to keep vocab size fixed. len=2, merge_produced=true");
}

#[test]
fn victim_of_equal_rank_is_first_in_the_alphabet() {
    let e = make(&[("a", 0), ("ca", 1), ("bb", 2), ("ab", 3), ("cb", 4)], &[("c", "a"), ("b", "b")]);
    let p = e.build_protected_set(&TokenSet::new());
    let (token, _) = e.select_token_to_remove(&p).unwrap();
    assert_eq!(token, "bb");
}

#[test]
fn no_victim_where_all_is_protected() {
    let e = make(&[("a", 0), ("<s>", 1), ("word", 2), ("\u{2581}", 3)], &[]);
    let p = e.build_protected_set(&set(&["word"]));
    assert!(e.select_token_to_remove(&p).is_none());
    let e = make(&[], &[]);
    assert!(e.select_token_to_remove(&TokenSet::new()).is_none());
}

#[test]
fn victim_is_never_protected() {
    let e = make(
        &[("a", 0), ("<mask>", 1), ("[SEP]", 2), ("keepme", 3), ("xy", 4), ("b", 5)],
        &[],
    );
    let p = e.build_protected_set(&set(&["keepme"]));
    let (token, _) = e.select_token_to_remove(&p).unwrap();
    assert_eq!(token, "xy");
    assert!(!p.contains(&token));
}

#[test]
fn shrink_candidates_are_longest_then_highest_id() {
    let e = make(
        &[
            ("a", 100),
            ("ab", 101),
            ("abc", 102),
            ("abd", 103),
            ("<long>", 104),
            ("xy", 5),
            ("wxyz", 6),
            ("[x]", 105),
            ("cd", 106),
        ],
        &[],
    );
    let found = e.find_tokens_to_shrink(10, 100);
    assert_eq!(
        found,
        vec![
            ("abd".to_string(), 103, 3),
            ("abc".to_string(), 102, 3),
            ("cd".to_string(), 106, 2),
            ("ab".to_string(), 101, 2),
        ]
    );
    let found = e.find_tokens_to_shrink(2, 100);
    assert_eq!(found, vec![("abd".to_string(), 103, 3), ("abc".to_string(), 102, 3)]);
    let found = e.find_tokens_to_shrink(1, 0);
    assert_eq!(found, vec![("wxyz".to_string(), 6, 4)]);
    assert!(e.find_tokens_to_shrink(0, 0).is_empty());
    assert!(e.find_tokens_to_shrink(5, 1000).is_empty());
}

#[test]
fn shrink_candidates_with_one_id_come_in_token_order() {
    let e = make(&[("bb", 7), ("aa", 7), ("cc", 7), ("dd", 8)], &[]);
    let found = e.find_tokens_to_shrink(3, 0);
    assert_eq!(
        found,
        vec![("dd".to_string(), 8, 2), ("aa".to_string(), 7, 2), ("bb".to_string(), 7, 2)]
    );
}

#[test]
fn shrink_counts_lengths_in_characters() {
    let e = make(&[("\u{e9}\u{e8}", 1), ("abc", 2), ("\u{2581}", 3)], &[]);
    let found = e.find_tokens_to_shrink(5, 0);
    assert_eq!(found, vec![("abc".to_string(), 2, 3), ("\u{e9}\u{e8}".to_string(), 1, 2)]);
}

#[test]
fn shrink_removes_candidates_with_their_cascade() {
    let mut e = make(
        &[("a", 0), ("b", 1), ("c", 2), ("ab", 3), ("abc", 4), ("bc", 5)],
        &[("a", "b"), ("ab", "c"), ("b", "c")],
    );
    let r = e.shrink_vocab(2, 0);
    assert_eq!(r.initial_vocab_size, 6);
    assert_eq!(r.initial_merges_count, 3);
    assert_eq!(r.tokens_requested, 2);
    assert_eq!(r.tokens_found, 2);
    assert_eq!(r.tokens_removed.len(), 2);
    assert_eq!(r.tokens_removed[0].token, "abc");
    assert_eq!(r.tokens_removed[0].id, 4);
    assert_eq!(r.tokens_removed[0].length, 3);
    assert_eq!(r.tokens_removed[0].cascade_tokens_removed, 1);
    assert_eq!(r.tokens_removed[0].merges_removed, 1);
    assert_eq!(r.tokens_removed[1].token, "bc");
    assert_eq!(r.tokens_removed[1].cascade_tokens_removed, 1);
    assert_eq!(r.tokens_removed[1].merges_removed, 1);
    assert_eq!(r.total_tokens_removed, 2);
    assert_eq!(r.total_merges_removed, 2);
    assert_eq!(r.final_vocab_size, 4);
    assert_eq!(r.final_merges_count, 1);
    assert!(e.has_token("ab"));
}

#[test]
fn shrink_passes_over_a_candidate_that_left_with_another() {
    let mut e = make(
        &[("a", 0), ("b", 1), ("ab", 9), ("abb", 3)],
        &[("a", "b"), ("ab", "b")],
    );
    let found = e.find_tokens_to_shrink(2, 0);
    assert_eq!(found, vec![("abb".to_string(), 3, 3), ("ab".to_string(), 9, 2)]);
    let mut e2 = make(
        &[("a", 0), ("b", 1), ("ab", 9), ("abb", 3), ("abbb", 2)],
        &[("a", "b"), ("ab", "b"), ("abb", "b"), ("ab", "bb")],
    );
    let r = e2.shrink_vocab(3, 3);
    assert_eq!(r.tokens_found, 2);
    assert_eq!(r.tokens_removed.len(), 2);
    assert_eq!(r.tokens_removed[0].token, "abb");
    assert_eq!(r.tokens_removed[0].cascade_tokens_removed, 2);
    assert_eq!(r.tokens_removed[0].merges_removed, 3);
    assert_eq!(r.tokens_removed[1].token, "ab");
    assert_eq!(r.tokens_removed[1].cascade_tokens_removed, 1);
    assert_eq!(r.tokens_removed[1].merges_removed, 1);
    assert_eq!(r.total_tokens_removed, 3);
    assert_eq!(r.total_merges_removed, 4);
    assert_eq!(r.final_vocab_size, 2);
    assert_eq!(r.final_merges_count, 0);
    let r = e.shrink_vocab(0, 0);
    assert_eq!(r.tokens_found, 0);
    assert_eq!(r.final_vocab_size, 4);
}

#[test]
fn tokens_are_listed_by_length() {
    let e = make(&[("b", 4), ("a", 9), ("ab", 1), ("abc", 2), ("\u{e9}", 3), ("", 7)], &[]);
    assert_eq!(
        e.get_single_char_tokens(),
        vec![("a".to_string(), 9), ("b".to_string(), 4), ("\u{e9}".to_string(), 3)]
    );
    assert_eq!(
        e.get_tokens_by_length(2, 3),
        vec![("ab".to_string(), 1), ("abc".to_string(), 2)]
    );
    assert_eq!(e.get_tokens_by_length(0, 0), vec![("".to_string(), 7)]);
    assert!(e.get_tokens_by_length(3, 2).is_empty());
}

#[test]
fn batch_addition_keeps_the_size() {
    let mut e = make(
        &[("a", 0), ("b", 1), ("c", 2), ("ab", 3), ("abc", 4), ("bc", 5), ("hello", 6)],
        &[("a", "b"), ("ab", "c"), ("b", "c")],
    );
    let r = e.add_tokens_keep_size(&strings(&["ca", "a", "cab"]), &TokenSet::new());
    assert_eq!(r.initial_vocab_size, 7);
    assert_eq!(r.tokens_requested, 3);
    assert_eq!(r.tokens_already_present, 1);
    assert_eq!(r.tokens_added, 2);
    assert_eq!(r.additions.len(), 2);
    assert_eq!(r.additions[0].token, "ca");
    assert_eq!(r.additions[0].method, "longest_prefix");
    assert_eq!(r.additions[1].token, "cab");
    assert_eq!(r.additions[1].method, "longest_prefix");
    assert_eq!(r.merges_added, 2);
    assert_eq!(r.removals.len(), 2);
    assert_eq!(r.removals[0].0.root_token, "hello");
    assert_eq!(
        r.removals[0].1,
        "Removed to keep vocab size fixed. len=5, merge_produced=false"
    );
    assert_eq!(r.removals[1].0.root_token, "abc");
    assert_eq!(
        r.removals[1].1,
        "Removed to keep vocab size fixed. len=3, merge_produced=true"
    );
    assert_eq!(r.tokens_removed, 2);
    assert_eq!(r.final_vocab_size, 7);
    assert_eq!(e.vocab_size(), 7);
    assert!(e.has_token("ca") && e.has_token("cab"));
    assert!(!e.has_token("hello") && !e.has_token("abc"));
}

#[test]
fn batch_addition_stops_evicting_without_candidates() {
    let mut e = make(&[("a", 0), ("<s>", 1)], &[]);
    let r = e.add_tokens_keep_size(&strings(&["b", "c"]), &TokenSet::new());
    assert_eq!(r.tokens_added, 2);
    assert_eq!(r.tokens_removed, 0);
    assert!(r.removals.is_empty());
    assert_eq!(r.final_vocab_size, 4);
}

#[test]
fn batch_addition_respects_the_whitelist() {
    let mut e = make(&[("a", 0), ("longword", 1), ("mid", 2), ("xy", 3)], &[]);
    let r = e.add_tokens_keep_size(&strings(&["b"]), &set(&["longword"]));
    assert_eq!(r.removals.len(), 1);
    assert_eq!(r.removals[0].0.root_token, "mid");
    assert!(e.has_token("longword"));
    assert_eq!(r.final_vocab_size, 4);
}

#[test]
fn batch_addition_may_end_below_the_size() {
    let mut e = make(
        &[("a", 0), ("b", 1), ("c", 2), ("ab", 3), ("abc", 4)],
        &[("a", "b"), ("ab", "c")],
    );
    let r = e.add_tokens_keep_size(&strings(&["x"]), &set(&["abc"]));
    assert_eq!(r.removals.len(), 1);
    assert_eq!(r.removals[0].0.root_token, "ab");
    assert_eq!(ordered(strings(&["ab", "abc"])), {
        let mut t = r.removals[0].0.removed_tokens.clone();
        t.sort();
        t
    });
    assert_eq!(r.tokens_removed, 2);
    assert_eq!(r.final_vocab_size, 4);
}

#[test]
fn batch_addition_never_evicts_a_character_that_it_made() {
    let mut e = make(&[("q", 0)], &[]);
    let r = e.add_tokens_keep_size(&strings(&["ab"]), &TokenSet::new());
    assert_eq!(r.tokens_added, 1);
    assert_eq!(r.merges_added, 1);
    assert!(r.removals.is_empty());
    assert_eq!(r.tokens_removed, 0);
    assert_eq!(r.final_vocab_size, 4);
    assert!(e.has_token("a") && e.has_token("b") && e.has_token("ab") && e.has_token("q"));
    assert_eq!(e.merges_count(), 1);
}

#[test]
fn batch_addition_stops_where_only_characters_are_left() {
    let mut e = make(&[("a", 0), ("b", 1)], &[]);
    let r = e.add_tokens_keep_size(&strings(&["xy"]), &TokenSet::new());
    assert_eq!(r.tokens_added, 1);
    assert_eq!(r.additions[0].method, "char_chain");
    assert_eq!(r.merges_added, 1);
    assert!(r.removals.is_empty());
    assert_eq!(r.tokens_removed, 0);
    assert_eq!(r.final_vocab_size, 5);
    assert_eq!(
        e.vocab.to_entries(),
        vec![
            ("a".to_string(), 0),
            ("b".to_string(), 1),
            ("x".to_string(), 2),
            ("xy".to_string(), 4),
            ("y".to_string(), 3)
        ]
    );
}

#[test]
fn batch_addition_never_evicts_a_protected_token() {
    let mut e = make(
        &[("a", 0), ("<s>", 1), ("keep", 2), ("word", 3), ("longer", 4), ("hi", 5)],
        &[],
    );
    let tokens = strings(&["xyz", "[new]", "pq"]);
    let r = e.add_tokens_keep_size(&tokens, &set(&["keep"]));
    assert!(!r.removals.is_empty());
    for (removal, _) in r.removals.iter() {
        let root = &removal.root_token;
        assert!(root.chars().count() != 1);
        assert!(!(root.starts_with('<') && root.ends_with('>')));
        assert!(!(root.starts_with('[') && root.ends_with(']')));
        assert!(root != "keep");
        assert!(!tokens.contains(root));
    }
    let roots: Vec<&str> = r.removals.iter().map(|(removal, _)| removal.root_token.as_str()).collect();
    assert_eq!(roots, vec!["longer", "word", "xy", "hi", "[new", "[ne", "[n"]);
    assert!(e.has_token("keep") && e.has_token("<s>") && e.has_token("pq"));
    assert!(e.has_token("x") && e.has_token("y") && e.has_token("z"));
    assert!(e.has_token("[") && e.has_token("]") && e.has_token("p") && e.has_token("q"));
    assert_eq!(r.final_vocab_size, 14);
}

#[test]
fn evict_to_size_records_each_eviction() {
    let mut e = make(&[("a", 0), ("abcd", 1), ("abc", 2), ("ab", 3)], &[]);
    let p = TokenSet::new();
    let mut log = Vec::new();
    let count = e.evict_to_size(&p, 2, &mut log);
    assert_eq!(count, 2);
    assert_eq!(log.len(), 2);
    assert_eq!(log[0].0.root_token, "abcd");
    assert_eq!(log[1].0.root_token, "abc");
    assert_eq!(e.vocab_size(), 2);
    let count = e.evict_to_size(&p, 0, &mut log);
    assert_eq!(count, 1);
    assert_eq!(log.len(), 3);
    assert_eq!(e.vocab_size(), 1);
}

#[test]
fn bounded_addition_evicts_once_for_each_addition() {
    let mut e = make(&[("a", 0), ("abcd", 1), ("abc", 2), ("<s>", 3)], &[]);
    let r = e.add_tokens_bounded(&strings(&["xy", "a", "z"]), &TokenSet::new());
    assert_eq!(r.initial_vocab_size, 4);
    assert_eq!(r.tokens_requested, 3);
    assert_eq!(r.tokens_added, 2);
    assert_eq!(r.tokens_removed, 2);
    assert_eq!(r.final_vocab_size, 6);
    assert!(!e.has_token("abcd"));
    assert!(!e.has_token("abc"));
    assert!(e.has_token("xy") && e.has_token("x") && e.has_token("y") && e.has_token("z"));
}

#[test]
fn tokens_are_added_and_removed_in_turn() {
    let mut e = make(&[("a", 0)], &[]);
    let made = e.add_tokens(&strings(&["ab", "a", "b", "abc"]));
    assert_eq!(made.len(), 4);
    assert_eq!(made[0].method, "longest_prefix");
    assert!(made[0].added);
    assert_eq!(made[1].method, "already_exists");
    assert!(!made[1].added);
    assert_eq!(made[2].method, "already_exists");
    assert_eq!(made[3].method, "longest_prefix");
    assert_eq!(made[3].added_merges, vec![("ab".to_string(), "c".to_string())]);
    assert_eq!(e.vocab_size(), 5);

    let gone = e.remove_tokens(&strings(&["ab", "zz", "abc", "c"]));
    assert_eq!(gone.len(), 2);
    assert_eq!(gone[0].root_token, "ab");
    assert_eq!(gone[0].removed_tokens.len(), 2);
    assert_eq!(gone[1].root_token, "c");
    assert_eq!(e.vocab_size(), 2);
    assert_eq!(e.merges_count(), 0);
}

#[test]
fn batch_addition_keeps_the_token_that_it_added() {
    let mut e = make(
        &[("a", 0), ("b", 1), ("c", 2), ("ab", 3), ("abc", 4)],
        &[("a", "b"), ("ab", "c")],
    );
    let r = e.add_tokens_keep_size(&strings(&["xy"]), &TokenSet::new());
    assert_eq!(r.tokens_added, 1);
    assert_eq!(r.merges_added, 1);
    assert_eq!(r.removals.len(), 2);
    assert_eq!(r.removals[0].0.root_token, "abc");
    assert_eq!(r.removals[1].0.root_token, "ab");
    assert_eq!(r.tokens_removed, 2);
    assert_eq!(r.final_vocab_size, 6);
    assert!(e.has_token("xy") && e.has_token("x") && e.has_token("y"));
    assert_eq!(e.merges_count(), 1);
}

#[test]
fn victim_is_chosen_by_the_vocabulary_as_it_stands() {
    let mut e = make(&[("q", 0), ("word", 1)], &[]);
    let extra = set(&["word"]);
    assert!(e.select_victim(&extra).is_none());
    e.add_token_with_merges("ab");
    assert_eq!(e.select_victim(&extra).unwrap().0, "ab");
    assert_eq!(
        e.select_victim(&set(&["word", "ab"])).map(|p| p.0),
        None
    );
    let stale = make(&[("q", 0), ("word", 1)], &[]).build_protected_set(&set(&["word", "ab"]));
    assert_eq!(e.select_token_to_remove(&stale).unwrap().0, "a");
    let (token, reason) = e.select_victim(&TokenSet::new()).unwrap();
    assert_eq!(token, "word");
    assert_eq!(reason, "Removed to keep vocab size fixed. len=4, merge_produced=false");
}

#[test]
fn bounded_addition_never_evicts_a_character_that_it_made() {
    let mut e = make(&[("q", 0)], &[]);
    let r = e.add_tokens_bounded(&strings(&["ab"]), &set(&["ab"]));
    assert_eq!(r.tokens_added, 1);
    assert_eq!(r.tokens_removed, 0);
    assert_eq!(r.final_vocab_size, 4);
    assert!(e.has_token("a") && e.has_token("b") && e.has_token("ab"));
    let mut e = make(&[("q", 0)], &[]);
    let r = e.add_tokens_bounded(&strings(&["ab"]), &TokenSet::new());
    assert_eq!(r.tokens_removed, 1);
    assert_eq!(r.final_vocab_size, 3);
    assert!(e.has_token("a") && e.has_token("b") && !e.has_token("ab"));
}
