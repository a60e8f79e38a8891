use bpe_tokenizer_editor::tokenizer::Merge;
use bpe_tokenizer_editor::vocab::Vocabulary;
use bpe_tokenizer_editor::BPETokenizerEditor;

fn build(vocab: &[(&str, u32)], merges: &[(&str, &str)]) -> BPETokenizerEditor {
    let mut vocabulary = Vocabulary::new();
    for (token, id) in vocab {
        vocabulary.insert(token.to_string(), *id);
    }
    let merge_list: Vec<Merge> = merges
        .iter()
        .map(|(a, b)| Merge(a.to_string(), b.to_string()))
        .collect();
    BPETokenizerEditor::new(vocabulary, merge_list)
}

fn entries(list: &[(&str, u32)]) -> Vec<(String, u32)> {
    list.iter().map(|(t, i)| (t.to_string(), *i)).collect()
}

fn merge_pairs(list: &[(&str, &str)]) -> Vec<(String, String)> {
    list.iter().map(|(a, b)| (a.to_string(), b.to_string())).collect()
}

#[test]
fn gaps_are_counted_below_the_largest_id() {
    let e = build(&[("x", 0), ("y", 5), ("z", 10)], &[]);
    assert_eq!(e.check_vocab_gaps(), (true, 8, 0, 10));
    let e = build(&[], &[]);
    assert_eq!(e.check_vocab_gaps(), (false, 0, 0, 0));
    let e = build(&[("a", 3)], &[]);
    assert_eq!(e.check_vocab_gaps(), (true, 3, 3, 3));
    let e = build(&[("a", 0), ("b", 4294967295)], &[]);
    assert_eq!(e.check_vocab_gaps(), (true, 4294967294, 0, 4294967295));
    let e = build(&[("a", 1), ("b", 1), ("c", 1)], &[]);
    assert_eq!(e.check_vocab_gaps(), (true, 1, 1, 1));
}

#[test]
fn reindex_closes_the_gaps_of_x_y_z() {
    let mut e = build(&[("x", 0), ("y", 5), ("z", 10)], &[("x", "y")]);
    let r = e.reindex_vocab();
    assert_eq!(r.vocab_size, 3);
    assert_eq!(r.merges_count, 1);
    assert_eq!(r.old_min_id, 0);
    assert_eq!(r.old_max_id, 10);
    assert_eq!(r.new_min_id, 0);
    assert_eq!(r.new_max_id, 2);
    assert_eq!(r.ids_remapped, 2);
    assert_eq!(r.gaps_removed, 8);
    assert_eq!(e.token_id("x"), Some(0));
    assert_eq!(e.token_id("y"), Some(1));
    assert_eq!(e.token_id("z"), Some(2));
    assert_eq!(e.ids.next_id(), 3);
    assert!(!e.ids.is_used(5));
    assert!(e.ids.is_used(2));
    assert_eq!(e.merges_count(), 1);
}

#[test]
fn reindex_keeps_a_and_remaps_b_and_c() {
    let mut e = build(&[("a", 0), ("b", 5), ("c", 10)], &[]);
    let r = e.reindex_vocab();
    assert_eq!(r.ids_remapped, 2);
    assert_eq!(e.token_id("a"), Some(0));
    assert_eq!(e.token_id("b"), Some(1));
    assert_eq!(e.token_id("c"), Some(2));
}

#[test]
fn reindex_twice_changes_nothing_the_second_time() {
    let mut e = build(&[("c", 7), ("a", 9), ("b", 2), ("d", 100)], &[]);
    e.reindex_vocab();
    let first = e.vocab.to_entries();
    assert_eq!(first, entries(&[("a", 2), ("b", 0), ("c", 1), ("d", 3)]));
    let r = e.reindex_vocab();
    assert_eq!(r.ids_remapped, 0);
    assert_eq!(r.gaps_removed, 0);
    assert_eq!(e.vocab.to_entries(), first);
    assert_eq!(e.check_vocab_gaps(), (false, 0, 0, 3));
}

#[test]
fn reindex_of_a_dense_vocabulary_leaves_the_cursor() {
    let mut e = build(&[("a", 0), ("b", 1), ("zz", 2)], &[]);
    e.remove_token_and_dependencies("zz");
    assert_eq!(e.ids.next_id(), 3);
    let r = e.reindex_vocab();
    assert_eq!(r.ids_remapped, 0);
    assert_eq!(e.ids.next_id(), 3);
    e.add_token_atomic("c");
    assert_eq!(e.token_id("c"), Some(3));
    let r = e.reindex_vocab();
    assert_eq!(r.ids_remapped, 1);
    assert_eq!(r.gaps_removed, 1);
    assert_eq!(e.token_id("c"), Some(2));
    assert_eq!(e.ids.next_id(), 3);
}

#[test]
fn reindex_of_nothing() {
    let mut e = build(&[], &[("a", "b")]);
    let r = e.reindex_vocab();
    assert_eq!(r.vocab_size, 0);
    assert_eq!(r.merges_count, 1);
    assert_eq!(r.old_min_id, 0);
    assert_eq!(r.old_max_id, 0);
    assert_eq!(r.new_max_id, 0);
    assert_eq!(r.ids_remapped, 0);
    assert_eq!(r.gaps_removed, 0);
    assert_eq!(e.ids.next_id(), 1);
}

#[test]
fn reindex_orders_equal_ids_by_token() {
    let mut e = build(&[("b", 4), ("a", 4), ("c", 1)], &[]);
    let r = e.reindex_vocab();
    assert_eq!(r.ids_remapped, 3);
    assert_eq!(e.token_id("c"), Some(0));
    assert_eq!(e.token_id("a"), Some(1));
    assert_eq!(e.token_id("b"), Some(2));
}

#[test]
fn reassign_numbers_all_tokens() {
    let mut e = build(&[("a", 10), ("b", 3), ("c", 7)], &[]);
    e.reassign_ids();
    assert_eq!(e.token_id("b"), Some(0));
    assert_eq!(e.token_id("c"), Some(1));
    assert_eq!(e.token_id("a"), Some(2));
    assert_eq!(e.ids.next_id(), 3);
    let mut e = build(&[("a", 0), ("b", 1)], &[]);
    e.add_token_atomic("zz");
    e.remove_token_and_dependencies("zz");
    assert_eq!(e.ids.next_id(), 3);
    e.reassign_ids();
    assert_eq!(e.ids.next_id(), 2);
    assert_eq!(e.token_id("b"), Some(1));
}

#[test]
fn vocabulary_is_written_out_by_id() {
    let e = build(&[("a", 10), ("b", 3), ("c", 7), ("d", 3)], &[]);
    assert_eq!(e.vocab_by_id(), entries(&[("b", 3), ("d", 3), ("c", 7), ("a", 10)]));
    assert_eq!(e.token_by_id(3), Some("b".to_string()));
    assert_eq!(e.token_by_id(10), Some("a".to_string()));
    assert_eq!(e.token_by_id(4), None);
}

#[test]
fn statistics_count_tokens() {
    let e = build(
        &[("a", 4), ("b", 2), ("ab", 9), ("<unk>", 0), ("[CLS]", 1), ("xyz", 30), ("cd", 8)],
        &[("a", "b")],
    );
    let s = e.get_stats();
    assert_eq!(s.vocab_size, 7);
    assert_eq!(s.merges_count, 1);
    assert_eq!(s.single_char_count, 2);
    assert_eq!(s.special_token_count, 2);
    assert_eq!(s.min_token_id, 0);
    assert_eq!(s.max_token_id, 30);
    assert_eq!(s.length_distribution, vec![(1, 2), (2, 2), (3, 1), (5, 2)]);
    let s = build(&[], &[]).get_stats();
    assert_eq!(s.vocab_size, 0);
    assert_eq!(s.min_token_id, 0);
    assert_eq!(s.max_token_id, 0);
    assert!(s.length_distribution.is_empty());
}

#[test]
fn missing_entries_are_those_that_the_vocabulary_lacks() {
    let e = build(&[("a", 0), ("c", 1)], &[]);
    let missing = e.missing_entries(&entries(&[("a", 5), ("b", 6), ("c", 7), ("d", 8), ("b", 9)]));
    assert_eq!(missing, entries(&[("b", 6), ("d", 8), ("b", 9)]));
}

#[test]
fn sync_of_characters_makes_room_first() {
    let mut e = build(
        &[("a", 0), ("b", 1), ("ab", 2), ("abb", 3), ("hello", 4), ("<s>", 5)],
        &[("a", "b"), ("ab", "b")],
    );
    let r = e.sync_single_chars(&entries(&[("a", 10), ("x", 11), ("y", 12)]), 0);
    assert_eq!(r.initial_vocab_size, 6);
    assert_eq!(r.initial_merges_count, 2);
    assert_eq!(r.chars_in_source, 3);
    assert_eq!(r.chars_already_present, 1);
    assert_eq!(r.chars_added.len(), 2);
    assert_eq!(r.chars_added[0].char_token, "x");
    assert_eq!(r.chars_added[0].source_id, 11);
    assert_eq!(r.chars_added[1].char_token, "y");
    assert_eq!(r.chars_added[1].source_id, 12);
    assert_eq!(r.tokens_removed.len(), 2);
    assert_eq!(r.tokens_removed[0].token, "hello");
    assert_eq!(r.tokens_removed[0].id, 4);
    assert_eq!(r.tokens_removed[0].length, 5);
    assert_eq!(r.tokens_removed[0].cascade_tokens_removed, 1);
    assert_eq!(r.tokens_removed[0].merges_removed, 0);
    assert_eq!(r.tokens_removed[1].token, "abb");
    assert_eq!(r.tokens_removed[1].merges_removed, 1);
    assert_eq!(r.total_tokens_removed, 2);
    assert_eq!(r.total_merges_removed, 1);
    assert_eq!(r.final_vocab_size, 6);
    assert_eq!(r.final_merges_count, 1);
    assert_eq!(
        e.vocab_by_id(),
        entries(&[("a", 0), ("b", 1), ("ab", 2), ("<s>", 3), ("x", 4), ("y", 5)])
    );
    assert_eq!(e.check_vocab_gaps(), (false, 0, 0, 5));
}

#[test]
fn sync_of_characters_with_nothing_to_add() {
    let mut e = build(&[("a", 0), ("b", 5), ("word", 9)], &[]);
    let r = e.sync_single_chars(&entries(&[("a", 1), ("b", 2)]), 0);
    assert_eq!(r.chars_already_present, 2);
    assert!(r.chars_added.is_empty());
    assert!(r.tokens_removed.is_empty());
    assert_eq!(r.final_vocab_size, 3);
    assert_eq!(e.token_id("b"), Some(5));
    assert_eq!(e.token_id("word"), Some(9));
}

#[test]
fn sync_of_characters_grows_where_room_is_short() {
    let mut e = build(&[("a", 0), ("bc", 100), ("de", 3)], &[]);
    let r = e.sync_single_chars(&entries(&[("x", 1), ("y", 2), ("z", 3)]), 50);
    assert_eq!(r.tokens_removed.len(), 1);
    assert_eq!(r.tokens_removed[0].token, "bc");
    assert_eq!(r.chars_added.len(), 3);
    assert_eq!(r.final_vocab_size, 5);
    assert_eq!(
        e.vocab_by_id(),
        entries(&[("a", 0), ("de", 1), ("x", 2), ("y", 3), ("z", 4)])
    );
}

#[test]
fn sync_of_short_tokens_brings_their_merges() {
    let mut e = build(
        &[("a", 0), ("b", 1), ("ab", 2), ("longest", 3), ("longer", 4), ("long", 5)],
        &[("a", "b")],
    );
    let source_tokens = entries(&[
        ("ab", 7),
        ("q", 1),
        ("cd", 8),
        ("abc", 9),
        ("toolong", 2),
        ("zz", 10),
    ]);
    let source_merges = merge_pairs(&[("c", "d"), ("ab", "c"), ("x", "y"), ("a", "bc")]);
    let r = e.sync_short_tokens(&source_tokens, &source_merges, 2, 3, 0);
    assert_eq!(r.tokens_in_source, 4);
    assert_eq!(r.tokens_already_present, 1);
    assert_eq!(r.tokens_added.len(), 3);
    assert_eq!(r.tokens_added[0].token, "cd");
    assert_eq!(r.tokens_added[0].source_id, 8);
    assert_eq!(r.tokens_added[0].length, 2);
    assert_eq!(r.tokens_added[1].token, "abc");
    assert_eq!(r.tokens_added[1].length, 3);
    assert_eq!(r.tokens_added[2].token, "zz");
    assert_eq!(r.merges_added, 2);
    assert_eq!(r.merges_already_present, 0);
    assert_eq!(r.tokens_removed.len(), 3);
    assert_eq!(r.tokens_removed[0].token, "longest");
    assert_eq!(r.tokens_removed[1].token, "longer");
    assert_eq!(r.tokens_removed[2].token, "long");
    assert_eq!(r.total_tokens_removed, 3);
    assert_eq!(r.total_merges_removed, 0);
    assert_eq!(e.get_merges(), merge_pairs(&[("a", "b"), ("c", "d"), ("a", "bc")]));
    assert_eq!(
        e.vocab_by_id(),
        entries(&[
            ("a", 0),
            ("b", 1),
            ("ab", 2),
            ("c", 3),
            ("d", 4),
            ("cd", 5),
            ("bc", 6),
            ("abc", 7),
            ("zz", 8)
        ])
    );
    assert_eq!(r.final_vocab_size, 9);
    assert_eq!(r.final_merges_count, 3);
}

#[test]
fn sync_of_short_tokens_counts_a_merge_that_is_there() {
    let mut e = build(&[("a", 0), ("b", 1), ("word", 2)], &[("a", "b")]);
    let r = e.sync_short_tokens(&entries(&[("ab", 5)]), &merge_pairs(&[("a", "b")]), 2, 3, 0);
    assert_eq!(r.merges_added, 0);
    assert_eq!(r.merges_already_present, 1);
    assert_eq!(r.tokens_added.len(), 1);
    assert_eq!(r.tokens_removed.len(), 1);
    assert_eq!(e.vocab_by_id(), entries(&[("a", 0), ("b", 1), ("ab", 2)]));
    assert_eq!(e.merges_count(), 1);
}

#[test]
fn sync_of_short_tokens_with_nothing_to_add() {
    let mut e = build(&[("ab", 4)], &[]);
    let r = e.sync_short_tokens(&entries(&[("ab", 1), ("abcd", 2)]), &merge_pairs(&[("a", "b")]), 2, 3, 0);
    assert_eq!(r.tokens_in_source, 1);
    assert_eq!(r.tokens_already_present, 1);
    assert!(r.tokens_added.is_empty());
    assert_eq!(r.merges_added, 0);
    assert_eq!(e.token_id("ab"), Some(4));
    assert_eq!(e.merges_count(), 0);
}
