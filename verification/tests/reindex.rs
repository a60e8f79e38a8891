use bpe_tokenizer_editor::tokenizer::Merge;
use bpe_tokenizer_editor::vocab::Vocabulary;
use bpe_tokenizer_editor::BPETokenizerEditor;

fn create_test_editor(vocab: Vec<(&str, u32)>, merges: Vec<(&str, &str)>) -> BPETokenizerEditor {
    let mut vocabulary = Vocabulary::new();
    for (token, id) in vocab {
        vocabulary.insert(token.to_string(), id);
    }
    let merge_list: Vec<Merge> = merges
        .into_iter()
        .map(|(a, b)| Merge(a.to_string(), b.to_string()))
        .collect();
    BPETokenizerEditor::new(vocabulary, merge_list)
}

#[test]
fn test_reindex_with_gaps() {
    let mut editor = create_test_editor(
        vec![("a", 0), ("b", 5), ("c", 10), ("ab", 100)],
        vec![("a", "b")],
    );

    let (has_gaps, total_gaps, min_id, max_id) = editor.check_vocab_gaps();
    assert!(has_gaps);
    assert_eq!(min_id, 0);
    assert_eq!(max_id, 100);
    assert!(total_gaps > 0);

    let result = editor.reindex_vocab();

    assert_eq!(result.vocab_size, 4);
    assert_eq!(result.old_min_id, 0);
    assert_eq!(result.old_max_id, 100);
    assert_eq!(result.new_min_id, 0);
    assert_eq!(result.new_max_id, 3);
    assert!(result.gaps_removed > 0);
    assert_eq!(result.ids_remapped, 3);

    assert_eq!(editor.token_id("a"), Some(0));
    assert_eq!(editor.token_id("b"), Some(1));
    assert_eq!(editor.token_id("c"), Some(2));
    assert_eq!(editor.token_id("ab"), Some(3));

    let (has_gaps, _, _, _) = editor.check_vocab_gaps();
    assert!(!has_gaps);
}

#[test]
fn test_reindex_preserves_correct_prefix() {
    let mut editor = create_test_editor(
        vec![("a", 0), ("b", 1), ("c", 2), ("d", 10), ("e", 20)],
        vec![],
    );

    let result = editor.reindex_vocab();

    assert_eq!(result.ids_remapped, 2);

    assert_eq!(editor.token_id("a"), Some(0));
    assert_eq!(editor.token_id("b"), Some(1));
    assert_eq!(editor.token_id("c"), Some(2));
    assert_eq!(editor.token_id("d"), Some(3));
    assert_eq!(editor.token_id("e"), Some(4));
}

#[test]
fn test_reindex_already_sequential() {
    let mut editor = create_test_editor(vec![("a", 0), ("b", 1), ("c", 2)], vec![]);

    let (has_gaps, _, _, _) = editor.check_vocab_gaps();
    assert!(!has_gaps);

    let result = editor.reindex_vocab();

    assert_eq!(result.ids_remapped, 0);
    assert_eq!(result.gaps_removed, 0);
}

#[test]
fn test_reindex_starting_from_nonzero() {
    let mut editor = create_test_editor(vec![("a", 100), ("b", 101), ("c", 102)], vec![]);

    let (has_gaps, total_gaps, _, _) = editor.check_vocab_gaps();
    assert!(has_gaps);
    assert_eq!(total_gaps, 100);

    let result = editor.reindex_vocab();

    assert_eq!(result.old_min_id, 100);
    assert_eq!(result.new_min_id, 0);
    assert_eq!(result.ids_remapped, 3);

    assert_eq!(editor.token_id("a"), Some(0));
    assert_eq!(editor.token_id("b"), Some(1));
    assert_eq!(editor.token_id("c"), Some(2));
}
