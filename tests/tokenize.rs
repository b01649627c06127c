use polars_tokenize::error::TokenizeError;
use polars_tokenize::partition::split_offsets;
use polars_tokenize::shard::shard_table;
use polars_tokenize::table::{assemble, merge, Encoded, TokenTable};
use polars_tokenize::tokenize::{encode_rows, load_tokenizer, tokenize, tokenize_shard, tokenize_with};

/// A byte-pair tokenizer with no merges: every known character is one token.
/// Characters outside the vocabulary fail, since the unknown token is missing too.
const CHARS: &str = r#"{
  "version": "1.0",
  "truncation": null,
  "padding": null,
  "added_tokens": [],
  "normalizer": null,
  "pre_tokenizer": null,
  "post_processor": null,
  "decoder": null,
  "model": {
    "type": "BPE",
    "dropout": null,
    "unk_token": "[UNK]",
    "continuing_subword_prefix": null,
    "end_of_word_suffix": null,
    "fuse_unk": false,
    "byte_fallback": false,
    "vocab": {"a": 1, "b": 2, "c": 3, "d": 4, "e": 5},
    "merges": []
  }
}"#;

fn column(values: &[Option<&str>]) -> Vec<Option<String>> {
    values.iter().map(|v| v.map(|s| s.to_string())).collect()
}

fn strings(values: &[&str]) -> Vec<String> {
    values.iter().map(|s| s.to_string()).collect()
}

fn encoded(ids: &[u32], tokens: &[&str], mask: &[u32]) -> Encoded {
    let text: String = tokens.concat();
    Encoded::new(&text, false, ids.to_vec(), strings(tokens), mask.to_vec())
}

fn same_table(a: &TokenTable, b: &TokenTable) -> bool {
    a.seq_id == b.seq_id && a.tok_id == b.tok_id && a.token == b.token && a.attend == b.attend
}

#[test]
fn split_single_worker_is_whole_range() {
    assert_eq!(split_offsets(7, 1), vec![(0, 7)]);
    assert_eq!(split_offsets(0, 1), vec![(0, 0)]);
}

#[test]
fn split_gives_remainder_to_last_shard() {
    assert_eq!(split_offsets(10, 3), vec![(0, 3), (3, 3), (6, 4)]);
    assert_eq!(split_offsets(8, 4), vec![(0, 2), (2, 2), (4, 2), (6, 2)]);
}

#[test]
fn split_more_workers_than_items() {
    assert_eq!(split_offsets(2, 4), vec![(0, 0), (0, 0), (0, 0), (0, 2)]);
}

#[test]
fn split_no_items_is_one_empty_shard() {
    assert_eq!(split_offsets(0, 8), vec![(0, 0)]);
}

#[test]
fn split_covers_every_index_once() {
    for m in 0..30usize {
        for n in 1..10usize {
            let parts = split_offsets(m, n);
            let mut next = 0;
            for &(offset, len) in &parts {
                assert_eq!(offset, next);
                next = offset + len;
            }
            assert_eq!(next, m);
        }
    }
}

#[test]
fn concrete_scenario() {
    let col = column(&[Some("ab"), None, Some("cd")]);
    let t = tokenize(CHARS, &col, false).unwrap();
    assert_eq!(t.seq_id, vec![0, 0, 2, 2]);
    assert_eq!(t.tok_id, vec![1, 2, 3, 4]);
    assert_eq!(t.token, strings(&["a", "b", "c", "d"]));
    assert_eq!(t.attend, vec![1, 1, 1, 1]);
}

#[test]
fn worker_counts_give_identical_tables() {
    let tok = load_tokenizer(CHARS).unwrap();
    let col = column(&[Some("ab"), None, Some("cde"), Some(""), Some("e"), None, Some("dcba"), Some("a")]);
    let one = tokenize_with(&tok, &col, false, 1).unwrap();
    for workers in [2usize, 3, 8, 20] {
        let other = tokenize_with(&tok, &col, false, workers).unwrap();
        assert!(same_table(&one, &other));
    }
    assert_eq!(one.seq_id, vec![0, 0, 2, 2, 2, 4, 6, 6, 6, 6, 7]);
    assert_eq!(one.tok_id, vec![1, 2, 3, 4, 5, 5, 4, 3, 2, 1, 1]);
}

#[test]
fn zero_workers_counts_as_one() {
    let tok = load_tokenizer(CHARS).unwrap();
    let col = column(&[Some("ab"), Some("c")]);
    let t = tokenize_with(&tok, &col, false, 0).unwrap();
    assert_eq!(t.seq_id, vec![0, 0, 1]);
}

#[test]
fn row_count_is_sum_of_encoding_lengths() {
    let col = column(&[Some("abc"), None, Some("de"), Some("a"), None]);
    let t = tokenize(CHARS, &col, false).unwrap();
    assert_eq!(t.len(), 3 + 2 + 1);
    assert_eq!(t.tok_id.len(), 6);
    assert_eq!(t.token.len(), 6);
    assert_eq!(t.attend.len(), 6);
}

#[test]
fn nulls_give_no_rows() {
    let col = column(&[None, Some("ab"), None, None]);
    let t = tokenize(CHARS, &col, false).unwrap();
    assert_eq!(t.seq_id, vec![1, 1]);
    let all_null = column(&[None, None, None]);
    let t = tokenize(CHARS, &all_null, false).unwrap();
    assert_eq!(t.len(), 0);
}

#[test]
fn order_within_a_value_is_kept() {
    let col = column(&[Some("dcba")]);
    let t = tokenize(CHARS, &col, false).unwrap();
    assert_eq!(t.tok_id, vec![4, 3, 2, 1]);
    assert_eq!(t.token, strings(&["d", "c", "b", "a"]));
}

#[test]
fn empty_input_gives_empty_table() {
    let col: Vec<Option<String>> = Vec::new();
    let t = tokenize(CHARS, &col, false).unwrap();
    assert!(t.seq_id.is_empty() && t.tok_id.is_empty() && t.token.is_empty() && t.attend.is_empty());
}

#[test]
fn failure_at_row_two_is_the_one_error() {
    let tok = load_tokenizer(CHARS).unwrap();
    let col = column(&[Some("a"), Some("b"), Some("zz"), Some("c"), Some("d")]);
    for workers in [1usize, 2, 5] {
        match tokenize_with(&tok, &col, false, workers) {
            Err(TokenizeError::Tokenization { row, .. }) => assert_eq!(row, 2),
            other => panic!("expected a tokenization error, got {:?}", other.map(|t| t.seq_id)),
        }
    }
    assert!(matches!(tokenize(CHARS, &col, false), Err(TokenizeError::Tokenization { row: 2, .. })));
}

#[test]
fn first_failing_row_wins() {
    let tok = load_tokenizer(CHARS).unwrap();
    let col = column(&[Some("a"), Some("x"), Some("b"), Some("c"), Some("y"), Some("d")]);
    for workers in [1usize, 2, 3, 6] {
        assert!(matches!(
            tokenize_with(&tok, &col, false, workers),
            Err(TokenizeError::Tokenization { row: 1, .. })
        ));
    }
}

#[test]
fn bad_definition_is_reported() {
    let col = column(&[Some("a")]);
    assert!(matches!(tokenize("{not a tokenizer", &col, false), Err(TokenizeError::Definition { .. })));
    assert!(matches!(load_tokenizer("[]"), Err(TokenizeError::Definition { .. })));
}

#[test]
fn encode_rows_keeps_absent_values() {
    let tok = load_tokenizer(CHARS).unwrap();
    let col = column(&[Some("a"), None, Some("bc"), None]);
    let encs = encode_rows(&tok, &col, 1, 3, false).unwrap();
    assert_eq!(encs.len(), 3);
    assert!(encs[0].is_none() && encs[2].is_none());
    let e = encs[1].as_ref().unwrap();
    assert_eq!(e.ids, vec![2, 3]);
    assert_eq!(e.tokens, strings(&["b", "c"]));
    assert_eq!(e.attention_mask, vec![1, 1]);
}

#[test]
fn shard_uses_global_row_numbers() {
    let tok = load_tokenizer(CHARS).unwrap();
    let col = column(&[Some("a"), Some("b"), Some("cd"), None, Some("e")]);
    let t = tokenize_shard(&tok, &col, 2, 3, false).unwrap();
    assert_eq!(t.seq_id, vec![2, 2, 4]);
    assert_eq!(t.tok_id, vec![3, 4, 5]);
    let empty = tokenize_shard(&tok, &col, 5, 0, false).unwrap();
    assert_eq!(empty.len(), 0);
}

#[test]
fn shard_table_from_encodings() {
    let encs = vec![
        Some(encoded(&[1, 2], &["a", "b"], &[1, 1])),
        None,
        Some(encoded(&[3, 4], &["c", "d"], &[1, 0])),
    ];
    let t = shard_table(&encs, 0).unwrap();
    assert_eq!(t.seq_id, vec![0, 0, 2, 2]);
    assert_eq!(t.tok_id, vec![1, 2, 3, 4]);
    assert_eq!(t.token, strings(&["a", "b", "c", "d"]));
    assert_eq!(t.attend, vec![1, 1, 1, 0]);
    let shifted = shard_table(&encs, 10).unwrap();
    assert_eq!(shifted.seq_id, vec![10, 10, 12, 12]);
}

#[test]
fn shard_table_rejects_uneven_encoding() {
    let encs = vec![
        Some(encoded(&[1], &["a"], &[1])),
        None,
        Some(encoded(&[3, 4], &["c"], &[1, 1])),
        Some(encoded(&[5], &["e"], &[])),
    ];
    assert!(matches!(shard_table(&encs, 7), Err(TokenizeError::Inconsistent { row: 9 })));
}

#[test]
fn append_encoding_tags_rows() {
    let mut t = TokenTable::new();
    assert!(t.append_encoding(3, &encoded(&[9, 8], &["x", "y"], &[1, 0])).is_ok());
    assert_eq!(t.seq_id, vec![3, 3]);
    assert_eq!(t.tok_id, vec![9, 8]);
    assert_eq!(t.attend, vec![1, 0]);
    assert!(t.append_encoding(4, &encoded(&[1, 2], &["x"], &[1, 0])).is_err());
    assert_eq!(t.len(), 2);
}

#[test]
fn merge_keeps_shard_order() {
    let a = shard_table(&vec![Some(encoded(&[1], &["a"], &[1]))], 0).unwrap();
    let b = TokenTable::new();
    let c = shard_table(&vec![None, Some(encoded(&[2, 3], &["b", "c"], &[1, 1]))], 1).unwrap();
    let t = merge(vec![a, b, c]);
    assert_eq!(t.seq_id, vec![0, 2, 2]);
    assert_eq!(t.tok_id, vec![1, 2, 3]);
    assert_eq!(merge(Vec::new()).len(), 0);
}

#[test]
fn assemble_returns_first_error() {
    let ok = shard_table(&vec![Some(encoded(&[1], &["a"], &[1]))], 0).unwrap();
    let results = vec![
        Ok(ok),
        Err(TokenizeError::Inconsistent { row: 4 }),
        Err(TokenizeError::Inconsistent { row: 6 }),
    ];
    assert!(matches!(assemble(results), Err(TokenizeError::Inconsistent { row: 4 })));
    let ok = shard_table(&vec![Some(encoded(&[1], &["a"], &[1]))], 0).unwrap();
    let joined = assemble(vec![Ok(ok), Ok(TokenTable::new())]).unwrap();
    assert_eq!(joined.seq_id, vec![0]);
}

#[test]
fn encoded_new_keeps_parts() {
    let e = Encoded::new("ab", true, vec![1, 2], strings(&["a", "b"]), vec![1, 1]);
    assert_eq!(e.ids, vec![1, 2]);
    assert_eq!(e.tokens, strings(&["a", "b"]));
    assert_eq!(e.attention_mask, vec![1, 1]);
}

#[test]
fn definition_error_keeps_message() {
    match load_tokenizer("{not a tokenizer") {
        Err(e @ TokenizeError::Definition { .. }) => assert!(!e.describe().is_empty()),
        _ => panic!("expected a definition error"),
    }
    assert!(load_tokenizer(CHARS).is_ok());
}

#[test]
fn error_descriptions() {
    let e = TokenizeError::Tokenization { row: 1, message: "bad".to_string() };
    assert_eq!(e.describe(), "bad");
    assert!(!TokenizeError::Inconsistent { row: 0 }.describe().is_empty());
}
