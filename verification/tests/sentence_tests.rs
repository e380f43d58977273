use ltp_onnx::keys::key_of_bits;
use ltp_onnx::decode::{dependencies, pos_tags, NUM_DEP_RELS, NUM_POS_TAGS};
use ltp_onnx::sentence::{arc_layout, batch_bases, sentence_words};
use ltp_onnx::vocab::default_vocabs;
use ltp_onnx::tokenize::{fits_truncation, tokenize_text, TokenizeError, tokenize_text_batch, tokenize_words, tokenize_words_batch, Tokenized};

fn keys(xs: &[f32]) -> Vec<Option<i64>> {
    xs.iter().map(|&x| key_of_bits(x.to_bits())).collect()
}

/// `[CLS]`, one token per character of `offsets`, `[SEP]`.
fn tokenized(offsets: &[(usize, usize)]) -> Tokenized {
    let mut all = vec![(0, 0)];
    all.extend_from_slice(offsets);
    all.push((0, 0));
    let n = all.len();
    Tokenized {
        ids: (0..n as u32).collect(),
        attention_mask: vec![1; n],
        offsets: all,
        word_ids: vec![None; n],
    }
}

#[test]
fn sentence_words_cut_where_tags_begin_words() {
    let text = "他被深渊";
    let t = tokenized(&[(0, 3), (3, 6), (6, 9), (9, 12)]);
    // Two scores per token; the fourth character continues its word.
    let scores = [0.0, 0.0, 1.0, 0.0, 1.0, 0.0, 1.0, 0.0, 0.0, 1.0, 0.0, 0.0];
    let (words, tokens) = sentence_words(text, &t, &keys(&scores), 0, 0).expect("in range");
    assert_eq!(words, vec!["他", "被", "深渊"]);
    assert_eq!(tokens, vec![1, 2, 3]);

    // The same sentence second in a batch of rows six tokens long.
    let mut batch = vec![5.0; 12];
    batch.extend_from_slice(&scores);
    let (words, tokens) = sentence_words(text, &t, &keys(&batch), 12, 0).expect("in range");
    assert_eq!(words, vec!["他", "被", "深渊"]);
    assert_eq!(tokens, vec![1, 2, 3]);

    // With the begin label 1, the tags mean the opposite.
    let (words, tokens) = sentence_words(text, &t, &keys(&scores), 0, 1).expect("in range");
    assert_eq!(words, vec!["他被深", "渊"]);
    assert_eq!(tokens, vec![1, 4]);
}

#[test]
fn sentence_words_refused() {
    let text = "他被深渊";
    let t = tokenized(&[(0, 3), (3, 6), (6, 9), (9, 12)]);
    // The scores of the last character are missing.
    assert_eq!(sentence_words(text, &t, &keys(&[0.0; 9]), 0, 0), None);
    // Offsets that cut a character.
    let t = tokenized(&[(0, 2), (2, 12)]);
    assert_eq!(sentence_words(text, &t, &keys(&[0.0; 8]), 0, 0), None);
}

#[test]
fn sentence_without_characters() {
    let t = tokenized(&[]);
    let (words, tokens) = sentence_words("", &t, &keys(&[]), 0, 0).expect("nothing to read");
    assert!(words.is_empty());
    assert!(tokens.is_empty());
}

#[test]
fn arc_layout_of_second_sentence() {
    // Batch entry 1 of rows 4 tokens wide: its scores start at 16.
    let (nodes, rows) = arc_layout(16, 4, &vec![2, 3], 32).expect("in range");
    assert_eq!(nodes, vec![0, 2, 3]);
    assert_eq!(rows, vec![vec![16, 18, 19], vec![24, 26, 27], vec![28, 30, 31]]);
    assert_eq!(arc_layout(16, 4, &vec![4], 32), None);
    assert_eq!(arc_layout(0, 4, &vec![3], 15), None);
    assert_eq!(arc_layout(0, usize::MAX, &vec![2], 10), None);
    assert_eq!(arc_layout(0, 3, &vec![], 1), Some((vec![0], vec![vec![0]])));
}

#[test]
fn batch_bases_of_a_sentence() {
    assert_eq!(batch_bases(0, 5), Some((0, 0, 0, 0)));
    assert_eq!(batch_bases(2, 5), Some((20, 270, 50, 700)));
    assert_eq!(batch_bases(1, 7), Some((14, 189, 49, 686)));
    assert_eq!(batch_bases(0, usize::MAX), None);
    assert_eq!(batch_bases(usize::MAX, 2), None);
    assert_eq!(batch_bases(1 << 40, 1 << 12), None);
}

#[test]
fn batched_decoding_matches_decoding_alone() {
    // A sentence of 4 tokens, alone and as entry 1 of a batch 6 tokens wide.
    let n = 4;
    let width = 6;
    let pos_alone: Vec<f32> = (0..n * NUM_POS_TAGS).map(|i| ((i * 7) % 31) as f32).collect();
    let (_, pos_base, _, rel_base) = batch_bases(1, width).expect("fits");
    let mut pos_batch = vec![100.0f32; 2 * width * NUM_POS_TAGS];
    pos_batch[pos_base..pos_base + n * NUM_POS_TAGS].copy_from_slice(&pos_alone);
    let (_, pos_vocab, dep_vocab) = default_vocabs();
    let floor = key_of_bits(f32::NEG_INFINITY.to_bits()).unwrap();
    let words = vec![1, 2];
    let alone = pos_tags(&keys(&pos_alone), 0, &words, &pos_vocab, floor);
    assert!(alone.is_some());
    assert_eq!(pos_tags(&keys(&pos_batch), pos_base, &words, &pos_vocab, floor), alone);

    let rel_alone: Vec<f32> = (0..n * n * NUM_DEP_RELS).map(|i| ((i * 5) % 13) as f32).collect();
    let mut rel_batch = vec![50.0f32; 2 * width * width * NUM_DEP_RELS];
    for d in 0..n {
        for h in 0..n {
            let from = d * (n * NUM_DEP_RELS) + h * NUM_DEP_RELS;
            let to = rel_base + d * (width * NUM_DEP_RELS) + h * NUM_DEP_RELS;
            rel_batch[to..to + NUM_DEP_RELS].copy_from_slice(&rel_alone[from..from + NUM_DEP_RELS]);
        }
    }
    let nodes = vec![0, 1, 2];
    let heads = vec![1, 0, 1];
    let alone = dependencies(&keys(&rel_alone), 0, n, &nodes, &heads, &dep_vocab, floor);
    assert!(alone.is_some());
    let batched = dependencies(&keys(&rel_batch), rel_base, width, &nodes, &heads, &dep_vocab, floor);
    assert_eq!(batched.map(|d| (d.head, d.label)), alone.map(|d| (d.head, d.label)));
}

const PADDED_TOKENIZER: &str = r#"{
  "version": "1.0",
  "truncation": null,
  "padding": {"strategy": "BatchLongest", "direction": "Right", "pad_to_multiple_of": null,
              "pad_id": 0, "pad_type_id": 0, "pad_token": "[UNK]"},
  "added_tokens": [],
  "normalizer": null,
  "pre_tokenizer": {"type": "Whitespace"},
  "post_processor": null,
  "decoder": null,
  "model": {"type": "WordLevel", "vocab": {"[UNK]": 0, "a": 1, "b": 2}, "unk_token": "[UNK]"}
}"#;

#[test]
fn padded_batch_keeps_fields_aligned_and_in_order() {
    let tok: tokenizers::Tokenizer = PADDED_TOKENIZER.parse().expect("tokenizer");
    let v = tokenize_text_batch(&tok, vec!["b", "a b a"]).expect("encodes");
    assert_eq!(v.len(), 2);
    assert_eq!(v[0].ids, vec![2, 0, 0]);
    assert_eq!(v[0].attention_mask, vec![1, 0, 0]);
    assert_eq!(v[0].word_ids, vec![Some(0), None, None]);
    assert_eq!(v[1].ids, vec![1, 2, 1]);
    for t in &v {
        assert_eq!(t.attention_mask.len(), t.ids.len());
        assert_eq!(t.offsets.len(), t.ids.len());
        assert_eq!(t.word_ids.len(), t.ids.len());
    }
}

/// A word-level tokenizer with the given truncation and post-processor.
fn tokenizer_with(truncation: &str, post_processor: &str) -> tokenizers::Tokenizer {
    let json = format!(
        r#"{{
  "version": "1.0",
  "truncation": {},
  "padding": null,
  "added_tokens": [],
  "normalizer": null,
  "pre_tokenizer": {{"type": "Whitespace"}},
  "post_processor": {},
  "decoder": null,
  "model": {{"type": "WordLevel", "vocab": {{"[UNK]": 0, "a": 1, "b": 2, "[CLS]": 3, "[SEP]": 4}}, "unk_token": "[UNK]"}}
}}"#,
        truncation, post_processor
    );
    json.parse().expect("tokenizer")
}

const BERT: &str = r#"{"type": "BertProcessing", "sep": ["[SEP]", 4], "cls": ["[CLS]", 3]}"#;

fn truncation(max_length: usize, stride: usize) -> String {
    format!(
        r#"{{"direction": "Right", "max_length": {}, "strategy": "LongestFirst", "stride": {}}}"#,
        max_length, stride
    )
}

#[test]
fn truncation_that_fits_is_carried_out() {
    let tok = tokenizer_with(&truncation(4, 1), BERT);
    assert!(fits_truncation(&tok));
    let t = tokenize_text(&tok, "a b a b").expect("encodes");
    assert_eq!(t.ids, vec![3, 1, 2, 4]);
    assert_eq!(t.offsets.len(), 4);
    let tok = tokenizer_with(&truncation(2, 0), "null");
    assert!(fits_truncation(&tok));
    assert_eq!(tokenize_text(&tok, "b a b").expect("encodes").ids, vec![2, 1]);
    // Nothing left for the text: the text is dropped whatever the stride.
    let tok = tokenizer_with(&truncation(2, 5), BERT);
    assert!(fits_truncation(&tok));
    assert!(fits_truncation(&tokenizer_with("null", BERT)));
}

#[test]
fn truncation_that_cannot_be_carried_out_is_refused() {
    // The stride is not below the length left after the two special tokens.
    let tok = tokenizer_with(&truncation(3, 1), BERT);
    assert!(!fits_truncation(&tok));
    assert!(matches!(tokenize_text(&tok, "a"), Err(TokenizeError::Truncation)));
    assert!(matches!(tokenize_words(&tok, vec!["a".to_string()]), Err(TokenizeError::Truncation)));
    assert!(matches!(tokenize_text_batch(&tok, vec!["a"]), Err(TokenizeError::Truncation)));
    assert!(matches!(tokenize_words_batch(&tok, vec![vec!["a".to_string()]]), Err(TokenizeError::Truncation)));
    // The special tokens alone exceed the maximum length.
    assert!(!fits_truncation(&tokenizer_with(&truncation(1, 0), BERT)));
    // Without special tokens, the stride must be below the maximum length.
    assert!(!fits_truncation(&tokenizer_with(&truncation(2, 2), "null")));
}

#[test]
fn tokenizer_failure_is_told_apart_from_truncation() {
    // An unknown word without an unknown token fails inside the tokenizer.
    let json = r#"{
  "version": "1.0",
  "truncation": null,
  "padding": null,
  "added_tokens": [],
  "normalizer": null,
  "pre_tokenizer": {"type": "Whitespace"},
  "post_processor": null,
  "decoder": null,
  "model": {"type": "WordPiece", "vocab": {"a": 0}, "unk_token": "[UNK]", "continuing_subword_prefix": "@@", "max_input_chars_per_word": 100}
}"#;
    let tok: tokenizers::Tokenizer = json.parse().expect("tokenizer");
    assert!(fits_truncation(&tok));
    assert!(matches!(tokenize_text(&tok, "zz"), Err(TokenizeError::Tokenizer(_))));
}
