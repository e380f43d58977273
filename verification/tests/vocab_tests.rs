use ltp_onnx::tokenize::{tokenize_text, tokenize_text_batch, tokenize_words, tokenize_words_batch};
use ltp_onnx::vocab::{
    default_vocabs, label_position, lines_of, split_fields, tab_separated_words, vocab_path_for,
    vocabs_from_content, word_begin_label,
};

fn strings(xs: &[&str]) -> Vec<String> {
    xs.iter().map(|s| s.to_string()).collect()
}

#[test]
fn built_in_vocabularies() {
    let (cws, pos, dep) = default_vocabs();
    assert_eq!(cws, strings(&["B-W", "I-W"]));
    assert_eq!(pos.len(), 27);
    assert_eq!(pos[0], "n");
    assert_eq!(pos[2], "wp");
    assert_eq!(pos[26], "e");
    assert_eq!(dep.len(), 14);
    assert_eq!(dep[7], "HED");
    assert_eq!(dep[11], "FOB");
}

#[test]
fn vocabularies_from_three_lines() {
    let (cws, pos, dep) = vocabs_from_content("B-W,I-W\nn,v,,wp\r\nATT,HED\nextra line\n");
    assert_eq!(cws, strings(&["B-W", "I-W"]));
    assert_eq!(pos, strings(&["n", "v", "", "wp"]));
    assert_eq!(dep, strings(&["ATT", "HED"]));
}

#[test]
fn too_few_lines_fall_back_to_built_in() {
    let (cws, pos, dep) = vocabs_from_content("B-W,I-W\nn,v\n");
    assert_eq!((cws, pos, dep), default_vocabs());
    assert_eq!(vocabs_from_content(""), default_vocabs());
    // A final empty line after the last line feed does not count.
    assert_eq!(vocabs_from_content("a\nb\n\n").1, strings(&["b"]));
    assert_eq!(vocabs_from_content("a\nb\n"), default_vocabs());
}

#[test]
fn lines_follow_std() {
    for text in ["", "a", "a\n", "a\r\nb", "a\rb\n", "\n\n", "x\r", "x\r\n\r\n", "α\nβ"] {
        let expected: Vec<Vec<char>> = text.lines().map(|l| l.chars().collect()).collect();
        let cs: Vec<char> = text.chars().collect();
        assert_eq!(lines_of(&cs), expected, "lines of {:?}", text);
    }
}

#[test]
fn split_follows_std_and_rejoins() {
    for text in ["", ",", "a,b", "a,,b,", "中,文"] {
        let expected: Vec<String> = text.split(',').map(|s| s.to_string()).collect();
        let cs: Vec<char> = text.chars().collect();
        let fields = split_fields(&cs, ',');
        assert_eq!(fields, expected);
        assert_eq!(fields.join(","), text);
    }
    assert_eq!(tab_separated_words("他\t被\t深渊"), strings(&["他", "被", "深渊"]));
}

#[test]
fn vocabulary_path_replaces_model_extension() {
    assert_eq!(vocab_path_for("./models/ltp_base2.onnx"), "./models/ltp_base2.vocab");
    assert_eq!(vocab_path_for("a.onnx.onnx"), "a.vocab.vocab");
    assert_eq!(vocab_path_for("model.bin"), "model.bin");
    assert_eq!(vocab_path_for(".onn"), ".onn");
    for p in ["x.onnxonnx", "..onnx", ".onnx.onn", ""] {
        assert_eq!(vocab_path_for(p), p.replace(".onnx", ".vocab"));
    }
}

#[test]
fn word_begin_label_position() {
    assert_eq!(word_begin_label(&strings(&["I-W", "B-W"])), 1);
    assert_eq!(word_begin_label(&strings(&["B-W", "I-W"])), 0);
    assert_eq!(word_begin_label(&strings(&["X", "Y"])), 0);
    assert_eq!(label_position(&strings(&["a", "b", "b"]), "b"), 1);
}

const TOKENIZER: &str = r#"{
  "version": "1.0",
  "truncation": null,
  "padding": null,
  "added_tokens": [],
  "normalizer": null,
  "pre_tokenizer": {"type": "Whitespace"},
  "post_processor": null,
  "decoder": null,
  "model": {"type": "WordLevel", "vocab": {"[UNK]": 0, "a": 1, "b": 2}, "unk_token": "[UNK]"}
}"#;

#[test]
fn tokenizing_text() {
    let tok: tokenizers::Tokenizer = TOKENIZER.parse().expect("tokenizer");
    let t = tokenize_text(&tok, "a b zz").expect("encodes");
    assert_eq!(t.ids, vec![1, 2, 0]);
    assert_eq!(t.attention_mask, vec![1, 1, 1]);
    assert_eq!(t.offsets, vec![(0, 1), (2, 3), (4, 6)]);
    assert_eq!(t.word_ids, vec![Some(0), Some(1), Some(2)]);
}

#[test]
fn tokenizing_words() {
    let tok: tokenizers::Tokenizer = TOKENIZER.parse().expect("tokenizer");
    let t = tokenize_words(&tok, strings(&["b", "a"])).expect("encodes");
    assert_eq!(t.ids, vec![2, 1]);
    assert_eq!(t.word_ids, vec![Some(0), Some(1)]);
}

#[test]
fn tokenizing_batches_gives_one_result_per_sentence() {
    let tok: tokenizers::Tokenizer = TOKENIZER.parse().expect("tokenizer");
    let v = tokenize_text_batch(&tok, vec!["a", "b a", "zz"]).expect("encodes");
    assert_eq!(v.len(), 3);
    assert_eq!(v[1].ids, vec![2, 1]);
    let w = tokenize_words_batch(&tok, vec![strings(&["a"]), strings(&["b", "b"])]).expect("encodes");
    assert_eq!(w.len(), 2);
    assert_eq!(w[1].ids, vec![2, 2]);
}
