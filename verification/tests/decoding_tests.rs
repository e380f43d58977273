use ltp_onnx::decode::{arc_positions, dependencies, dependency_nodes, longest, pad_rows, pos_tags, NUM_DEP_RELS, NUM_POS_TAGS};
use ltp_onnx::keys::{key_of_bits, row_argmax, score_gt};
use ltp_onnx::segment::{char_spans, cws_tags, first_subtokens, word_spans};
use ltp_onnx::text::{chars_of, same_text, slice_spans};

/// Order key of a score: the library's key of its bits.
fn key(x: f32) -> Option<i64> {
    key_of_bits(x.to_bits())
}

fn floor() -> i64 {
    key(f32::NEG_INFINITY).unwrap()
}

fn keys(xs: &[f32]) -> Vec<Option<i64>> {
    xs.iter().map(|&x| key(x)).collect()
}

#[test]
fn keys_order_as_scores() {
    let xs = [f32::NEG_INFINITY, -3.5, -0.25, -0.0, 0.0, 1e-30, 2.0, 7.5, f32::INFINITY];
    for a in xs {
        for b in xs {
            assert_eq!(score_gt(key(a), key(b)), a > b, "{} > {}", a, b);
        }
    }
    assert!(!score_gt(key(f32::NAN), key(1.0)));
    assert!(!score_gt(key(1.0), key(f32::NAN)));
}

#[test]
fn key_of_bits_exact_values() {
    assert_eq!(key_of_bits(0x3f80_0000), Some(0x3f80_0000));
    assert_eq!(key_of_bits(0xbf80_0000), Some(-0x3f80_0000));
    assert_eq!(key_of_bits(0x0000_0000), Some(0));
    assert_eq!(key_of_bits(0x8000_0000), Some(0));
    assert_eq!(key_of_bits(0x7f80_0000), Some(0x7f80_0000));
    assert_eq!(key_of_bits(0xff80_0000), Some(-0x7f80_0000));
    assert_eq!(key_of_bits(0x7f80_0001), None);
    assert_eq!(key_of_bits(0x7fc0_0000), None);
    assert_eq!(key_of_bits(0xffc0_0000), None);
    assert_eq!(key_of_bits(0x0000_0001), Some(1));
    assert_eq!(key_of_bits(f32::NAN.to_bits()), None);
}

#[test]
fn argmax_takes_first_maximum() {
    let k = keys(&[0.5, 3.0, -1.0, 3.0, 2.0]);
    assert_eq!(row_argmax(&k, 0, 5, floor()), 1);
    assert_eq!(row_argmax(&k, 2, 3, floor()), 1);
}

#[test]
fn argmax_ignores_nan_and_negative_infinity() {
    let k = keys(&[f32::NAN, f32::NEG_INFINITY, -5.0, f32::NAN]);
    assert_eq!(row_argmax(&k, 0, 4, floor()), 2);
    let none = keys(&[f32::NEG_INFINITY, f32::NAN, f32::NEG_INFINITY]);
    assert_eq!(row_argmax(&none, 0, 3, floor()), 0);
    assert_eq!(row_argmax(&none, 0, 0, floor()), 0);
}

#[test]
fn characters_start_at_new_offsets() {
    // [CLS], three tokens of which two share a character, one more, [SEP].
    let offsets = vec![(0, 0), (0, 3), (3, 6), (3, 6), (6, 9), (0, 0)];
    let (ci, cp) = char_spans(&offsets, 6, 9);
    assert_eq!(ci, vec![0, 1, 3]);
    assert_eq!(cp, vec![0, 3, 6, 9]);
}

#[test]
fn character_scan_stops_at_padding_and_skips_empty_tokens() {
    let offsets = vec![(0, 0), (0, 3), (3, 3), (3, 6), (0, 0), (6, 9), (0, 0)];
    let (ci, cp) = char_spans(&offsets, 7, 12);
    assert_eq!(ci, vec![0, 2]);
    assert_eq!(cp, vec![0, 3, 12]);
    let (ci, cp) = char_spans(&offsets, 2, 5);
    assert!(ci.is_empty());
    assert_eq!(cp, vec![5]);
}

#[test]
fn segmentation_tags_compare_the_two_scores() {
    // Tokens 0..4, two scores each.
    let k = keys(&[0.0, 0.0, 2.0, 1.0, 0.5, 0.7, 1.0, 1.0]);
    let tags = cws_tags(&k, 0, &vec![0, 1, 2]).expect("in range");
    assert_eq!(tags, vec![0, 1, 0]);
    assert_eq!(cws_tags(&k, 0, &vec![3]), None);
    assert_eq!(cws_tags(&k, 4, &vec![1]), None);
    assert_eq!(cws_tags(&k, 4, &vec![0]), Some(vec![0]));
}

#[test]
fn words_tile_the_text() {
    let text = "他被深渊凝视";
    // six characters of three bytes each
    let ci: Vec<usize> = vec![0, 1, 2, 3, 4, 5];
    let cp: Vec<usize> = vec![0, 3, 6, 9, 12, 15, 18];
    let tags = vec![0, 0, 0, 1, 0, 1];
    let (spans, firsts) = word_spans(&tags, &ci, &cp, 0);
    assert_eq!(spans, vec![(0, 3), (3, 6), (6, 12), (12, 18)]);
    assert_eq!(firsts, vec![1, 2, 3, 5]);
    let words = slice_spans(text, &spans).expect("spans on character boundaries");
    assert_eq!(words, vec!["他", "被", "深渊", "凝视"]);
    assert_eq!(words.concat(), text);
}

#[test]
fn no_characters_no_words() {
    let (spans, firsts) = word_spans(&vec![], &vec![], &vec![4], 0);
    assert!(spans.is_empty());
    assert!(firsts.is_empty());
}

#[test]
fn slices_that_cut_a_character_are_refused() {
    let text = "他被";
    assert_eq!(slice_spans(text, &vec![(0, 2)]), None);
    assert_eq!(slice_spans(text, &vec![(3, 0)]), None);
    assert_eq!(slice_spans(text, &vec![(0, 9)]), None);
    assert_eq!(slice_spans(text, &vec![(0, 6)]), Some(vec!["他被".to_string()]));
}

#[test]
fn first_token_of_each_word() {
    let word_ids = vec![None, Some(0), Some(1), Some(1), None, Some(2), None];
    assert_eq!(first_subtokens(&word_ids, 7), vec![1, 2, 5]);
    assert_eq!(first_subtokens(&word_ids, 1), Vec::<usize>::new());
}

#[test]
fn text_helpers() {
    assert_eq!(chars_of("a他b"), vec!['a', '他', 'b']);
    assert!(same_text("B-W", "B-W"));
    assert!(!same_text("B-W", "I-W"));
    assert!(!same_text("B", "B-W"));
}

fn pos_vocab() -> Vec<String> {
    (0..NUM_POS_TAGS).map(|i| format!("t{}", i)).collect()
}

#[test]
fn part_of_speech_from_word_rows() {
    // Three tokens of 27 scores; the words start at tokens 1 and 2.
    let mut xs = vec![0.0f32; 3 * NUM_POS_TAGS];
    xs[NUM_POS_TAGS + 4] = 3.0;
    xs[2 * NUM_POS_TAGS + 26] = 1.0;
    xs[2 * NUM_POS_TAGS + 3] = 1.0;
    let k = keys(&xs);
    let tags = pos_tags(&k, 0, &vec![1, 2], &pos_vocab(), floor()).expect("in range");
    assert_eq!(tags, vec!["t4".to_string(), "t3".to_string()]);
}

#[test]
fn part_of_speech_refuses_short_rows_and_missing_labels() {
    let k = keys(&vec![0.0f32; NUM_POS_TAGS]);
    assert_eq!(pos_tags(&k, 0, &vec![1], &pos_vocab(), floor()), None);
    let mut xs = vec![0.0f32; NUM_POS_TAGS];
    xs[20] = 1.0;
    let short: Vec<String> = vec!["n".to_string(), "v".to_string()];
    assert_eq!(pos_tags(&keys(&xs), 0, &vec![0], &short, floor()), None);
    assert_eq!(pos_tags(&k, 0, &vec![0], &short, floor()), Some(vec!["n".to_string()]));
}

#[test]
fn nodes_are_root_then_words() {
    assert_eq!(dependency_nodes(&vec![1, 3, 4]), vec![0, 1, 3, 4]);
    assert_eq!(dependency_nodes(&vec![]), vec![0]);
}

#[test]
fn relations_from_node_pairs() {
    let vocab: Vec<String> = (0..NUM_DEP_RELS).map(|i| format!("r{}", i)).collect();
    // Sequence of 3 tokens; relation scores [d][h][14].
    let stride = 3;
    let mut xs = vec![0.0f32; stride * stride * NUM_DEP_RELS];
    // node 1 = token 1 with head node 0 (token 0): relation 7
    xs[1 * stride * NUM_DEP_RELS + 0 * NUM_DEP_RELS + 7] = 2.0;
    // node 2 = token 2 with head node 1 (token 1): relation 2
    xs[2 * stride * NUM_DEP_RELS + 1 * NUM_DEP_RELS + 2] = 2.0;
    let k = keys(&xs);
    let nodes = vec![0, 1, 2];
    let heads = vec![1, 0, 1];
    let dep = dependencies(&k, 0, stride, &nodes, &heads, &vocab, floor()).expect("in range");
    assert_eq!(dep.head, vec![0, 1]);
    assert_eq!(dep.label, vec!["r7".to_string(), "r2".to_string()]);
}

#[test]
fn relations_refuse_bad_heads_and_rows() {
    let vocab: Vec<String> = (0..NUM_DEP_RELS).map(|i| format!("r{}", i)).collect();
    let k = keys(&vec![0.0f32; 3 * 3 * NUM_DEP_RELS]);
    let nodes = vec![0, 1, 2];
    assert!(dependencies(&k, 0, 3, &nodes, &vec![1, 5, 0], &vocab, floor()).is_none());
    assert!(dependencies(&k, 0, 3, &nodes, &vec![1, 0], &vocab, floor()).is_none());
    assert!(dependencies(&k, 0, 4, &nodes, &vec![1, 0, 1], &vocab, floor()).is_none());
    let few = vec!["only".to_string()];
    let dep = dependencies(&k, 0, 3, &nodes, &vec![1, 0, 0], &few, floor()).expect("label 0 exists");
    assert_eq!(dep.label, vec!["only".to_string(), "only".to_string()]);
    let dep = dependencies(&k, 0, 3, &vec![0], &vec![1], &vocab, floor()).expect("root only");
    assert!(dep.head.is_empty() && dep.label.is_empty());
}

#[test]
fn batch_rows_are_padded() {
    let rows = vec![vec![5, 6, 7], vec![8]];
    let width = longest(&rows);
    assert_eq!(width, 3);
    assert_eq!(pad_rows(&rows, width), Some(vec![5, 6, 7, 8, 0, 0]));
    assert_eq!(longest(&vec![]), 0);
    assert_eq!(pad_rows(&vec![], 0), Some(vec![]));
    assert_eq!(pad_rows(&vec![vec![], vec![]], usize::MAX), None);
}

#[test]
fn arc_score_positions() {
    // Batch entry 1 of rows 4 tokens wide: base 16.
    let rows = arc_positions(16, 4, &vec![0, 2, 3], 32).expect("in range");
    assert_eq!(rows, vec![vec![16, 18, 19], vec![24, 26, 27], vec![28, 30, 31]]);
    assert_eq!(arc_positions(16, 4, &vec![0, 4], 32), None);
    assert_eq!(arc_positions(0, usize::MAX, &vec![2], 10), None);
    assert_eq!(arc_positions(0, 4, &vec![], 0), Some(vec![]));
}
