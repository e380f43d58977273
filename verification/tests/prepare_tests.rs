use ltp_onnx::decode::{NUM_DEP_RELS, NUM_POS_TAGS};
use ltp_onnx::keys::key_of_bits;
use ltp_onnx::prepare::{finish_sentence, prepare_raw_sentence, prepare_segmented_sentence};
use ltp_onnx::sentence::batch_bases;
use ltp_onnx::tokenize::Tokenized;
use ltp_onnx::vocab::default_vocabs;

fn keys(xs: &[f32]) -> Vec<Option<i64>> {
    xs.iter().map(|&x| key_of_bits(x.to_bits())).collect()
}

fn floor() -> i64 {
    key_of_bits(f32::NEG_INFINITY.to_bits()).unwrap()
}

/// `[CLS]`, one token per character of `offsets`, `[SEP]`.
fn tokenized(offsets: &[(usize, usize)], word_ids: Vec<Option<u32>>) -> Tokenized {
    let mut all = vec![(0, 0)];
    all.extend_from_slice(offsets);
    all.push((0, 0));
    let n = all.len();
    Tokenized { ids: (0..n as u32).collect(), attention_mask: vec![1; n], offsets: all, word_ids }
}

/// Part-of-speech scores of `n` tokens: token `t` prefers tag `prefer[t]`.
fn pos_scores(prefer: &[usize]) -> Vec<f32> {
    let mut v = vec![0.0f32; prefer.len() * NUM_POS_TAGS];
    for (t, &p) in prefer.iter().enumerate() {
        v[t * NUM_POS_TAGS + p] = 1.0;
    }
    v
}

#[test]
fn raw_sentence_before_the_chart() {
    let text = "他被深渊";
    let t = tokenized(&[(0, 3), (3, 6), (6, 9), (9, 12)], vec![None; 6]);
    let cws = [0.0, 0.0, 1.0, 0.0, 1.0, 0.0, 1.0, 0.0, 0.0, 1.0, 0.0, 0.0];
    let pos = pos_scores(&[0, 13, 7, 0, 0, 0]);
    let (_, pos_vocab, _) = default_vocabs();
    let (words, chart) =
        prepare_raw_sentence(text, &t, &keys(&cws), &keys(&pos), 36, 0, 6, 0, &pos_vocab, floor()).expect("ready");
    assert_eq!(words, vec!["他", "被", "深渊"]);
    assert_eq!(chart.word_tokens, vec![1, 2, 3]);
    assert_eq!(chart.pos, vec!["nh", "p", "n"]);
    assert_eq!(chart.nodes, vec![0, 1, 2, 3]);
    assert_eq!(chart.arc_positions[2], vec![12, 13, 14, 15]);
    // Too few arc scores for the last pair.
    assert!(prepare_raw_sentence(text, &t, &keys(&cws), &keys(&pos), 15, 0, 6, 0, &pos_vocab, floor()).is_none());
    // The bases overflow.
    assert!(prepare_raw_sentence(text, &t, &keys(&cws), &keys(&pos), 36, usize::MAX, 6, 0, &pos_vocab, floor())
        .is_none());
}

#[test]
fn segmented_sentence_before_the_chart() {
    let word_ids = vec![None, Some(0), Some(1), Some(1), None];
    let pos = pos_scores(&[0, 1, 2, 0, 0]);
    let (_, pos_vocab, _) = default_vocabs();
    let chart = prepare_segmented_sentence(&word_ids, 5, &keys(&pos), 25, 0, 5, &pos_vocab, floor()).expect("ready");
    assert_eq!(chart.word_tokens, vec![1, 2]);
    assert_eq!(chart.pos, vec!["v", "wp"]);
    assert_eq!(chart.nodes, vec![0, 1, 2]);
    assert_eq!(chart.arc_positions, vec![vec![0, 1, 2], vec![5, 6, 7], vec![10, 11, 12]]);
    assert!(prepare_segmented_sentence(&word_ids, 5, &keys(&pos[..30]), 25, 0, 5, &pos_vocab, floor()).is_none());
}

#[test]
fn sentence_after_the_chart() {
    let n = 3;
    let mut rel = vec![0.0f32; n * n * NUM_DEP_RELS];
    // Word 1 on the root: HED; word 2 on word 1: VOB.
    rel[1 * (n * NUM_DEP_RELS) + 0 * NUM_DEP_RELS + 7] = 1.0;
    rel[2 * (n * NUM_DEP_RELS) + 1 * NUM_DEP_RELS + 3] = 1.0;
    let (_, _, dep_vocab) = default_vocabs();
    let dep = finish_sentence(&keys(&rel), 0, n, &vec![0, 1, 2], &vec![1, 0, 1], &dep_vocab, floor()).expect("ok");
    assert_eq!(dep.head, vec![0, 1]);
    assert_eq!(dep.label, vec!["HED", "VOB"]);
    assert!(finish_sentence(&keys(&rel), 0, n, &vec![0, 1, 2], &vec![1, 0, 3], &dep_vocab, floor()).is_none());
    assert!(finish_sentence(&keys(&rel), 1, n, &vec![0, 1, 2], &vec![1, 0, 1], &dep_vocab, floor()).is_none());
}

#[test]
fn sentence_in_a_batch_decodes_as_alone() {
    let text = "他被深渊";
    let t = tokenized(&[(0, 3), (3, 6), (6, 9), (9, 12)], vec![None; 6]);
    let n = 6;
    let width = 8;
    let cws = [0.0, 0.0, 1.0, 0.0, 1.0, 0.0, 1.0, 0.0, 0.0, 1.0, 0.0, 0.0];
    let pos = pos_scores(&[0, 13, 7, 0, 0, 0]);
    let (cb, pb, _, rb) = batch_bases(1, width).expect("fits");
    let mut cws_batch = vec![3.0f32; 2 * width * 2];
    cws_batch[cb..cb + cws.len()].copy_from_slice(&cws);
    let mut pos_batch = vec![2.0f32; 2 * width * NUM_POS_TAGS];
    pos_batch[pb..pb + pos.len()].copy_from_slice(&pos);
    let (_, pos_vocab, dep_vocab) = default_vocabs();
    let (words_alone, alone) =
        prepare_raw_sentence(text, &t, &keys(&cws), &keys(&pos), n * n, 0, n, 0, &pos_vocab, floor()).expect("ready");
    let (words_batch, batched) = prepare_raw_sentence(
        text,
        &t,
        &keys(&cws_batch),
        &keys(&pos_batch),
        2 * width * width,
        1,
        width,
        0,
        &pos_vocab,
        floor(),
    )
    .expect("ready");
    assert_eq!(words_batch, words_alone);
    assert_eq!(batched.pos, alone.pos);
    assert_eq!(batched.nodes, alone.nodes);

    let mut rel_alone = vec![0.0f32; n * n * NUM_DEP_RELS];
    rel_alone[1 * (n * NUM_DEP_RELS) + 0 * NUM_DEP_RELS + 7] = 1.0;
    rel_alone[3 * (n * NUM_DEP_RELS) + 2 * NUM_DEP_RELS + 4] = 1.0;
    let mut rel_batch = vec![1.5f32; 2 * width * width * NUM_DEP_RELS];
    for d in 0..n {
        for h in 0..n {
            let from = d * (n * NUM_DEP_RELS) + h * NUM_DEP_RELS;
            let to = rb + d * (width * NUM_DEP_RELS) + h * NUM_DEP_RELS;
            rel_batch[to..to + NUM_DEP_RELS].copy_from_slice(&rel_alone[from..from + NUM_DEP_RELS]);
        }
    }
    let heads = vec![1, 0, 3, 1];
    let a = finish_sentence(&keys(&rel_alone), 0, n, &alone.nodes, &heads, &dep_vocab, floor()).expect("ok");
    let b = finish_sentence(&keys(&rel_batch), 1, width, &batched.nodes, &heads, &dep_vocab, floor()).expect("ok");
    assert_eq!((a.head, a.label), (b.head, b.label));
}
