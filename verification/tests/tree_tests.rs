use ltp_onnx::decode::{arc_positions, dependencies, dependency_nodes, pos_tags, NUM_DEP_RELS, NUM_POS_TAGS};
use ltp_onnx::segment::{char_spans, cws_tags, word_spans};
use ltp_onnx::text::slice_spans;
use ltp_onnx::vocab::{default_vocabs, word_begin_label};
use ltp_onnx::tree::{backtrack, decode_heads, splits_sound, tables_square};

fn zeros(n: usize) -> Vec<Vec<usize>> {
    vec![vec![0; n]; n]
}

/// Every position but the root follows its heads to the root.
fn is_tree(heads: &[usize]) -> bool {
    let n = heads.len();
    for k in 1..n {
        let mut x = k;
        let mut steps = 0;
        while x != 0 {
            if heads[x] >= n || heads[x] == x || steps > n {
                return false;
            }
            x = heads[x];
            steps += 1;
        }
    }
    true
}

/// Every position strictly between a word and its head leads to that head.
fn is_projective(heads: &[usize]) -> bool {
    let n = heads.len();
    for d in 1..n {
        let h = heads[d];
        let (lo, hi) = if d < h { (d, h) } else { (h, d) };
        for k in (lo + 1)..hi {
            let mut x = k;
            let mut steps = 0;
            while x != h {
                if x == 0 || steps > n {
                    return false;
                }
                x = heads[x];
                steps += 1;
            }
        }
    }
    true
}

#[test]
fn both_words_attach_to_root() {
    let mut p_i = zeros(3);
    let mut p_c = zeros(3);
    p_c[0][2] = 2;
    p_i[0][2] = 1;
    p_c[0][1] = 1;
    p_i[0][1] = 0;
    let heads = decode_heads(&p_i, &p_c, 3).expect("sound tables");
    assert_eq!(heads, vec![1, 0, 0]);
    assert!(is_tree(&heads));
    assert!(is_projective(&heads));
}

#[test]
fn first_word_attaches_to_second() {
    let mut p_i = zeros(3);
    let mut p_c = zeros(3);
    p_c[0][2] = 2;
    p_i[0][2] = 0;
    p_c[2][1] = 1;
    p_i[2][1] = 1;
    let heads = decode_heads(&p_i, &p_c, 3).expect("sound tables");
    assert_eq!(heads, vec![1, 2, 0]);
    assert!(is_tree(&heads));
    assert!(is_projective(&heads));
}

#[test]
fn single_root_keeps_initial_head() {
    let p = zeros(1);
    let heads = decode_heads(&p, &p, 1).expect("one node");
    assert_eq!(heads, vec![1]);
}

#[test]
fn empty_sentence_is_refused() {
    let p: Vec<Vec<usize>> = Vec::new();
    assert_eq!(decode_heads(&p, &p, 0), None);
}

#[test]
fn split_point_outside_span_is_refused() {
    let p_i = zeros(3);
    let p_c = zeros(3);
    // p_c[0][2] == 0 does not lie in (0, 2].
    assert!(!splits_sound(&p_i, &p_c, 0, 2, true));
    assert_eq!(decode_heads(&p_i, &p_c, 3), None);
}

#[test]
fn tables_of_wrong_shape_are_refused() {
    let p_i = zeros(3);
    let mut p_c = zeros(3);
    p_c[1].pop();
    assert!(!tables_square(&p_i, &p_c, 3));
    assert!(tables_square(&p_i, &p_i, 3));
    assert_eq!(decode_heads(&p_i, &p_c, 3), None);
}

#[test]
fn backtrack_writes_only_its_span() {
    // Span (0, 1) of a four-node chart: only position 1 changes.
    let p_i = zeros(4);
    let mut p_c = zeros(4);
    p_c[0][1] = 1;
    let mut heads = vec![7, 7, 7, 7];
    backtrack(&p_i, &p_c, &mut heads, 0, 1, true);
    assert_eq!(heads, vec![7, 0, 7, 7]);
}

/// A small floating-point Eisner chart, to check that the split points it
/// records decode to the best projective tree.
fn chart(scores: &[Vec<f32>]) -> (Vec<Vec<usize>>, Vec<Vec<usize>>) {
    let n = scores.len();
    let ninf = f32::NEG_INFINITY;
    let mut s_i = vec![vec![ninf; n]; n];
    let mut s_c = vec![vec![ninf; n]; n];
    let mut p_i = vec![vec![0; n]; n];
    let mut p_c = vec![vec![0; n]; n];
    for i in 0..n {
        s_c[i][i] = 0.0;
    }
    for w in 1..n {
        for i in 0..(n - w) {
            let j = i + w;
            let (mut max_il, mut arg_il, mut max_ir, mut arg_ir) = (ninf, 0, ninf, 0);
            for r in i..j {
                let v = s_c[i][r] + s_c[j][r + 1];
                if v + scores[i][j] > max_il {
                    max_il = v + scores[i][j];
                    arg_il = r;
                }
                if v + scores[j][i] > max_ir {
                    max_ir = v + scores[j][i];
                    arg_ir = r;
                }
            }
            s_i[j][i] = max_il;
            p_i[j][i] = arg_il;
            s_i[i][j] = max_ir;
            p_i[i][j] = arg_ir;
            let (mut max_cl, mut arg_cl) = (ninf, 0);
            for r in i..j {
                let v = s_c[r][i] + s_i[j][r];
                if v > max_cl {
                    max_cl = v;
                    arg_cl = r;
                }
            }
            s_c[j][i] = max_cl;
            p_c[j][i] = arg_cl;
            let (mut max_cr, mut arg_cr) = (ninf, 0);
            for r in (i + 1)..=j {
                let v = s_i[i][r] + s_c[r][j];
                if v > max_cr {
                    max_cr = v;
                    arg_cr = r;
                }
            }
            if i == 0 && w != n - 1 {
                s_c[i][j] = ninf;
            } else {
                s_c[i][j] = max_cr;
                p_c[i][j] = arg_cr;
            }
        }
    }
    (p_i, p_c)
}

#[test]
fn chart_of_scores_decodes_to_best_tree() {
    let ninf = f32::NEG_INFINITY;
    // scores[d][h]: dependent d, head h; row 0 and the diagonal are excluded.
    let scores = vec![
        vec![ninf, ninf, ninf, ninf],
        vec![0.0, ninf, 5.0, 0.0],
        vec![4.0, 0.0, ninf, 0.0],
        vec![0.0, 0.0, 5.0, ninf],
    ];
    let (p_i, p_c) = chart(&scores);
    let heads = decode_heads(&p_i, &p_c, 4).expect("a chart of finite scores is sound");
    assert_eq!(heads, vec![1, 2, 0, 2]);
    assert!(is_tree(&heads));
    assert!(is_projective(&heads));
}

fn key(x: f32) -> Option<i64> {
    if x.is_nan() {
        None
    } else if x == 0.0 {
        Some(0)
    } else {
        let bits = x.to_bits();
        let mag = (bits & 0x7fff_ffff) as i64;
        if bits >> 31 == 1 {
            Some(-mag)
        } else {
            Some(mag)
        }
    }
}

#[test]
fn raw_sentence_decodes_to_words_tags_and_tree() {
    let input = "他被深渊凝视着。";
    let seq_len = 10; // [CLS], eight characters, [SEP]
    let mut offsets = vec![(0usize, 0usize)];
    for c in 0..8 {
        offsets.push((3 * c, 3 * c + 3));
    }
    offsets.push((0, 0));
    let floor = key(f32::NEG_INFINITY).unwrap();
    let (cws_vocab, pos_vocab, dep_vocab) = default_vocabs();

    // Segmentation: characters 4 (渊) and 6 (视) continue a word.
    let mut cws = vec![0.0f32; seq_len * 2];
    for t in 1..9 {
        let inside = t == 4 || t == 6;
        cws[2 * t] = if inside { 0.0 } else { 1.0 };
        cws[2 * t + 1] = if inside { 1.0 } else { 0.0 };
    }
    let cws: Vec<Option<i64>> = cws.iter().map(|&x| key(x)).collect();
    let (char_idx, char_pos) = char_spans(&offsets, seq_len, input.len());
    let tags = cws_tags(&cws, 0, &char_idx).unwrap();
    let (spans, word_tokens) = word_spans(&tags, &char_idx, &char_pos, word_begin_label(&cws_vocab));
    let words = slice_spans(input, &spans).unwrap();
    assert_eq!(words, vec!["他", "被", "深渊", "凝视", "着", "。"]);

    // Part of speech: r, p, n, v, u, wp.
    let mut pos = vec![0.0f32; seq_len * NUM_POS_TAGS];
    for (w, tag) in word_tokens.iter().zip([8usize, 7, 0, 1, 3, 2]) {
        pos[w * NUM_POS_TAGS + tag] = 5.0;
    }
    let pos: Vec<Option<i64>> = pos.iter().map(|&x| key(x)).collect();
    let tags = pos_tags(&pos, 0, &word_tokens, &pos_vocab, floor).unwrap();
    assert_eq!(tags, vec!["r", "p", "n", "v", "u", "wp"]);

    // Dependencies: heads 4, 4, 2, 0, 4, 4 scored above every other arc.
    let gold = [4usize, 4, 2, 0, 4, 4];
    let nodes = dependency_nodes(&word_tokens);
    let n = nodes.len();
    let mut arc = vec![0.0f32; seq_len * seq_len];
    for (d, &h) in gold.iter().enumerate() {
        arc[nodes[d + 1] * seq_len + nodes[h]] = 10.0;
    }
    let positions = arc_positions(0, seq_len, &nodes, arc.len()).unwrap();
    let mut scores = vec![vec![0.0f32; n]; n];
    for i in 0..n {
        for j in 0..n {
            scores[i][j] = if i == j || (i == 0 && j >= 1) { f32::NEG_INFINITY } else { arc[positions[i][j]] };
        }
    }
    let (p_i, p_c) = chart(&scores);
    let heads = decode_heads(&p_i, &p_c, n).unwrap();
    let mut rel = vec![0.0f32; seq_len * seq_len * NUM_DEP_RELS];
    for (d, (&h, label)) in gold.iter().zip([11usize, 2, 8, 7, 6, 1]).enumerate() {
        rel[nodes[d + 1] * seq_len * NUM_DEP_RELS + nodes[h] * NUM_DEP_RELS + label] = 3.0;
    }
    let rel: Vec<Option<i64>> = rel.iter().map(|&x| key(x)).collect();
    let dep = dependencies(&rel, 0, seq_len, &nodes, &heads, &dep_vocab, floor).unwrap();
    assert_eq!(dep.head, vec![4, 4, 2, 0, 4, 4]);
    assert_eq!(dep.label, vec!["FOB", "ADV", "POB", "HED", "RAD", "WP"]);
}

#[test]
fn root_has_one_dependent_exactly_when_its_span_splits_at_zero() {
    let roots = |heads: &Vec<usize>| heads.iter().skip(1).filter(|&&h| h == 0).count();
    // p_i[0][p_c[0][2]] == 1: two words on the root.
    let mut p_i = zeros(3);
    let mut p_c = zeros(3);
    p_c[0][2] = 2;
    p_i[0][2] = 1;
    p_c[0][1] = 1;
    let heads = decode_heads(&p_i, &p_c, 3).expect("sound tables");
    assert_eq!(heads[2], 0);
    assert_eq!(roots(&heads), 2);
    // p_i[0][p_c[0][2]] == 0: only word 2 on the root.
    let mut p_i = zeros(3);
    let mut p_c = zeros(3);
    p_c[0][2] = 2;
    p_c[2][1] = 1;
    p_i[2][1] = 1;
    let heads = decode_heads(&p_i, &p_c, 3).expect("sound tables");
    assert_eq!(heads[2], 0);
    assert_eq!(roots(&heads), 1);
}
