//! One sentence of a batch around Eisner's chart.  Before the chart: its
//! words and their tags, the nodes of its tree and the place of every arc
//! score.  After the chart: the dependencies that the chart's heads give.
//! And the law that decoding a sentence within a batch gives what decoding
//! it alone gives, when the model's scores for it agree.
use vstd::prelude::*;
use vstd::string::StringSliceAdditionalSpecFns;
use vstd::utf8::encode_utf8;
use crate::decode::{arc_pos, dependencies, deps_ok, pos_choice, pos_ok, pos_tags, rel_choice};
use crate::results::DepResult;
use crate::segment::{char_spans_spec, cws_tags_ok, first_subtokens, lemma_char_scan, subword_scan};
use crate::sentence::{
    arc_layout,
    batch_bases,
    batch_bases_fit,
    batch_bases_spec,
    cws_rows_agree,
    lemma_batched_pos_agree,
    lemma_batched_rels_agree,
    lemma_batched_tags_agree,
    pos_rows_agree,
    rel_rows_agree,
    sentence_words,
    spans_spec,
    tags_spec,
    word_tokens_spec,
};
use crate::text::span_ok;
use crate::tokenize::Tokenized;

verus! {

/// What the chart and the labels of a sentence need: the token where every
/// word starts, the words' part-of-speech tags, the nodes of the tree (the
/// root, then the words) and, row `i` column `j`, the position of the arc
/// score of node `i` as dependent of node `j`.
pub struct ChartInput {
    pub word_tokens: Vec<usize>,
    pub pos: Vec<String>,
    pub nodes: Vec<usize>,
    pub arc_positions: Vec<Vec<usize>>,
}

/// The word spans and word tokens of a sentence of raw text of `n` tokens,
/// from its bytes, its token offsets and its segmentation scores from `base`.
pub open spec fn raw_plan(
    input: Seq<u8>,
    offsets: Seq<(usize, usize)>,
    n: int,
    cws: Seq<Option<i64>>,
    base: int,
    b_w: usize,
) -> (Seq<(usize, usize)>, Seq<usize>) {
    let chars = char_spans_spec(offsets, n, input.len() as usize);
    let tags = tags_spec(cws, base, chars.0);
    (spans_spec(tags, chars.1, b_w), word_tokens_spec(tags, chars.0, b_w))
}

/// The part-of-speech tag of every word.
pub open spec fn pos_labels(
    pos: Seq<Option<i64>>,
    base: int,
    word_tokens: Seq<usize>,
    vocab: Seq<String>,
    floor: i64,
) -> Seq<String> {
    Seq::new(word_tokens.len(), |m: int| vocab[pos_choice(pos, base, word_tokens[m] as int, floor)])
}

/// The arc score of every pair of nodes lies below `len`.
pub open spec fn arcs_fit(base: int, width: int, nodes: Seq<usize>, len: int) -> bool {
    forall|i: int, j: int|
        0 <= i < nodes.len() && 0 <= j < nodes.len() ==> arc_pos(
            base,
            width,
            #[trigger] nodes[i] as int,
            #[trigger] nodes[j] as int,
        ) < len
}

/// Decoding a sentence of raw text (sentence `b` of rows `width` tokens long)
/// can go as far as the chart: the bases fit, the segmentation scores of its
/// characters exist, its words lie on character boundaries, the tags of its
/// words exist in scores and vocabulary, and its arc scores exist.
pub open spec fn raw_ready(
    input: Seq<u8>,
    offsets: Seq<(usize, usize)>,
    n: int,
    cws: Seq<Option<i64>>,
    pos: Seq<Option<i64>>,
    arc_len: int,
    b: int,
    width: int,
    b_w: usize,
    vocab_len: int,
    floor: i64,
) -> bool {
    let bases = batch_bases_spec(b, width);
    let chars = char_spans_spec(offsets, n, input.len() as usize);
    let plan = raw_plan(input, offsets, n, cws, bases.0, b_w);
    &&& batch_bases_fit(b, width)
    &&& cws_tags_ok(cws, bases.0, chars.0)
    &&& forall|k: int| 0 <= k < plan.0.len() ==> span_ok(input, #[trigger] plan.0[k])
    &&& pos_ok(pos, bases.1, plan.1, vocab_len, floor)
    &&& arcs_fit(bases.2, width, seq![0usize] + plan.1, arc_len)
}

/// `c` holds the given word tokens, their tags, the nodes and the positions
/// of the arc scores from `base` in rows of `width`.
pub open spec fn chart_input_is(
    c: ChartInput,
    word_tokens: Seq<usize>,
    pos: Seq<Option<i64>>,
    pos_base: int,
    vocab: Seq<String>,
    floor: i64,
    arc_base: int,
    width: int,
) -> bool {
    &&& c.word_tokens@ == word_tokens
    &&& c.pos@ == pos_labels(pos, pos_base, word_tokens, vocab, floor)
    &&& c.nodes@ == seq![0usize] + word_tokens
    &&& c.arc_positions@.len() == c.nodes@.len()
    &&& forall|i: int|
        0 <= i < c.nodes@.len() ==> {
            &&& (#[trigger] c.arc_positions@[i])@.len() == c.nodes@.len()
            &&& forall|j: int|
                0 <= j < c.nodes@.len() ==> #[trigger] c.arc_positions@[i]@[j] == arc_pos(
                    arc_base,
                    width,
                    c.nodes@[i] as int,
                    c.nodes@[j] as int,
                )
        }
}

/// Tags, nodes and arc positions of a sentence whose words start at
/// `word_tokens`.
fn chart_input(
    word_tokens: Vec<usize>,
    pos_keys: &[Option<i64>],
    pos_base: usize,
    arc_base: usize,
    width: usize,
    arc_len: usize,
    pos_vocab: &Vec<String>,
    floor: i64,
) -> (res: Option<ChartInput>)
    ensures
        res is Some <==> pos_ok(pos_keys@, pos_base as int, word_tokens@, pos_vocab@.len() as int, floor)
            && arcs_fit(arc_base as int, width as int, seq![0usize] + word_tokens@, arc_len as int),
        res matches Some(c) ==> chart_input_is(
            c,
            word_tokens@,
            pos_keys@,
            pos_base as int,
            pos_vocab@,
            floor,
            arc_base as int,
            width as int,
        ),
{
    let pos = match pos_tags(pos_keys, pos_base, &word_tokens, pos_vocab, floor) {
        Some(x) => x,
        None => {
            return None;
        },
    };
    assert(pos@ =~= pos_labels(pos_keys@, pos_base as int, word_tokens@, pos_vocab@, floor));
    let (nodes, arc_positions) = match arc_layout(arc_base, width, &word_tokens, arc_len) {
        Some(x) => x,
        None => {
            assert(!arcs_fit(arc_base as int, width as int, seq![0usize] + word_tokens@, arc_len as int));
            return None;
        },
    };
    Some(ChartInput { word_tokens, pos, nodes, arc_positions })
}

/// Everything that decoding sentence `b` of raw text `input` (of a batch
/// whose rows are `width` tokens long) settles before the chart: its words,
/// the token where each starts, their tags, the nodes and the positions of
/// the arc scores.  `None` exactly when `raw_ready` fails.
pub fn prepare_raw_sentence(
    input: &str,
    t: &Tokenized,
    cws_keys: &[Option<i64>],
    pos_keys: &[Option<i64>],
    arc_len: usize,
    b: usize,
    width: usize,
    b_w: usize,
    pos_vocab: &Vec<String>,
    floor: i64,
) -> (res: Option<(Vec<String>, ChartInput)>)
    requires
        t.ids@.len() <= 2 || t.ids@.len() - 1 <= t.offsets@.len(),
    ensures
        res is Some <==> raw_ready(
            input.spec_bytes(),
            t.offsets@,
            t.ids@.len() as int,
            cws_keys@,
            pos_keys@,
            arc_len as int,
            b as int,
            width as int,
            b_w,
            pos_vocab@.len() as int,
            floor,
        ),
        res matches Some(r) ==> {
            let bases = batch_bases_spec(b as int, width as int);
            let plan = raw_plan(input.spec_bytes(), t.offsets@, t.ids@.len() as int, cws_keys@, bases.0, b_w);
            &&& r.0@.len() == plan.0.len()
            &&& forall|k: int|
                0 <= k < plan.0.len() ==> encode_utf8(#[trigger] r.0@[k]@) == input.spec_bytes().subrange(
                    plan.0[k].0 as int,
                    plan.0[k].1 as int,
                )
            &&& chart_input_is(r.1, plan.1, pos_keys@, bases.1, pos_vocab@, floor, bases.2, width as int)
        },
{
    let (cws_base, pos_base, arc_base, _) = match batch_bases(b, width) {
        Some(x) => x,
        None => {
            return None;
        },
    };
    let (words, word_tokens) = match sentence_words(input, t, cws_keys, cws_base, b_w) {
        Some(x) => x,
        None => {
            return None;
        },
    };
    match chart_input(word_tokens, pos_keys, pos_base, arc_base, width, arc_len, pos_vocab, floor) {
        Some(c) => Some((words, c)),
        None => None,
    }
}

/// Decoding a pre-segmented sentence of `n` tokens (sentence `b` of rows
/// `width` tokens long) can go as far as the chart: the bases fit, the tags
/// of its words exist in scores and vocabulary, and its arc scores exist.
pub open spec fn segmented_ready(
    word_ids: Seq<Option<u32>>,
    n: int,
    pos: Seq<Option<i64>>,
    arc_len: int,
    b: int,
    width: int,
    vocab_len: int,
    floor: i64,
) -> bool {
    let bases = batch_bases_spec(b, width);
    let firsts = subword_scan(word_ids, n - 1).0;
    &&& batch_bases_fit(b, width)
    &&& pos_ok(pos, bases.1, firsts, vocab_len, floor)
    &&& arcs_fit(bases.2, width, seq![0usize] + firsts, arc_len)
}

/// Everything that decoding pre-segmented sentence `b` (of a batch whose rows
/// are `width` tokens long, its own `seq_len` tokens long) settles before the
/// chart: the first token of every word, their tags, the nodes and the
/// positions of the arc scores.  `None` exactly when `segmented_ready` fails.
pub fn prepare_segmented_sentence(
    word_ids: &[Option<u32>],
    seq_len: usize,
    pos_keys: &[Option<i64>],
    arc_len: usize,
    b: usize,
    width: usize,
    pos_vocab: &Vec<String>,
    floor: i64,
) -> (res: Option<ChartInput>)
    requires
        1 <= seq_len,
        seq_len - 1 <= word_ids@.len(),
    ensures
        res is Some <==> segmented_ready(
            word_ids@,
            seq_len as int,
            pos_keys@,
            arc_len as int,
            b as int,
            width as int,
            pos_vocab@.len() as int,
            floor,
        ),
        res matches Some(c) ==> {
            let bases = batch_bases_spec(b as int, width as int);
            chart_input_is(
                c,
                subword_scan(word_ids@, seq_len - 1).0,
                pos_keys@,
                bases.1,
                pos_vocab@,
                floor,
                bases.2,
                width as int,
            )
        },
{
    let (_, pos_base, arc_base, _) = match batch_bases(b, width) {
        Some(x) => x,
        None => {
            return None;
        },
    };
    let firsts = first_subtokens(word_ids, seq_len);
    chart_input(firsts, pos_keys, pos_base, arc_base, width, arc_len, pos_vocab, floor)
}

/// The relation label of every node after the root.
pub open spec fn dep_labels(
    rel: Seq<Option<i64>>,
    base: int,
    width: int,
    nodes: Seq<usize>,
    heads: Seq<usize>,
    vocab: Seq<String>,
    floor: i64,
) -> Seq<String> {
    Seq::new(
        (nodes.len() - 1) as nat,
        |k: int| vocab[rel_choice(rel, base, width, nodes, heads, k + 1, floor)],
    )
}

/// The dependencies of sentence `b` (of a batch whose rows are `width`
/// tokens long) once the chart has given the `heads` of its `nodes`: the
/// head and the relation label of every word.  `None` exactly when the bases
/// overflow or `deps_ok` fails.
pub fn finish_sentence(
    rel_keys: &[Option<i64>],
    b: usize,
    width: usize,
    nodes: &Vec<usize>,
    heads: &Vec<usize>,
    dep_vocab: &Vec<String>,
    floor: i64,
) -> (res: Option<DepResult>)
    requires
        nodes@.len() >= 1,
    ensures
        res is Some <==> batch_bases_fit(b as int, width as int) && deps_ok(
            rel_keys@,
            batch_bases_spec(b as int, width as int).3,
            width as int,
            nodes@,
            heads@,
            dep_vocab@.len() as int,
            floor,
        ),
        res matches Some(dep) ==> {
            &&& dep.head@ == heads@.subrange(1, nodes@.len() as int)
            &&& dep.label@ == dep_labels(
                rel_keys@,
                batch_bases_spec(b as int, width as int).3,
                width as int,
                nodes@,
                heads@,
                dep_vocab@,
                floor,
            )
        },
{
    let (_, _, _, rel_base) = match batch_bases(b, width) {
        Some(x) => x,
        None => {
            return None;
        },
    };
    let res = dependencies(rel_keys, rel_base, width, nodes, heads, dep_vocab, floor);
    match res {
        Some(dep) => {
            assert(dep.label@ =~= dep_labels(
                rel_keys@,
                rel_base as int,
                width as int,
                nodes@,
                heads@,
                dep_vocab@,
                floor,
            )) by {
                assert forall|k: int| 0 <= k < dep.label@.len() implies dep.label@[k] == dep_labels(
                    rel_keys@,
                    rel_base as int,
                    width as int,
                    nodes@,
                    heads@,
                    dep_vocab@,
                    floor,
                )[k] by {
                    assert(dep.label@[(k + 1) - 1] == dep.label@[k]);
                }
            }
            Some(dep)
        },
        None => None,
    }
}

/// The arc scores of every pair of the first `n` tokens lie within the
/// batch's `batch_len` scores from `base` in rows of `width`, and within the
/// `alone_len` scores of the sentence run alone.
pub open spec fn arc_rows_exist(base: int, width: int, batch_len: int, alone_len: int, n: int) -> bool {
    forall|d: int, h: int|
        0 <= d < n && 0 <= h < n ==> #[trigger] arc_pos(base, width, d, h) < batch_len && arc_pos(0, n, d, h)
            < alone_len
}

/// Law: decoding a sentence of raw text of `n` tokens as sentence `b` of a
/// batch whose rows are `width` tokens long settles, before the chart, what
/// decoding it alone settles, when its segmentation and part-of-speech
/// scores agree and its arc scores exist in both: the same words, word
/// tokens and tags, and one gets as far as the chart exactly when the other
/// does.
pub proof fn lemma_batched_raw_sentence_agrees(
    input: Seq<u8>,
    offsets: Seq<(usize, usize)>,
    n: int,
    b: int,
    width: int,
    cws_batch: Seq<Option<i64>>,
    pos_batch: Seq<Option<i64>>,
    arc_batch_len: int,
    cws_alone: Seq<Option<i64>>,
    pos_alone: Seq<Option<i64>>,
    arc_alone_len: int,
    b_w: usize,
    vocab: Seq<String>,
    floor: i64,
)
    requires
        0 <= b,
        0 <= width,
        1 <= n,
        n <= 2 || n - 1 <= offsets.len(),
        offsets.len() <= usize::MAX,
        batch_bases_fit(b, width),
        batch_bases_fit(0, n),
        cws_rows_agree(cws_batch, batch_bases_spec(b, width).0, cws_alone, n),
        pos_rows_agree(pos_batch, batch_bases_spec(b, width).1, pos_alone, n),
        arc_rows_exist(batch_bases_spec(b, width).2, width, arc_batch_len, arc_alone_len, n),
    ensures
        ({
            let bb = batch_bases_spec(b, width);
            let plan = raw_plan(input, offsets, n, cws_batch, bb.0, b_w);
            &&& plan == raw_plan(input, offsets, n, cws_alone, 0, b_w)
            &&& pos_labels(pos_batch, bb.1, plan.1, vocab, floor) == pos_labels(pos_alone, 0, plan.1, vocab, floor)
            &&& raw_ready(
                input,
                offsets,
                n,
                cws_batch,
                pos_batch,
                arc_batch_len,
                b,
                width,
                b_w,
                vocab.len() as int,
                floor,
            ) == raw_ready(
                input,
                offsets,
                n,
                cws_alone,
                pos_alone,
                arc_alone_len,
                0,
                n,
                b_w,
                vocab.len() as int,
                floor,
            )
        }),
{
    let bb = batch_bases_spec(b, width);
    let chars = char_spans_spec(offsets, n, input.len() as usize);
    if n > 2 {
        lemma_char_scan(offsets, n - 1);
    }
    assert forall|m: int| 0 <= m < chars.0.len() implies #[trigger] chars.0[m] + 1 < n by {}
    lemma_batched_tags_agree(cws_batch, bb.0, cws_alone, n, chars.0);
    assert(batch_bases_spec(0, n).0 == 0 && batch_bases_spec(0, n).1 == 0 && batch_bases_spec(0, n).2 == 0)
        by (nonlinear_arith);
    let plan = raw_plan(input, offsets, n, cws_batch, bb.0, b_w);
    lemma_raw_plan_tokens_below(input, offsets, n, cws_batch, bb.0, b_w);
    lemma_batched_pos_agree(pos_batch, bb.1, pos_alone, n, plan.1, vocab.len() as int, floor);
    assert(pos_labels(pos_batch, bb.1, plan.1, vocab, floor) =~= pos_labels(pos_alone, 0, plan.1, vocab, floor));
    let nodes = seq![0usize] + plan.1;
    assert forall|i: int| 0 <= i < nodes.len() implies #[trigger] nodes[i] < n by {
        if i > 0 {
            assert(nodes[i] == plan.1[i - 1]);
        }
    }
    lemma_arcs_fit_both(bb.2, width, arc_batch_len, arc_alone_len, n, nodes);
}

/// The word tokens of a raw sentence of `n` tokens lie below `n`.
proof fn lemma_raw_plan_tokens_below(
    input: Seq<u8>,
    offsets: Seq<(usize, usize)>,
    n: int,
    cws: Seq<Option<i64>>,
    base: int,
    b_w: usize,
)
    requires
        n <= 2 || n - 1 <= offsets.len(),
        offsets.len() <= usize::MAX,
    ensures
        forall|m: int|
            0 <= m < raw_plan(input, offsets, n, cws, base, b_w).1.len() ==> #[trigger] raw_plan(
                input,
                offsets,
                n,
                cws,
                base,
                b_w,
            ).1[m] < n,
{
    let chars = char_spans_spec(offsets, n, input.len() as usize);
    if n > 2 {
        lemma_char_scan(offsets, n - 1);
    }
    let tags = tags_spec(cws, base, chars.0);
    crate::segment::lemma_word_starts(tags, b_w, tags.len() as int);
}

/// Arc positions of nodes below `n` fit in both score sets.
proof fn lemma_arcs_fit_both(base: int, width: int, batch_len: int, alone_len: int, n: int, nodes: Seq<usize>)
    requires
        arc_rows_exist(base, width, batch_len, alone_len, n),
        forall|i: int| 0 <= i < nodes.len() ==> #[trigger] nodes[i] < n,
    ensures
        arcs_fit(base, width, nodes, batch_len),
        arcs_fit(0, n, nodes, alone_len),
{
    assert forall|i: int, j: int| 0 <= i < nodes.len() && 0 <= j < nodes.len() implies arc_pos(
        base,
        width,
        #[trigger] nodes[i] as int,
        #[trigger] nodes[j] as int,
    ) < batch_len && arc_pos(0, n, nodes[i] as int, nodes[j] as int) < alone_len by {
        assert(arc_pos(base, width, nodes[i] as int, nodes[j] as int) < batch_len);
    }
}

/// Law: decoding a pre-segmented sentence of `n` tokens as sentence `b` of
/// a batch whose rows are `width` tokens long settles, before the chart,
/// what decoding it alone settles, when its part-of-speech scores agree and
/// its arc scores exist in both: the same word tokens and tags, and one gets
/// as far as the chart exactly when the other does.
pub proof fn lemma_batched_segmented_sentence_agrees(
    word_ids: Seq<Option<u32>>,
    n: int,
    b: int,
    width: int,
    pos_batch: Seq<Option<i64>>,
    arc_batch_len: int,
    pos_alone: Seq<Option<i64>>,
    arc_alone_len: int,
    vocab: Seq<String>,
    floor: i64,
)
    requires
        0 <= b,
        0 <= width,
        1 <= n,
        n - 1 <= word_ids.len(),
        word_ids.len() <= usize::MAX,
        batch_bases_fit(b, width),
        batch_bases_fit(0, n),
        pos_rows_agree(pos_batch, batch_bases_spec(b, width).1, pos_alone, n),
        arc_rows_exist(batch_bases_spec(b, width).2, width, arc_batch_len, arc_alone_len, n),
    ensures
        ({
            let bb = batch_bases_spec(b, width);
            let firsts = subword_scan(word_ids, n - 1).0;
            &&& pos_labels(pos_batch, bb.1, firsts, vocab, floor) == pos_labels(pos_alone, 0, firsts, vocab, floor)
            &&& segmented_ready(word_ids, n, pos_batch, arc_batch_len, b, width, vocab.len() as int, floor)
                == segmented_ready(word_ids, n, pos_alone, arc_alone_len, 0, n, vocab.len() as int, floor)
        }),
{
    let bb = batch_bases_spec(b, width);
    let firsts = subword_scan(word_ids, n - 1).0;
    if n >= 2 {
        crate::segment::lemma_subword_scan(word_ids, n - 1);
    }
    assert(batch_bases_spec(0, n).1 == 0 && batch_bases_spec(0, n).2 == 0) by (nonlinear_arith);
    lemma_batched_pos_agree(pos_batch, bb.1, pos_alone, n, firsts, vocab.len() as int, floor);
    assert(pos_labels(pos_batch, bb.1, firsts, vocab, floor) =~= pos_labels(pos_alone, 0, firsts, vocab, floor));
    lemma_arcs_fit_both(bb.2, width, arc_batch_len, arc_alone_len, n, seq![0usize] + firsts);
}

/// Law: once the chart has given the same heads, finishing sentence `b` of a
/// batch whose rows are `width` tokens long gives what finishing the
/// sentence alone gives, when the relation scores of its pairs of tokens
/// agree: the same heads and labels, and one succeeds exactly when the
/// other does.
pub proof fn lemma_batched_finish_agrees(
    n: int,
    b: int,
    width: int,
    rel_batch: Seq<Option<i64>>,
    rel_alone: Seq<Option<i64>>,
    nodes: Seq<usize>,
    heads: Seq<usize>,
    vocab: Seq<String>,
    floor: i64,
)
    requires
        0 <= b,
        0 <= width,
        batch_bases_fit(b, width),
        batch_bases_fit(0, n),
        rel_rows_agree(rel_batch, batch_bases_spec(b, width).3, width, rel_alone, n),
        forall|t: int| 0 <= t < nodes.len() ==> #[trigger] nodes[t] < n,
        nodes.len() >= 1,
    ensures
        deps_ok(rel_batch, batch_bases_spec(b, width).3, width, nodes, heads, vocab.len() as int, floor)
            == deps_ok(rel_alone, batch_bases_spec(0, n).3, n, nodes, heads, vocab.len() as int, floor),
        deps_ok(rel_batch, batch_bases_spec(b, width).3, width, nodes, heads, vocab.len() as int, floor)
            ==> dep_labels(rel_batch, batch_bases_spec(b, width).3, width, nodes, heads, vocab, floor)
            == dep_labels(rel_alone, batch_bases_spec(0, n).3, n, nodes, heads, vocab, floor),
{
    let rb = batch_bases_spec(b, width).3;
    assert(batch_bases_spec(0, n).3 == 0) by (nonlinear_arith);
    lemma_batched_rels_agree(rel_batch, rb, width, rel_alone, n, nodes, heads, vocab.len() as int, floor);
    if deps_ok(rel_batch, rb, width, nodes, heads, vocab.len() as int, floor) {
        assert(dep_labels(rel_batch, rb, width, nodes, heads, vocab, floor) =~= dep_labels(
            rel_alone,
            0,
            n,
            nodes,
            heads,
            vocab,
            floor,
        )) by {
            assert forall|k: int| 0 <= k < nodes.len() - 1 implies dep_labels(
                rel_batch,
                rb,
                width,
                nodes,
                heads,
                vocab,
                floor,
            )[k] == dep_labels(rel_alone, 0, n, nodes, heads, vocab, floor)[k] by {
                assert(heads[k + 1] < nodes.len());
            }
        }
    }
}

} // verus!
