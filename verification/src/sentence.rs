//! One sentence of a batch, between the model's scores and the labels: its
//! words, cut from the text where the segmentation tags start them, and the
//! nodes of its dependency tree with the place of every arc score.
use vstd::prelude::*;
use vstd::string::StringSliceAdditionalSpecFns;
use vstd::utf8::encode_utf8;
use crate::decode::{arc_pos, arc_positions, dependency_nodes, deps_ok, pos_choice, pos_ok, pos_row, rel_choice, rel_row};
use crate::keys::key_gt;
use crate::segment::{char_spans, char_spans_spec, cws_row, cws_tags, cws_tags_ok, word_end, word_spans, word_starts};
use crate::text::{slice_spans, span_ok};
use crate::tokenize::Tokenized;

verus! {

/// The segmentation tag of every character: 1 where the second segmentation
/// score of its first token is greater than the first, else 0.
pub open spec fn tags_spec(cws_keys: Seq<Option<i64>>, base: int, char_idx: Seq<usize>) -> Seq<usize> {
    Seq::new(
        char_idx.len(),
        |m: int|
            if key_gt(
                cws_keys[cws_row(base, char_idx[m] + 1) + 1],
                cws_keys[cws_row(base, char_idx[m] + 1)],
            ) {
                1usize
            } else {
                0usize
            },
    )
}

/// The byte span of every word: from the start of its first character to the
/// start of the next word's first character, or to the end of the text.
pub open spec fn spans_spec(tags: Seq<usize>, char_pos: Seq<usize>, b_w: usize) -> Seq<(usize, usize)> {
    let n = tags.len() as int;
    let st = word_starts(tags, b_w, n);
    Seq::new(st.len(), |k: int| (char_pos[st[k]], char_pos[word_end(st, n, k)]))
}

/// The token where every word starts: the token of its first character.
pub open spec fn word_tokens_spec(tags: Seq<usize>, char_idx: Seq<usize>, b_w: usize) -> Seq<usize> {
    let st = word_starts(tags, b_w, tags.len() as int);
    Seq::new(st.len(), |k: int| (char_idx[st[k]] + 1) as usize)
}

/// The characters of `input` as its tokenization `t` finds them: their
/// tokens and their start bytes, closed by the length of the text.
pub open spec fn sentence_chars(input: &str, t: Tokenized) -> (Seq<usize>, Seq<usize>) {
    char_spans_spec(t.offsets@, t.ids@.len() as int, input.spec_bytes().len() as usize)
}

/// The words of a sentence of raw text, and the token where each starts.
/// The characters come from the token offsets of `t`; a character starts a
/// word where its segmentation tag, read from the scores at
/// `cws_keys[base..]`, is `b_w`, and the first character always does.
/// `None` when the scores of a character lie beyond `cws_keys`, or when a
/// word's bytes do not lie on character boundaries of `input`.
pub fn sentence_words(
    input: &str,
    t: &Tokenized,
    cws_keys: &[Option<i64>],
    base: usize,
    b_w: usize,
) -> (res: Option<(Vec<String>, Vec<usize>)>)
    requires
        t.ids@.len() <= 2 || t.ids@.len() - 1 <= t.offsets@.len(),
    ensures
        ({
            let chars = sentence_chars(input, *t);
            let tags = tags_spec(cws_keys@, base as int, chars.0);
            let spans = spans_spec(tags, chars.1, b_w);
            &&& res is Some <==> cws_tags_ok(cws_keys@, base as int, chars.0) && forall|k: int|
                0 <= k < spans.len() ==> span_ok(input.spec_bytes(), #[trigger] spans[k])
            &&& res matches Some(r) ==> {
                &&& r.1@ == word_tokens_spec(tags, chars.0, b_w)
                &&& r.0@.len() == spans.len()
                &&& forall|k: int|
                    0 <= k < spans.len() ==> encode_utf8(#[trigger] r.0@[k]@) == input.spec_bytes().subrange(
                        spans[k].0 as int,
                        spans[k].1 as int,
                    )
            }
        }),
{
    let seq_len = t.ids.len();
    let (char_idx, char_pos) = char_spans(&t.offsets, seq_len, input.len());
    let ghost chars = sentence_chars(input, *t);
    assert(char_idx@ == chars.0 && char_pos@ == chars.1);
    let tags = match cws_tags(cws_keys, base, &char_idx) {
        Some(x) => x,
        None => {
            return None;
        },
    };
    assert(tags@ =~= tags_spec(cws_keys@, base as int, chars.0));
    let (spans, word_tokens) = word_spans(&tags, &char_idx, &char_pos, b_w);
    assert(spans@ =~= spans_spec(tags@, chars.1, b_w));
    assert(word_tokens@ =~= word_tokens_spec(tags@, chars.0, b_w));
    match slice_spans(input, &spans) {
        Some(words) => Some((words, word_tokens)),
        None => None,
    }
}

/// Where the scores of sentence `b` of a batch whose rows are `width` tokens
/// long start: its segmentation scores (2 per token), part-of-speech scores
/// (27 per token), arc scores (one per pair of tokens) and relation scores
/// (14 per pair of tokens).
pub open spec fn batch_bases_spec(b: int, width: int) -> (int, int, int, int) {
    (b * (width * 2), b * (width * 27), b * (width * width), b * (width * width * 14))
}

/// Every product that `batch_bases` forms fits in `usize`.
pub open spec fn batch_bases_fit(b: int, width: int) -> bool {
    &&& width * 2 <= usize::MAX
    &&& b * (width * 2) <= usize::MAX
    &&& width * 27 <= usize::MAX
    &&& b * (width * 27) <= usize::MAX
    &&& width * width <= usize::MAX
    &&& b * (width * width) <= usize::MAX
    &&& width * width * 14 <= usize::MAX
    &&& b * (width * width * 14) <= usize::MAX
}

/// Where the segmentation, part-of-speech, arc and relation scores of
/// sentence `b` start in a batch whose rows are `width` tokens long.  `None`
/// when a product overflows `usize`.
pub fn batch_bases(b: usize, width: usize) -> (res: Option<(usize, usize, usize, usize)>)
    ensures
        res is Some <==> batch_bases_fit(b as int, width as int),
        res matches Some(r) ==> (r.0 as int, r.1 as int, r.2 as int, r.3 as int) == batch_bases_spec(
            b as int,
            width as int,
        ),
{
    let w2 = match width.checked_mul(2) {
        Some(x) => x,
        None => {
            return None;
        },
    };
    let cws = match b.checked_mul(w2) {
        Some(x) => x,
        None => {
            return None;
        },
    };
    let w27 = match width.checked_mul(27) {
        Some(x) => x,
        None => {
            return None;
        },
    };
    let pos = match b.checked_mul(w27) {
        Some(x) => x,
        None => {
            return None;
        },
    };
    let ww = match width.checked_mul(width) {
        Some(x) => x,
        None => {
            return None;
        },
    };
    let arc = match b.checked_mul(ww) {
        Some(x) => x,
        None => {
            return None;
        },
    };
    let ww14 = match ww.checked_mul(14) {
        Some(x) => x,
        None => {
            return None;
        },
    };
    let rel = match b.checked_mul(ww14) {
        Some(x) => x,
        None => {
            return None;
        },
    };
    Some((cws, pos, arc, rel))
}

/// The nodes of a sentence's tree (the root, then the token where every word
/// starts), and where the arc score of every pair of them lies among `len`
/// arc scores that start at `base` in rows of `stride` scores: row `i`,
/// column `j` for node `i` as dependent of node `j`.  `None` when a position
/// is not below `len`.
pub fn arc_layout(base: usize, stride: usize, word_tokens: &Vec<usize>, len: usize) -> (res: Option<
    (Vec<usize>, Vec<Vec<usize>>),
>)
    ensures
        res is Some <==> forall|i: int, j: int|
            0 <= i <= word_tokens@.len() && 0 <= j <= word_tokens@.len() ==> arc_pos(
                base as int,
                stride as int,
                #[trigger] (seq![0usize] + word_tokens@)[i] as int,
                #[trigger] (seq![0usize] + word_tokens@)[j] as int,
            ) < len,
        res matches Some(r) ==> {
            &&& r.0@ == seq![0usize] + word_tokens@
            &&& r.1@.len() == r.0@.len()
            &&& forall|i: int|
                0 <= i < r.0@.len() ==> {
                    &&& (#[trigger] r.1@[i])@.len() == r.0@.len()
                    &&& forall|j: int|
                        0 <= j < r.0@.len() ==> #[trigger] r.1@[i]@[j] == arc_pos(
                            base as int,
                            stride as int,
                            r.0@[i] as int,
                            r.0@[j] as int,
                        )
                }
        },
{
    let nodes = dependency_nodes(word_tokens);
    match arc_positions(base, stride, &nodes, len) {
        Some(rows) => Some((nodes, rows)),
        None => None,
    }
}

/// The segmentation scores of the first `n` tokens of a sentence agree
/// between `batch`, where they start at `base`, and `alone`, the scores of
/// the sentence run by itself.
pub open spec fn cws_rows_agree(batch: Seq<Option<i64>>, base: int, alone: Seq<Option<i64>>, n: int) -> bool {
    forall|t: int|
        0 <= t < n ==> {
            &&& #[trigger] cws_row(base, t) + 2 <= batch.len()
            &&& cws_row(0, t) + 2 <= alone.len()
            &&& batch[cws_row(base, t)] == alone[cws_row(0, t)]
            &&& batch[cws_row(base, t) + 1] == alone[cws_row(0, t) + 1]
        }
}

/// The part-of-speech scores of the first `n` tokens agree between `batch`,
/// from `base` on, and `alone`.
pub open spec fn pos_rows_agree(batch: Seq<Option<i64>>, base: int, alone: Seq<Option<i64>>, n: int) -> bool {
    forall|t: int|
        0 <= t < n ==> {
            &&& #[trigger] pos_row(base, t) + 27 <= batch.len()
            &&& pos_row(0, t) + 27 <= alone.len()
            &&& batch.subrange(pos_row(base, t), pos_row(base, t) + 27) == alone.subrange(
                pos_row(0, t),
                pos_row(0, t) + 27,
            )
        }
}

/// The relation scores of every pair of the first `n` tokens agree between
/// `batch`, from `base` on in rows of `width` tokens, and `alone`, in rows of
/// `n` tokens.
pub open spec fn rel_rows_agree(
    batch: Seq<Option<i64>>,
    base: int,
    width: int,
    alone: Seq<Option<i64>>,
    n: int,
) -> bool {
    forall|d: int, h: int|
        0 <= d < n && 0 <= h < n ==> {
            &&& #[trigger] rel_row(base, width, d, h) + 14 <= batch.len()
            &&& rel_row(0, n, d, h) + 14 <= alone.len()
            &&& batch.subrange(rel_row(base, width, d, h), rel_row(base, width, d, h) + 14)
                == alone.subrange(rel_row(0, n, d, h), rel_row(0, n, d, h) + 14)
        }
}

/// Segmenting a sentence of `n` tokens within a batch gives what segmenting
/// it alone gives, when the segmentation scores of its tokens agree: the
/// same characters get the same tags, and both read only scores that exist.
pub proof fn lemma_batched_tags_agree(
    batch: Seq<Option<i64>>,
    base: int,
    alone: Seq<Option<i64>>,
    n: int,
    char_idx: Seq<usize>,
)
    requires
        cws_rows_agree(batch, base, alone, n),
        forall|m: int| 0 <= m < char_idx.len() ==> #[trigger] char_idx[m] + 1 < n,
    ensures
        cws_tags_ok(batch, base, char_idx),
        cws_tags_ok(alone, 0, char_idx),
        tags_spec(batch, base, char_idx) == tags_spec(alone, 0, char_idx),
{
    assert forall|m: int| 0 <= m < char_idx.len() implies {
        &&& cws_row(base, #[trigger] char_idx[m] + 1) + 2 <= batch.len()
        &&& cws_row(0, char_idx[m] + 1) + 2 <= alone.len()
        &&& batch[cws_row(base, char_idx[m] + 1)] == alone[cws_row(0, char_idx[m] + 1)]
        &&& batch[cws_row(base, char_idx[m] + 1) + 1] == alone[cws_row(0, char_idx[m] + 1) + 1]
    } by {
        let t = char_idx[m] + 1;
        assert(0 <= t < n);
        assert(cws_row(base, t) + 2 <= batch.len());
    }
    assert(tags_spec(batch, base, char_idx) =~= tags_spec(alone, 0, char_idx));
}

/// Tagging the words of a sentence of `n` tokens within a batch gives what
/// tagging them alone gives, when the part-of-speech scores of its tokens
/// agree: the same words get the same tags, and one succeeds exactly when
/// the other does.
pub proof fn lemma_batched_pos_agree(
    batch: Seq<Option<i64>>,
    base: int,
    alone: Seq<Option<i64>>,
    n: int,
    word_tokens: Seq<usize>,
    vocab_len: int,
    floor: i64,
)
    requires
        pos_rows_agree(batch, base, alone, n),
        forall|m: int| 0 <= m < word_tokens.len() ==> #[trigger] word_tokens[m] < n,
    ensures
        pos_ok(batch, base, word_tokens, vocab_len, floor) == pos_ok(alone, 0, word_tokens, vocab_len, floor),
        forall|m: int|
            0 <= m < word_tokens.len() ==> pos_choice(batch, base, #[trigger] word_tokens[m] as int, floor)
                == pos_choice(alone, 0, word_tokens[m] as int, floor),
{
    assert forall|m: int| 0 <= m < word_tokens.len() implies {
        &&& pos_row(base, #[trigger] word_tokens[m] as int) + 27 <= batch.len()
        &&& pos_row(0, word_tokens[m] as int) + 27 <= alone.len()
        &&& pos_choice(batch, base, word_tokens[m] as int, floor) == pos_choice(
            alone,
            0,
            word_tokens[m] as int,
            floor,
        )
    } by {
        let t = word_tokens[m] as int;
        assert(pos_row(base, t) + 27 <= batch.len());
    }
}

/// Labelling the dependencies of a sentence of `n` tokens within a batch
/// gives what labelling them alone gives, for the same nodes and heads, when
/// the relation scores of its pairs of tokens agree: the same arcs get the
/// same relations, and one succeeds exactly when the other does.
pub proof fn lemma_batched_rels_agree(
    batch: Seq<Option<i64>>,
    base: int,
    width: int,
    alone: Seq<Option<i64>>,
    n: int,
    nodes: Seq<usize>,
    heads: Seq<usize>,
    vocab_len: int,
    floor: i64,
)
    requires
        rel_rows_agree(batch, base, width, alone, n),
        forall|t: int| 0 <= t < nodes.len() ==> #[trigger] nodes[t] < n,
    ensures
        deps_ok(batch, base, width, nodes, heads, vocab_len, floor) == deps_ok(
            alone,
            0,
            n,
            nodes,
            heads,
            vocab_len,
            floor,
        ),
        forall|t: int|
            1 <= t < nodes.len() && #[trigger] heads[t] < nodes.len() ==> rel_choice(
                batch,
                base,
                width,
                nodes,
                heads,
                t,
                floor,
            ) == rel_choice(alone, 0, n, nodes, heads, t, floor),
{
    assert forall|t: int| 1 <= t < nodes.len() && #[trigger] heads[t] < nodes.len() implies {
        &&& rel_row(base, width, nodes[t] as int, nodes[heads[t] as int] as int) + 14 <= batch.len()
        &&& rel_row(0, n, nodes[t] as int, nodes[heads[t] as int] as int) + 14 <= alone.len()
        &&& rel_choice(batch, base, width, nodes, heads, t, floor) == rel_choice(
            alone,
            0,
            n,
            nodes,
            heads,
            t,
            floor,
        )
    } by {
        let d = nodes[t] as int;
        let h = nodes[heads[t] as int] as int;
        assert(0 <= d < n && 0 <= h < n);
        assert(rel_row(base, width, d, h) + 14 <= batch.len());
    }
}

} // verus!
