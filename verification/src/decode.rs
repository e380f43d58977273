//! Labels from the model's scores: the part-of-speech tag of every word and
//! the relation of every dependency, each the first best label of its row of
//! scores; and the batch layout of the model's inputs.
use vstd::prelude::*;
use crate::keys::{argmax_spec, is_first_argmax, row_argmax};
use crate::results::DepResult;

verus! {

/// Number of part-of-speech scores per token.
pub const NUM_POS_TAGS: usize = 27;

/// Number of relation scores per pair of tokens.
pub const NUM_DEP_RELS: usize = 14;

/// The part-of-speech scores of token `token` start at `base + 27 * token`.
pub open spec fn pos_row(base: int, token: int) -> int {
    base + token * 27
}

/// The tag that the scores of `token` choose (a position in the vocabulary).
pub open spec fn pos_choice(keys: Seq<Option<i64>>, base: int, token: int, floor: i64) -> int {
    argmax_spec(keys.subrange(pos_row(base, token), pos_row(base, token) + 27), floor)
}

/// The scores of every word lie within the keys and choose a tag that the
/// vocabulary holds.
pub open spec fn pos_ok(
    keys: Seq<Option<i64>>,
    base: int,
    word_tokens: Seq<usize>,
    vocab_len: int,
    floor: i64,
) -> bool {
    forall|m: int|
        0 <= m < word_tokens.len() ==> {
            &&& pos_row(base, #[trigger] word_tokens[m] as int) + 27 <= keys.len()
            &&& pos_choice(keys, base, word_tokens[m] as int, floor) < vocab_len
        }
}

/// Start of a row of `width` keys at `base + token * width`, when it fits
/// in `len`.
fn row_start(base: usize, token: usize, width: usize, len: usize) -> (r: Option<usize>)
    ensures
        r is Some <==> base + token * width + width <= len,
        r matches Some(s) ==> s == base + token * width,
{
    let prod = match token.checked_mul(width) {
        Some(p) => p,
        None => {
            assert(token * width > usize::MAX);
            assert(base + token * width + width > len) by (nonlinear_arith)
                requires
                    token * width > usize::MAX,
                    len <= usize::MAX,
                    base >= 0,
                    width >= 0,
            ;
            return None;
        },
    };
    let start = match base.checked_add(prod) {
        Some(s) => s,
        None => {
            return None;
        },
    };
    if start > len || len - start < width {
        return None;
    }
    Some(start)
}

/// The part-of-speech tag of every word: the vocabulary entry at the first
/// best of the 27 scores of the word's first token.  `None` when the scores
/// of a word lie beyond `pos_keys` or choose a tag the vocabulary lacks.
pub fn pos_tags(
    pos_keys: &[Option<i64>],
    base: usize,
    word_tokens: &Vec<usize>,
    pos_vocab: &Vec<String>,
    floor: i64,
) -> (res: Option<Vec<String>>)
    ensures
        res is Some <==> pos_ok(pos_keys@, base as int, word_tokens@, pos_vocab@.len() as int, floor),
        res matches Some(tags) ==> {
            &&& tags@.len() == word_tokens@.len()
            &&& forall|m: int|
                0 <= m < tags@.len() ==> #[trigger] tags@[m] == pos_vocab@[pos_choice(
                    pos_keys@,
                    base as int,
                    word_tokens@[m] as int,
                    floor,
                )]
        },
{
    let n_keys = pos_keys.len();
    let mut tags: Vec<String> = Vec::new();
    let mut m: usize = 0;
    while m < word_tokens.len()
        invariant
            m <= word_tokens@.len(),
            n_keys == pos_keys@.len(),
            tags@.len() == m,
            pos_ok(pos_keys@, base as int, word_tokens@.take(m as int), pos_vocab@.len() as int, floor),
            forall|x: int|
                0 <= x < m ==> #[trigger] tags@[x] == pos_vocab@[pos_choice(
                    pos_keys@,
                    base as int,
                    word_tokens@[x] as int,
                    floor,
                )],
        decreases word_tokens@.len() - m,
    {
        let w = word_tokens[m];
        let start = match row_start(base, w, NUM_POS_TAGS, n_keys) {
            Some(s) => s,
            None => {
                assert(!pos_ok(pos_keys@, base as int, word_tokens@, pos_vocab@.len() as int, floor)) by {
                    assert(word_tokens@[m as int] == w);
                }
                return None;
            },
        };
        let idx = row_argmax(pos_keys, start, NUM_POS_TAGS, floor);
        if idx >= pos_vocab.len() {
            assert(!pos_ok(pos_keys@, base as int, word_tokens@, pos_vocab@.len() as int, floor)) by {
                assert(word_tokens@[m as int] == w);
            }
            return None;
        }
        tags.push(pos_vocab[idx].clone());
        proof {
            assert forall|x: int|
                0 <= x < m + 1 implies {
                    &&& pos_row(base as int, #[trigger] word_tokens@.take(m + 1)[x] as int) + 27 <= pos_keys@.len()
                    &&& pos_choice(pos_keys@, base as int, word_tokens@.take(m + 1)[x] as int, floor)
                        < pos_vocab@.len()
                } by {
                if x < m {
                    assert(word_tokens@.take(m + 1)[x] == word_tokens@.take(m as int)[x]);
                }
            }
        }
        m += 1;
    }
    assert(word_tokens@.take(m as int) =~= word_tokens@);
    Some(tags)
}

/// The token positions of the dependency nodes: the root (token 0), then the
/// first token of every word.
pub fn dependency_nodes(word_tokens: &Vec<usize>) -> (nodes: Vec<usize>)
    ensures
        nodes@ == seq![0usize] + word_tokens@,
{
    let mut nodes: Vec<usize> = Vec::new();
    nodes.push(0);
    let mut m: usize = 0;
    while m < word_tokens.len()
        invariant
            m <= word_tokens@.len(),
            nodes@ == seq![0usize] + word_tokens@.take(m as int),
        decreases word_tokens@.len() - m,
    {
        nodes.push(word_tokens[m]);
        assert(word_tokens@.take(m + 1) =~= word_tokens@.take(m as int).push(word_tokens@[m as int]));
        m += 1;
    }
    assert(word_tokens@.take(m as int) =~= word_tokens@);
    nodes
}

/// The relation scores between dependent token `d` and head token `h` start
/// at `base + d * (stride * 14) + h * 14`.
pub open spec fn rel_row(base: int, stride: int, d: int, h: int) -> int {
    base + d * (stride * 14) + h * 14
}

/// The relation that the scores of node `t` and its head choose.
pub open spec fn rel_choice(
    keys: Seq<Option<i64>>,
    base: int,
    stride: int,
    nodes: Seq<usize>,
    heads: Seq<usize>,
    t: int,
    floor: i64,
) -> int {
    let start = rel_row(base, stride, nodes[t] as int, nodes[heads[t] as int] as int);
    argmax_spec(keys.subrange(start, start + 14), floor)
}

/// Every node after the root has a head among the nodes, its scores lie within
/// the keys, and they choose a relation that the vocabulary holds.
pub open spec fn deps_ok(
    keys: Seq<Option<i64>>,
    base: int,
    stride: int,
    nodes: Seq<usize>,
    heads: Seq<usize>,
    vocab_len: int,
    floor: i64,
) -> bool {
    &&& heads.len() >= nodes.len()
    &&& forall|t: int|
        1 <= t < nodes.len() ==> {
            &&& (#[trigger] heads[t]) < nodes.len()
            &&& rel_row(base, stride, nodes[t] as int, nodes[heads[t] as int] as int) + 14 <= keys.len()
            &&& rel_choice(keys, base, stride, nodes, heads, t, floor) < vocab_len
        }
}

/// Start of the relation scores of tokens `d` and `h`, when they fit in `len`.
fn rel_start(base: usize, stride: usize, d: usize, h: usize, len: usize) -> (r: Option<usize>)
    ensures
        r is Some <==> rel_row(base as int, stride as int, d as int, h as int) + 14 <= len,
        r matches Some(s) ==> s == rel_row(base as int, stride as int, d as int, h as int),
{
    let dr = if d == 0 {
        0
    } else {
        match stride.checked_mul(NUM_DEP_RELS) {
            Some(s14) => match d.checked_mul(s14) {
                Some(x) => x,
                None => {
                    assert(d * (stride * 14) > usize::MAX);
                    assert(h * 14 >= 0);
                    return None;
                },
            },
            None => {
                assert(d * (stride * 14) >= stride * 14) by (nonlinear_arith)
                    requires
                        d >= 1,
                        stride >= 0,
                ;
                assert(h * 14 >= 0);
                return None;
            },
        }
    };
    assert(d == 0 ==> d * (stride * 14) == 0);
    let hr = match h.checked_mul(NUM_DEP_RELS) {
        Some(x) => x,
        None => {
            assert(d * (stride * 14) >= 0) by (nonlinear_arith)
                requires
                    d >= 0,
                    stride >= 0,
            ;
            return None;
        },
    };
    let start = match base.checked_add(dr) {
        Some(x) => match x.checked_add(hr) {
            Some(y) => y,
            None => {
                return None;
            },
        },
        None => {
            assert(h * 14 >= 0);
            return None;
        },
    };
    if start > len || len - start < NUM_DEP_RELS {
        return None;
    }
    Some(start)
}

/// The dependencies of a sentence from the heads that the tree decoder gave
/// its nodes: the head of every node after the root, and the vocabulary entry
/// at the first best of the 14 relation scores of the node and its head.
/// `None` when a head is not a node, when scores lie beyond `rel_keys`, or
/// when they choose a relation the vocabulary lacks.
pub fn dependencies(
    rel_keys: &[Option<i64>],
    base: usize,
    stride: usize,
    nodes: &Vec<usize>,
    heads: &Vec<usize>,
    dep_vocab: &Vec<String>,
    floor: i64,
) -> (res: Option<DepResult>)
    ensures
        res is Some <==> deps_ok(
            rel_keys@,
            base as int,
            stride as int,
            nodes@,
            heads@,
            dep_vocab@.len() as int,
            floor,
        ),
        res matches Some(dep) ==> {
            &&& nodes@.len() >= 1 ==> dep.head@ == heads@.subrange(1, nodes@.len() as int)
            &&& nodes@.len() == 0 ==> dep.head@.len() == 0
            &&& dep.label@.len() == dep.head@.len()
            &&& forall|t: int|
                1 <= t < nodes@.len() ==> #[trigger] dep.label@[t - 1] == dep_vocab@[rel_choice(
                    rel_keys@,
                    base as int,
                    stride as int,
                    nodes@,
                    heads@,
                    t,
                    floor,
                )]
        },
{
    let n = nodes.len();
    let n_keys = rel_keys.len();
    if heads.len() < n {
        return None;
    }
    if n == 0 {
        return Some(DepResult { head: Vec::new(), label: Vec::new() });
    }
    let mut head: Vec<usize> = Vec::new();
    let mut label: Vec<String> = Vec::new();
    let mut t: usize = 1;
    while t < n
        invariant
            1 <= t <= n,
            n == nodes@.len(),
            heads@.len() >= n,
            n_keys == rel_keys@.len(),
            head@ == heads@.subrange(1, t as int),
            label@.len() == head@.len(),
            forall|x: int|
                1 <= x < t ==> {
                    &&& (#[trigger] heads@[x]) < n
                    &&& rel_row(base as int, stride as int, nodes@[x] as int, nodes@[heads@[x] as int] as int)
                        + 14 <= rel_keys@.len()
                    &&& rel_choice(rel_keys@, base as int, stride as int, nodes@, heads@, x, floor)
                        < dep_vocab@.len()
                },
            forall|x: int|
                1 <= x < t ==> #[trigger] label@[x - 1] == dep_vocab@[rel_choice(
                    rel_keys@,
                    base as int,
                    stride as int,
                    nodes@,
                    heads@,
                    x,
                    floor,
                )],
        decreases n - t,
    {
        let h = heads[t];
        if h >= n {
            return None;
        }
        let start = match rel_start(base, stride, nodes[t], nodes[h], n_keys) {
            Some(s) => s,
            None => {
                return None;
            },
        };
        let idx = row_argmax(rel_keys, start, NUM_DEP_RELS, floor);
        if idx >= dep_vocab.len() {
            return None;
        }
        head.push(h);
        label.push(dep_vocab[idx].clone());
        assert(heads@.subrange(1, t + 1) =~= heads@.subrange(1, t as int).push(h));
        t += 1;
    }
    Some(DepResult { head, label })
}

/// The arc score of dependent token `d` and head token `h` lies at
/// `base + d * stride + h`.
pub open spec fn arc_pos(base: int, stride: int, d: int, h: int) -> int {
    base + d * stride + h
}

/// Where the arc score of every pair of nodes lies: row `i`, column `j` holds
/// the position of the score of node `i` as dependent of node `j`.  `None`
/// when a position is not below `len`.
pub fn arc_positions(base: usize, stride: usize, nodes: &Vec<usize>, len: usize) -> (res: Option<Vec<Vec<usize>>>)
    ensures
        res is Some <==> forall|i: int, j: int|
            0 <= i < nodes@.len() && 0 <= j < nodes@.len() ==> arc_pos(
                base as int,
                stride as int,
                #[trigger] nodes@[i] as int,
                #[trigger] nodes@[j] as int,
            ) < len,
        res matches Some(rows) ==> {
            &&& rows@.len() == nodes@.len()
            &&& forall|i: int|
                0 <= i < nodes@.len() ==> {
                    &&& (#[trigger] rows@[i])@.len() == nodes@.len()
                    &&& forall|j: int|
                        0 <= j < nodes@.len() ==> #[trigger] rows@[i]@[j] == arc_pos(
                            base as int,
                            stride as int,
                            nodes@[i] as int,
                            nodes@[j] as int,
                        )
                }
        },
{
    let n = nodes.len();
    let mut rows: Vec<Vec<usize>> = Vec::new();
    let mut i: usize = 0;
    while i < n
        invariant
            i <= n,
            n == nodes@.len(),
            rows@.len() == i,
            forall|x: int, j: int|
                0 <= x < i && 0 <= j < n ==> arc_pos(
                    base as int,
                    stride as int,
                    #[trigger] nodes@[x] as int,
                    #[trigger] nodes@[j] as int,
                ) < len,
            forall|x: int|
                0 <= x < i ==> {
                    &&& (#[trigger] rows@[x])@.len() == n
                    &&& forall|j: int|
                        0 <= j < n ==> #[trigger] rows@[x]@[j] == arc_pos(
                            base as int,
                            stride as int,
                            nodes@[x] as int,
                            nodes@[j] as int,
                        )
                },
        decreases n - i,
    {
        let d = nodes[i];
        let row_base = match d.checked_mul(stride) {
            Some(p) => match base.checked_add(p) {
                Some(q) => q,
                None => {
                    assert(arc_pos(base as int, stride as int, nodes@[i as int] as int, nodes@[0] as int) >= len);
                    return None;
                },
            },
            None => {
                assert(d * stride >= 0) by (nonlinear_arith)
                    requires
                        d >= 0,
                        stride >= 0,
                ;
                assert(arc_pos(base as int, stride as int, nodes@[i as int] as int, nodes@[0] as int) >= len);
                return None;
            },
        };
        let mut row: Vec<usize> = Vec::new();
        let mut j: usize = 0;
        while j < n
            invariant
                j <= n,
                i < n,
                n == nodes@.len(),
                d == nodes@[i as int],
                row_base == base + d * stride,
                row@.len() == j,
                forall|y: int|
                    0 <= y < j ==> arc_pos(base as int, stride as int, d as int, #[trigger] nodes@[y] as int)
                        < len,
                forall|y: int|
                    0 <= y < j ==> #[trigger] row@[y] == arc_pos(
                        base as int,
                        stride as int,
                        d as int,
                        nodes@[y] as int,
                    ),
            decreases n - j,
        {
            let h = nodes[j];
            if row_base >= len || len - row_base <= h {
                return None;
            }
            row.push(row_base + h);
            j += 1;
        }
        rows.push(row);
        i += 1;
    }
    Some(rows)
}

/// The longest of the rows, 0 when there are none.
pub fn longest(rows: &Vec<Vec<u32>>) -> (m: usize)
    ensures
        forall|b: int| 0 <= b < rows@.len() ==> (#[trigger] rows@[b])@.len() <= m,
        rows@.len() == 0 ==> m == 0,
        rows@.len() > 0 ==> exists|b: int| 0 <= b < rows@.len() && (#[trigger] rows@[b])@.len() == m,
{
    let mut m: usize = 0;
    let mut b: usize = 0;
    while b < rows.len()
        invariant
            b <= rows@.len(),
            forall|x: int| 0 <= x < b ==> (#[trigger] rows@[x])@.len() <= m,
            b == 0 ==> m == 0,
            b > 0 ==> exists|x: int| 0 <= x < b && (#[trigger] rows@[x])@.len() == m,
        decreases rows@.len() - b,
    {
        if rows[b].len() > m {
            m = rows[b].len();
        } else if b == 0 {
            assert(rows@[0]@.len() == m);
        }
        b += 1;
    }
    m
}

proof fn lemma_cell_before(x: int, k: int, b: int, width: int)
    by (nonlinear_arith)
    requires
        0 <= x < b,
        0 <= k < width,
    ensures
        0 <= x * width + k < b * width,
{
}

/// The rows laid out one after another, each padded with zeros to `width`, as
/// 64-bit integers: the batch input of the model.  `None` when the batch does
/// not fit in memory indices.
pub fn pad_rows(rows: &Vec<Vec<u32>>, width: usize) -> (res: Option<Vec<i64>>)
    requires
        forall|b: int| 0 <= b < rows@.len() ==> (#[trigger] rows@[b])@.len() <= width,
    ensures
        res is Some <==> rows@.len() * width <= usize::MAX,
        res matches Some(flat) ==> {
            &&& flat@.len() == rows@.len() * width
            &&& forall|b: int, i: int|
                0 <= b < rows@.len() && 0 <= i < width ==> #[trigger] flat@[b * width + i] == (if i
                    < rows@[b]@.len() {
                    rows@[b]@[i] as i64
                } else {
                    0i64
                })
        },
{
    let total = match rows.len().checked_mul(width) {
        Some(t) => t,
        None => {
            return None;
        },
    };
    let mut flat: Vec<i64> = Vec::new();
    let mut b: usize = 0;
    while b < rows.len()
        invariant
            b <= rows@.len(),
            total == rows@.len() * width,
            forall|x: int| 0 <= x < rows@.len() ==> (#[trigger] rows@[x])@.len() <= width,
            flat@.len() == b * width,
            forall|x: int, i: int|
                0 <= x < b && 0 <= i < width ==> #[trigger] flat@[x * width + i] == (if i
                    < rows@[x]@.len() {
                    rows@[x]@[i] as i64
                } else {
                    0i64
                }),
        decreases rows@.len() - b,
    {
        let row = &rows[b];
        let mut i: usize = 0;
        proof {
            assert(b * width + width <= rows@.len() * width) by (nonlinear_arith)
                requires
                    b < rows@.len(),
            ;
        }
        while i < width
            invariant
                i <= width,
                b < rows@.len(),
                row@ == rows@[b as int]@,
                row@.len() <= width,
                b * width + width <= total,
                flat@.len() == b * width + i,
                forall|x: int, k: int|
                    0 <= x < b && 0 <= k < width ==> #[trigger] flat@[x * width + k] == (if k
                        < rows@[x]@.len() {
                        rows@[x]@[k] as i64
                    } else {
                        0i64
                    }),
                forall|k: int|
                    0 <= k < i ==> #[trigger] flat@[b * width + k] == (if k < row@.len() {
                        row@[k] as i64
                    } else {
                        0i64
                    }),
            decreases width - i,
        {
            let v: i64 = if i < row.len() {
                row[i] as i64
            } else {
                0
            };
            let ghost before = flat@;
            flat.push(v);
            proof {
                assert forall|x: int, k: int|
                    0 <= x < b && 0 <= k < width implies #[trigger] flat@[x * width + k] == before[x
                        * width + k] by {
                    lemma_cell_before(x, k, b as int, width as int);
                }
            }
            i += 1;
        }
        proof {
            assert forall|x: int, k: int|
                0 <= x < b + 1 && 0 <= k < width implies #[trigger] flat@[x * width + k] == (if k
                    < rows@[x]@.len() {
                    rows@[x]@[k] as i64
                } else {
                    0i64
                }) by {
                if x == b {
                } else {
                }
            }
            assert((b + 1) * width == b * width + width) by (nonlinear_arith);
        }
        b += 1;
    }
    Some(flat)
}

} // verus!
