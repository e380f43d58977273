//! Word segmentation: from the tokenizer's byte offsets to characters, from the
//! per-character segmentation tags to words, and from pre-segmented input to
//! the first token of every word.
use vstd::prelude::*;
use crate::keys::{key_gt, score_gt};

verus! {

/// The scan over tokens `1..k` that finds where characters start: it stops at
/// the first `(0, 0)` offset (padding), skips empty offsets, and records a
/// character (its position among the tokens after the first, and its start
/// byte) at each token whose offsets differ from those of the last non-empty
/// token seen.  The result is `(char_idx, char_pos, last, stopped)`.
pub open spec fn char_scan(offsets: Seq<(usize, usize)>, k: int) -> (
    Seq<usize>,
    Seq<usize>,
    Option<(usize, usize)>,
    bool,
)
    decreases k,
{
    if k <= 1 {
        (seq![], seq![], None, false)
    } else {
        let (ci, cp, last, stopped) = char_scan(offsets, k - 1);
        let idx = k - 1;
        let (s, e) = offsets[idx];
        if stopped {
            (ci, cp, last, stopped)
        } else if s == 0 && e == 0 {
            (ci, cp, last, true)
        } else if s == e {
            (ci, cp, last, false)
        } else if last != Some((s, e)) {
            (ci.push((idx - 1) as usize), cp.push(s), Some((s, e)), false)
        } else {
            (ci, cp, last, false)
        }
    }
}

/// Character token positions and character start bytes of a sentence of
/// `seq_len` tokens whose text is `input_len` bytes long; the start bytes end
/// with `input_len`.
pub open spec fn char_spans_spec(offsets: Seq<(usize, usize)>, seq_len: int, input_len: usize) -> (
    Seq<usize>,
    Seq<usize>,
) {
    if seq_len > 2 {
        let (ci, cp, _, _) = char_scan(offsets, seq_len - 1);
        (ci, cp.push(input_len))
    } else {
        (seq![], seq![input_len])
    }
}

pub(crate) proof fn lemma_char_scan(offsets: Seq<(usize, usize)>, k: int)
    requires
        1 <= k <= offsets.len(),
        offsets.len() <= usize::MAX,
    ensures
        ({
            let (ci, cp, last, stopped) = char_scan(offsets, k);
            &&& ci.len() == cp.len()
            &&& forall|m: int|
                0 <= m < ci.len() ==> {
                    &&& (#[trigger] ci[m]) + 1 < k
                    &&& offsets[ci[m] + 1].0 == cp[m]
                    &&& offsets[ci[m] + 1].0 != offsets[ci[m] + 1].1
                }
            &&& forall|m1: int, m2: int| 0 <= m1 < m2 < ci.len() ==> ci[m1] < ci[m2]
            &&& ci.len() > 0 ==> last == Some(offsets[ci[ci.len() - 1] + 1])
        }),
    decreases k,
{
    if k > 1 {
        lemma_char_scan(offsets, k - 1);
        let (ci0, cp0, last0, stopped0) = char_scan(offsets, k - 1);
        let (ci, cp, last, stopped) = char_scan(offsets, k);
        if ci.len() > ci0.len() {
            assert(ci == ci0.push((k - 2) as usize));
            assert(ci[ci.len() - 1] + 1 == k - 1);
            assert forall|m: int| 0 <= m < ci.len() implies {
                &&& (#[trigger] ci[m]) + 1 < k
                &&& offsets[ci[m] + 1].0 == cp[m]
                &&& offsets[ci[m] + 1].0 != offsets[ci[m] + 1].1
            } by {
                if m < ci0.len() {
                    assert(ci[m] == ci0[m]);
                    assert(cp[m] == cp0[m]);
                }
            }
        } else {
            assert(ci == ci0);
            assert(cp == cp0);
        }
    }
}

/// Some token from token 1 up to, not including, `k` has the offsets
/// `(0, 0)` of padding.
pub open spec fn padded_before(offsets: Seq<(usize, usize)>, k: int) -> bool {
    exists|j: int| 1 <= j < k && #[trigger] offsets[j] == (0usize, 0usize)
}

/// The offsets of the nearest non-empty token before `k`, from token 1 on;
/// `None` when there is none.
pub open spec fn prev_offsets(offsets: Seq<(usize, usize)>, k: int) -> Option<(usize, usize)>
    decreases k,
{
    if k <= 1 {
        None
    } else if offsets[k - 1].0 != offsets[k - 1].1 {
        Some(offsets[k - 1])
    } else {
        prev_offsets(offsets, k - 1)
    }
}

/// Token `x` starts a character: no padding comes before it or at it, its
/// offsets are not empty, and they differ from those of the nearest earlier
/// non-empty token.
pub open spec fn starts_char(offsets: Seq<(usize, usize)>, x: int) -> bool {
    &&& !padded_before(offsets, x + 1)
    &&& offsets[x].0 != offsets[x].1
    &&& prev_offsets(offsets, x) != Some(offsets[x])
}

/// The scan over tokens `1..k` records exactly the tokens that start a
/// character (at their position among the tokens after the first).
pub proof fn lemma_char_scan_starts(offsets: Seq<(usize, usize)>, k: int)
    requires
        1 <= k <= usize::MAX,
    ensures
        char_scan(offsets, k).3 == padded_before(offsets, k),
        !char_scan(offsets, k).3 ==> char_scan(offsets, k).2 == prev_offsets(offsets, k),
        forall|m: int|
            0 <= m < char_scan(offsets, k).0.len() ==> 0 <= #[trigger] char_scan(offsets, k).0[m] && char_scan(
                offsets,
                k,
            ).0[m] + 1 < k,
        forall|x: int|
            1 <= x < k ==> (char_scan(offsets, k).0.contains((x - 1) as usize) <==> #[trigger] starts_char(
                offsets,
                x,
            )),
    decreases k,
{
    if k > 1 {
        lemma_char_scan_starts(offsets, k - 1);
        let (ci0, cp0, last0, stopped0) = char_scan(offsets, k - 1);
        let (ci, cp, last, stopped) = char_scan(offsets, k);
        let idx = k - 1;
        let (s, e) = offsets[idx];
        if stopped0 {
            let j = choose|j: int| 1 <= j < k - 1 && #[trigger] offsets[j] == (0usize, 0usize);
            assert(1 <= j < k && offsets[j] == (0usize, 0usize));
        } else if s == 0 && e == 0 {
            assert(offsets[idx] == (0usize, 0usize));
        } else {
            assert(!padded_before(offsets, k)) by {
                if padded_before(offsets, k) {
                    let j = choose|j: int| 1 <= j < k && #[trigger] offsets[j] == (0usize, 0usize);
                    if j < k - 1 {
                        assert(padded_before(offsets, k - 1));
                    }
                }
            }
        }
        if ci.len() > ci0.len() {
            assert(ci == ci0.push((idx - 1) as usize));
        } else {
            assert(ci == ci0);
        }
        assert forall|m: int| 0 <= m < ci.len() implies 0 <= #[trigger] ci[m] && ci[m] + 1 < k by {
            if m < ci0.len() {
                assert(ci[m] == ci0[m]);
            }
        }
        assert forall|x: int| 1 <= x < k implies (ci.contains((x - 1) as usize) <==> #[trigger] starts_char(
            offsets,
            x,
        )) by {
            if x < idx {
                assert(padded_before(offsets, x + 1) ==> padded_before(offsets, k)) by {
                    if padded_before(offsets, x + 1) {
                        let j = choose|j: int| 1 <= j < x + 1 && #[trigger] offsets[j] == (0usize, 0usize);
                        assert(1 <= j < k);
                    }
                }
                if ci.contains((x - 1) as usize) {
                    let i = choose|i: int| 0 <= i < ci.len() && ci[i] == (x - 1) as usize;
                    if i < ci0.len() {
                        assert(ci0[i] == (x - 1) as usize);
                    }
                }
                if ci0.contains((x - 1) as usize) {
                    let i = choose|i: int| 0 <= i < ci0.len() && ci0[i] == (x - 1) as usize;
                    assert(ci[i] == (x - 1) as usize);
                }
            } else {
                assert(padded_before(offsets, x + 1) == padded_before(offsets, k));
                assert(padded_before(offsets, x) == padded_before(offsets, k - 1));
                if padded_before(offsets, x + 1) && !padded_before(offsets, x) {
                    let j = choose|j: int| 1 <= j < x + 1 && #[trigger] offsets[j] == (0usize, 0usize);
                    if j < x {
                        assert(padded_before(offsets, x));
                    }
                }
                if ci.len() > ci0.len() {
                    assert(ci[ci0.len() as int] == (x - 1) as usize);
                } else if ci.contains((x - 1) as usize) {
                    let i = choose|i: int| 0 <= i < ci.len() && ci[i] == (x - 1) as usize;
                    assert(ci0[i] + 1 < k - 1);
                }
            }
        }
    }
}

/// The token positions (counted from the token after the first) where the
/// characters of `input` start, and the byte where each starts, followed by
/// the length of the input in bytes.
pub fn char_spans(offsets: &[(usize, usize)], seq_len: usize, input_len: usize) -> (res: (Vec<usize>, Vec<usize>))
    requires
        seq_len <= 2 || seq_len - 1 <= offsets@.len(),
    ensures
        (res.0@, res.1@) == char_spans_spec(offsets@, seq_len as int, input_len),
        res.1@.len() == res.0@.len() + 1,
        res.1@[res.0@.len() as int] == input_len,
        forall|m: int|
            0 <= m < res.0@.len() ==> {
                &&& (#[trigger] res.0@[m]) + 2 < seq_len
                &&& offsets@[res.0@[m] + 1].0 == res.1@[m]
                &&& offsets@[res.0@[m] + 1].0 != offsets@[res.0@[m] + 1].1
            },
        forall|m1: int, m2: int| 0 <= m1 < m2 < res.0@.len() ==> res.0@[m1] < res.0@[m2],
        forall|x: int|
            1 <= x < seq_len - 1 ==> (res.0@.contains((x - 1) as usize) <==> #[trigger] starts_char(offsets@, x)),
{
    let mut char_idx: Vec<usize> = Vec::new();
    let mut char_pos: Vec<usize> = Vec::new();
    let mut last: Option<(usize, usize)> = None;
    if seq_len > 2 {
        let end = seq_len - 1;
        let mut idx: usize = 1;
        let mut stopped = false;
        while idx < end
            invariant
                1 <= idx <= end,
                end == seq_len - 1,
                end <= offsets@.len(),
                (char_idx@, char_pos@, last, stopped) == char_scan(offsets@, idx as int),
            decreases end - idx,
        {
            let (start, stop) = offsets[idx];
            if !stopped {
                if start == 0 && stop == 0 {
                    stopped = true;
                } else if start != stop {
                    let differs = match last {
                        Some((a, b)) => a != start || b != stop,
                        None => true,
                    };
                    if differs {
                        char_idx.push(idx - 1);
                        char_pos.push(start);
                    }
                    last = Some((start, stop));
                }
            }
            idx += 1;
        }
        let n_offsets = offsets.len();
        proof {
            assert(n_offsets == offsets@.len());
            lemma_char_scan(offsets@, end as int);
            lemma_char_scan_starts(offsets@, end as int);
        }
    }
    char_pos.push(input_len);
    (char_idx, char_pos)
}

/// The row of segmentation scores of token `t` starts at `base + 2 * t`.
pub open spec fn cws_row(base: int, token: int) -> int {
    base + 2 * token
}

/// The pair of segmentation scores of every character lies within the keys.
pub open spec fn cws_tags_ok(cws_keys: Seq<Option<i64>>, base: int, char_idx: Seq<usize>) -> bool {
    forall|m: int| 0 <= m < char_idx.len() ==> cws_row(base, #[trigger] char_idx[m] + 1) + 2 <= cws_keys.len()
}

/// The segmentation tag of every character: 1 where the second segmentation
/// score of the character's first token is greater than the first, else 0.
/// `None` when the scores of a character lie beyond `cws_keys`.
pub fn cws_tags(cws_keys: &[Option<i64>], base: usize, char_idx: &Vec<usize>) -> (res: Option<Vec<usize>>)
    ensures
        res is Some <==> cws_tags_ok(cws_keys@, base as int, char_idx@),
        res matches Some(tags) ==> {
            &&& tags@.len() == char_idx@.len()
            &&& forall|m: int|
                0 <= m < tags@.len() ==> #[trigger] tags@[m] == (if key_gt(
                    cws_keys@[cws_row(base as int, char_idx@[m] + 1) + 1],
                    cws_keys@[cws_row(base as int, char_idx@[m] + 1)],
                ) {
                    1usize
                } else {
                    0usize
                })
        },
{
    let n_keys = cws_keys.len();
    let mut tags: Vec<usize> = Vec::new();
    let mut m: usize = 0;
    while m < char_idx.len()
        invariant
            m <= char_idx@.len(),
            tags@.len() == m,
            forall|x: int| 0 <= x < m ==> cws_row(base as int, #[trigger] char_idx@[x] + 1) + 2 <= cws_keys@.len(),
            forall|x: int|
                0 <= x < m ==> #[trigger] tags@[x] == (if key_gt(
                    cws_keys@[cws_row(base as int, char_idx@[x] + 1) + 1],
                    cws_keys@[cws_row(base as int, char_idx@[x] + 1)],
                ) {
                    1usize
                } else {
                    0usize
                }),
            n_keys == cws_keys@.len(),
        decreases char_idx@.len() - m,
    {
        let c = char_idx[m];
        let row = match c.checked_add(1) {
            Some(t) => match t.checked_mul(2) {
                Some(t2) => base.checked_add(t2),
                None => None,
            },
            None => None,
        };
        let row = match row {
            Some(x) => x,
            None => {
                assert(!cws_tags_ok(cws_keys@, base as int, char_idx@)) by {
                    assert(cws_row(base as int, char_idx@[m as int] + 1) + 2 > cws_keys@.len());
                }
                return None;
            },
        };
        if row >= cws_keys.len() || cws_keys.len() - row < 2 {
            assert(!cws_tags_ok(cws_keys@, base as int, char_idx@)) by {
                assert(cws_row(base as int, char_idx@[m as int] + 1) + 2 > cws_keys@.len());
            }
            return None;
        }
        let tag: usize = if score_gt(cws_keys[row + 1], cws_keys[row]) {
            1
        } else {
            0
        };
        tags.push(tag);
        m += 1;
    }
    Some(tags)
}

/// Characters that begin a word among the first `n`: the first character and
/// every later one tagged `b_w`.
pub open spec fn word_starts(tags: Seq<usize>, b_w: usize, n: int) -> Seq<int>
    decreases n,
{
    if n <= 0 {
        seq![]
    } else if n == 1 {
        seq![0]
    } else {
        let p = word_starts(tags, b_w, n - 1);
        if tags[n - 1] == b_w {
            p.push(n - 1)
        } else {
            p
        }
    }
}

/// Character at which word `k` ends (exclusive) among words starting at `st`
/// in a sentence of `n` characters.
pub open spec fn word_end(st: Seq<int>, n: int, k: int) -> int {
    if k + 1 < st.len() {
        st[k + 1]
    } else {
        n
    }
}

pub(crate) proof fn lemma_word_starts(tags: Seq<usize>, b_w: usize, n: int)
    requires
        0 <= n <= tags.len(),
    ensures
        n > 0 ==> word_starts(tags, b_w, n).len() > 0 && word_starts(tags, b_w, n)[0] == 0,
        n == 0 ==> word_starts(tags, b_w, n).len() == 0,
        forall|k: int|
            0 <= k < word_starts(tags, b_w, n).len() ==> 0 <= #[trigger] word_starts(tags, b_w, n)[k] < n,
        forall|k1: int, k2: int|
            0 <= k1 < k2 < word_starts(tags, b_w, n).len() ==> word_starts(tags, b_w, n)[k1] < word_starts(
                tags,
                b_w,
                n,
            )[k2],
        forall|c: int|
            1 <= c < n && tags[c] == b_w ==> word_starts(tags, b_w, n).contains(c),
        word_starts(tags, b_w, n).len() <= n,
    decreases n,
{
    if n > 1 {
        lemma_word_starts(tags, b_w, n - 1);
        let p = word_starts(tags, b_w, n - 1);
        assert forall|c: int| 1 <= c < n && tags[c] == b_w implies word_starts(tags, b_w, n).contains(c) by {
            if c < n - 1 {
                let x = choose|x: int| 0 <= x < p.len() && p[x] == c;
                assert(word_starts(tags, b_w, n)[x] == c);
            } else {
                assert(word_starts(tags, b_w, n)[p.len() as int] == c);
            }
        }
    }
}

/// Law: among the first `n` characters, a word starts at character `c`
/// exactly when `c` is the first character or its tag is the word-begin
/// label `b_w`.
pub proof fn lemma_word_starts_exact(tags: Seq<usize>, b_w: usize, n: int)
    requires
        0 <= n <= tags.len(),
    ensures
        forall|c: int|
            0 <= c < n ==> (#[trigger] word_starts(tags, b_w, n).contains(c) <==> (c == 0 || tags[c] == b_w)),
    decreases n,
{
    lemma_word_starts(tags, b_w, n);
    if n > 1 {
        lemma_word_starts_exact(tags, b_w, n - 1);
        lemma_word_starts(tags, b_w, n - 1);
        let p = word_starts(tags, b_w, n - 1);
        let q = word_starts(tags, b_w, n);
        assert forall|c: int| 0 <= c < n implies (#[trigger] q.contains(c) <==> (c == 0 || tags[c] == b_w)) by {
            if q.contains(c) {
                let x = choose|x: int| 0 <= x < q.len() && q[x] == c;
                if x < p.len() {
                    assert(p[x] == c);
                    assert(p.contains(c));
                }
            }
            if c < n - 1 && p.contains(c) {
                let x = choose|x: int| 0 <= x < p.len() && p[x] == c;
                assert(q[x] == c);
            }
            if c == n - 1 && p.contains(c) {
                let x = choose|x: int| 0 <= x < p.len() && p[x] == c;
                assert(p[x] < n - 1);
            }
        }
    } else if n == 1 {
        assert(word_starts(tags, b_w, 1)[0] == 0);
    }
}

/// Words of a sentence from the segmentation tags of its characters: a word
/// starts at the first character and at every later character tagged `b_w`.
/// Returns the byte span of each word (between the start bytes of its first
/// character and of the next word, or the end of the text) and the token
/// position of its first character.
pub fn word_spans(tags: &Vec<usize>, char_idx: &Vec<usize>, char_pos: &Vec<usize>, b_w: usize) -> (res: (
    Vec<(usize, usize)>,
    Vec<usize>,
))
    requires
        char_idx@.len() == tags@.len(),
        char_pos@.len() == tags@.len() + 1,
        forall|m: int| 0 <= m < char_idx@.len() ==> #[trigger] char_idx@[m] < usize::MAX,
    ensures
        ({
            let n = tags@.len() as int;
            let st = word_starts(tags@, b_w, n);
            &&& res.0@.len() == st.len()
            &&& res.1@.len() == st.len()
            &&& forall|k: int|
                0 <= k < st.len() ==> #[trigger] res.0@[k] == (
                    char_pos@[st[k]],
                    char_pos@[word_end(st, n, k)],
                )
            &&& forall|k: int| 0 <= k < st.len() ==> #[trigger] res.1@[k] == char_idx@[st[k]] + 1
            // A word starts at each character tagged `b_w`, and only there
            // (besides the first character).
            &&& forall|c: int| 1 <= c < n ==> (#[trigger] st.contains(c) <==> tags@[c] == b_w)
            // The words tile the text from the first character to its end.
            &&& n > 0 ==> res.0@[0].0 == char_pos@[0]
            &&& n > 0 ==> res.0@[res.0@.len() - 1].1 == char_pos@[n]
            &&& forall|k: int| 0 <= k < res.0@.len() - 1 ==> #[trigger] res.0@[k].1 == res.0@[k + 1].0
        }),
{
    let n = tags.len();
    let ghost st = word_starts(tags@, b_w, n as int);
    proof {
        lemma_word_starts(tags@, b_w, n as int);
        lemma_word_starts_exact(tags@, b_w, n as int);
    }
    let mut spans: Vec<(usize, usize)> = Vec::new();
    let mut word_indices: Vec<usize> = Vec::new();
    if n > 0 {
        let mut start: usize = 0;
        let mut i: usize = 1;
        while i < n
            invariant
                1 <= i <= n,
                n == tags@.len(),
                char_idx@.len() == n,
                char_pos@.len() == n + 1,
                forall|m: int| 0 <= m < char_idx@.len() ==> #[trigger] char_idx@[m] < usize::MAX,
                word_starts(tags@, b_w, i as int).len() == spans@.len() + 1,
                word_starts(tags@, b_w, i as int)[spans@.len() as int] == start,
                word_indices@.len() == spans@.len(),
                forall|k: int|
                    0 <= k < spans@.len() ==> #[trigger] spans@[k] == (
                        char_pos@[word_starts(tags@, b_w, i as int)[k]],
                        char_pos@[word_starts(tags@, b_w, i as int)[k + 1]],
                    ),
                forall|k: int|
                    0 <= k < spans@.len() ==> #[trigger] word_indices@[k] == char_idx@[word_starts(
                        tags@,
                        b_w,
                        i as int,
                    )[k]] + 1,
            decreases n - i,
        {
            proof {
                lemma_word_starts(tags@, b_w, i as int);
            }
            if tags[i] == b_w {
                spans.push((char_pos[start], char_pos[i]));
                word_indices.push(char_idx[start] + 1);
                start = i;
            }
            i += 1;
        }
        proof {
            lemma_word_starts(tags@, b_w, n as int);
        }
        spans.push((char_pos[start], char_pos[n]));
        word_indices.push(char_idx[start] + 1);
    }
    proof {
        lemma_word_starts(tags@, b_w, n as int);
        if n > 0 {
            assert forall|k: int| 0 <= k < spans@.len() - 1 implies #[trigger] spans@[k].1 == spans@[k + 1].0 by {
                assert(spans@[k] == (char_pos@[st[k]], char_pos@[word_end(st, n as int, k)]));
                assert(spans@[k + 1] == (char_pos@[st[k + 1]], char_pos@[word_end(st, n as int, k + 1)]));
            }
        }
    }
    (spans, word_indices)
}

/// The scan over tokens `1..k` of a pre-segmented sentence that records each
/// token whose word differs from the word of the last token that had one.
/// The result is `(first_tokens, last_word)`.
pub open spec fn subword_scan(word_ids: Seq<Option<u32>>, k: int) -> (Seq<usize>, Option<u32>)
    decreases k,
{
    if k <= 1 {
        (seq![], None)
    } else {
        let (firsts, last) = subword_scan(word_ids, k - 1);
        let idx = k - 1;
        match word_ids[idx] {
            Some(w) => if last != Some(w) {
                (firsts.push(idx as usize), Some(w))
            } else {
                (firsts, last)
            },
            None => (firsts, last),
        }
    }
}

/// The word id of the nearest token before `k`, from token 1 on, that has
/// one; `None` when none has.
pub open spec fn prev_word(word_ids: Seq<Option<u32>>, k: int) -> Option<u32>
    decreases k,
{
    if k <= 1 {
        None
    } else if word_ids[k - 1] is Some {
        word_ids[k - 1]
    } else {
        prev_word(word_ids, k - 1)
    }
}

/// Token `k` starts a word: it has a word id, and the nearest earlier token
/// that has one has another.
pub open spec fn starts_word(word_ids: Seq<Option<u32>>, k: int) -> bool {
    word_ids[k] is Some && prev_word(word_ids, k) != word_ids[k]
}

/// The scan over tokens `1..k` keeps exactly the tokens that start a word,
/// and ends with the word id of the last token that has one.
pub proof fn lemma_subword_scan_starts(word_ids: Seq<Option<u32>>, k: int)
    requires
        k <= usize::MAX,
    ensures
        subword_scan(word_ids, k).1 == prev_word(word_ids, k),
        forall|x: int|
            1 <= x < k ==> (subword_scan(word_ids, k).0.contains(x as usize) <==> #[trigger] starts_word(
                word_ids,
                x,
            )),
        forall|m: int|
            0 <= m < subword_scan(word_ids, k).0.len() ==> 1 <= #[trigger] subword_scan(word_ids, k).0[m] < k,
    decreases k,
{
    if k > 1 {
        lemma_subword_scan_starts(word_ids, k - 1);
        let (f0, l0) = subword_scan(word_ids, k - 1);
        let (f, l) = subword_scan(word_ids, k);
        let idx = k - 1;
        if f.len() > f0.len() {
            assert(f == f0.push(idx as usize));
        } else {
            assert(f == f0);
        }
        assert forall|x: int| 1 <= x < k implies (f.contains(x as usize) <==> #[trigger] starts_word(
            word_ids,
            x,
        )) by {
            if x < idx {
                if f.contains(x as usize) {
                    let i = choose|i: int| 0 <= i < f.len() && f[i] == x as usize;
                    if i < f0.len() {
                        assert(f0[i] == x as usize);
                    }
                }
                if f0.contains(x as usize) {
                    let i = choose|i: int| 0 <= i < f0.len() && f0[i] == x as usize;
                    assert(f[i] == x as usize);
                }
            } else {
                if f.len() > f0.len() {
                    assert(f[f0.len() as int] == x as usize);
                } else if f.contains(x as usize) {
                    let i = choose|i: int| 0 <= i < f.len() && f[i] == x as usize;
                    assert(f0[i] < idx);
                }
            }
        }
        assert forall|m: int| 0 <= m < f.len() implies 1 <= #[trigger] f[m] < k by {
            if m < f0.len() {
                assert(f[m] == f0[m]);
            }
        }
    }
}

pub(crate) proof fn lemma_subword_scan(word_ids: Seq<Option<u32>>, k: int)
    requires
        1 <= k <= word_ids.len(),
        word_ids.len() <= usize::MAX,
    ensures
        ({
            let (firsts, last) = subword_scan(word_ids, k);
            &&& forall|m: int|
                0 <= m < firsts.len() ==> 1 <= #[trigger] firsts[m] < k && word_ids[firsts[m] as int] is Some
            &&& forall|m1: int, m2: int| 0 <= m1 < m2 < firsts.len() ==> firsts[m1] < firsts[m2]
            &&& firsts.len() > 0 ==> last == word_ids[firsts[firsts.len() - 1] as int]
        }),
    decreases k,
{
    if k > 1 {
        lemma_subword_scan(word_ids, k - 1);
        let (f0, l0) = subword_scan(word_ids, k - 1);
        let (f, l) = subword_scan(word_ids, k);
        if f.len() > f0.len() {
            assert(f == f0.push((k - 1) as usize));
            assert forall|m: int| 0 <= m < f.len() implies 1 <= #[trigger] f[m] < k && word_ids[f[m] as int] is Some by {
                if m < f0.len() {
                    assert(f[m] == f0[m]);
                }
            }
        } else {
            assert(f == f0);
        }
    }
}

/// Token position of the first token of every word of a pre-segmented
/// sentence of `seq_len` tokens (the first and last tokens are the tokenizer's
/// own).
pub fn first_subtokens(word_ids: &[Option<u32>], seq_len: usize) -> (firsts: Vec<usize>)
    requires
        1 <= seq_len,
        seq_len - 1 <= word_ids@.len(),
    ensures
        firsts@ == subword_scan(word_ids@, seq_len - 1).0,
        forall|m: int|
            0 <= m < firsts@.len() ==> 1 <= #[trigger] firsts@[m] < seq_len - 1 && word_ids@[firsts@[m] as int] is Some,
        forall|m1: int, m2: int| 0 <= m1 < m2 < firsts@.len() ==> firsts@[m1] < firsts@[m2],
        forall|x: int|
            1 <= x < seq_len - 1 ==> (firsts@.contains(x as usize) <==> #[trigger] starts_word(word_ids@, x)),
{
    let end = seq_len - 1;
    let mut firsts: Vec<usize> = Vec::new();
    let mut last: Option<u32> = None;
    let mut idx: usize = 1;
    while idx < end
        invariant
            end == seq_len - 1,
            end <= word_ids@.len(),
            1 <= idx,
            idx <= end || idx == 1,
            (firsts@, last) == subword_scan(word_ids@, idx as int),
        decreases end - idx,
    {
        match word_ids[idx] {
            Some(w) => {
                let same = match last {
                    Some(v) => v == w,
                    None => false,
                };
                if !same {
                    firsts.push(idx);
                    last = Some(w);
                }
            },
            None => {},
        }
        idx += 1;
    }
    let n_words = word_ids.len();
    proof {
        assert(n_words == word_ids@.len());
        lemma_subword_scan_starts(word_ids@, end as int);
        if end >= 1 {
            lemma_subword_scan(word_ids@, end as int);
        } else {
            assert(subword_scan(word_ids@, 0) == subword_scan(word_ids@, 1));
        }
    }
    firsts
}

} // verus!
