//! Text helpers: characters of a string, strings from characters, byte slices
//! of a text.
use vstd::prelude::*;
use vstd::string::StringSliceAdditionalSpecFns;
use vstd::utf8::{
    encode_utf8,
    encode_utf8_valid_utf8,
    is_char_boundary,
    is_char_boundary_iff_not_is_continuation_byte,
    is_char_boundary_start_end_of_seq,
    valid_utf8,
    valid_utf8_split,
};

verus! {

broadcast use vstd::string::axiom_spec_iter;

/// The characters of `s`, in order.
pub fn chars_of(s: &str) -> (v: Vec<char>)
    ensures
        v@ == s@,
{
    let mut v: Vec<char> = Vec::new();
    for c in it: s.chars()
        invariant
            v@ == it.seq().take(it.index()),
    {
        v.push(c);
        assert(v@ == it.seq().take(it.index() + 1));
    }
    assert(v@ == s@);
    v
}

/// Builds a `String` from characters, through std's `FromIterator<&char>` for
/// `String`, which appends the characters in order; the contract claims that
/// the string holds exactly `cs`.
#[verifier::external_body]
pub(crate) fn string_from_chars(cs: &[char]) -> (s: String)
    ensures
        s@ == cs@,
{
    String::from_iter(cs.iter())
}

/// Whether two texts hold the same characters.
pub fn same_text(a: &str, b: &str) -> (r: bool)
    ensures
        r == (a@ == b@),
{
    let ca = chars_of(a);
    let cb = chars_of(b);
    if ca.len() != cb.len() {
        return false;
    }
    let mut k: usize = 0;
    while k < ca.len()
        invariant
            ca@ == a@,
            cb@ == b@,
            ca@.len() == cb@.len(),
            k <= ca@.len(),
            forall|x: int| 0 <= x < k ==> ca@[x] == cb@[x],
        decreases ca@.len() - k,
    {
        if ca[k] != cb[k] {
            return false;
        }
        k += 1;
    }
    assert(ca@ =~= cb@);
    true
}

/// A boundary of a text that lies before another boundary is a boundary of
/// the prefix that ends there.
proof fn lemma_prefix_boundary(bytes: Seq<u8>, b: int, a: int)
    requires
        valid_utf8(bytes),
        0 <= a <= b <= bytes.len(),
        is_char_boundary(bytes, a),
        is_char_boundary(bytes, b),
    ensures
        is_char_boundary(bytes.subrange(0, b), a),
{
    valid_utf8_split(bytes, b);
    let p = bytes.subrange(0, b);
    if a == b {
        is_char_boundary_start_end_of_seq(p);
    } else {
        is_char_boundary_iff_not_is_continuation_byte(p, a);
        is_char_boundary_iff_not_is_continuation_byte(bytes, a);
    }
}

/// A byte span `(a, b)` that slicing `text` accepts: in order, within the
/// text and on character boundaries.
pub open spec fn span_ok(text: Seq<u8>, span: (usize, usize)) -> bool {
    &&& span.0 <= span.1 <= text.len()
    &&& is_char_boundary(text, span.0 as int)
    &&& is_char_boundary(text, span.1 as int)
}

/// The text between the byte offsets of each span; `None` when a span is out
/// of order, beyond the text, or cuts a character.
pub fn slice_spans(input: &str, spans: &Vec<(usize, usize)>) -> (res: Option<Vec<String>>)
    ensures
        res is Some <==> forall|k: int| 0 <= k < spans@.len() ==> span_ok(input.spec_bytes(), #[trigger] spans@[k]),
        res matches Some(words) ==> {
            &&& words@.len() == spans@.len()
            &&& forall|k: int|
                0 <= k < spans@.len() ==> encode_utf8(#[trigger] words@[k]@) == input.spec_bytes().subrange(
                    spans@[k].0 as int,
                    spans@[k].1 as int,
                )
        },
{
    let mut words: Vec<String> = Vec::new();
    let mut k: usize = 0;
    while k < spans.len()
        invariant
            k <= spans@.len(),
            words@.len() == k,
            forall|x: int| 0 <= x < k ==> span_ok(input.spec_bytes(), #[trigger] spans@[x]),
            forall|x: int|
                0 <= x < k ==> encode_utf8(#[trigger] words@[x]@) == input.spec_bytes().subrange(
                    spans@[x].0 as int,
                    spans@[x].1 as int,
                ),
        decreases spans@.len() - k,
    {
        let (a, b) = spans[k];
        proof {
            encode_utf8_valid_utf8(input@);
        }
        if !(a <= b && input.is_char_boundary(a) && input.is_char_boundary(b)) {
            assert(!span_ok(input.spec_bytes(), spans@[k as int]));
            return None;
        }
        proof {
            if input.spec_bytes().len() < b {
                assert(!is_char_boundary(input.spec_bytes(), b as int));
            }
        }
        let (head, _) = input.split_at(b);
        proof {
            assert(head.spec_bytes() =~= input.spec_bytes().subrange(0, b as int));
            lemma_prefix_boundary(input.spec_bytes(), b as int, a as int);
        }
        let (_, word) = head.split_at(a);
        let owned = word.to_owned();
        proof {
            assert(word.spec_bytes() =~= input.spec_bytes().subrange(a as int, b as int));
        }
        words.push(owned);
        k += 1;
    }
    Some(words)
}


/// The parts laid end to end.
pub open spec fn concat_all(parts: Seq<Seq<u8>>) -> Seq<u8>
    decreases parts.len(),
{
    if parts.len() == 0 {
        seq![]
    } else {
        concat_all(parts.drop_last()) + parts.last()
    }
}

/// Law: slices of a text over spans that follow one another end to end give
/// back, laid end to end, the text from the start of the first span to the
/// end of the last.
pub proof fn lemma_slices_rejoin(text: Seq<u8>, spans: Seq<(usize, usize)>, parts: Seq<Seq<u8>>)
    requires
        spans.len() >= 1,
        parts.len() == spans.len(),
        forall|k: int| 0 <= k < spans.len() ==> (#[trigger] spans[k]).0 <= spans[k].1 <= text.len(),
        forall|k: int|
            0 <= k < spans.len() ==> #[trigger] parts[k] == text.subrange(spans[k].0 as int, spans[k].1 as int),
        forall|k: int| 0 <= k < spans.len() - 1 ==> (#[trigger] spans[k]).1 == spans[k + 1].0,
    ensures
        concat_all(parts) == text.subrange(spans[0].0 as int, spans[spans.len() - 1].1 as int),
    decreases spans.len(),
{
    let n = spans.len();
    if n == 1 {
        assert(parts.drop_last().len() == 0);
        assert(concat_all(parts.drop_last()) =~= Seq::<u8>::empty());
        assert(concat_all(parts) =~= Seq::<u8>::empty() + parts[0]);
    } else {
        let s2 = spans.drop_last();
        let p2 = parts.drop_last();
        assert forall|k: int| 0 <= k < s2.len() - 1 implies (#[trigger] s2[k]).1 == s2[k + 1].0 by {
            assert(s2[k] == spans[k]);
            assert(s2[k + 1] == spans[k + 1]);
        }
        assert forall|k: int| 0 <= k < s2.len() implies (#[trigger] s2[k]).0 <= s2[k].1 <= text.len() by {
            assert(s2[k] == spans[k]);
        }
        assert forall|k: int|
            0 <= k < s2.len() implies #[trigger] p2[k] == text.subrange(s2[k].0 as int, s2[k].1 as int) by {
            assert(s2[k] == spans[k]);
            assert(p2[k] == parts[k]);
        }
        lemma_slices_rejoin(text, s2, p2);
        assert(spans[n - 2].1 == spans[n - 1].0);
        assert(spans[0].0 <= spans[n - 2].1) by {
            lemma_spans_ordered(text, spans, n - 2);
        }
        assert(text.subrange(spans[0].0 as int, spans[n - 2].1 as int) + parts[n - 1] =~= text.subrange(
            spans[0].0 as int,
            spans[n - 1].1 as int,
        ));
    }
}

proof fn lemma_spans_ordered(text: Seq<u8>, spans: Seq<(usize, usize)>, k: int)
    requires
        0 <= k < spans.len(),
        forall|x: int| 0 <= x < spans.len() ==> (#[trigger] spans[x]).0 <= spans[x].1 <= text.len(),
        forall|x: int| 0 <= x < spans.len() - 1 ==> (#[trigger] spans[x]).1 == spans[x + 1].0,
    ensures
        spans[0].0 <= spans[k].1,
    decreases k,
{
    if k > 0 {
        lemma_spans_ordered(text, spans, k - 1);
        assert(spans[k - 1].1 == spans[k].0);
    }
}

} // verus!
