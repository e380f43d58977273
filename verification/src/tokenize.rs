//! Tokenization through the `tokenizers` crate: a sentence (or a list of
//! words) becomes token ids, the attention mask, the byte offsets of every
//! token in the text, and the word each token belongs to.
use vstd::prelude::*;

verus! {

#[verifier::external_type_specification]
#[verifier::external_body]
pub struct ExTokenizer(tokenizers::Tokenizer);

#[verifier::external_type_specification]
#[verifier::external_body]
pub struct ExEncoding(tokenizers::Encoding);

#[verifier::external_type_specification]
#[verifier::external_body]
pub struct ExPostProcessorWrapper(tokenizers::processors::PostProcessorWrapper);

/// Why a sentence could not be tokenized.
#[derive(Debug)]
pub enum TokenizeError {
    /// The tokenizer's truncation cannot be carried out (`truncation_fits`
    /// fails): the library refuses it before any call, since the tokenizer
    /// would panic on a text long enough to be cut.
    Truncation,
    /// The tokenizer failed; its message.
    Tokenizer(String),
}

/// What the decoder reads of the tokenization of one sentence.
pub struct Tokenized {
    pub ids: Vec<u32>,
    pub attention_mask: Vec<u32>,
    pub offsets: Vec<(usize, usize)>,
    pub word_ids: Vec<Option<u32>>,
}

/// Whether `e` is an encoding that `tokenizers::Tokenizer::encode` may give
/// back when `tok` encodes `input`, with its post-processor's special tokens
/// added when `add_special_tokens` (the call's second argument).  A raw text
/// is the single sequence `seq![text]` with `pretokenized` false; a list of
/// words is the sequence of the words with `pretokenized` true.  This is a
/// relation, not a function: with BPE dropout the tokenizer draws random
/// numbers, so one input may be encoded in more than one way.
pub uninterp spec fn encodes(
    tok: tokenizers::Tokenizer,
    input: Seq<Seq<char>>,
    pretokenized: bool,
    add_special_tokens: bool,
    e: tokenizers::Encoding,
) -> bool;

/// Whether `e` is an encoding that `tokenizers::Tokenizer::encode_batch` may
/// give back at position `k` when `tok` encodes `inputs` together, with
/// special tokens added when `add_special_tokens`.  Each input is written as
/// for `encodes`.  Position `k` depends on the whole
/// batch, since the tokenizer's padding may extend every encoding to the
/// longest one.
pub uninterp spec fn batch_encodes(
    tok: tokenizers::Tokenizer,
    inputs: Seq<Seq<Seq<char>>>,
    pretokenized: bool,
    add_special_tokens: bool,
    k: int,
    e: tokenizers::Encoding,
) -> bool;

/// A text as the input of `encodes`: one raw sequence.
pub open spec fn raw_input(text: Seq<char>) -> Seq<Seq<char>> {
    seq![text]
}

/// A list of words as the input of `encodes`: their characters, in order.
pub open spec fn words_input(words: Seq<String>) -> Seq<Seq<char>> {
    words.map_values(|w: String| w@)
}

/// Texts as the inputs of `batch_encodes`.
pub open spec fn raw_inputs(texts: Seq<&str>) -> Seq<Seq<Seq<char>>> {
    texts.map_values(|t: &str| raw_input(t@))
}

/// Lists of words as the inputs of `batch_encodes`.
pub open spec fn words_inputs(lists: Seq<Vec<String>>) -> Seq<Seq<Seq<char>>> {
    lists.map_values(|l: Vec<String>| words_input(l@))
}

/// The ids, attention mask, offsets and word ids of `e` have one entry per
/// token each.
pub open spec fn aligned(e: tokenizers::Encoding) -> bool {
    &&& encoding_attention_mask(e).len() == encoding_ids(e).len()
    &&& encoding_offsets(e).len() == encoding_ids(e).len()
    &&& encoding_word_ids(e).len() == encoding_ids(e).len()
}

/// Every word id of `e` names one of `n` words.
pub open spec fn word_ids_below(e: tokenizers::Encoding, n: int) -> bool {
    forall|i: int|
        0 <= i < encoding_word_ids(e).len() ==> (#[trigger] encoding_word_ids(e)[i] matches Some(w)
            ==> w < n)
}

/// The truncation parameters of a tokenizer, as
/// `tokenizers::TokenizerImpl::get_truncation` hands them out: its maximum
/// length and its stride, or `None` when it does not truncate.
pub uninterp spec fn truncation_limits(tok: tokenizers::Tokenizer) -> Option<(usize, usize)>;

/// The post-processor of a tokenizer, as
/// `tokenizers::TokenizerImpl::get_post_processor` hands it out.
pub uninterp spec fn configured_post_processor(
    tok: tokenizers::Tokenizer,
) -> Option<tokenizers::processors::PostProcessorWrapper>;

/// What `tokenizers::PostProcessor::added_tokens` returns for a single
/// sequence: how many special tokens the post-processor adds to it.
pub uninterp spec fn single_added_tokens(p: tokenizers::processors::PostProcessorWrapper) -> usize;

/// Reads `tokenizers::TokenizerImpl::get_truncation`: the maximum length and
/// stride of the stored truncation parameters, `truncation_limits` of the
/// tokenizer.
#[verifier::external_body]
fn truncation_of(tok: &tokenizers::Tokenizer) -> (r: Option<(usize, usize)>)
    ensures
        r == truncation_limits(*tok),
{
    tok.get_truncation().map(|t| (t.max_length, t.stride))
}

/// Reads `tokenizers::TokenizerImpl::get_post_processor`: the stored
/// post-processor, `configured_post_processor` of the tokenizer.
#[verifier::external_body]
fn post_processor_of(tok: &tokenizers::Tokenizer) -> (r: Option<&tokenizers::processors::PostProcessorWrapper>)
    ensures
        match r {
            Some(p) => configured_post_processor(*tok) == Some(*p),
            None => configured_post_processor(*tok) is None,
        },
{
    tok.get_post_processor()
}

/// Calls `tokenizers::PostProcessor::added_tokens` for a single sequence:
/// `single_added_tokens` of the post-processor.
#[verifier::external_body]
fn added_tokens_of(p: &tokenizers::processors::PostProcessorWrapper) -> (r: usize)
    ensures
        r == single_added_tokens(*p),
{
    tokenizers::PostProcessor::added_tokens(p, false)
}

/// How many special tokens `tok` adds to a single sequence: none without a
/// post-processor.
pub open spec fn special_token_count(tok: tokenizers::Tokenizer) -> int {
    match configured_post_processor(tok) {
        Some(p) => single_added_tokens(p) as int,
        None => 0,
    }
}

/// The truncation of `tok` can be carried out on every single sequence: the
/// special tokens fit in the maximum length, and the stride is below the
/// length that is left for the text, unless nothing is left.  Otherwise
/// `encode` and `encode_batch` panic on a long enough input: the length left
/// is the maximum length less the special tokens, and cutting an encoding to
/// a nonzero length asserts that the stride is below it.
pub open spec fn truncation_fits(tok: tokenizers::Tokenizer) -> bool {
    match truncation_limits(tok) {
        None => true,
        Some(limits) => {
            let left = limits.0 - special_token_count(tok);
            left >= 0 && (left == 0 || limits.1 < left)
        },
    }
}

/// Whether the truncation of `tok` can be carried out on every single
/// sequence.
pub fn fits_truncation(tok: &tokenizers::Tokenizer) -> (r: bool)
    ensures
        r == truncation_fits(*tok),
{
    let added: usize = match post_processor_of(tok) {
        Some(p) => added_tokens_of(p),
        None => 0,
    };
    match truncation_of(tok) {
        None => true,
        Some((max_length, stride)) => added <= max_length && (max_length - added == 0 || stride < max_length
            - added),
    }
}

/// Calls `tokenizers::Tokenizer::encode` on a text, with the model's special
/// tokens added; an error becomes its message.  Claims that an encoding that
/// comes back is one that `encodes` allows for this text, and that its ids,
/// mask, offsets and word ids are equally long: the crate builds an encoding
/// from one entry per token, and its truncation, padding and post-processors
/// extend or cut all four together.  When the call fails is not claimed.
/// Where `truncation_fits` fails the call panics on a long enough text, so
/// `requires` leaves such tokenizers out.
#[verifier::external_body]
fn encode_text(tok: &tokenizers::Tokenizer, text: &str) -> (res: Result<tokenizers::Encoding, String>)
    requires
        truncation_fits(*tok),
    ensures
        res matches Ok(e) ==> encodes(*tok, raw_input(text@), false, true, e) && aligned(e),
{
    tok.encode(text, true).map_err(|e| e.to_string())
}

/// Calls `tokenizers::Tokenizer::encode` on a list of words (pre-tokenized
/// input), with the model's special tokens added; an error becomes its
/// message.  Claims what `encode_text` claims, and that every word id is the
/// index of one of the words: the crate gives each token of word `i` the id
/// `i` and the special tokens and padding none.  The same `requires` as
/// `encode_text`.
#[verifier::external_body]
fn encode_words(tok: &tokenizers::Tokenizer, words: Vec<String>) -> (res: Result<tokenizers::Encoding, String>)
    requires
        truncation_fits(*tok),
    ensures
        res matches Ok(e) ==> {
            &&& encodes(*tok, words_input(words@), true, true, e)
            &&& aligned(e)
            &&& word_ids_below(e, words@.len() as int)
        },
{
    tok.encode(words, true).map_err(|e| e.to_string())
}

/// Calls `tokenizers::Tokenizer::encode_batch` on texts, with special tokens
/// added; an error becomes its message.  Claims that one encoding comes back
/// per text, in the order of the texts (the crate maps `encode` over the
/// inputs and pads the results in place), each one that `batch_encodes`
/// allows at its position and with its four fields equally long.  Each
/// input goes through the truncation of `encode`, hence the same `requires`.
#[verifier::external_body]
fn encode_text_batch(tok: &tokenizers::Tokenizer, texts: Vec<&str>) -> (res: Result<
    Vec<tokenizers::Encoding>,
    String,
>)
    requires
        truncation_fits(*tok),
    ensures
        res matches Ok(encs) ==> {
            &&& encs@.len() == texts@.len()
            &&& forall|k: int|
                0 <= k < encs@.len() ==> batch_encodes(*tok, raw_inputs(texts@), false, true, k, #[trigger] encs@[k])
                    && aligned(encs@[k])
        },
{
    tok.encode_batch(texts, true).map_err(|e| e.to_string())
}

/// Calls `tokenizers::Tokenizer::encode_batch` on lists of words, with special
/// tokens added; an error becomes its message.  Claims what
/// `encode_text_batch` claims, and that every word id of encoding `k` is the
/// index of a word of list `k`.
#[verifier::external_body]
fn encode_words_batch(tok: &tokenizers::Tokenizer, lists: Vec<Vec<String>>) -> (res: Result<
    Vec<tokenizers::Encoding>,
    String,
>)
    requires
        truncation_fits(*tok),
    ensures
        res matches Ok(encs) ==> {
            &&& encs@.len() == lists@.len()
            &&& forall|k: int|
                0 <= k < encs@.len() ==> {
                    &&& batch_encodes(*tok, words_inputs(lists@), true, true, k, #[trigger] encs@[k])
                    &&& aligned(encs@[k])
                    &&& word_ids_below(encs@[k], lists@[k]@.len() as int)
                }
        },
{
    tok.encode_batch(lists, true).map_err(|e| e.to_string())
}

/// What `tokenizers::Encoding::get_ids` returns for an encoding.
pub uninterp spec fn encoding_ids(e: tokenizers::Encoding) -> Seq<u32>;

/// What `tokenizers::Encoding::get_attention_mask` returns for an encoding.
pub uninterp spec fn encoding_attention_mask(e: tokenizers::Encoding) -> Seq<u32>;

/// What `tokenizers::Encoding::get_offsets` returns for an encoding.
pub uninterp spec fn encoding_offsets(e: tokenizers::Encoding) -> Seq<(usize, usize)>;

/// What `tokenizers::Encoding::get_word_ids` returns for an encoding.
pub uninterp spec fn encoding_word_ids(e: tokenizers::Encoding) -> Seq<Option<u32>>;

/// Copies `tokenizers::Encoding::get_ids`, which hands out the encoding's
/// stored ids without changing them: the copy is `encoding_ids` of it.
#[verifier::external_body]
fn ids_of(enc: &tokenizers::Encoding) -> (r: Vec<u32>)
    ensures
        r@ == encoding_ids(*enc),
{
    enc.get_ids().to_vec()
}

/// Copies `tokenizers::Encoding::get_attention_mask`, which hands out the
/// stored mask: the copy is `encoding_attention_mask` of it.
#[verifier::external_body]
fn attention_mask_of(enc: &tokenizers::Encoding) -> (r: Vec<u32>)
    ensures
        r@ == encoding_attention_mask(*enc),
{
    enc.get_attention_mask().to_vec()
}

/// Copies `tokenizers::Encoding::get_offsets`, which hands out the stored
/// offsets: the copy is `encoding_offsets` of it.
#[verifier::external_body]
fn offsets_of(enc: &tokenizers::Encoding) -> (r: Vec<(usize, usize)>)
    ensures
        r@ == encoding_offsets(*enc),
{
    enc.get_offsets().to_vec()
}

/// Copies `tokenizers::Encoding::get_word_ids`, which hands out the stored
/// word ids: the copy is `encoding_word_ids` of it.
#[verifier::external_body]
fn word_ids_of(enc: &tokenizers::Encoding) -> (r: Vec<Option<u32>>)
    ensures
        r@ == encoding_word_ids(*enc),
{
    enc.get_word_ids().to_vec()
}

/// `t` holds the ids, attention mask, offsets and word ids of encoding `e`.
pub open spec fn reads_encoding(t: Tokenized, e: tokenizers::Encoding) -> bool {
    &&& t.ids@ == encoding_ids(e)
    &&& t.attention_mask@ == encoding_attention_mask(e)
    &&& t.offsets@ == encoding_offsets(e)
    &&& t.word_ids@ == encoding_word_ids(e)
}

/// Every field of `t` has one entry per token.
pub open spec fn lengths_agree(t: Tokenized) -> bool {
    &&& t.attention_mask@.len() == t.ids@.len()
    &&& t.offsets@.len() == t.ids@.len()
    &&& t.word_ids@.len() == t.ids@.len()
}

/// Every word id of `t` names one of `n` words.
pub open spec fn words_below(t: Tokenized, n: int) -> bool {
    forall|i: int| 0 <= i < t.word_ids@.len() ==> (#[trigger] t.word_ids@[i] matches Some(w) ==> w < n)
}

/// `t` holds the fields of an encoding that `tok` may give for `input`, its
/// special tokens added.
pub open spec fn read_from_encode(
    t: Tokenized,
    tok: tokenizers::Tokenizer,
    input: Seq<Seq<char>>,
    pretokenized: bool,
) -> bool {
    exists|e: tokenizers::Encoding| #[trigger] reads_encoding(t, e) && encodes(tok, input, pretokenized, true, e)
}

/// `t` holds the fields of an encoding, special tokens added, that `tok` may
/// give at position `k` when it encodes `inputs` together.
pub open spec fn read_from_batch(
    t: Tokenized,
    tok: tokenizers::Tokenizer,
    inputs: Seq<Seq<Seq<char>>>,
    pretokenized: bool,
    k: int,
) -> bool {
    exists|e: tokenizers::Encoding|
        #[trigger] reads_encoding(t, e) && batch_encodes(tok, inputs, pretokenized, true, k, e)
}

/// What the decoder reads of an encoding.
fn tokenized(enc: &tokenizers::Encoding) -> (t: Tokenized)
    ensures
        reads_encoding(t, *enc),
        aligned(*enc) ==> lengths_agree(t),
        forall|n: int| word_ids_below(*enc, n) ==> #[trigger] words_below(t, n),
{
    Tokenized {
        ids: ids_of(enc),
        attention_mask: attention_mask_of(enc),
        offsets: offsets_of(enc),
        word_ids: word_ids_of(enc),
    }
}

/// Tokenizes a sentence of raw text: the ids, attention mask, offsets and
/// word ids of an encoding that the tokenizer gives this text, one entry per
/// token in each.  A tokenizer whose truncation does not fit
/// (`truncation_fits`) is refused with `TokenizeError::Truncation` before
/// any call, and only such a tokenizer is, since it would panic on a long
/// enough text; otherwise whether the tokenizer succeeds is its own affair,
/// and its failure is `TokenizeError::Tokenizer`.
pub fn tokenize_text(tok: &tokenizers::Tokenizer, text: &str) -> (res: Result<Tokenized, TokenizeError>)
    ensures
        res matches Err(TokenizeError::Truncation) <==> !truncation_fits(*tok),
        res matches Ok(t) ==> read_from_encode(t, *tok, raw_input(text@), false) && lengths_agree(t),
{
    if !fits_truncation(tok) {
        return Err(TokenizeError::Truncation);
    }
    let enc = match encode_text(tok, text) {
        Ok(x) => x,
        Err(e) => {
            return Err(TokenizeError::Tokenizer(e));
        },
    };
    let read = tokenized(&enc);
    assert(read_from_encode(read, *tok, raw_input(text@), false)) by {
        assert(reads_encoding(read, enc));
    }
    Ok(read)
}

/// Tokenizes a sentence given as its words: the ids, attention mask, offsets
/// and word ids of an encoding that the tokenizer gives these words, one
/// entry per token in each, every word id the index of a word.
/// A tokenizer whose truncation does not fit, and only such a one, is
/// refused with `TokenizeError::Truncation`.
pub fn tokenize_words(tok: &tokenizers::Tokenizer, words: Vec<String>) -> (res: Result<Tokenized, TokenizeError>)
    ensures
        res matches Err(TokenizeError::Truncation) <==> !truncation_fits(*tok),
        res matches Ok(t) ==> {
            &&& read_from_encode(t, *tok, words_input(words@), true)
            &&& lengths_agree(t)
            &&& words_below(t, words@.len() as int)
        },
{
    if !fits_truncation(tok) {
        return Err(TokenizeError::Truncation);
    }
    let ghost count = words@.len() as int;
    let enc = match encode_words(tok, words) {
        Ok(x) => x,
        Err(e) => {
            return Err(TokenizeError::Tokenizer(e));
        },
    };
    let read = tokenized(&enc);
    assert(read_from_encode(read, *tok, words_input(words@), true)) by {
        assert(reads_encoding(read, enc));
    }
    assert(words_below(read, count));
    Ok(read)
}

/// Tokenizes sentences of raw text together: result `k` holds the fields of
/// the encoding that the tokenizer gives text `k` within the batch.
/// A tokenizer whose truncation does not fit, and only such a one, is
/// refused with `TokenizeError::Truncation`.
pub fn tokenize_text_batch(tok: &tokenizers::Tokenizer, texts: Vec<&str>) -> (res: Result<
    Vec<Tokenized>,
    TokenizeError,
>)
    ensures
        res matches Err(TokenizeError::Truncation) <==> !truncation_fits(*tok),
        res matches Ok(v) ==> {
            &&& v@.len() == texts@.len()
            &&& forall|k: int|
                0 <= k < v@.len() ==> read_from_batch(#[trigger] v@[k], *tok, raw_inputs(texts@), false, k)
                    && lengths_agree(v@[k])
        },
{
    if !fits_truncation(tok) {
        return Err(TokenizeError::Truncation);
    }
    let ghost inputs = raw_inputs(texts@);
    let encs = match encode_text_batch(tok, texts) {
        Ok(x) => x,
        Err(e) => {
            return Err(TokenizeError::Tokenizer(e));
        },
    };
    let mut out: Vec<Tokenized> = Vec::new();
    let mut b: usize = 0;
    while b < encs.len()
        invariant
            b <= encs@.len(),
            out@.len() == b,
            forall|k: int|
                0 <= k < encs@.len() ==> batch_encodes(*tok, inputs, false, true, k, #[trigger] encs@[k])
                    && aligned(encs@[k]),
            forall|x: int|
                0 <= x < b ==> read_from_batch(#[trigger] out@[x], *tok, inputs, false, x)
                    && lengths_agree(out@[x]),
        decreases encs@.len() - b,
    {
        let enc = &encs[b];
        let read = tokenized(enc);
        assert(read_from_batch(read, *tok, inputs, false, b as int)) by {
            assert(reads_encoding(read, encs@[b as int]));
        }
        let ghost before = out@;
        out.push(read);
        assert forall|x: int| 0 <= x < b + 1 implies read_from_batch(#[trigger] out@[x], *tok, inputs, false, x)
            && lengths_agree(out@[x]) by {
            if x < b {
                assert(out@[x] == before[x]);
            }
        }
        b += 1;
    }
    Ok(out)
}

/// Tokenizes sentences given as their words together: result `k` holds the
/// fields of the encoding that the tokenizer gives list `k` within the
/// batch, every word id the index of a word of that list.
/// A tokenizer whose truncation does not fit, and only such a one, is
/// refused with `TokenizeError::Truncation`.
pub fn tokenize_words_batch(tok: &tokenizers::Tokenizer, lists: Vec<Vec<String>>) -> (res: Result<
    Vec<Tokenized>,
    TokenizeError,
>)
    ensures
        res matches Err(TokenizeError::Truncation) <==> !truncation_fits(*tok),
        res matches Ok(v) ==> {
            &&& v@.len() == lists@.len()
            &&& forall|k: int|
                0 <= k < v@.len() ==> {
                    &&& read_from_batch(#[trigger] v@[k], *tok, words_inputs(lists@), true, k)
                    &&& lengths_agree(v@[k])
                    &&& words_below(v@[k], lists@[k]@.len() as int)
                }
        },
{
    if !fits_truncation(tok) {
        return Err(TokenizeError::Truncation);
    }
    let ghost given = lists@;
    let ghost inputs = words_inputs(lists@);
    let encs = match encode_words_batch(tok, lists) {
        Ok(x) => x,
        Err(e) => {
            return Err(TokenizeError::Tokenizer(e));
        },
    };
    let mut out: Vec<Tokenized> = Vec::new();
    let mut b: usize = 0;
    while b < encs.len()
        invariant
            b <= encs@.len(),
            encs@.len() == given.len(),
            out@.len() == b,
            forall|k: int|
                0 <= k < encs@.len() ==> {
                    &&& batch_encodes(*tok, inputs, true, true, k, #[trigger] encs@[k])
                    &&& aligned(encs@[k])
                    &&& word_ids_below(encs@[k], given[k]@.len() as int)
                },
            forall|x: int|
                0 <= x < b ==> {
                    &&& read_from_batch(#[trigger] out@[x], *tok, inputs, true, x)
                    &&& lengths_agree(out@[x])
                    &&& words_below(out@[x], given[x]@.len() as int)
                },
        decreases encs@.len() - b,
    {
        let enc = &encs[b];
        let read = tokenized(enc);
        assert(read_from_batch(read, *tok, inputs, true, b as int)) by {
            assert(reads_encoding(read, encs@[b as int]));
        }
        assert(words_below(read, given[b as int]@.len() as int));
        let ghost before = out@;
        out.push(read);
        assert forall|x: int| 0 <= x < b + 1 implies {
            &&& read_from_batch(#[trigger] out@[x], *tok, inputs, true, x)
            &&& lengths_agree(out@[x])
            &&& words_below(out@[x], given[x]@.len() as int)
        } by {
            if x < b {
                assert(out@[x] == before[x]);
            }
        }
        b += 1;
    }
    Ok(out)
}

} // verus!
