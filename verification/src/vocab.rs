//! Label vocabularies: the built-in ones, the ones read from a `.vocab` file
//! (three lines of comma-separated labels: segmentation, part of speech,
//! dependency relation), and where that file lies beside a model.
use vstd::prelude::*;
use crate::text::{chars_of, same_text, string_from_chars};

verus! {

/// The texts of a vector of strings.
pub open spec fn texts(v: Seq<String>) -> Seq<Seq<char>> {
    v.map_values(|s: String| s@)
}

/// The built-in segmentation labels.
pub open spec fn default_cws_labels() -> Seq<Seq<char>> {
    seq!["B-W"@, "I-W"@]
}

/// The built-in part-of-speech labels, in the model's order.
pub open spec fn default_pos_labels() -> Seq<Seq<char>> {
    seq![
        "n"@, "v"@, "wp"@, "u"@, "d"@, "a"@, "m"@, "p"@, "r"@, "ns"@, "c"@, "q"@, "nt"@, "nh"@,
        "nd"@, "j"@, "i"@, "b"@, "ni"@, "nz"@, "nl"@, "z"@, "k"@, "ws"@, "o"@, "h"@, "e"@,
    ]
}

/// The built-in dependency-relation labels, in the model's order.
pub open spec fn default_dep_labels() -> Seq<Seq<char>> {
    seq![
        "ATT"@, "WP"@, "ADV"@, "VOB"@, "SBV"@, "COO"@, "RAD"@, "HED"@, "POB"@, "CMP"@, "LAD"@,
        "FOB"@, "DBL"@, "IOB"@,
    ]
}

/// The built-in vocabularies: segmentation, part-of-speech and dependency labels.
pub fn default_vocabs() -> (res: (Vec<String>, Vec<String>, Vec<String>))
    ensures
        texts(res.0@) == default_cws_labels(),
        texts(res.1@) == default_pos_labels(),
        texts(res.2@) == default_dep_labels(),
{
    let mut cws: Vec<String> = Vec::new();
    cws.push("B-W".to_owned());
    cws.push("I-W".to_owned());
    let mut pos: Vec<String> = Vec::new();
    pos.push("n".to_owned());
    pos.push("v".to_owned());
    pos.push("wp".to_owned());
    pos.push("u".to_owned());
    pos.push("d".to_owned());
    pos.push("a".to_owned());
    pos.push("m".to_owned());
    pos.push("p".to_owned());
    pos.push("r".to_owned());
    pos.push("ns".to_owned());
    pos.push("c".to_owned());
    pos.push("q".to_owned());
    pos.push("nt".to_owned());
    pos.push("nh".to_owned());
    pos.push("nd".to_owned());
    pos.push("j".to_owned());
    pos.push("i".to_owned());
    pos.push("b".to_owned());
    pos.push("ni".to_owned());
    pos.push("nz".to_owned());
    pos.push("nl".to_owned());
    pos.push("z".to_owned());
    pos.push("k".to_owned());
    pos.push("ws".to_owned());
    pos.push("o".to_owned());
    pos.push("h".to_owned());
    pos.push("e".to_owned());
    let mut dep: Vec<String> = Vec::new();
    dep.push("ATT".to_owned());
    dep.push("WP".to_owned());
    dep.push("ADV".to_owned());
    dep.push("VOB".to_owned());
    dep.push("SBV".to_owned());
    dep.push("COO".to_owned());
    dep.push("RAD".to_owned());
    dep.push("HED".to_owned());
    dep.push("POB".to_owned());
    dep.push("CMP".to_owned());
    dep.push("LAD".to_owned());
    dep.push("FOB".to_owned());
    dep.push("DBL".to_owned());
    dep.push("IOB".to_owned());
    assert(texts(cws@) =~= default_cws_labels());
    assert(texts(pos@) =~= default_pos_labels());
    assert(texts(dep@) =~= default_dep_labels());
    (cws, pos, dep)
}


/// The pieces of `s` between occurrences of `sep`, in order (one empty piece
/// for an empty `s`, an empty piece wherever two separators meet).
pub open spec fn split_on(s: Seq<char>, sep: char) -> Seq<Seq<char>>
    decreases s.len(),
{
    if s.len() == 0 {
        seq![seq![]]
    } else {
        let p = split_on(s.drop_last(), sep);
        if s.last() == sep {
            p.push(seq![])
        } else {
            p.update(p.len() - 1, p.last().push(s.last()))
        }
    }
}

/// The pieces joined back with `sep` between them.
pub open spec fn join_with(pieces: Seq<Seq<char>>, sep: char) -> Seq<char>
    decreases pieces.len(),
{
    if pieces.len() == 0 {
        seq![]
    } else if pieces.len() == 1 {
        pieces[0]
    } else {
        join_with(pieces.drop_last(), sep) + seq![sep] + pieces.last()
    }
}

proof fn lemma_split_nonempty(s: Seq<char>, sep: char)
    ensures
        split_on(s, sep).len() >= 1,
    decreases s.len(),
{
    if s.len() > 0 {
        lemma_split_nonempty(s.drop_last(), sep);
    }
}

proof fn lemma_join_push_last(pieces: Seq<Seq<char>>, sep: char, c: char)
    requires
        pieces.len() >= 1,
    ensures
        join_with(pieces.update(pieces.len() - 1, pieces.last().push(c)), sep) == join_with(
            pieces,
            sep,
        ).push(c),
{
    let q = pieces.update(pieces.len() - 1, pieces.last().push(c));
    if pieces.len() > 1 {
        assert(q.drop_last() =~= pieces.drop_last());
    }
}

/// Law: splitting at `sep` and joining the pieces with `sep` gives back the
/// text, and no piece holds `sep`.
pub proof fn lemma_split_then_join(s: Seq<char>, sep: char)
    ensures
        join_with(split_on(s, sep), sep) == s,
        forall|k: int| 0 <= k < split_on(s, sep).len() ==> !(#[trigger] split_on(s, sep)[k]).contains(sep),
    decreases s.len(),
{
    if s.len() > 0 {
        let t = s.drop_last();
        lemma_split_then_join(t, sep);
        lemma_split_nonempty(t, sep);
        let p = split_on(t, sep);
        if s.last() == sep {
            assert(p.push(seq![]).drop_last() =~= p);
            assert(s =~= t + seq![sep] + seq![]);
            assert forall|k: int| 0 <= k < split_on(s, sep).len() implies !(#[trigger] split_on(s, sep)[k]).contains(sep) by {
                if k < p.len() {
                    assert(split_on(s, sep)[k] == p[k]);
                }
            }
        } else {
            lemma_join_push_last(p, sep, s.last());
            assert(s =~= t.push(s.last()));
            assert forall|k: int| 0 <= k < split_on(s, sep).len() implies !(#[trigger] split_on(s, sep)[k]).contains(sep) by {
                if k < p.len() - 1 {
                    assert(split_on(s, sep)[k] == p[k]);
                } else {
                    let f = p.last().push(s.last());
                    assert(split_on(s, sep)[k] == f);
                    if f.contains(sep) {
                        let x = choose|x: int| 0 <= x < f.len() && f[x] == sep;
                        assert(p.last()[x] == sep);
                    }
                }
            }
        }
    }
}

/// `l` without one trailing carriage return.
pub open spec fn strip_cr(l: Seq<char>) -> Seq<char> {
    if l.len() > 0 && l.last() == '\r' {
        l.drop_last()
    } else {
        l
    }
}

/// The lines of a text as std's `str::lines` gives them: pieces between line
/// feeds, a carriage return dropped before each line feed, no line after a
/// final line feed.
pub open spec fn text_lines(s: Seq<char>) -> Seq<Seq<char>> {
    let p = split_on(s, '\n');
    let body = p.drop_last().map_values(|l: Seq<char>| strip_cr(l));
    if p.last().len() > 0 {
        body.push(p.last())
    } else {
        body
    }
}

/// The texts of a vector of character vectors.
pub open spec fn rows(v: Seq<Vec<char>>) -> Seq<Seq<char>> {
    v.map_values(|x: Vec<char>| x@)
}

/// The lines of the text `cs`, as `text_lines` states them.
pub fn lines_of(cs: &Vec<char>) -> (lines: Vec<Vec<char>>)
    ensures
        rows(lines@) == text_lines(cs@),
{
    let mut lines: Vec<Vec<char>> = Vec::new();
    let mut cur: Vec<char> = Vec::new();
    let mut i: usize = 0;
    while i < cs.len()
        invariant
            i <= cs@.len(),
            rows(lines@) == split_on(cs@.take(i as int), '\n').drop_last().map_values(
                |l: Seq<char>| strip_cr(l),
            ),
            cur@ == split_on(cs@.take(i as int), '\n').last(),
        decreases cs@.len() - i,
    {
        let c = cs[i];
        let ghost p = split_on(cs@.take(i as int), '\n');
        proof {
            lemma_split_nonempty(cs@.take(i as int), '\n');
            assert(cs@.take(i + 1).drop_last() =~= cs@.take(i as int));
        }
        if c == '\n' {
            let n = cur.len();
            if n > 0 && cur[n - 1] == '\r' {
                cur.pop();
            }
            assert(cur@ == strip_cr(p.last()));
            let ghost old_lines = lines@;
            let ghost line = cur@;
            lines.push(cur);
            assert(rows(lines@) =~= rows(old_lines).push(line));
            cur = Vec::new();
            assert(split_on(cs@.take(i + 1), '\n') == p.push(seq![]));
            assert(p.push(seq![]).drop_last() =~= p);
            assert(p.map_values(|l: Seq<char>| strip_cr(l)) =~= p.drop_last().map_values(
                |l: Seq<char>| strip_cr(l),
            ).push(strip_cr(p.last())));
        } else {
            cur.push(c);
            let ghost q = p.update(p.len() - 1, p.last().push(c));
            assert(split_on(cs@.take(i + 1), '\n') == q);
            assert(q.drop_last() =~= p.drop_last());
        }
        i += 1;
    }
    assert(cs@.take(cs@.len() as int) =~= cs@);
    if cur.len() > 0 {
        lines.push(cur);
    }
    proof {
        let p = split_on(cs@, '\n');
        if p.last().len() > 0 {
            assert(rows(lines@) =~= text_lines(cs@));
        }
    }
    lines
}

/// The pieces of a line between occurrences of `sep`, as strings.
pub fn split_fields(line: &Vec<char>, sep: char) -> (fields: Vec<String>)
    ensures
        texts(fields@) == split_on(line@, sep),
{
    let mut fields: Vec<String> = Vec::new();
    let mut cur: Vec<char> = Vec::new();
    let mut i: usize = 0;
    while i < line.len()
        invariant
            i <= line@.len(),
            texts(fields@) == split_on(line@.take(i as int), sep).drop_last(),
            cur@ == split_on(line@.take(i as int), sep).last(),
        decreases line@.len() - i,
    {
        let c = line[i];
        let ghost p = split_on(line@.take(i as int), sep);
        proof {
            lemma_split_nonempty(line@.take(i as int), sep);
            assert(line@.take(i + 1).drop_last() =~= line@.take(i as int));
        }
        if c == sep {
            let s = string_from_chars(cur.as_slice());
            fields.push(s);
            cur = Vec::new();
            assert(split_on(line@.take(i + 1), sep) == p.push(seq![]));
            assert(texts(fields@) =~= p) by {
                assert(p =~= p.drop_last().push(p.last()));
            }
            assert(p.push(seq![]).drop_last() =~= p);
        } else {
            cur.push(c);
            let ghost q = p.update(p.len() - 1, p.last().push(c));
            assert(split_on(line@.take(i + 1), sep) == q);
            assert(q.drop_last() =~= p.drop_last());
        }
        i += 1;
    }
    assert(line@.take(line@.len() as int) =~= line@);
    let s = string_from_chars(cur.as_slice());
    fields.push(s);
    proof {
        let p = split_on(line@, sep);
        lemma_split_nonempty(line@, sep);
        assert(texts(fields@) =~= p) by {
            assert(p =~= p.drop_last().push(p.last()));
        }
    }
    fields
}

/// The words of pre-segmented text: the pieces between tab characters.
pub fn tab_separated_words(input: &str) -> (words: Vec<String>)
    ensures
        texts(words@) == split_on(input@, '\t'),
{
    let cs = chars_of(input);
    split_fields(&cs, '\t')
}

/// The vocabularies that the text of a `.vocab` file gives: the comma-separated
/// labels of its first three lines, or the built-in vocabularies when it has
/// fewer than three lines.
pub fn vocabs_from_content(content: &str) -> (res: (Vec<String>, Vec<String>, Vec<String>))
    ensures
        text_lines(content@).len() >= 3 ==> {
            &&& texts(res.0@) == split_on(text_lines(content@)[0], ',')
            &&& texts(res.1@) == split_on(text_lines(content@)[1], ',')
            &&& texts(res.2@) == split_on(text_lines(content@)[2], ',')
        },
        text_lines(content@).len() < 3 ==> {
            &&& texts(res.0@) == default_cws_labels()
            &&& texts(res.1@) == default_pos_labels()
            &&& texts(res.2@) == default_dep_labels()
        },
{
    let cs = chars_of(content);
    let lines = lines_of(&cs);
    if lines.len() >= 3 {
        let cws = split_fields(&lines[0], ',');
        let pos = split_fields(&lines[1], ',');
        let dep = split_fields(&lines[2], ',');
        (cws, pos, dep)
    } else {
        default_vocabs()
    }
}

/// The characters of the model extension that the vocabulary path replaces.
pub open spec fn model_ext() -> Seq<char> {
    seq!['.', 'o', 'n', 'n', 'x']
}

/// The characters of the vocabulary extension.
pub open spec fn vocab_ext() -> Seq<char> {
    seq!['.', 'v', 'o', 'c', 'a', 'b']
}

/// `s` with every occurrence of `pat`, found from left to right without
/// overlap, replaced by `rep` (as std's `str::replace` does).
pub open spec fn replace_all(s: Seq<char>, pat: Seq<char>, rep: Seq<char>) -> Seq<char>
    decreases s.len(),
{
    if pat.len() == 0 || s.len() < pat.len() {
        s
    } else if s.subrange(0, pat.len() as int) == pat {
        rep + replace_all(s.subrange(pat.len() as int, s.len() as int), pat, rep)
    } else {
        seq![s[0]] + replace_all(s.subrange(1, s.len() as int), pat, rep)
    }
}

/// Whether `model_ext()` occurs in `cs` at position `i`.
fn ext_at(cs: &Vec<char>, i: usize) -> (r: bool)
    requires
        i + 5 <= cs@.len(),
    ensures
        r == (cs@.subrange(i as int, i + 5) == model_ext()),
{
    let n = cs.len();
    assert(i + 4 < n);
    let r = cs[i] == '.' && cs[i + 1] == 'o' && cs[i + 2] == 'n' && cs[i + 3] == 'n' && cs[i + 4] == 'x';
    if r {
        assert(cs@.subrange(i as int, i + 5) =~= model_ext());
    } else {
        assert(cs@.subrange(i as int, i + 5)[0] == cs@[i as int]);
        assert(cs@.subrange(i as int, i + 5)[1] == cs@[i + 1]);
        assert(cs@.subrange(i as int, i + 5)[2] == cs@[i + 2]);
        assert(cs@.subrange(i as int, i + 5)[3] == cs@[i + 3]);
        assert(cs@.subrange(i as int, i + 5)[4] == cs@[i + 4]);
    }
    r
}

/// The path of the vocabulary file of the model at `model_path`: every
/// `.onnx` in it replaced by `.vocab`.
pub fn vocab_path_for(model_path: &str) -> (path: String)
    ensures
        path@ == replace_all(model_path@, model_ext(), vocab_ext()),
{
    let cs = chars_of(model_path);
    let n = cs.len();
    let mut out: Vec<char> = Vec::new();
    let mut i: usize = 0;
    assert(cs@.subrange(0, n as int) =~= cs@);
    while i < n
        invariant
            n == cs@.len(),
            i <= n,
            cs@ == model_path@,
            replace_all(cs@, model_ext(), vocab_ext()) == out@ + replace_all(
                cs@.subrange(i as int, n as int),
                model_ext(),
                vocab_ext(),
            ),
        decreases n - i,
    {
        let ghost rest = cs@.subrange(i as int, n as int);
        if n - i >= 5 && ext_at(&cs, i) {
            assert(rest.subrange(0, 5) =~= cs@.subrange(i as int, i + 5));
            assert(rest.subrange(5, rest.len() as int) =~= cs@.subrange(i + 5, n as int));
            let ghost before = out@;
            out.push('.');
            out.push('v');
            out.push('o');
            out.push('c');
            out.push('a');
            out.push('b');
            assert(out@ =~= before + vocab_ext());
            i += 5;
        } else {
            if n - i >= 5 {
                assert(rest.subrange(0, 5) =~= cs@.subrange(i as int, i + 5));
            }
            assert(rest.subrange(1, rest.len() as int) =~= cs@.subrange(i + 1, n as int));
            out.push(cs[i]);
            i += 1;
        }
    }
    assert(cs@.subrange(n as int, n as int) =~= Seq::<char>::empty());
    assert(out@ =~= replace_all(cs@, model_ext(), vocab_ext()));
    string_from_chars(out.as_slice())
}

/// The first position of `label` in `vocab`, or 0 when it is missing.
pub fn label_position(vocab: &Vec<String>, label: &str) -> (r: usize)
    ensures
        (exists|k: int| 0 <= k < vocab@.len() && vocab@[k]@ == label@) ==> {
            &&& r < vocab@.len()
            &&& vocab@[r as int]@ == label@
            &&& forall|k: int| 0 <= k < r ==> vocab@[k]@ != label@
        },
        !(exists|k: int| 0 <= k < vocab@.len() && vocab@[k]@ == label@) ==> r == 0,
{
    let mut k: usize = 0;
    while k < vocab.len()
        invariant
            k <= vocab@.len(),
            forall|x: int| 0 <= x < k ==> vocab@[x]@ != label@,
        decreases vocab@.len() - k,
    {
        if same_text(vocab[k].as_str(), label) {
            return k;
        }
        k += 1;
    }
    0
}

/// The segmentation label that opens a word: the position of `B-W` among the
/// segmentation labels, or 0 when it is missing.
pub fn word_begin_label(cws_vocab: &Vec<String>) -> (r: usize)
    ensures
        (exists|k: int| 0 <= k < cws_vocab@.len() && cws_vocab@[k]@ == "B-W"@) ==> {
            &&& r < cws_vocab@.len()
            &&& cws_vocab@[r as int]@ == "B-W"@
            &&& forall|k: int| 0 <= k < r ==> cws_vocab@[k]@ != "B-W"@
        },
        !(exists|k: int| 0 <= k < cws_vocab@.len() && cws_vocab@[k]@ == "B-W"@) ==> r == 0,
{
    label_position(cws_vocab, "B-W")
}

} // verus!
