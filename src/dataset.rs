use vstd::prelude::*;
use crate::order::{lemma_lt_irreflexive, search, string_views, strictly_sorted};
use crate::text::{chars_of, normalize, normalize_chars, split_words, views, words};
use crate::vocab::body;

verus! {

/// One labelled line: the vocabulary indices of the words present in it, and
/// its class.
#[derive(Debug, Clone, PartialEq, Eq)]
pub struct Row {
    /// Indices into the vocabulary, ascending and without repeats.
    pub features: Vec<usize>,
    /// True for the class token `1`, false for `0`.
    pub class: bool,
}

/// A sequence of rows.
pub type Dataset = Vec<Row>;

/// A line whose trailing class token is missing or is neither `1` nor `0`.
#[derive(Debug, Clone, Copy, PartialEq, Eq)]
pub struct FormatError {
    /// The offending line, counted from 1.
    pub line: usize,
}

/// Strictly ascending indices.
pub open spec fn sorted_indices(f: Seq<usize>) -> bool {
    forall|i: int, j: int| 0 <= i < j < f.len() ==> #[trigger] f[i] < #[trigger] f[j]
}

/// The class that a class token stands for.
pub open spec fn class_of(tok: Seq<char>) -> Option<bool> {
    if tok == seq!['1'] {
        Some(true)
    } else if tok == seq!['0'] {
        Some(false)
    } else {
        None
    }
}

/// The class of a line, given by its last token; `None` when that token is
/// missing or not a class token.
pub open spec fn line_class(line: Seq<char>) -> Option<bool> {
    let t = words(line);
    if t.len() == 0 {
        None
    } else {
        class_of(t.last())
    }
}

/// Vocabulary word `i` is the non-empty normalised form of one of the first
/// `j` word tokens of `line`.
pub open spec fn found(line: Seq<char>, vocab: Seq<Seq<char>>, j: int, i: int) -> bool {
    &&& 0 <= i < vocab.len()
    &&& vocab[i].len() > 0
    &&& exists|b: int| 0 <= b < j && b < body(line).len() && #[trigger] normalize(body(line)[b]) == vocab[i]
}

/// Vocabulary word `i` occurs in `line`, after normalisation.
pub open spec fn in_line(line: Seq<char>, vocab: Seq<Seq<char>>, i: int) -> bool {
    found(line, vocab, body(line).len() as int, i)
}

/// `row` is the encoding of `line` over `vocab`.
pub open spec fn encodes(row: Row, line: Seq<char>, vocab: Seq<Seq<char>>) -> bool {
    &&& line_class(line) == Some(row.class)
    &&& sorted_indices(row.features@)
    &&& forall|i: usize| row.features@.contains(i) <==> in_line(line, vocab, i as int)
}

/// The number of entries of `f` below `x`, `f` ascending.
fn lower_bound(f: &Vec<usize>, x: usize) -> (p: usize)
    ensures
        p <= f@.len(),
        forall|q: int| 0 <= q < p ==> #[trigger] f@[q] < x,
        p < f@.len() ==> f@[p as int] >= x,
{
    let mut p: usize = 0;
    while p < f.len() && f[p] < x
        invariant
            p <= f@.len(),
            forall|q: int| 0 <= q < p ==> #[trigger] f@[q] < x,
        decreases f@.len() - p,
    {
        p = p + 1;
    }
    p
}

/// Adds `x` to a strictly ascending list of indices, keeping it so.
fn insert_index(f: &mut Vec<usize>, x: usize)
    requires
        sorted_indices(old(f)@),
    ensures
        sorted_indices(final(f)@),
        forall|y: usize| final(f)@.contains(y) <==> (old(f)@.contains(y) || y == x),
{
    let ghost of = f@;
    let p = lower_bound(f, x);
    if p < f.len() && f[p] == x {
        assert(f@[p as int] == x);
        assert(of.contains(x));
        assert(f@.contains(x));
        assert(forall|y: usize| f@.contains(y) <==> (of.contains(y) || y == x));
    } else {
        f.insert(p, x);
        assert(f@[p as int] == x);
        assert(f@.contains(x));
        assert(f@ =~= of.insert(p as int, x));
        assert forall|a: int, b: int| 0 <= a < b < f@.len() implies #[trigger] f@[a] < #[trigger] f@[b] by {
            if b < p {
            } else if b == p {
            } else if a < p {
                assert(of[b - 1] >= x);
            } else if a == p {
                assert(of[b - 1] >= of[p as int]);
            } else {
                assert(of[a - 1] < of[b - 1]);
            }
        }
        assert forall|y: usize| f@.contains(y) <==> (of.contains(y) || y == x) by {
            if f@.contains(y) {
                let a = choose|a: int| 0 <= a < f@.len() && f@[a] == y;
                if a < p {
                    assert(of[a] == y);
                } else if a > p {
                    assert(of[a - 1] == y);
                }
            }
            if of.contains(y) {
                let a = choose|a: int| 0 <= a < of.len() && of[a] == y;
                if a < p {
                    assert(f@[a] == y);
                } else {
                    assert(f@[a + 1] == y);
                }
            }
            if y == x {
                assert(f@[p as int] == y);
            }
        }
    }
}

/// Encodes one line over a vocabulary: its class from the trailing token, and
/// the ascending, repeat-free indices of the vocabulary words among its other
/// tokens after normalisation. Words outside the vocabulary are dropped.
/// `None` when the class token is missing or is neither `1` nor `0`.
pub fn encode(line: &str, vocab: &Vec<String>) -> (r: Option<Row>)
    requires
        strictly_sorted(string_views(vocab@)),
    ensures
        match r {
            None => line_class(line@) is None,
            Some(row) => encodes(row, line@, string_views(vocab@)),
        },
{
    let ghost vs = string_views(vocab@);
    let cs = chars_of(line);
    let toks = split_words(&cs);
    assert(views(toks@) == words(line@));
    if toks.len() == 0 {
        return None;
    }
    let n: usize = toks.len() - 1;
    let last = &toks[n];
    assert(last@ == words(line@).last());
    let class = if last.len() == 1 && last[0] == '1' {
        assert(last@ =~= seq!['1']);
        true
    } else if last.len() == 1 && last[0] == '0' {
        assert(last@ =~= seq!['0']);
        false
    } else {
        assert(last@ != seq!['1']);
        assert(last@ != seq!['0']);
        return None;
    };
    let mut features: Vec<usize> = Vec::new();
    let mut j: usize = 0;
    while j < n
        invariant
            j <= n,
            n == body(line@).len(),
            n < toks@.len(),
            views(toks@) == words(line@),
            vs == string_views(vocab@),
            strictly_sorted(vs),
            sorted_indices(features@),
            forall|i: usize| features@.contains(i) <==> found(line@, vs, j as int, i as int),
        decreases n - j,
    {
        let nw = normalize_chars(&toks[j]);
        assert(body(line@)[j as int] == toks@[j as int]@);
        let ghost before = features@;
        if nw.len() > 0 {
            match search(vocab, &nw) {
                Ok(i0) => {
                    insert_index(&mut features, i0);
                    assert forall|i: usize| (i as int) < vs.len() && vs[i as int] == nw@ implies i
                        == i0 by {
                        if i < i0 {
                            assert(crate::order::seq_lt(vs[i as int], vs[i0 as int]));
                            lemma_lt_irreflexive(nw@);
                        } else if i > i0 {
                            assert(crate::order::seq_lt(vs[i0 as int], vs[i as int]));
                            lemma_lt_irreflexive(nw@);
                        }
                    }
                },
                Err(p) => {
                    assert forall|q: int| 0 <= q < vs.len() implies vs[q] != nw@ by {
                        if q < p {
                            assert(crate::order::seq_lt(vocab@[q]@, nw@));
                        } else {
                            assert(crate::order::seq_lt(nw@, vocab@[q]@));
                        }
                        lemma_lt_irreflexive(nw@);
                    }
                },
            }
        }
        assert(forall|i: usize|
            features@.contains(i) <==> (before.contains(i) || (nw@.len() > 0 && (i as int)
                < vs.len() && vs[i as int] == nw@)));
        assert forall|i: usize| features@.contains(i) <==> found(line@, vs, j + 1, i as int) by {
            if found(line@, vs, j + 1, i as int) {
                let b = choose|b: int|
                    0 <= b < j + 1 && b < body(line@).len() && #[trigger] normalize(body(line@)[b])
                        == vs[i as int];
                if b < j {
                    assert(found(line@, vs, j as int, i as int));
                }
            }
            if found(line@, vs, j as int, i as int) {
                let b = choose|b: int|
                    0 <= b < j && b < body(line@).len() && #[trigger] normalize(body(line@)[b])
                        == vs[i as int];
                assert(found(line@, vs, j + 1, i as int));
            }
            if nw@.len() > 0 && (i as int) < vs.len() && vs[i as int] == nw@ {
                assert(normalize(body(line@)[j as int]) == vs[i as int]);
                assert(found(line@, vs, j + 1, i as int));
            }
        }
        j = j + 1;
    }
    Some(Row { features, class })
}

/// Encodes every line of a corpus over a vocabulary. Fails on the first line
/// whose class token is missing or is neither `1` nor `0`, naming it.
pub fn read_dataset(lines: &Vec<String>, vocab: &Vec<String>) -> (r: Result<Dataset, FormatError>)
    requires
        strictly_sorted(string_views(vocab@)),
    ensures
        match r {
            Ok(rows) => {
                &&& rows@.len() == lines@.len()
                &&& forall|k: int|
                    0 <= k < lines@.len() ==> encodes(
                        #[trigger] rows@[k],
                        lines@[k]@,
                        string_views(vocab@),
                    )
            },
            Err(e) => {
                &&& 1 <= e.line <= lines@.len()
                &&& line_class(lines@[e.line - 1]@) is None
                &&& forall|k: int| 0 <= k < e.line - 1 ==> line_class(#[trigger] lines@[k]@) is Some
            },
        },
{
    let mut rows: Vec<Row> = Vec::new();
    let mut k: usize = 0;
    while k < lines.len()
        invariant
            k <= lines@.len(),
            rows@.len() == k,
            strictly_sorted(string_views(vocab@)),
            forall|q: int| 0 <= q < k ==> encodes(#[trigger] rows@[q], lines@[q]@, string_views(vocab@)),
        decreases lines@.len() - k,
    {
        match encode(lines[k].as_str(), vocab) {
            Some(row) => {
                rows.push(row);
            },
            None => {
                assert forall|q: int| 0 <= q < k implies line_class(#[trigger] lines@[q]@) is Some by {
                    assert(encodes(rows@[q], lines@[q]@, string_views(vocab@)));
                }
                return Err(FormatError { line: k + 1 });
            },
        }
        k = k + 1;
    }
    Ok(rows)
}

/// Two strictly ascending index sequences with the same members are equal.
pub proof fn lemma_sorted_unique(a: Seq<usize>, b: Seq<usize>)
    requires
        sorted_indices(a),
        sorted_indices(b),
        forall|x: usize| a.contains(x) <==> b.contains(x),
    ensures
        a == b,
    decreases a.len(),
{
    if a.len() == 0 {
        if b.len() > 0 {
            assert(b.contains(b[0]));
        }
        assert(a =~= b);
    } else {
        assert(a.contains(a[0]));
        assert(b.len() > 0);
        assert(b.contains(b[0]));
        let i = choose|i: int| 0 <= i < a.len() && a[i] == b[0];
        let j = choose|j: int| 0 <= j < b.len() && b[j] == a[0];
        if i > 0 {
            assert(a[0] < a[i]);
        }
        if j > 0 {
            assert(b[0] < b[j]);
        }
        let a1 = a.drop_first();
        let b1 = b.drop_first();
        assert forall|x: usize| a1.contains(x) <==> b1.contains(x) by {
            if a1.contains(x) {
                let q = choose|q: int| 0 <= q < a1.len() && a1[q] == x;
                assert(a[q + 1] == x);
                assert(a[0] < a[q + 1]);
                assert(b.contains(x));
                let r = choose|r: int| 0 <= r < b.len() && b[r] == x;
                assert(r != 0);
                assert(b1[r - 1] == x);
            }
            if b1.contains(x) {
                let q = choose|q: int| 0 <= q < b1.len() && b1[q] == x;
                assert(b[q + 1] == x);
                assert(b[0] < b[q + 1]);
                assert(a.contains(x));
                let r = choose|r: int| 0 <= r < a.len() && a[r] == x;
                assert(r != 0);
                assert(a1[r - 1] == x);
            }
        }
        assert(sorted_indices(a1));
        assert(sorted_indices(b1));
        lemma_sorted_unique(a1, b1);
        assert(a =~= b) by {
            assert forall|q: int| 0 <= q < a.len() implies a[q] == b[q] by {
                if q > 0 {
                    assert(a[q] == a1[q - 1]);
                    assert(b[q] == b1[q - 1]);
                }
            }
        }
    }
}

/// Encoding is a function of the line and the vocabulary: two rows that both
/// encode one line over one vocabulary are the same row.
pub proof fn lemma_encoding_unique(r1: Row, r2: Row, line: Seq<char>, vocab: Seq<Seq<char>>)
    requires
        encodes(r1, line, vocab),
        encodes(r2, line, vocab),
    ensures
        r1.features@ == r2.features@,
        r1.class == r2.class,
{
    assert forall|x: usize| r1.features@.contains(x) <==> r2.features@.contains(x) by {
        assert(r1.features@.contains(x) <==> in_line(line, vocab, x as int));
        assert(r2.features@.contains(x) <==> in_line(line, vocab, x as int));
    }
    lemma_sorted_unique(r1.features@, r2.features@);
}

/// An encoded row holds ascending, repeat-free indices, each below the
/// vocabulary's size.
pub proof fn lemma_encoded_row_wf(row: Row, line: Seq<char>, vocab: Seq<Seq<char>>)
    requires
        encodes(row, line, vocab),
    ensures
        crate::table::row_wf(row, vocab.len()),
{
    assert forall|q: int| 0 <= q < row.features@.len() implies (#[trigger] row.features@[q] as nat)
        < vocab.len() by {
        assert(row.features@.contains(row.features@[q]));
        assert(in_line(line, vocab, row.features@[q] as int));
    }
}

} // verus!
