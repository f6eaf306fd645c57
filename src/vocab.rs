use vstd::prelude::*;
use crate::order::{search, seq_lt, string_views, strictly_sorted};
use crate::text::{chars_of, normalize, normalize_chars, split_words, string_of, views, words};

verus! {

/// A vocabulary: the distinct normalised words of a corpus, in code-point order.
pub type Vocabulary = Vec<String>;

/// The word tokens of a line: every token but the last, which is its class.
pub open spec fn body(line: Seq<char>) -> Seq<Seq<char>> {
    let t = words(line);
    if t.len() == 0 {
        t
    } else {
        t.drop_last()
    }
}

/// `w` is a non-empty normalised word token of one of the first `k` lines, or
/// of the first `j` word tokens of line `k`.
pub open spec fn seen(lines: Seq<Seq<char>>, k: int, j: int, w: Seq<char>) -> bool {
    &&& w.len() > 0
    &&& exists|a: int, b: int|
        0 <= a <= k && a < lines.len() && 0 <= b < body(lines[a]).len() && (a < k || b < j)
            && #[trigger] normalize(body(lines[a])[b]) == w
}

/// `w` is a non-empty normalised word token of some line of the corpus.
pub open spec fn in_corpus(lines: Seq<Seq<char>>, w: Seq<char>) -> bool {
    &&& w.len() > 0
    &&& exists|a: int, b: int|
        0 <= a < lines.len() && 0 <= b < body(lines[a]).len() && #[trigger] normalize(
            body(lines[a])[b],
        ) == w
}

/// Adds `w` to a strictly sorted list of strings, keeping it strictly sorted.
fn insert_word(v: &mut Vec<String>, w: &Vec<char>)
    requires
        strictly_sorted(string_views(old(v)@)),
    ensures
        strictly_sorted(string_views(final(v)@)),
        forall|x: Seq<char>|
            string_views(final(v)@).contains(x) <==> (string_views(old(v)@).contains(x) || x
                == w@),
{
    let ghost ov = string_views(v@);
    match search(v, w) {
        Ok(i) => {
            assert(ov[i as int] == w@);
        },
        Err(i) => {
            let s = string_of(w);
            v.insert(i, s);
            let ghost nv = string_views(v@);
            assert(nv =~= ov.insert(i as int, w@));
            assert forall|a: int, b: int| 0 <= a < b < nv.len() implies seq_lt(
                #[trigger] nv[a],
                #[trigger] nv[b],
            ) by {
                if b < i {
                } else if b == i {
                    assert(seq_lt(ov[a], w@));
                } else if a < i {
                    assert(seq_lt(ov[a], w@));
                    assert(seq_lt(w@, ov[b - 1]));
                    crate::order::lemma_lt_transitive(ov[a], w@, ov[b - 1]);
                } else if a == i {
                    assert(seq_lt(w@, ov[b - 1]));
                } else {
                    assert(seq_lt(ov[a - 1], ov[b - 1]));
                }
            }
            assert forall|x: Seq<char>| nv.contains(x) <==> (ov.contains(x) || x == w@) by {
                if nv.contains(x) {
                    let a = choose|a: int| 0 <= a < nv.len() && nv[a] == x;
                    if a < i {
                        assert(ov[a] == x);
                    } else if a > i {
                        assert(ov[a - 1] == x);
                    }
                }
                if ov.contains(x) {
                    let a = choose|a: int| 0 <= a < ov.len() && ov[a] == x;
                    if a < i {
                        assert(nv[a] == x);
                    } else {
                        assert(nv[a + 1] == x);
                    }
                }
                if x == w@ {
                    assert(nv[i as int] == x);
                }
            }
        },
    }
}

/// Builds the vocabulary of a corpus: the distinct non-empty normalised forms of
/// the word tokens of every line (the trailing class token excluded), sorted by
/// code point.
pub fn read_vocab(lines: &Vec<String>) -> (v: Vocabulary)
    ensures
        strictly_sorted(string_views(v@)),
        forall|w: Seq<char>| string_views(v@).contains(w) <==> in_corpus(string_views(lines@), w),
{
    let ghost ls = string_views(lines@);
    let mut v: Vec<String> = Vec::new();
    let mut k: usize = 0;
    while k < lines.len()
        invariant
            k <= lines@.len(),
            ls == string_views(lines@),
            strictly_sorted(string_views(v@)),
            forall|w: Seq<char>| string_views(v@).contains(w) <==> seen(ls, k as int, 0, w),
        decreases lines@.len() - k,
    {
        let cs = chars_of(lines[k].as_str());
        let toks = split_words(&cs);
        let n: usize = if toks.len() > 0 {
            toks.len() - 1
        } else {
            0
        };
        assert(views(toks@) == words(ls[k as int]));
        assert(n == body(ls[k as int]).len());
        let mut j: usize = 0;
        while j < n
            invariant
                k < lines@.len(),
                j <= n,
                n == body(ls[k as int]).len(),
                n <= toks@.len(),
                views(toks@) == words(ls[k as int]),
                ls == string_views(lines@),
                strictly_sorted(string_views(v@)),
                forall|w: Seq<char>|
                    string_views(v@).contains(w) <==> seen(ls, k as int, j as int, w),
            decreases n - j,
        {
            let nw = normalize_chars(&toks[j]);
            assert(body(ls[k as int])[j as int] == toks@[j as int]@);
            if nw.len() > 0 {
                insert_word(&mut v, &nw);
            }
            assert forall|w: Seq<char>|
                string_views(v@).contains(w) <==> seen(ls, k as int, j + 1, w) by {
                if seen(ls, k as int, j + 1, w) {
                    let (a, b) = choose|a: int, b: int|
                        0 <= a <= k && a < ls.len() && 0 <= b < body(ls[a]).len() && (a < k || b
                            < j + 1) && #[trigger] normalize(body(ls[a])[b]) == w;
                    if a == k && b == j {
                    } else {
                        assert(seen(ls, k as int, j as int, w));
                    }
                }
                if w == nw@ && w.len() > 0 {
                    assert(normalize(body(ls[k as int])[j as int]) == w);
                }
            }
            j = j + 1;
        }
        assert forall|w: Seq<char>| seen(ls, k as int, n as int, w) <==> seen(ls, k + 1, 0, w) by {
            if seen(ls, k + 1, 0, w) {
                let (a, b) = choose|a: int, b: int|
                    0 <= a <= k + 1 && a < ls.len() && 0 <= b < body(ls[a]).len() && (a < k + 1
                        || b < 0) && #[trigger] normalize(body(ls[a])[b]) == w;
                assert(seen(ls, k as int, n as int, w));
            }
        }
        k = k + 1;
    }
    assert forall|w: Seq<char>| seen(ls, k as int, 0, w) <==> in_corpus(ls, w) by {
        if in_corpus(ls, w) {
            let (a, b) = choose|a: int, b: int|
                0 <= a < ls.len() && 0 <= b < body(ls[a]).len() && #[trigger] normalize(
                    body(ls[a])[b],
                ) == w;
            assert(seen(ls, k as int, 0, w));
        }
    }
    v
}

} // verus!
