use vstd::prelude::*;
use crate::text::chars_of;

verus! {

/// Lexicographic order on character sequences, comparing code points.
pub open spec fn seq_lt(a: Seq<char>, b: Seq<char>) -> bool
    decreases a.len(),
{
    if a.len() == 0 {
        b.len() > 0
    } else if b.len() == 0 {
        false
    } else if a[0] != b[0] {
        a[0] < b[0]
    } else {
        seq_lt(a.drop_first(), b.drop_first())
    }
}

/// Each entry is strictly below the next: sorted, with no duplicates.
pub open spec fn strictly_sorted(v: Seq<Seq<char>>) -> bool {
    forall|i: int, j: int| 0 <= i < j < v.len() ==> seq_lt(#[trigger] v[i], #[trigger] v[j])
}

/// The character sequences of a list of strings.
pub open spec fn string_views(v: Seq<String>) -> Seq<Seq<char>> {
    v.map_values(|s: String| s@)
}

pub proof fn lemma_lt_irreflexive(a: Seq<char>)
    ensures
        !seq_lt(a, a),
    decreases a.len(),
{
    if a.len() > 0 {
        lemma_lt_irreflexive(a.drop_first());
    }
}

pub proof fn lemma_lt_transitive(a: Seq<char>, b: Seq<char>, c: Seq<char>)
    requires
        seq_lt(a, b),
        seq_lt(b, c),
    ensures
        seq_lt(a, c),
    decreases a.len(),
{
    if a.len() > 0 && b.len() > 0 && c.len() > 0 && a[0] == b[0] && b[0] == c[0] {
        lemma_lt_transitive(a.drop_first(), b.drop_first(), c.drop_first());
    }
}

/// Three-way comparison: negative, zero or positive as `a` is below, equal to
/// or above `b`.
pub fn compare(a: &Vec<char>, b: &Vec<char>) -> (r: i8)
    ensures
        r == 0 <==> a@ == b@,
        r < 0 ==> seq_lt(a@, b@),
        r > 0 ==> seq_lt(b@, a@),
{
    let mut i: usize = 0;
    assert(a@.skip(0) =~= a@);
    assert(b@.skip(0) =~= b@);
    while i < a.len() && i < b.len() && a[i] == b[i]
        invariant
            i <= a@.len(),
            i <= b@.len(),
            a@.take(i as int) == b@.take(i as int),
            seq_lt(a@, b@) == seq_lt(a@.skip(i as int), b@.skip(i as int)),
            seq_lt(b@, a@) == seq_lt(b@.skip(i as int), a@.skip(i as int)),
        decreases a@.len() - i,
    {
        proof {
            assert(a@.skip(i as int).drop_first() =~= a@.skip(i + 1));
            assert(b@.skip(i as int).drop_first() =~= b@.skip(i + 1));
            assert(a@.take(i + 1) =~= a@.take(i as int).push(a@[i as int]));
            assert(b@.take(i + 1) =~= b@.take(i as int).push(b@[i as int]));
        }
        i = i + 1;
    }
    let ghost sa = a@.skip(i as int);
    let ghost sb = b@.skip(i as int);
    if i == a.len() && i == b.len() {
        assert(a@ =~= a@.take(i as int));
        assert(b@ =~= b@.take(i as int));
        0
    } else if i == a.len() {
        assert(sa.len() == 0);
        assert(a@.len() != b@.len());
        -1
    } else if i == b.len() {
        assert(sb.len() == 0);
        assert(a@.len() != b@.len());
        1
    } else {
        assert(sa[0] == a@[i as int]);
        assert(sb[0] == b@[i as int]);
        assert(a@[i as int] != b@[i as int]);
        if a[i] < b[i] {
            -1
        } else {
            1
        }
    }
}

/// Looks `x` up in a strictly sorted list of strings: `Ok` with its position,
/// or `Err` with the position where it would be inserted.
pub fn search(v: &Vec<String>, x: &Vec<char>) -> (r: Result<usize, usize>)
    requires
        strictly_sorted(string_views(v@)),
    ensures
        match r {
            Ok(i) => i < v@.len() && v@[i as int]@ == x@,
            Err(i) => {
                &&& i <= v@.len()
                &&& forall|j: int| 0 <= j < i ==> seq_lt(#[trigger] v@[j]@, x@)
                &&& forall|j: int| i <= j < v@.len() ==> seq_lt(x@, #[trigger] v@[j]@)
            },
        },
{
    let ghost sv = string_views(v@);
    let mut lo: usize = 0;
    let mut hi: usize = v.len();
    while lo < hi
        invariant
            lo <= hi <= v@.len(),
            sv == string_views(v@),
            strictly_sorted(sv),
            forall|j: int| 0 <= j < lo ==> seq_lt(#[trigger] v@[j]@, x@),
            forall|j: int| hi <= j < v@.len() ==> seq_lt(x@, #[trigger] v@[j]@),
        decreases hi - lo,
    {
        let mid = lo + (hi - lo) / 2;
        let w = chars_of(v[mid].as_str());
        let c = compare(&w, x);
        if c == 0 {
            return Ok(mid);
        } else if c < 0 {
            proof {
                assert forall|j: int| 0 <= j < mid + 1 implies seq_lt(#[trigger] v@[j]@, x@) by {
                    if j < mid {
                        assert(seq_lt(sv[j], sv[mid as int]));
                        lemma_lt_transitive(v@[j]@, v@[mid as int]@, x@);
                    }
                }
            }
            lo = mid + 1;
        } else {
            proof {
                assert forall|j: int| mid <= j < v@.len() implies seq_lt(x@, #[trigger] v@[j]@) by {
                    if j > mid {
                        assert(seq_lt(sv[mid as int], sv[j]));
                        lemma_lt_transitive(x@, v@[mid as int]@, v@[j]@);
                    }
                }
            }
            hi = mid;
        }
    }
    Err(lo)
}

/// Whether a list of strings is a vocabulary: strictly sorted by code point.
pub fn is_vocabulary(v: &Vec<String>) -> (r: bool)
    ensures
        r == strictly_sorted(string_views(v@)),
{
    let ghost sv = string_views(v@);
    if v.len() == 0 {
        return true;
    }
    let mut i: usize = 1;
    let mut prev = chars_of(v[0].as_str());
    while i < v.len()
        invariant
            1 <= i <= v@.len(),
            sv == string_views(v@),
            prev@ == sv[i - 1],
            strictly_sorted(sv.take(i as int)),
        decreases v@.len() - i,
    {
        let cur = chars_of(v[i].as_str());
        if compare(&prev, &cur) >= 0 {
            proof {
                if prev@ == cur@ {
                    lemma_lt_irreflexive(cur@);
                }
                assert(!seq_lt(sv[i - 1], sv[i as int])) by {
                    if seq_lt(sv[i - 1], sv[i as int]) && prev@ != cur@ {
                        lemma_lt_transitive(cur@, prev@, cur@);
                        lemma_lt_irreflexive(cur@);
                    }
                }
            }
            return false;
        }
        proof {
            let t = sv.take(i + 1);
            assert forall|a: int, b: int| 0 <= a < b < t.len() implies seq_lt(
                #[trigger] t[a],
                #[trigger] t[b],
            ) by {
                if b < i {
                    assert(sv.take(i as int)[a] == t[a]);
                    assert(sv.take(i as int)[b] == t[b]);
                } else if a < i - 1 {
                    assert(seq_lt(sv.take(i as int)[a], sv.take(i as int)[i - 1]));
                    lemma_lt_transitive(t[a], t[i - 1], t[b]);
                }
            }
        }
        prev = cur;
        i = i + 1;
    }
    assert(sv.take(i as int) =~= sv);
    true
}

} // verus!
