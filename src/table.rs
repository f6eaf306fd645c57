use vstd::prelude::*;
use crate::dataset::{Row, sorted_indices};

verus! {

/// Indices that are ascending, without repeats, and below `n`.
pub open spec fn indices_fit(f: Seq<usize>, n: nat) -> bool {
    &&& sorted_indices(f)
    &&& forall|q: int| 0 <= q < f.len() ==> (#[trigger] f[q] as nat) < n
}

/// A row whose indices are ascending, without repeats, and below `n`.
pub open spec fn row_wf(r: Row, n: nat) -> bool {
    indices_fit(r.features@, n)
}

/// Number of rows of class `c`.
pub open spec fn class_rows(data: Seq<Row>, c: bool) -> nat
    decreases data.len(),
{
    if data.len() == 0 {
        0
    } else {
        class_rows(data.drop_last(), c) + if data.last().class == c {
            1nat
        } else {
            0nat
        }
    }
}

/// Number of rows of class `c` in which word `i` is present.
pub open spec fn word_count(data: Seq<Row>, c: bool, i: usize) -> nat
    decreases data.len(),
{
    if data.len() == 0 {
        0
    } else {
        word_count(data.drop_last(), c, i) + if data.last().class == c
            && data.last().features@.contains(i) {
            1nat
        } else {
            0nat
        }
    }
}

/// A probability as an exact fraction `num / den`.
#[derive(Debug, Clone, Copy, PartialEq, Eq)]
pub struct Prob {
    pub num: u128,
    pub den: u128,
}

/// Why a probability cannot be given.
#[derive(Debug, Clone, Copy, PartialEq, Eq)]
pub enum ProbError {
    /// The table was trained on no rows at all.
    NoRows,
    /// The table was trained on no rows of this class.
    DegenerateClass { class: bool },
}

/// The smoothed probability that a word is `present` (or absent) in a row of a
/// class, as (numerator, denominator), from the number of rows of the class in
/// which it is present and the number of rows of the class. A word never seen
/// present in the class gets the flat prior one half; otherwise the estimate is
/// add-one with two outcomes.
pub open spec fn smoothed(n_present: nat, n_class: nat, present: bool) -> (nat, nat) {
    if n_present == 0 {
        (1, 2)
    } else {
        let n_target: nat = if present {
            n_present
        } else {
            (n_class - n_present) as nat
        };
        (n_target + 1, n_class + 2)
    }
}

/// Per-class word-presence counts of a training set.
///
/// Training counts the rows of the true class as well as the word presences.
/// The smoothed estimates fall back to the flat prior where the word was never
/// present in the class, and otherwise divide by the class's own rows plus two;
/// a class without rows has no estimates at all.
pub struct CondProbTable {
    cd_false: Vec<u64>,
    cd_true: Vec<u64>,
    n_cd_true: u64,
    n_rows: usize,
}

proof fn lemma_counts_bounded(data: Seq<Row>, c: bool, i: usize)
    ensures
        word_count(data, c, i) <= class_rows(data, c),
        class_rows(data, true) + class_rows(data, false) == data.len(),
    decreases data.len(),
{
    if data.len() > 0 {
        lemma_counts_bounded(data.drop_last(), c, i);
    }
}

impl CondProbTable {
    /// Size of the vocabulary the table covers.
    pub closed spec fn spec_vocab_len(&self) -> nat {
        self.cd_true@.len()
    }

    /// Rows of class `c` in which word `i` was present.
    pub closed spec fn spec_count(&self, c: bool, i: int) -> nat {
        if c {
            self.cd_true@[i] as nat
        } else {
            self.cd_false@[i] as nat
        }
    }

    /// Rows of class `c`.
    pub closed spec fn spec_class_rows(&self, c: bool) -> nat {
        if c {
            self.n_cd_true as nat
        } else {
            (self.n_rows - self.n_cd_true) as nat
        }
    }

    /// All rows.
    pub closed spec fn spec_total(&self) -> nat {
        self.n_rows as nat
    }

    /// The counts agree with one another: two tables of one length, no count
    /// above its class's rows, the classes' rows adding up to all rows.
    pub closed spec fn wf(&self) -> bool {
        &&& self.cd_true@.len() == self.cd_false@.len()
        &&& self.n_cd_true <= self.n_rows
        &&& forall|i: int| 0 <= i < self.cd_true@.len() ==> #[trigger] self.cd_true@[i] <= self.n_cd_true
        &&& forall|i: int|
            0 <= i < self.cd_false@.len() ==> #[trigger] self.cd_false@[i] + self.n_cd_true <= self.n_rows
    }

    /// Counts, for each class and each of `vocab_len` words, the rows of that
    /// class in which the word is present, in one pass over the rows.
    pub fn from_data(data: &Vec<Row>, vocab_len: usize) -> (t: Self)
        requires
            forall|k: int| 0 <= k < data@.len() ==> row_wf(#[trigger] data@[k], vocab_len as nat),
        ensures
            t.wf(),
            t.spec_vocab_len() == vocab_len,
            t.spec_total() == data@.len(),
            forall|c: bool| #[trigger] t.spec_class_rows(c) == class_rows(data@, c),
            forall|c: bool, i: usize|
                i < vocab_len ==> #[trigger] t.spec_count(c, i as int) == word_count(data@, c, i),
    {
        let mut cd_true: Vec<u64> = Vec::new();
        let mut cd_false: Vec<u64> = Vec::new();
        let mut z: usize = 0;
        while z < vocab_len
            invariant
                z <= vocab_len,
                cd_true@.len() == z,
                cd_false@.len() == z,
                forall|i: int| 0 <= i < z ==> #[trigger] cd_true@[i] == 0,
                forall|i: int| 0 <= i < z ==> #[trigger] cd_false@[i] == 0,
            decreases vocab_len - z,
        {
            cd_true.push(0);
            cd_false.push(0);
            z = z + 1;
        }
        let mut n_cd_true: u64 = 0;
        let mut k: usize = 0;
        let n_data = data.len();
        while k < data.len()
            invariant
                k <= data@.len(),
                data@.len() <= usize::MAX,
                cd_true@.len() == vocab_len,
                cd_false@.len() == vocab_len,
                forall|j: int| 0 <= j < data@.len() ==> row_wf(#[trigger] data@[j], vocab_len as nat),
                n_cd_true as nat == class_rows(data@.take(k as int), true),
                forall|i: usize|
                    i < vocab_len ==> #[trigger] cd_true@[i as int] as nat == word_count(
                        data@.take(k as int),
                        true,
                        i,
                    ),
                forall|i: usize|
                    i < vocab_len ==> #[trigger] cd_false@[i as int] as nat == word_count(
                        data@.take(k as int),
                        false,
                        i,
                    ),
            decreases data@.len() - k,
        {
            let row = &data[k];
            let ghost prefix = data@.take(k as int);
            let ghost next = data@.take(k + 1);
            proof {
                assert(next.drop_last() =~= prefix);
                assert(next.last() == *row);
                lemma_counts_bounded(prefix, true, 0);
                assert(row_wf(data@[k as int], vocab_len as nat));
            }
            let mut m: usize = 0;
            while m < row.features.len()
                invariant
                    m <= row.features@.len(),
                    *row == data@[k as int],
                    k < data@.len(),
                    data@.len() <= usize::MAX,
                    prefix == data@.take(k as int),
                    row_wf(*row, vocab_len as nat),
                    cd_true@.len() == vocab_len,
                    cd_false@.len() == vocab_len,
                    forall|i: usize|
                        i < vocab_len ==> #[trigger] cd_true@[i as int] as nat == word_count(
                            prefix,
                            true,
                            i,
                        ) + if row.class && row.features@.take(m as int).contains(i) {
                            1nat
                        } else {
                            0nat
                        },
                    forall|i: usize|
                        i < vocab_len ==> #[trigger] cd_false@[i as int] as nat == word_count(
                            prefix,
                            false,
                            i,
                        ) + if !row.class && row.features@.take(m as int).contains(i) {
                            1nat
                        } else {
                            0nat
                        },
                decreases row.features@.len() - m,
            {
                let f = row.features[m];
                let ghost before = row.features@.take(m as int);
                let ghost after = row.features@.take(m + 1);
                proof {
                    assert(after =~= before.push(f));
                    assert(!before.contains(f)) by {
                        if before.contains(f) {
                            let q = choose|q: int| 0 <= q < before.len() && before[q] == f;
                            assert(row.features@[q] < row.features@[m as int]);
                        }
                    }
                    assert(forall|i: usize| after.contains(i) <==> (before.contains(i) || i == f))
                        by {
                        assert forall|i: usize| after.contains(i) implies (before.contains(i) || i
                            == f) by {
                            let q = choose|q: int| 0 <= q < after.len() && after[q] == i;
                            if q < m {
                                assert(before[q] == i);
                            }
                        }
                        assert forall|i: usize| before.contains(i) implies after.contains(i) by {
                            let q = choose|q: int| 0 <= q < before.len() && before[q] == i;
                            assert(after[q] == i);
                        }
                        assert(after[m as int] == f);
                    }
                    lemma_counts_bounded(prefix, row.class, f);
                    assert(prefix.len() == k);
                    assert(word_count(prefix, row.class, f) <= k);
                    assert(k + 1 <= usize::MAX);
                    assert(usize::MAX <= u64::MAX);
                }
                if row.class {
                    let v = cd_true[f];
                    assert(v as nat == word_count(prefix, true, f));
                    cd_true.set(f, v + 1);
                } else {
                    let v = cd_false[f];
                    assert(v as nat == word_count(prefix, false, f));
                    cd_false.set(f, v + 1);
                }
                m = m + 1;
            }
            proof {
                assert(row.features@.take(m as int) =~= row.features@);
                assert forall|i: usize| i < vocab_len implies #[trigger] cd_true@[i as int] as nat
                    == word_count(next, true, i) by {}
                assert forall|i: usize| i < vocab_len implies #[trigger] cd_false@[i as int] as nat
                    == word_count(next, false, i) by {}
            }
            if row.class {
                n_cd_true = n_cd_true + 1;
            }
            k = k + 1;
        }
        proof {
            assert(data@.take(k as int) =~= data@);
            assert forall|i: int| 0 <= i < vocab_len implies #[trigger] cd_true@[i] <= n_cd_true by {
                lemma_counts_bounded(data@, true, i as usize);
                assert(cd_true@[(i as usize) as int] == cd_true@[i]);
            }
            assert forall|i: int| 0 <= i < vocab_len implies #[trigger] cd_false@[i] + n_cd_true
                <= data@.len() by {
                lemma_counts_bounded(data@, false, i as usize);
                assert(cd_false@[(i as usize) as int] == cd_false@[i]);
            }
        }
        let t = CondProbTable { cd_false, cd_true, n_cd_true, n_rows: data.len() };
        proof {
            assert forall|c: bool, i: usize| i < vocab_len implies #[trigger] t.spec_count(
                c,
                i as int,
            ) == word_count(data@, c, i) by {}
            lemma_counts_bounded(data@, true, 0);
        }
        t
    }

    /// The prior of class `c` as (numerator, denominator): its share of the rows.
    pub open spec fn spec_prior(&self, c: bool) -> (nat, nat) {
        (self.spec_class_rows(c), self.spec_total())
    }

    /// The smoothed probability of word `i` being `present` (or absent) in a
    /// row of class `c`, as (numerator, denominator).
    pub open spec fn spec_word_prob(&self, c: bool, present: bool, i: int) -> (nat, nat) {
        smoothed(self.spec_count(c, i), self.spec_class_rows(c), present)
    }

    /// Size of the vocabulary the table covers.
    pub fn vocab_len(&self) -> (r: usize)
        requires
            self.wf(),
        ensures
            r == self.spec_vocab_len(),
    {
        self.cd_true.len()
    }

    /// Number of training rows.
    pub fn n_rows(&self) -> (r: usize)
        ensures
            r == self.spec_total(),
    {
        self.n_rows
    }

    /// Number of training rows of class `cd` in which word `feature` was present.
    pub fn count(&self, cd: bool, feature: usize) -> (r: u64)
        requires
            self.wf(),
            feature < self.spec_vocab_len(),
        ensures
            r == self.spec_count(cd, feature as int),
    {
        if cd {
            self.cd_true[feature]
        } else {
            self.cd_false[feature]
        }
    }

    /// Number of training rows of class `cd`.
    pub fn p_cd_count(&self, cd: bool) -> (r: u64)
        requires
            self.wf(),
        ensures
            r == self.spec_class_rows(cd),
    {
        if cd {
            self.n_cd_true
        } else {
            self.n_rows as u64 - self.n_cd_true
        }
    }

    /// The prior of class `cd`: its rows over all rows. Fails on a table trained
    /// on no rows.
    pub fn p_cd(&self, cd: bool) -> (r: Result<Prob, ProbError>)
        requires
            self.wf(),
        ensures
            match r {
                Ok(p) => self.spec_total() > 0 && (p.num as nat, p.den as nat) == self.spec_prior(
                    cd,
                ),
                Err(e) => self.spec_total() == 0 && e == ProbError::NoRows,
            },
    {
        if self.n_rows == 0 {
            Err(ProbError::NoRows)
        } else {
            Ok(Prob { num: self.p_cd_count(cd) as u128, den: self.n_rows as u128 })
        }
    }

    /// The smoothed probability that word `feature` is present (`x` true) or
    /// absent (`x` false) in a row of class `cd`: one half where the word was
    /// never present in the class, else (rows with that outcome + 1) over
    /// (rows of the class + 2). Fails where the class had no rows.
    pub fn p_x_cd(&self, cd: bool, x: bool, feature: usize) -> (r: Result<Prob, ProbError>)
        requires
            self.wf(),
            feature < self.spec_vocab_len(),
        ensures
            match r {
                Ok(p) => self.spec_class_rows(cd) > 0 && (p.num as nat, p.den as nat)
                    == self.spec_word_prob(cd, x, feature as int),
                Err(e) => self.spec_class_rows(cd) == 0 && e == (ProbError::DegenerateClass {
                    class: cd,
                }),
            },
    {
        let n_class = self.p_cd_count(cd);
        if n_class == 0 {
            return Err(ProbError::DegenerateClass { class: cd });
        }
        let n_present = self.count(cd, feature);
        if n_present == 0 {
            Ok(Prob { num: 1, den: 2 })
        } else {
            let n_target: u64 = if x {
                n_present
            } else {
                n_class - n_present
            };
            Ok(Prob { num: n_target as u128 + 1, den: n_class as u128 + 2 })
        }
    }
}

/// The two class priors of a table trained on at least one row share one
/// denominator and their numerators add up to it: they sum to one.
pub proof fn lemma_priors_sum_to_one(t: CondProbTable)
    requires
        t.wf(),
        t.spec_total() > 0,
    ensures
        t.spec_prior(true).1 == t.spec_prior(false).1,
        t.spec_prior(true).0 + t.spec_prior(false).0 == t.spec_prior(true).1,
{
}

/// Every smoothed word probability of a class with rows lies in (0, 1], for
/// either outcome.
pub proof fn lemma_word_prob_in_unit(t: CondProbTable, c: bool, present: bool, i: int)
    requires
        t.wf(),
        0 <= i < t.spec_vocab_len(),
        t.spec_class_rows(c) > 0,
    ensures
        0 < t.spec_word_prob(c, present, i).0 <= t.spec_word_prob(c, present, i).1,
{
}

/// Whether every row holds ascending, repeat-free indices below `len`.
pub fn rows_fit(data: &Vec<Row>, len: usize) -> (r: bool)
    ensures
        r == forall|k: int| 0 <= k < data@.len() ==> row_wf(#[trigger] data@[k], len as nat),
{
    let mut k: usize = 0;
    while k < data.len()
        invariant
            k <= data@.len(),
            forall|j: int| 0 <= j < k ==> row_wf(#[trigger] data@[j], len as nat),
        decreases data@.len() - k,
    {
        let f = &data[k].features;
        let mut m: usize = 0;
        while m < f.len()
            invariant
                m <= f@.len(),
                *f == data@[k as int].features,
                k < data@.len(),
                forall|q: int| 0 <= q < m ==> #[trigger] f@[q] < len,
                forall|a: int, b: int| 0 <= a < b < m ==> #[trigger] f@[a] < #[trigger] f@[b],
            decreases f@.len() - m,
        {
            if f[m] >= len || (m > 0 && f[m - 1] >= f[m]) {
                assert(!row_wf(data@[k as int], len as nat)) by {
                    if f@[m as int] < len {
                        assert(f@[m - 1] >= f@[m as int]);
                    }
                }
                return false;
            }
            proof {
                assert forall|a: int, b: int| 0 <= a < b < m + 1 implies #[trigger] f@[a]
                    < #[trigger] f@[b] by {
                    if b == m && a < m - 1 {
                        assert(f@[a] < f@[m - 1]);
                    }
                }
            }
            m = m + 1;
        }
        k = k + 1;
    }
    true
}

} // verus!
