use vstd::prelude::*;
use vstd::string::StringExecFns;
use crate::dataset::{Row, lemma_sorted_unique, sorted_indices};
use crate::table::{indices_fit, row_wf};

verus! {

/// The dense form of a row's indices: for each of `n` positions, whether it
/// is present.
pub open spec fn dense(f: Seq<usize>, n: nat) -> Seq<bool> {
    Seq::new(n, |i: int| f.contains(i as usize))
}

/// `1,` or `0,` for each entry of a dense row.
pub open spec fn cells(d: Seq<bool>) -> Seq<char>
    decreases d.len(),
{
    if d.len() == 0 {
        seq![]
    } else {
        cells(d.drop_last()) + seq![if d.last() { '1' } else { '0' }, ',']
    }
}

/// The character that stands for a class in the dump.
pub open spec fn class_char(c: bool) -> char {
    if c {
        '1'
    } else {
        '0'
    }
}

/// The dump line of a row over `n` positions: its cells, then its class.
pub open spec fn dense_text(f: Seq<usize>, n: nat, class: bool) -> Seq<char> {
    cells(dense(f, n)).push(class_char(class))
}

/// The dump's header: every vocabulary word followed by a comma.
pub open spec fn header_text(v: Seq<Seq<char>>) -> Seq<char>
    decreases v.len(),
{
    if v.len() == 0 {
        seq![]
    } else {
        header_text(v.drop_last()) + v.last() + seq![',']
    }
}

/// A walk over every position below a length, flagging those present in a
/// row's ascending indices, without building the dense row.
pub struct PresenceWalk<'a> {
    features: &'a Vec<usize>,
    len: usize,
    pos: usize,
    next: usize,
}

impl<'a> PresenceWalk<'a> {
    /// The indices walked over.
    pub closed spec fn spec_features(&self) -> Seq<usize> {
        self.features@
    }

    /// The number of positions.
    pub closed spec fn spec_len(&self) -> nat {
        self.len as nat
    }

    /// The next position to visit.
    pub closed spec fn spec_pos(&self) -> nat {
        self.pos as nat
    }

    /// The cursor into the indices stands at the first one not below the position.
    pub closed spec fn wf(&self) -> bool {
        &&& indices_fit(self.features@, self.len as nat)
        &&& self.pos <= self.len
        &&& self.next <= self.features@.len()
        &&& forall|q: int| 0 <= q < self.next ==> #[trigger] self.features@[q] < self.pos
        &&& forall|q: int| self.next <= q < self.features@.len() ==> #[trigger] self.features@[q] >= self.pos
    }

    /// Starts a walk over the positions below `len`.
    pub fn new(features: &'a Vec<usize>, len: usize) -> (w: Self)
        requires
            indices_fit(features@, len as nat),
        ensures
            w.wf(),
            w.spec_features() == features@,
            w.spec_len() == len,
            w.spec_pos() == 0,
    {
        PresenceWalk { features, len, pos: 0, next: 0 }
    }

    /// The next position and whether it is present; `None` once all are visited.
    pub fn next_position(&mut self) -> (r: Option<(usize, bool)>)
        requires
            old(self).wf(),
        ensures
            final(self).wf(),
            final(self).spec_features() == old(self).spec_features(),
            final(self).spec_len() == old(self).spec_len(),
            old(self).spec_pos() < old(self).spec_len() ==> {
                &&& r == Some(
                    (
                        old(self).spec_pos() as usize,
                        old(self).spec_features().contains(old(self).spec_pos() as usize),
                    ),
                )
                &&& final(self).spec_pos() == old(self).spec_pos() + 1
            },
            old(self).spec_pos() >= old(self).spec_len() ==> r is None && final(self).spec_pos()
                == old(self).spec_pos(),
    {
        if self.pos >= self.len {
            return None;
        }
        let p = self.pos;
        let f = self.features;
        let present = self.next < f.len() && f[self.next] == p;
        proof {
            if present {
                assert(f@[self.next as int] == p);
            } else if f@.contains(p) {
                let q = choose|q: int| 0 <= q < f@.len() && f@[q] == p;
                if q > self.next {
                    assert(f@[self.next as int] < f@[q]);
                }
            }
        }
        if present {
            self.next = self.next + 1;
        }
        self.pos = p + 1;
        Some((p, present))
    }
}

/// The dense form of ascending indices over `len` positions.
pub fn to_dense(features: &Vec<usize>, len: usize) -> (d: Vec<bool>)
    requires
        indices_fit(features@, len as nat),
    ensures
        d@ == dense(features@, len as nat),
{
    let mut out: Vec<bool> = Vec::new();
    let mut w = PresenceWalk::new(features, len);
    loop
        invariant
            w.wf(),
            w.spec_features() == features@,
            w.spec_len() == len,
            out@.len() == w.spec_pos(),
            forall|i: int| 0 <= i < out@.len() ==> out@[i] == features@.contains(i as usize),
        ensures
            out@ =~= dense(features@, len as nat),
        decreases len - w.spec_pos(),
    {
        match w.next_position() {
            Some((_, present)) => out.push(present),
            None => break ,
        }
    }
    out
}

/// The ascending positions flagged in a dense row.
pub fn from_dense(d: &Vec<bool>) -> (f: Vec<usize>)
    ensures
        sorted_indices(f@),
        forall|i: usize| f@.contains(i) <==> (i < d@.len() && d@[i as int]),
{
    let mut out: Vec<usize> = Vec::new();
    let mut i: usize = 0;
    while i < d.len()
        invariant
            i <= d@.len(),
            sorted_indices(out@),
            forall|q: int| 0 <= q < out@.len() ==> #[trigger] out@[q] < i,
            forall|x: usize| out@.contains(x) <==> (x < i && d@[x as int]),
        decreases d@.len() - i,
    {
        let ghost before = out@;
        if d[i] {
            out.push(i);
            assert forall|x: usize| out@.contains(x) <==> (x < i + 1 && d@[x as int]) by {
                if out@.contains(x) {
                    let q = choose|q: int| 0 <= q < out@.len() && out@[q] == x;
                    if q < before.len() {
                        assert(before[q] == x);
                    }
                }
                if x < i && d@[x as int] {
                    let q = choose|q: int| 0 <= q < before.len() && before[q] == x;
                    assert(out@[q] == x);
                }
                if x == i {
                    assert(out@[before.len() as int] == x);
                }
            }
        } else {
            assert forall|x: usize| out@.contains(x) <==> (x < i + 1 && d@[x as int]) by {
                if out@.contains(x) {
                    let q = choose|q: int| 0 <= q < out@.len() && out@[q] == x;
                }
            }
        }
        i = i + 1;
    }
    out
}

/// The dump line of a row over `len` positions: `1,` or `0,` for each
/// position as it is present or not, then the class as `1` or `0`.
pub fn dense_line(row: &Row, len: usize) -> (s: String)
    requires
        row_wf(*row, len as nat),
    ensures
        s@ == dense_text(row.features@, len as nat, row.class),
{
    let mut out = String::new();
    let mut w = PresenceWalk::new(&row.features, len);
    let ghost dn = dense(row.features@, len as nat);
    loop
        invariant
            w.wf(),
            w.spec_features() == row.features@,
            w.spec_len() == len,
            dn == dense(row.features@, len as nat),
            out@ == cells(dn.take(w.spec_pos() as int)),
        ensures
            out@ == cells(dn),
        decreases len - w.spec_pos(),
    {
        let ghost p = w.spec_pos();
        match w.next_position() {
            Some((_, present)) => {
                proof {
                    let t = dn.take(p as int + 1);
                    assert(t.drop_last() =~= dn.take(p as int));
                    assert(t.last() == present);
                }
                if present {
                    out.append("1,");
                    proof {
                        reveal_strlit("1,");
                    }
                } else {
                    out.append("0,");
                    proof {
                        reveal_strlit("0,");
                    }
                }
                assert(out@ =~= cells(dn.take(p as int + 1)));
            },
            None => {
                assert(dn.take(p as int) =~= dn);
                break ;
            },
        }
    }
    if row.class {
        out.append("1");
        proof {
            reveal_strlit("1");
        }
    } else {
        out.append("0");
        proof {
            reveal_strlit("0");
        }
    }
    assert(out@ =~= dense_text(row.features@, len as nat, row.class));
    out
}

/// The dump's header: every word followed by a comma.
pub fn header_line(vocab: &Vec<String>) -> (s: String)
    ensures
        s@ == header_text(crate::order::string_views(vocab@)),
{
    let ghost vs = crate::order::string_views(vocab@);
    let mut out = String::new();
    let mut i: usize = 0;
    while i < vocab.len()
        invariant
            i <= vocab@.len(),
            vs == crate::order::string_views(vocab@),
            out@ == header_text(vs.take(i as int)),
        decreases vocab@.len() - i,
    {
        out.append(vocab[i].as_str());
        out.append(",");
        proof {
            reveal_strlit(",");
            let t = vs.take(i + 1);
            assert(t.drop_last() =~= vs.take(i as int));
            assert(t.last() == vocab@[i as int]@);
        }
        assert(out@ =~= header_text(vs.take(i + 1)));
        i = i + 1;
    }
    assert(vs.take(i as int) =~= vs);
    out
}

/// Expanding ascending indices to their dense form and collecting the present
/// positions back gives the indices again.
pub proof fn lemma_dense_round_trip(f: Seq<usize>, n: nat, back: Seq<usize>)
    requires
        indices_fit(f, n),
        sorted_indices(back),
        forall|i: usize| back.contains(i) <==> ((i as nat) < n && dense(f, n)[i as int]),
    ensures
        back == f,
{
    assert forall|i: usize| back.contains(i) <==> f.contains(i) by {
        if f.contains(i) {
            let q = choose|q: int| 0 <= q < f.len() && f[q] == i;
        }
    }
    lemma_sorted_unique(back, f);
}

} // verus!
