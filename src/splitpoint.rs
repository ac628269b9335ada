//! Row markers produced by the splitpoint scan.
use vstd::prelude::*;

verus! {

/// A row of the strip that the scan looked at: either a row where the strip
/// is cut, or one that was considered and passed over.
#[derive(Debug, Clone, Copy, PartialEq, Eq, Structural)]
pub enum Splitpoint {
    Cut(usize),
    Skipped(usize),
}

impl Splitpoint {
    /// The row this marker stands on.
    pub open spec fn row(self) -> usize {
        match self {
            Splitpoint::Cut(r) => r,
            Splitpoint::Skipped(r) => r,
        }
    }

    pub fn is_cut(&self) -> (r: bool)
        ensures
            r == (*self is Cut),
    {
        match self {
            Splitpoint::Cut(_) => true,
            Splitpoint::Skipped(_) => false,
        }
    }

    pub fn get(&self) -> (r: usize)
        ensures
            r == self.row(),
    {
        match *self {
            Splitpoint::Cut(row) => row,
            Splitpoint::Skipped(row) => row,
        }
    }

    /// Turns a cut into a skipped row and the other way round.
    pub fn switch(&mut self)
        ensures
            final(self).row() == old(self).row(),
            (*final(self) is Cut) == (*old(self) is Skipped),
    {
        match *self {
            Splitpoint::Cut(row) => *self = Splitpoint::Skipped(row),
            Splitpoint::Skipped(row) => *self = Splitpoint::Cut(row),
        }
    }
}

/// The rows of the `Cut` markers, in the order they appear.
pub open spec fn cut_rows(s: Seq<Splitpoint>) -> Seq<usize>
    decreases s.len(),
{
    if s.len() == 0 {
        Seq::empty()
    } else {
        let rest = cut_rows(s.drop_last());
        if s.last() is Cut {
            rest.push(s.last().row())
        } else {
            rest
        }
    }
}

pub proof fn lemma_cut_rows_concat(a: Seq<Splitpoint>, b: Seq<Splitpoint>)
    ensures
        cut_rows(a + b) == cut_rows(a) + cut_rows(b),
    decreases b.len(),
{
    if b.len() == 0 {
        assert(a + b =~= a);
        assert(cut_rows(b) =~= Seq::<usize>::empty());
        assert(cut_rows(a) + cut_rows(b) =~= cut_rows(a));
    } else {
        lemma_cut_rows_concat(a, b.drop_last());
        assert((a + b).drop_last() =~= a + b.drop_last());
        assert((a + b).last() == b.last());
        if b.last() is Cut {
            assert(cut_rows(a) + cut_rows(b.drop_last()).push(b.last().row()) =~= (cut_rows(a)
                + cut_rows(b.drop_last())).push(b.last().row()));
        }
    }
}

pub proof fn lemma_cut_rows_one(p: Splitpoint)
    ensures
        cut_rows(seq![p]) == (if p is Cut {
            seq![p.row()]
        } else {
            Seq::<usize>::empty()
        }),
{
    let s = seq![p];
    assert(s.drop_last() =~= Seq::<Splitpoint>::empty());
    assert(cut_rows(s.drop_last()) == Seq::<usize>::empty());
    assert(s.last() == p);
    assert(Seq::<usize>::empty().push(p.row()) =~= seq![p.row()]);
}

/// A run of skipped rows holds no cut.
pub proof fn lemma_cut_rows_all_skipped(s: Seq<Splitpoint>)
    requires
        forall|i: int| 0 <= i < s.len() ==> s[i] is Skipped,
    ensures
        cut_rows(s) == Seq::<usize>::empty(),
    decreases s.len(),
{
    if s.len() > 0 {
        lemma_cut_rows_all_skipped(s.drop_last());
    }
}

/// A run of skipped rows with one cut among them yields that cut alone.
pub proof fn lemma_cut_rows_single(s: Seq<Splitpoint>, k: int)
    requires
        0 <= k < s.len(),
        s[k] is Cut,
        forall|i: int| 0 <= i < s.len() && i != k ==> s[i] is Skipped,
    ensures
        cut_rows(s) == seq![s[k].row()],
    decreases s.len(),
{
    if k == s.len() - 1 {
        lemma_cut_rows_all_skipped(s.drop_last());
        assert(Seq::<usize>::empty().push(s[k].row()) =~= seq![s[k].row()]);
    } else {
        lemma_cut_rows_single(s.drop_last(), k);
    }
}

/// Collects the rows of the `Cut` markers, in order.
pub fn cut_rows_of(splitpoints: &Vec<Splitpoint>) -> (r: Vec<usize>)
    ensures
        r@ == cut_rows(splitpoints@),
{
    let mut r: Vec<usize> = Vec::new();
    let mut i: usize = 0;
    while i < splitpoints.len()
        invariant
            i <= splitpoints@.len(),
            r@ == cut_rows(splitpoints@.subrange(0, i as int)),
        decreases splitpoints@.len() - i,
    {
        assert(splitpoints@.subrange(0, i as int + 1).drop_last() =~= splitpoints@.subrange(
            0,
            i as int,
        ));
        if splitpoints[i].is_cut() {
            r.push(splitpoints[i].get());
        }
        i = i + 1;
    }
    assert(splitpoints@.subrange(0, i as int) =~= splitpoints@);
    r
}

} // verus!
