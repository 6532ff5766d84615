use rand::seq::SliceRandom;
use vstd::prelude::*;

verus! {

/// One grid position: `vector` is `(column, row)`, `options` the values it
/// may still take.
pub struct Cell {
    pub vector: (usize, usize),
    pub is_collapsed: bool,
    pub is_edited: bool,
    pub options: Vec<usize>,
}

/// The values `1..=dim`, ascending.
pub open spec fn full_range(dim: nat) -> Seq<usize> {
    Seq::new(dim, |k: int| (k + 1) as usize)
}

/// `a` and `b` hold the same position, flags and candidates.
pub open spec fn same_cell(a: Cell, b: Cell) -> bool {
    &&& a.vector == b.vector
    &&& a.is_collapsed == b.is_collapsed
    &&& a.is_edited == b.is_edited
    &&& a.options@ == b.options@
}

/// Relies on rand's `SliceRandom::choose` for slices, drawing from
/// `thread_rng`: `None` for an empty slice, otherwise one of its elements.
#[verifier::external_body]
pub(crate) fn choose_element(items: &Vec<usize>) -> (r: Option<usize>)
    ensures
        r is None <==> items@.len() == 0,
        r matches Some(x) ==> items@.contains(x),
{
    items.as_slice().choose(&mut rand::thread_rng()).copied()
}

impl Cell {
    /// A fresh cell at `vector`, open, not edited, with every value of
    /// `1..=dim` as a candidate.
    pub fn new(vector: (usize, usize), dim: usize) -> (r: Cell)
        ensures
            r.vector == vector,
            !r.is_collapsed,
            !r.is_edited,
            r.options@ == full_range(dim as nat),
    {
        let mut options: Vec<usize> = Vec::new();
        let mut k: usize = 0;
        while k < dim
            invariant
                k <= dim,
                options@ == full_range(k as nat),
            decreases dim - k,
        {
            options.push(k + 1);
            k = k + 1;
            assert(options@ =~= full_range(k as nat));
        }
        Cell { vector, is_collapsed: false, is_edited: false, options }
    }

    /// An exact copy of this cell.
    pub fn duplicate(&self) -> (r: Cell)
        ensures
            same_cell(r, *self),
    {
        let mut options: Vec<usize> = Vec::new();
        let mut k: usize = 0;
        while k < self.options.len()
            invariant
                k <= self.options@.len(),
                options@ == self.options@.subrange(0, k as int),
            decreases self.options@.len() - k,
        {
            options.push(self.options[k]);
            k = k + 1;
            assert(options@ =~= self.options@.subrange(0, k as int));
        }
        assert(options@ =~= self.options@);
        Cell {
            vector: self.vector,
            is_collapsed: self.is_collapsed,
            is_edited: self.is_edited,
            options,
        }
    }

    /// Collapses the cell onto one of its candidates drawn at random and
    /// returns it; with no candidate left the cell is still marked collapsed,
    /// stays empty, and `None` comes back.
    pub fn collapse_random(&mut self) -> (r: Option<usize>)
        ensures
            final(self).is_collapsed,
            final(self).vector == old(self).vector,
            final(self).is_edited == old(self).is_edited,
            r is None <==> old(self).options@.len() == 0,
            r is None ==> final(self).options@ == old(self).options@,
            r matches Some(v) ==> old(self).options@.contains(v) && final(self).options@ == seq![v],
    {
        self.is_collapsed = true;
        match choose_element(&self.options) {
            Some(value) => {
                self.options = vec![value];
                Some(value)
            },
            None => None,
        }
    }

    /// Collapses the cell onto its candidate at position `n` modulo their
    /// number, a deterministic counterpart of `collapse_random`.
    pub fn collapse_nth(&mut self, n: usize) -> (r: Option<usize>)
        ensures
            final(self).is_collapsed,
            final(self).vector == old(self).vector,
            final(self).is_edited == old(self).is_edited,
            old(self).options@.len() == 0 ==> r is None && final(self).options@ == old(
                self,
            ).options@,
            old(self).options@.len() > 0 ==> ({
                let v = old(self).options@[n as int % old(self).options@.len() as int];
                r == Some(v) && final(self).options@ == seq![v]
            }),
    {
        self.is_collapsed = true;
        let len = self.options.len();
        if len == 0 {
            return None;
        }
        let value = self.options[n % len];
        self.options = vec![value];
        Some(value)
    }

    /// Collapses the cell onto `value`, whatever its candidates were.
    pub fn collapse(&mut self, value: usize)
        ensures
            final(self).is_collapsed,
            final(self).vector == old(self).vector,
            final(self).is_edited == old(self).is_edited,
            final(self).options@ == seq![value],
    {
        self.is_collapsed = true;
        self.options = vec![value];
    }
}

} // verus!
