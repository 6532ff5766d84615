use vstd::multiset::Multiset;
use vstd::prelude::*;

verus! {

broadcast use vstd::seq_lib::group_to_multiset_ensures;

/// Per-group multisets of committed values: one group per row, per column
/// or per block, addressed by a key below the number of groups.
pub struct ConstraintTracker {
    groups: Vec<Vec<usize>>,
}

impl View for ConstraintTracker {
    type V = Seq<Multiset<usize>>;

    closed spec fn view(&self) -> Seq<Multiset<usize>> {
        Seq::new(self.groups@.len(), |k: int| self.groups@[k]@.to_multiset())
    }
}

/// All groups of `t` are empty.
pub open spec fn all_empty(t: Seq<Multiset<usize>>) -> bool {
    forall|k: int| 0 <= k < t.len() ==> #[trigger] t[k] == Multiset::<usize>::empty()
}

impl ConstraintTracker {
    /// A tracker with `n` empty groups.
    pub fn new(n: usize) -> (r: ConstraintTracker)
        ensures
            r@.len() == n,
            all_empty(r@),
    {
        let mut groups: Vec<Vec<usize>> = Vec::new();
        let mut k: usize = 0;
        while k < n
            invariant
                k <= n,
                groups@.len() == k,
                forall|j: int| 0 <= j < k ==> (#[trigger] groups@[j])@.len() == 0,
            decreases n - k,
        {
            groups.push(Vec::new());
            k = k + 1;
        }
        let r = ConstraintTracker { groups };
        assert forall|j: int| 0 <= j < r@.len() implies #[trigger] r@[j] == Multiset::<usize>::empty() by {
            assert(r.groups@[j]@ =~= Seq::<usize>::empty());
        }
        r
    }

    /// Number of groups.
    pub fn len(&self) -> (r: usize)
        ensures
            r == self@.len(),
    {
        self.groups.len()
    }

    /// Adds one occurrence of `value` to group `key`.
    pub fn record(&mut self, key: usize, value: usize)
        requires
            key < old(self)@.len(),
        ensures
            final(self)@ == old(self)@.update(key as int, old(self)@[key as int].insert(value)),
    {
        let ghost before = self.groups@;
        self.groups[key].push(value);
        assert(self.groups@[key as int]@ == before[key as int]@.push(value));
        assert(self@ =~= old(self)@.update(key as int, old(self)@[key as int].insert(value)));
    }

    /// Removes one occurrence of `value` from group `key`; nothing happens
    /// when the group is absent or does not hold the value.
    pub fn unrecord(&mut self, key: usize, value: usize)
        ensures
            key < old(self)@.len() ==> final(self)@ == old(self)@.update(
                key as int,
                old(self)@[key as int].remove(value),
            ),
            key >= old(self)@.len() ==> final(self)@ == old(self)@,
    {
        if key >= self.groups.len() {
            return;
        }
        let n = self.groups[key].len();
        let mut i: usize = 0;
        while i < n
            invariant
                self == old(self),
                key < self.groups@.len(),
                n == self.groups@[key as int]@.len(),
                i <= n,
                forall|j: int| 0 <= j < i ==> self.groups@[key as int]@[j] != value,
            decreases n - i,
        {
            if self.groups[key][i] == value {
                let ghost g = self.groups@[key as int]@;
                self.groups[key].remove(i);
                assert(self.groups@[key as int]@ == g.remove(i as int));
                assert(g[i as int] == value);
                assert(self@ =~= old(self)@.update(key as int, old(self)@[key as int].remove(value)));
                return;
            }
            i = i + 1;
        }
        let ghost g = self.groups@[key as int]@;
        assert(!g.contains(value));
        assert(g.to_multiset().count(value) == 0);
        assert(g.to_multiset().remove(value) =~= g.to_multiset());
        assert(self@ =~= old(self)@.update(key as int, old(self)@[key as int].remove(value)));
    }

    /// Whether group `key` holds at least one occurrence of `value`.
    pub fn contains(&self, key: usize, value: usize) -> (r: bool)
        ensures
            r == (key < self@.len() && self@[key as int].count(value) > 0),
    {
        if key >= self.groups.len() {
            return false;
        }
        let n = self.groups[key].len();
        let mut i: usize = 0;
        while i < n
            invariant
                key < self.groups@.len(),
                n == self.groups@[key as int]@.len(),
                i <= n,
                forall|j: int| 0 <= j < i ==> self.groups@[key as int]@[j] != value,
            decreases n - i,
        {
            if self.groups[key][i] == value {
                assert(self.groups@[key as int]@.contains(value));
                return true;
            }
            i = i + 1;
        }
        assert(!self.groups@[key as int]@.contains(value));
        false
    }

    /// Empties every group, keeping their number.
    pub fn clear(&mut self)
        ensures
            final(self)@.len() == old(self)@.len(),
            all_empty(final(self)@),
    {
        *self = ConstraintTracker::new(self.groups.len());
    }
}

/// Removal is one occurrence at a time: from a group that holds `v` twice,
/// one removal leaves `v` present once, and a second leaves it absent.
pub proof fn lemma_removal_one_occurrence(t: Seq<Multiset<usize>>, key: int, v: usize)
    requires
        0 <= key < t.len(),
        t[key].count(v) == 2,
    ensures
        ({
            let once = t.update(key, t[key].remove(v));
            let twice = once.update(key, once[key].remove(v));
            &&& once[key].count(v) == 1
            &&& twice[key].count(v) == 0
        }),
{
}

} // verus!
