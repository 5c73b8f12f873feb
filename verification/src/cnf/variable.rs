use vstd::prelude::*;

verus! {

/// The index of a variable. The largest value stands for "no variable", and,
/// where a decision depth is stored in this type, for "not assigned".
#[derive(Clone, Copy, PartialEq, Eq, Structural, Ord, Hash, Debug)]
pub struct VariableId(pub(crate) usize);

impl VariableId {
    /// The id that stands for "no variable".
    pub open(crate) spec fn spec_max() -> VariableId {
        VariableId(usize::MAX)
    }

    #[verifier::when_used_as_spec(spec_max)]
    pub fn max() -> (r: VariableId)
        ensures
            r == VariableId::spec_max(),
    {
        VariableId(usize::MAX)
    }

    pub open(crate) spec fn spec_to_usize(&self) -> usize {
        self.0
    }

    pub open(crate) spec fn spec_from_usize(id: usize) -> VariableId {
        VariableId(id)
    }

    #[verifier::when_used_as_spec(spec_from_usize)]
    pub fn from_usize(id: usize) -> (r: VariableId)
        ensures
            r == VariableId::spec_from_usize(id),
            r.spec_to_usize() == id,
    {
        VariableId(id)
    }

    #[verifier::when_used_as_spec(spec_to_usize)]
    pub fn to_usize(&self) -> (r: usize)
        ensures
            r == self.spec_to_usize(),
    {
        self.0
    }

    pub fn from_raw(id: usize) -> (r: VariableId)
        ensures
            r == VariableId::spec_from_usize(id),
    {
        VariableId(id)
    }

    pub fn as_raw(&self) -> (r: usize)
        ensures
            r == self.spec_to_usize(),
    {
        self.0
    }
}

/// The largest activity a variable can have: activities are fixed-point
/// numbers, and this is the number one.
pub const Q_ONE: u64 = 1_000_000_000_000;

/// What is kept for each variable: its value, which doubles as the phase that
/// is tried first when the variable is not assigned; the decision depth at
/// which it was assigned; the clause that forced it; its activity; and the
/// clauses that watch it, one list for each sign.
#[derive(Debug)]
pub struct Variable {
    pub(crate) q: u64,
    pub(crate) watchlists: [Vec<usize>; 2],
    pub(crate) ante: usize,
    pub(crate) depth: VariableId,
    pub(crate) value: bool,
}

/// The position of the last `cid` in `list`; the length of `list` where there is none.
pub open spec fn last_position(list: Seq<usize>, cid: usize) -> int
    decreases list.len(),
{
    if list.len() == 0 {
        0
    } else if list.last() == cid {
        list.len() - 1
    } else {
        let p = last_position(list.drop_last(), cid);
        if p == list.len() - 1 {
            list.len() as int
        } else {
            p
        }
    }
}

/// `list` after its last element has been moved to position `i`.
pub open spec fn swap_removed(list: Seq<usize>, i: int) -> Seq<usize> {
    list.update(i, list.last()).drop_last()
}

/// `list` without its last `cid`: the last element takes its place.
pub open spec fn without_last(list: Seq<usize>, cid: usize) -> Seq<usize> {
    swap_removed(list, last_position(list, cid))
}

/// Where `cid` occurs in `list`, `last_position` is the largest such position.
pub proof fn lemma_last_position(list: Seq<usize>, cid: usize)
    ensures
        list.contains(cid) ==> 0 <= last_position(list, cid) < list.len() && list[last_position(
            list,
            cid,
        )] == cid,
        !list.contains(cid) ==> last_position(list, cid) == list.len(),
        forall|j: int| last_position(list, cid) < j < list.len() ==> list[j] != cid,
    decreases list.len(),
{
    if list.len() == 0 {
    } else if list.last() == cid {
        assert(list[list.len() - 1] == cid);
    } else {
        let rest = list.drop_last();
        lemma_last_position(rest, cid);
        if rest.contains(cid) {
            let k = choose|k: int| 0 <= k < rest.len() && rest[k] == cid;
            assert(list[k] == cid);
        }
        if list.contains(cid) {
            let k = choose|k: int| 0 <= k < list.len() && list[k] == cid;
            assert(rest[k] == cid);
        }
        assert forall|j: int| last_position(list, cid) < j < list.len() implies list[j] != cid by {
            if j < rest.len() {
                assert(rest[j] == list[j]);
            }
        }
    }
}

impl Variable {
    /// Whether the variable is assigned: its depth is not the largest id.
    pub open(crate) spec fn assigned(&self) -> bool {
        self.depth.0 != usize::MAX
    }

    /// The variable's value where it is assigned.
    pub open(crate) spec fn spec_value(&self) -> Option<bool> {
        if self.assigned() {
            Some(self.value)
        } else {
            None
        }
    }

    /// The value that is stored, assigned or not.
    pub open(crate) spec fn phase(&self) -> bool {
        self.value
    }

    pub open(crate) spec fn spec_depth(&self) -> VariableId {
        self.depth
    }

    pub open(crate) spec fn spec_ante(&self) -> usize {
        self.ante
    }

    pub open(crate) spec fn spec_q(&self) -> u64 {
        self.q
    }

    /// The clauses that watch the variable's literal of the given sign.
    pub open(crate) spec fn watchlist(&self, negated: bool) -> Seq<usize> {
        self.watchlists[if negated {
            1int
        } else {
            0int
        }]@
    }

    /// Whether two variables agree on all but the clauses that watch them.
    /// Whether the same clauses watch two variables, in the same order.
    pub open(crate) spec fn same_watchlists(&self, other: &Variable) -> bool {
        &&& self.watchlist(false) == other.watchlist(false)
        &&& self.watchlist(true) == other.watchlist(true)
    }

    pub open(crate) spec fn same_state(&self, other: &Variable) -> bool {
        &&& self.value == other.value
        &&& self.depth == other.depth
        &&& self.ante == other.ante
        &&& self.q == other.q
    }

    pub fn new() -> (var: Variable)
        ensures
            !var.assigned(),
            var.phase() == false,
            var.spec_ante() == usize::MAX,
            var.spec_q() == 0,
            var.watchlist(false) == Seq::<usize>::empty(),
            var.watchlist(true) == Seq::<usize>::empty(),
    {
        Variable {
            watchlists: [Vec::new(), Vec::new()],
            ante: usize::MAX,
            depth: VariableId::max(),
            value: false,
            q: 0,
        }
    }

    #[verifier::when_used_as_spec(assigned)]
    pub fn has_value(&self) -> (r: bool)
        ensures
            r == self.assigned(),
    {
        self.depth.0 != usize::MAX
    }

    pub fn get_value(&self) -> (r: bool)
        requires
            self.assigned(),
        ensures
            r == self.phase(),
    {
        self.value
    }

    pub fn set_phase(&mut self, value: bool)
        ensures
            final(self).phase() == value,
            final(self).spec_depth() == old(self).spec_depth(),
            final(self).spec_ante() == old(self).spec_ante(),
            final(self).spec_q() == old(self).spec_q(),
            final(self).same_watchlists(old(self)),
    {
        self.value = value;
    }

    #[verifier::when_used_as_spec(spec_value)]
    pub fn value(&self) -> (r: Option<bool>)
        ensures
            r == self.spec_value(),
    {
        if self.depth.0 == usize::MAX {
            None
        } else {
            Some(self.value)
        }
    }

    /// Assigns `value` at `depth`, forced by the clause `ante` (the largest
    /// number where the variable was decided).
    pub fn set(&mut self, value: bool, depth: VariableId, ante: usize)
        requires
            !old(self).assigned(),
        ensures
            final(self).phase() == value,
            final(self).spec_depth() == depth,
            final(self).spec_ante() == ante,
            final(self).spec_q() == old(self).spec_q(),
            final(self).same_watchlists(old(self)),
    {
        self.ante = ante;
        self.depth = depth;
        self.value = value;
    }

    /// Takes the assignment back. The value stays: it is the phase that a
    /// later decision on this variable starts with.
    pub fn unset(&mut self)
        ensures
            !final(self).assigned(),
            final(self).phase() == old(self).phase(),
            final(self).spec_ante() == old(self).spec_ante(),
            final(self).spec_q() == old(self).spec_q(),
            final(self).same_watchlists(old(self)),
    {
        self.depth = VariableId::max();
    }

    /// Assigns the stored phase at `depth`, as a decision.
    pub fn enable(&mut self, depth: VariableId)
        ensures
            final(self).phase() == old(self).phase(),
            final(self).spec_depth() == depth,
            final(self).spec_ante() == usize::MAX,
            final(self).spec_q() == old(self).spec_q(),
            final(self).same_watchlists(old(self)),
    {
        self.ante = usize::MAX;
        self.depth = depth;
    }

    #[verifier::when_used_as_spec(spec_depth)]
    pub fn get_depth(&self) -> (r: VariableId)
        ensures
            r == self.spec_depth(),
    {
        self.depth
    }

    pub fn get_ante(&self) -> (r: usize)
        requires
            self.assigned(),
        ensures
            r == self.spec_ante(),
    {
        self.ante
    }

    pub fn get_clauses(&mut self, negative: bool) -> (list: &mut Vec<usize>)
        ensures
            list@ == old(self).watchlist(negative),
            final(self).watchlist(negative) == final(list)@,
            final(self).watchlist(!negative) == old(self).watchlist(!negative),
            final(self).same_state(old(self)),
    {
        if negative {
            &mut self.watchlists[1]
        } else {
            &mut self.watchlists[0]
        }
    }

    /// The clauses that watch the literal of the given sign, to read.
    pub fn watching(&self, negative: bool) -> (list: &Vec<usize>)
        ensures
            list@ == self.watchlist(negative),
    {
        if negative {
            &self.watchlists[1]
        } else {
            &self.watchlists[0]
        }
    }

    /// Enters the clause `cid` in the list of the given sign.
    pub fn watch(&mut self, cid: usize, negated: bool)
        ensures
            final(self).watchlist(negated) == old(self).watchlist(negated).push(cid),
            final(self).watchlist(!negated) == old(self).watchlist(!negated),
            final(self).same_state(old(self)),
    {
        if negated {
            self.watchlists[1].push(cid);
        } else {
            self.watchlists[0].push(cid);
        }
    }

    /// Takes the last `cid` out of the list of the given sign; the list's last
    /// entry moves to its place.
    pub fn unwatch(&mut self, cid: usize, negated: bool)
        requires
            old(self).watchlist(negated).contains(cid),
        ensures
            final(self).watchlist(negated) == without_last(old(self).watchlist(negated), cid),
            final(self).watchlist(!negated) == old(self).watchlist(!negated),
            final(self).same_state(old(self)),
    {
        let clauses = self.get_clauses(negated);
        let ghost list = clauses@;
        let mut i: usize = clauses.len();
        proof {
            lemma_last_position(list, cid);
        }
        while clauses[i - 1] != cid
            invariant
                0 < i <= clauses.len(),
                clauses@ == list,
                last_position(list, cid) < i,
                list.contains(cid),
                0 <= last_position(list, cid) < list.len(),
                list[last_position(list, cid)] == cid,
                forall|j: int| last_position(list, cid) < j < list.len() ==> list[j] != cid,
            decreases i,
        {
            i -= 1;
        }
        clauses.swap_remove(i - 1);
    }

    pub fn clear_watched(&mut self)
        ensures
            final(self).watchlist(false) == Seq::<usize>::empty(),
            final(self).watchlist(true) == Seq::<usize>::empty(),
            final(self).same_state(old(self)),
    {
        self.watchlists[0].clear();
        self.watchlists[1].clear();
    }

    pub fn watches(&self, cid: usize) -> (r: bool)
        ensures
            r == (self.watchlist(false).contains(cid) || self.watchlist(true).contains(cid)),
    {
        let mut i: usize = 0;
        while i < self.watchlists[0].len()
            invariant
                i <= self.watchlists[0].len(),
                forall|j: int| 0 <= j < i ==> self.watchlist(false)[j] != cid,
            decreases self.watchlists[0].len() - i,
        {
            if self.watchlists[0][i] == cid {
                return true;
            }
            i += 1;
        }
        let mut i: usize = 0;
        while i < self.watchlists[1].len()
            invariant
                i <= self.watchlists[1].len(),
                forall|j: int| 0 <= j < self.watchlist(false).len() ==> self.watchlist(false)[j] != cid,
                forall|j: int| 0 <= j < i ==> self.watchlist(true)[j] != cid,
            decreases self.watchlists[1].len() - i,
        {
            if self.watchlists[1][i] == cid {
                return true;
            }
            i += 1;
        }
        false
    }

    #[verifier::when_used_as_spec(spec_q)]
    pub fn q(&self) -> (r: u64)
        ensures
            r == self.spec_q(),
    {
        self.q
    }

    pub fn q_mut(&mut self) -> (q: &mut u64)
        ensures
            *q == old(self).spec_q(),
            final(self).spec_q() == *final(q),
            final(self).phase() == old(self).phase(),
            final(self).spec_depth() == old(self).spec_depth(),
            final(self).spec_ante() == old(self).spec_ante(),
            final(self).same_watchlists(old(self)),
    {
        &mut self.q
    }
}

impl Default for Variable {
    fn default() -> (var: Variable)
        ensures
            !var.assigned(),
            var.phase() == false,
            var.spec_ante() == usize::MAX,
            var.spec_q() == 0,
            var.watchlist(false) == Seq::<usize>::empty(),
            var.watchlist(true) == Seq::<usize>::empty(),
    {
        Variable::new()
    }
}

} // verus!
