//! Cursor-based undo/redo logs over single moves and over atomic move
//! groups. A log is a pair of stacks: the entries at or before the cursor
//! (oldest first) and the entries ahead of it (next redo first), which gives
//! the classic editor semantics — recording while undone entries remain
//! discards that forward branch.

use vstd::prelude::*;
use vstd::std_specs::cmp::{PartialEqSpec, PartialEqSpecImpl};

use crate::Pos;

verus! {

/// One recorded cell transition: the cell as it was, the cell as it became,
/// and where.
#[derive(Debug)]
pub struct Move<N> {
    pub old: N,
    pub new: N,
    pub pos: Pos,
}

impl<N: Copy> Clone for Move<N> {
    fn clone(&self) -> (r: Self)
        ensures
            r == *self,
    {
        *self
    }
}

impl<N: Copy> Copy for Move<N> {

}

impl<N> Move<N> {
    pub fn new(old_cell: N, new_cell: N, pos: Pos) -> (r: Self)
        ensures
            r == (Move { old: old_cell, new: new_cell, pos }),
    {
        Move { old: old_cell, new: new_cell, pos }
    }
}

impl<N: PartialEq> PartialEq for Move<N> {
    fn eq(&self, other: &Self) -> (r: bool) {
        self.old == other.old && self.new == other.new && self.pos.0 == other.pos.0
            && self.pos.1 == other.pos.1
    }
}

impl<N: Eq> Eq for Move<N> {

}

impl<N: PartialEq> PartialEqSpecImpl for Move<N> {
    open spec fn obeys_eq_spec() -> bool {
        N::obeys_eq_spec()
    }

    open spec fn eq_spec(&self, other: &Move<N>) -> bool {
        &&& self.old.eq_spec(&other.old)
        &&& self.new.eq_spec(&other.new)
        &&& self.pos == other.pos
    }
}

/// Entry-wise `eq_spec` equality of two entry sequences.
pub open spec fn entries_match<T: PartialEqSpec>(a: Seq<T>, b: Seq<T>) -> bool {
    a.len() == b.len() && forall|i: int| 0 <= i < a.len() ==> #[trigger] a[i].eq_spec(&b[i])
}

/// Where the cursor of a log stands: before every entry (nothing to undo),
/// between entries, or on the most recent entry (nothing to redo). An empty
/// log counts as `Back`.
#[derive(Clone, Copy, Debug, PartialEq, Eq, Structural)]
pub enum Where {
    Front,
    Middle,
    Back,
}

/// The cursor position that a past/ahead stack pair encodes.
pub open spec fn loc_of(past_len: int, ahead_len: int) -> Where {
    if ahead_len == 0 {
        Where::Back
    } else if past_len == 0 {
        Where::Front
    } else {
        Where::Middle
    }
}

/// Recording an entry: it goes after the cursor and the old forward branch
/// is discarded.
pub open spec fn record_tr<T>(h: (Seq<T>, Seq<T>), e: T) -> (Seq<T>, Seq<T>) {
    (h.0.push(e), Seq::empty())
}

/// Stepping the cursor back: the entry at the cursor moves to the front of
/// the forward branch.
pub open spec fn undo_tr<T>(h: (Seq<T>, Seq<T>)) -> (Seq<T>, Seq<T>)
    recommends
        h.0.len() > 0,
{
    (h.0.drop_last(), seq![h.0.last()] + h.1)
}

/// Stepping the cursor forward: the first entry of the forward branch moves
/// to the top of the undo stack.
pub open spec fn redo_tr<T>(h: (Seq<T>, Seq<T>)) -> (Seq<T>, Seq<T>)
    recommends
        h.1.len() > 0,
{
    (h.0.push(h.1[0]), h.1.drop_first())
}

/// An undo followed by a redo puts the log back exactly as it was.
pub proof fn lemma_undo_redo_inverse<T>(past: Seq<T>, ahead: Seq<T>)
    requires
        past.len() > 0,
    ensures
        redo_tr(undo_tr((past, ahead))).0 =~= past,
        redo_tr(undo_tr((past, ahead))).1 =~= ahead,
{
}

/// A redo followed by an undo puts the log back exactly as it was.
pub proof fn lemma_redo_undo_inverse<T>(past: Seq<T>, ahead: Seq<T>)
    requires
        ahead.len() > 0,
    ensures
        undo_tr(redo_tr((past, ahead))).0 =~= past,
        undo_tr(redo_tr((past, ahead))).1 =~= ahead,
{
}

/// Recording discards the forward branch: whatever was ahead of the cursor,
/// the log afterwards is exactly the undo stack plus the new entry, and
/// nothing can be redone.
pub proof fn lemma_record_discards_redo<T>(past: Seq<T>, ahead: Seq<T>, e: T)
    ensures
        record_tr((past, ahead), e).1.len() == 0,
        record_tr((past, ahead), e).0 + record_tr((past, ahead), e).1 =~= past.push(e),
{
}

/// `k` undo steps in a row.
pub open spec fn undo_k<T>(h: (Seq<T>, Seq<T>), k: int) -> (Seq<T>, Seq<T>)
    decreases k,
{
    if k <= 0 {
        h
    } else {
        undo_tr(undo_k(h, k - 1))
    }
}

/// `k` redo steps in a row.
pub open spec fn redo_k<T>(h: (Seq<T>, Seq<T>), k: int) -> (Seq<T>, Seq<T>)
    decreases k,
{
    if k <= 0 {
        h
    } else {
        redo_tr(redo_k(h, k - 1))
    }
}

/// After `k` undo steps the last `k` entries of the undo stack stand ahead
/// of the cursor, in their original order.
pub proof fn lemma_undo_k<T>(past: Seq<T>, ahead: Seq<T>, k: int)
    requires
        0 <= k <= past.len(),
    ensures
        undo_k((past, ahead), k).0 =~= past.take(past.len() - k),
        undo_k((past, ahead), k).1 =~= past.skip(past.len() - k) + ahead,
    decreases k,
{
    if k > 0 {
        lemma_undo_k(past, ahead, k - 1);
        let prev = undo_k((past, ahead), k - 1);
        assert(prev.0 =~= past.take(past.len() - k + 1));
        assert(prev.0.len() == past.len() - k + 1);
        assert(prev.0.drop_last() =~= past.take(past.len() - k));
        assert(prev.0.last() == past[past.len() - k]);
        assert(seq![past[past.len() - k]] + (past.skip(past.len() - k + 1) + ahead) =~= past.skip(
            past.len() - k,
        ) + ahead);
        assert(undo_k((past, ahead), k).1 =~= seq![prev.0.last()] + prev.1);
    }
}

/// After `k` redo steps the first `k` waiting entries have been replayed
/// onto the undo stack, in their original order.
pub proof fn lemma_redo_k<T>(past: Seq<T>, ahead: Seq<T>, k: int)
    requires
        0 <= k <= ahead.len(),
    ensures
        redo_k((past, ahead), k).0 =~= past + ahead.take(k),
        redo_k((past, ahead), k).1 =~= ahead.skip(k),
    decreases k,
{
    if k > 0 {
        lemma_redo_k(past, ahead, k - 1);
        let prev = redo_k((past, ahead), k - 1);
        assert(prev.1 =~= ahead.skip(k - 1));
        assert(prev.1[0] == ahead[k - 1]);
        assert(prev.0.push(prev.1[0]) =~= past + ahead.take(k));
        assert(prev.1.drop_first() =~= ahead.skip(k));
    }
}

/// Undoing a log all the way to the front and then redoing everything
/// reproduces the full original entry sequence, in order, with the cursor
/// back at the end.
pub proof fn lemma_full_cycle<T>(past: Seq<T>, ahead: Seq<T>)
    ensures
        ({
            let front = undo_k((past, ahead), past.len() as int);
            let back = redo_k(front, front.1.len() as int);
            &&& front.0.len() == 0
            &&& front.1 =~= past + ahead
            &&& back.0 =~= past + ahead
            &&& back.1.len() == 0
        }),
{
    lemma_undo_k(past, ahead, past.len() as int);
    let front = undo_k((past, ahead), past.len() as int);
    assert(front.1 =~= past + ahead);
    lemma_redo_k(front.0, front.1, front.1.len() as int);
    let back = redo_k(front, front.1.len() as int);
    assert(back.0 =~= front.0 + front.1.take(front.1.len() as int));
    assert(back.0 =~= past + ahead);
}

/// An undo/redo log of single moves.
pub struct History<N> {
    /// The entries at or before the cursor, oldest first.
    pub past: Vec<Move<N>>,
    /// The entries ahead of the cursor, next redo first.
    pub ahead: Vec<Move<N>>,
}

/// An element-wise copy of a move list.
fn clone_moves<N: Copy>(v: &Vec<Move<N>>) -> (r: Vec<Move<N>>)
    ensures
        r@ == v@,
{
    let mut r: Vec<Move<N>> = Vec::new();
    let mut i: usize = 0;
    while i < v.len()
        invariant
            i <= v@.len(),
            r@.len() == i,
            forall|j: int| 0 <= j < i ==> r@[j] == v@[j],
        decreases v@.len() - i,
    {
        r.push(v[i]);
        i = i + 1;
    }
    proof {
        assert(r@ =~= v@);
    }
    r
}

impl<N: Copy> Clone for History<N> {
    /// A deep copy: an independent log holding the same entries with the
    /// cursor in the same place.
    fn clone(&self) -> (r: Self)
        ensures
            r.past@ == self.past@,
            r.ahead@ == self.ahead@,
    {
        History { past: clone_moves(&self.past), ahead: clone_moves(&self.ahead) }
    }
}

impl<N> History<N> {
    /// The whole entry sequence, oldest first, regardless of the cursor.
    pub open spec fn log(self) -> Seq<Move<N>> {
        self.past@ + self.ahead@
    }

    pub fn new() -> (r: Self)
        ensures
            r.past@.len() == 0,
            r.ahead@.len() == 0,
    {
        History { past: Vec::new(), ahead: Vec::new() }
    }

    /// Where the cursor stands.
    pub fn loc(&self) -> (r: Where)
        ensures
            r == loc_of(self.past@.len() as int, self.ahead@.len() as int),
    {
        if self.ahead.len() == 0 {
            Where::Back
        } else if self.past.len() == 0 {
            Where::Front
        } else {
            Where::Middle
        }
    }

    /// Records a move after the cursor, discarding everything that was
    /// ahead of it.
    pub fn update(&mut self, mv: Move<N>)
        ensures
            final(self).past@ == old(self).past@.push(mv),
            final(self).ahead@.len() == 0,
            final(self).log() == old(self).past@.push(mv),
    {
        self.past.push(mv);
        self.ahead = Vec::new();
        proof {
            assert(self.log() =~= self.past@);
        }
    }

    pub fn can_undo(&self) -> (r: bool)
        ensures
            r == (self.past@.len() != 0),
    {
        self.past.len() != 0
    }

    pub fn can_redo(&self) -> (r: bool)
        ensures
            r == (self.ahead@.len() != 0),
    {
        self.ahead.len() != 0
    }

    /// Steps the cursor back one entry and returns that entry (whose `old`
    /// cells a caller applies to reverse it); `None` at the front.
    pub fn undo(&mut self) -> (r: Option<Move<N>>) where N: Copy
        ensures
            old(self).past@.len() == 0 ==> r is None && final(self).past@ == old(self).past@
                && final(self).ahead@ == old(self).ahead@,
            old(self).past@.len() != 0 ==> {
                &&& r == Option::Some(old(self).past@.last())
                &&& final(self).past@ == undo_tr((old(self).past@, old(self).ahead@)).0
                &&& final(self).ahead@ == undo_tr((old(self).past@, old(self).ahead@)).1
            },
            final(self).log() == old(self).log(),
    {
        if self.past.len() == 0 {
            proof {
                assert(final(self).log() =~= old(self).log());
            }
            return None;
        }
        let mv = self.past[self.past.len() - 1];
        self.past.pop();
        self.ahead.insert(0, mv);
        proof {
            assert(self.past@ =~= old(self).past@.drop_last());
            assert(self.ahead@ =~= seq![old(self).past@.last()] + old(self).ahead@);
            assert(self.log() =~= old(self).log());
        }
        Some(mv)
    }

    /// Steps the cursor forward one entry and returns that entry (whose
    /// `new` cells a caller applies to replay it); `None` at the back.
    pub fn redo(&mut self) -> (r: Option<Move<N>>) where N: Copy
        ensures
            old(self).ahead@.len() == 0 ==> r is None && final(self).past@ == old(self).past@
                && final(self).ahead@ == old(self).ahead@,
            old(self).ahead@.len() != 0 ==> {
                &&& r == Option::Some(old(self).ahead@[0])
                &&& final(self).past@ == redo_tr((old(self).past@, old(self).ahead@)).0
                &&& final(self).ahead@ == redo_tr((old(self).past@, old(self).ahead@)).1
            },
            final(self).log() == old(self).log(),
    {
        if self.ahead.len() == 0 {
            proof {
                assert(final(self).log() =~= old(self).log());
            }
            return None;
        }
        let mv = self.ahead[0];
        self.ahead.remove(0);
        self.past.push(mv);
        proof {
            assert(self.ahead@ =~= old(self).ahead@.drop_first());
            assert(self.log() =~= old(self).log());
        }
        Some(mv)
    }

    /// Empties the whole log.
    pub fn clear(&mut self)
        ensures
            final(self).past@.len() == 0,
            final(self).ahead@.len() == 0,
    {
        self.past = Vec::new();
        self.ahead = Vec::new();
    }

    /// The full entry sequence as one vector, oldest first.
    fn log_vec(&self) -> (r: Vec<Move<N>>) where N: Copy
        ensures
            r@ == self.log(),
    {
        let mut r: Vec<Move<N>> = Vec::new();
        let mut i: usize = 0;
        while i < self.past.len()
            invariant
                i <= self.past@.len(),
                r@.len() == i,
                forall|j: int| 0 <= j < i ==> r@[j] == self.past@[j],
            decreases self.past@.len() - i,
        {
            r.push(self.past[i]);
            i = i + 1;
        }
        let mut j: usize = 0;
        while j < self.ahead.len()
            invariant
                j <= self.ahead@.len(),
                r@.len() == self.past@.len() + j,
                forall|m: int| 0 <= m < self.past@.len() ==> r@[m] == self.past@[m],
                forall|m: int| 0 <= m < j ==> r@[self.past@.len() + m] == self.ahead@[m],
            decreases self.ahead@.len() - j,
        {
            r.push(self.ahead[j]);
            j = j + 1;
        }
        proof {
            assert(r@ =~= self.log());
        }
        r
    }

    /// Whether the two logs record the same entry sequence, regardless of
    /// where their cursors stand.
    pub fn same_as(&self, other: &Self) -> (r: bool) where N: Copy + PartialEq
        ensures
            N::obeys_eq_spec() ==> r == entries_match(self.log(), other.log()),
    {
        let a = self.log_vec();
        let b = other.log_vec();
        if a.len() != b.len() {
            return false;
        }
        let mut i: usize = 0;
        while i < a.len()
            invariant
                a@ == self.log(),
                b@ == other.log(),
                a@.len() == b@.len(),
                i <= a@.len(),
                forall|j: int| 0 <= j < i ==> N::obeys_eq_spec() ==> #[trigger] PartialEqSpec::eq_spec(
                    &a@[j],
                    &b@[j],
                ),
            decreases a@.len() - i,
        {
            if !(a[i] == b[i]) {
                return false;
            }
            i = i + 1;
        }
        true
    }
}

impl<N: PartialEq + Copy> PartialEq for History<N> {
    fn eq(&self, other: &Self) -> (r: bool) {
        if self.past.len() != other.past.len() || self.ahead.len() != other.ahead.len() {
            return false;
        }
        let mut i: usize = 0;
        while i < self.past.len()
            invariant
                self.past@.len() == other.past@.len(),
                i <= self.past@.len(),
                forall|j: int| 0 <= j < i ==> N::obeys_eq_spec() ==> #[trigger] PartialEqSpec::eq_spec(
                    &self.past@[j],
                    &other.past@[j],
                ),
            decreases self.past@.len() - i,
        {
            if !(self.past[i] == other.past[i]) {
                return false;
            }
            i = i + 1;
        }
        let mut j: usize = 0;
        while j < self.ahead.len()
            invariant
                self.past@.len() == other.past@.len(),
                self.ahead@.len() == other.ahead@.len(),
                forall|m: int| 0 <= m < self.past@.len() ==> N::obeys_eq_spec()
                    ==> #[trigger] PartialEqSpec::eq_spec(&self.past@[m], &other.past@[m]),
                j <= self.ahead@.len(),
                forall|m: int| 0 <= m < j ==> N::obeys_eq_spec() ==> #[trigger] PartialEqSpec::eq_spec(
                    &self.ahead@[m],
                    &other.ahead@[m],
                ),
            decreases self.ahead@.len() - j,
        {
            if !(self.ahead[j] == other.ahead[j]) {
                return false;
            }
            j = j + 1;
        }
        true
    }
}

impl<N: PartialEq + Copy> PartialEqSpecImpl for History<N> {
    open spec fn obeys_eq_spec() -> bool {
        N::obeys_eq_spec()
    }

    open spec fn eq_spec(&self, other: &History<N>) -> bool {
        entries_match(self.past@, other.past@) && entries_match(self.ahead@, other.ahead@)
    }
}


/// Entry-wise deep equality of two group sequences.
pub open spec fn sets_match<T: PartialEqSpec>(a: Seq<Seq<T>>, b: Seq<Seq<T>>) -> bool {
    a.len() == b.len() && forall|i: int| 0 <= i < a.len() ==> #[trigger] entries_match(a[i], b[i])
}

/// Whether two move lists hold `eq_spec`-equal moves.
fn moves_eq<N: PartialEq + Copy>(a: &Vec<Move<N>>, b: &Vec<Move<N>>) -> (r: bool)
    ensures
        N::obeys_eq_spec() ==> r == entries_match(a@, b@),
{
    if a.len() != b.len() {
        return false;
    }
    let mut i: usize = 0;
    while i < a.len()
        invariant
            a@.len() == b@.len(),
            i <= a@.len(),
            forall|j: int| 0 <= j < i ==> N::obeys_eq_spec() ==> #[trigger] PartialEqSpec::eq_spec(
                &a@[j],
                &b@[j],
            ),
        decreases a@.len() - i,
    {
        if !(a[i] == b[i]) {
            return false;
        }
        i = i + 1;
    }
    true
}

/// An undo/redo log of atomic move groups: each entry is applied and undone
/// as one unit.
pub struct MultiHistory<N> {
    /// The entries at or before the cursor, oldest first.
    pub past: Vec<Vec<Move<N>>>,
    /// The entries ahead of the cursor, next redo first.
    pub ahead: Vec<Vec<Move<N>>>,
}

impl<N> MultiHistory<N> {
    /// The recorded groups at or before the cursor, as move sequences.
    pub open spec fn past_sets(self) -> Seq<Seq<Move<N>>> {
        self.past@.map_values(|v: Vec<Move<N>>| v@)
    }

    /// The recorded groups ahead of the cursor, as move sequences.
    pub open spec fn ahead_sets(self) -> Seq<Seq<Move<N>>> {
        self.ahead@.map_values(|v: Vec<Move<N>>| v@)
    }

    /// The whole entry sequence, oldest first, regardless of the cursor.
    pub open spec fn log(self) -> Seq<Seq<Move<N>>> {
        self.past_sets() + self.ahead_sets()
    }

    pub fn new() -> (r: Self)
        ensures
            r.past_sets().len() == 0,
            r.ahead_sets().len() == 0,
    {
        MultiHistory { past: Vec::new(), ahead: Vec::new() }
    }

    /// Where the cursor stands.
    pub fn loc(&self) -> (r: Where)
        ensures
            r == loc_of(self.past_sets().len() as int, self.ahead_sets().len() as int),
    {
        if self.ahead.len() == 0 {
            Where::Back
        } else if self.past.len() == 0 {
            Where::Front
        } else {
            Where::Middle
        }
    }

    /// Records a move group after the cursor, discarding everything that was
    /// ahead of it.
    pub fn update(&mut self, mvs: Vec<Move<N>>)
        ensures
            final(self).past_sets() == old(self).past_sets().push(mvs@),
            final(self).ahead_sets().len() == 0,
            final(self).log() == old(self).past_sets().push(mvs@),
    {
        self.past.push(mvs);
        self.ahead = Vec::new();
        proof {
            assert(self.past_sets() =~= old(self).past_sets().push(self.past@.last()@));
            assert(self.log() =~= self.past_sets());
        }
    }

    pub fn can_undo(&self) -> (r: bool)
        ensures
            r == (self.past_sets().len() != 0),
    {
        self.past.len() != 0
    }

    pub fn can_redo(&self) -> (r: bool)
        ensures
            r == (self.ahead_sets().len() != 0),
    {
        self.ahead.len() != 0
    }

    /// Steps the cursor back one entry and returns a copy of that group
    /// (whose `old` cells a caller applies to reverse it); `None` at the
    /// front.
    pub fn undo(&mut self) -> (r: Option<Vec<Move<N>>>) where N: Copy
        ensures
            old(self).past_sets().len() == 0 ==> r is None && final(self).past_sets() == old(
                self,
            ).past_sets() && final(self).ahead_sets() == old(self).ahead_sets(),
            old(self).past_sets().len() != 0 ==> {
                &&& r is Some
                &&& r.unwrap()@ == old(self).past_sets().last()
                &&& final(self).past_sets() == undo_tr(
                    (old(self).past_sets(), old(self).ahead_sets()),
                ).0
                &&& final(self).ahead_sets() == undo_tr(
                    (old(self).past_sets(), old(self).ahead_sets()),
                ).1
            },
            final(self).log() == old(self).log(),
    {
        if self.past.len() == 0 {
            proof {
                assert(final(self).log() =~= old(self).log());
            }
            return None;
        }
        let mvs = self.past.pop().unwrap();
        let out = clone_moves(&mvs);
        self.ahead.insert(0, mvs);
        proof {
            assert(self.past_sets() =~= old(self).past_sets().drop_last());
            assert(self.ahead_sets() =~= seq![old(self).past_sets().last()] + old(
                self,
            ).ahead_sets());
            assert(self.log() =~= old(self).log());
        }
        Some(out)
    }

    /// Steps the cursor forward one entry and returns a copy of that group
    /// (whose `new` cells a caller applies to replay it); `None` at the
    /// back.
    pub fn redo(&mut self) -> (r: Option<Vec<Move<N>>>) where N: Copy
        ensures
            old(self).ahead_sets().len() == 0 ==> r is None && final(self).past_sets() == old(
                self,
            ).past_sets() && final(self).ahead_sets() == old(self).ahead_sets(),
            old(self).ahead_sets().len() != 0 ==> {
                &&& r is Some
                &&& r.unwrap()@ == old(self).ahead_sets()[0]
                &&& final(self).past_sets() == redo_tr(
                    (old(self).past_sets(), old(self).ahead_sets()),
                ).0
                &&& final(self).ahead_sets() == redo_tr(
                    (old(self).past_sets(), old(self).ahead_sets()),
                ).1
            },
            final(self).log() == old(self).log(),
    {
        if self.ahead.len() == 0 {
            proof {
                assert(final(self).log() =~= old(self).log());
            }
            return None;
        }
        let mvs = self.ahead.remove(0);
        let out = clone_moves(&mvs);
        self.past.push(mvs);
        proof {
            assert(self.past_sets() =~= old(self).past_sets().push(old(self).ahead_sets()[0]));
            assert(self.ahead_sets() =~= old(self).ahead_sets().drop_first());
            assert(self.log() =~= old(self).log());
        }
        Some(out)
    }

    /// Empties the whole log.
    pub fn clear(&mut self)
        ensures
            final(self).past_sets().len() == 0,
            final(self).ahead_sets().len() == 0,
    {
        self.past = Vec::new();
        self.ahead = Vec::new();
    }

    /// The full entry sequence as one vector, oldest first.
    fn log_vec(&self) -> (r: Vec<Vec<Move<N>>>) where N: Copy
        ensures
            r@.map_values(|v: Vec<Move<N>>| v@) == self.log(),
    {
        let mut r: Vec<Vec<Move<N>>> = Vec::new();
        let mut i: usize = 0;
        while i < self.past.len()
            invariant
                i <= self.past@.len(),
                r@.len() == i,
                forall|j: int| 0 <= j < i ==> r@[j]@ == #[trigger] self.past@[j]@,
            decreases self.past@.len() - i,
        {
            r.push(clone_moves(&self.past[i]));
            i = i + 1;
        }
        let mut j: usize = 0;
        while j < self.ahead.len()
            invariant
                j <= self.ahead@.len(),
                r@.len() == self.past@.len() + j,
                forall|m: int| 0 <= m < self.past@.len() ==> r@[m]@ == #[trigger] self.past@[m]@,
                forall|m: int| 0 <= m < j ==> r@[self.past@.len() + m]@
                    == #[trigger] self.ahead@[m]@,
            decreases self.ahead@.len() - j,
        {
            r.push(clone_moves(&self.ahead[j]));
            j = j + 1;
        }
        proof {
            assert(r@.map_values(|v: Vec<Move<N>>| v@) =~= self.log());
        }
        r
    }

    /// Whether the two logs record the same group sequence, regardless of
    /// where their cursors stand.
    pub fn same_as(&self, other: &Self) -> (r: bool) where N: Copy + PartialEq
        ensures
            N::obeys_eq_spec() ==> r == sets_match(self.log(), other.log()),
    {
        let a = self.log_vec();
        let b = other.log_vec();
        if a.len() != b.len() {
            return false;
        }
        let mut i: usize = 0;
        while i < a.len()
            invariant
                a@.map_values(|v: Vec<Move<N>>| v@) == self.log(),
                b@.map_values(|v: Vec<Move<N>>| v@) == other.log(),
                a@.len() == b@.len(),
                i <= a@.len(),
                forall|j: int| 0 <= j < i ==> N::obeys_eq_spec() ==> #[trigger] entries_match(
                    self.log()[j],
                    other.log()[j],
                ),
            decreases a@.len() - i,
        {
            let same = moves_eq(&a[i], &b[i]);
            proof {
                assert(a@[i as int]@ == self.log()[i as int]);
                assert(b@[i as int]@ == other.log()[i as int]);
            }
            if !same {
                return false;
            }
            i = i + 1;
        }
        proof {
            assert(self.log().len() == other.log().len());
        }
        true
    }
}

impl<N: Copy> Clone for MultiHistory<N> {
    /// A deep copy: an independent log holding equal groups with the cursor
    /// in the same place.
    fn clone(&self) -> (r: Self)
        ensures
            r.past_sets() == self.past_sets(),
            r.ahead_sets() == self.ahead_sets(),
    {
        let mut past: Vec<Vec<Move<N>>> = Vec::new();
        let mut i: usize = 0;
        while i < self.past.len()
            invariant
                i <= self.past@.len(),
                past@.len() == i,
                forall|j: int| 0 <= j < i ==> past@[j]@ == #[trigger] self.past@[j]@,
            decreases self.past@.len() - i,
        {
            past.push(clone_moves(&self.past[i]));
            i = i + 1;
        }
        let mut ahead: Vec<Vec<Move<N>>> = Vec::new();
        let mut j: usize = 0;
        while j < self.ahead.len()
            invariant
                j <= self.ahead@.len(),
                ahead@.len() == j,
                forall|m: int| 0 <= m < j ==> ahead@[m]@ == #[trigger] self.ahead@[m]@,
            decreases self.ahead@.len() - j,
        {
            ahead.push(clone_moves(&self.ahead[j]));
            j = j + 1;
        }
        let r = MultiHistory { past, ahead };
        proof {
            assert(r.past_sets() =~= self.past_sets());
            assert(r.ahead_sets() =~= self.ahead_sets());
        }
        r
    }
}

impl<N: PartialEq + Copy> PartialEq for MultiHistory<N> {
    fn eq(&self, other: &Self) -> (r: bool) {
        if self.past.len() != other.past.len() || self.ahead.len() != other.ahead.len() {
            return false;
        }
        let mut i: usize = 0;
        while i < self.past.len()
            invariant
                self.past@.len() == other.past@.len(),
                i <= self.past@.len(),
                forall|j: int| 0 <= j < i ==> N::obeys_eq_spec() ==> #[trigger] entries_match(
                    self.past_sets()[j],
                    other.past_sets()[j],
                ),
            decreases self.past@.len() - i,
        {
            let same = moves_eq(&self.past[i], &other.past[i]);
            proof {
                assert(self.past_sets()[i as int] == self.past@[i as int]@);
                assert(other.past_sets()[i as int] == other.past@[i as int]@);
            }
            if !same {
                return false;
            }
            i = i + 1;
        }
        let mut j: usize = 0;
        while j < self.ahead.len()
            invariant
                self.past@.len() == other.past@.len(),
                self.ahead@.len() == other.ahead@.len(),
                forall|m: int| 0 <= m < self.past@.len() ==> N::obeys_eq_spec()
                    ==> #[trigger] entries_match(self.past_sets()[m], other.past_sets()[m]),
                j <= self.ahead@.len(),
                forall|m: int| 0 <= m < j ==> N::obeys_eq_spec() ==> #[trigger] entries_match(
                    self.ahead_sets()[m],
                    other.ahead_sets()[m],
                ),
            decreases self.ahead@.len() - j,
        {
            let same = moves_eq(&self.ahead[j], &other.ahead[j]);
            proof {
                assert(self.ahead_sets()[j as int] == self.ahead@[j as int]@);
                assert(other.ahead_sets()[j as int] == other.ahead@[j as int]@);
            }
            if !same {
                return false;
            }
            j = j + 1;
        }
        true
    }
}

impl<N: PartialEq + Copy> PartialEqSpecImpl for MultiHistory<N> {
    open spec fn obeys_eq_spec() -> bool {
        N::obeys_eq_spec()
    }

    open spec fn eq_spec(&self, other: &MultiHistory<N>) -> bool {
        sets_match(self.past_sets(), other.past_sets()) && sets_match(
            self.ahead_sets(),
            other.ahead_sets(),
        )
    }
}

} // verus!
