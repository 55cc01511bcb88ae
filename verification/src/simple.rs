//! Plain-byte boards: the same placement, validity and randomization logic
//! as the packed-cell grids, over bare `u8` symbols without notes or given
//! flags, together with a linear single-cursor move history.

use vstd::prelude::*;
use crate::board;
use crate::board::{base_val, bidx, full, on_board, placeable, valid};
use crate::Pos;
use crate::rng;

verus! {

/// A 9x9 board of bare symbols; `0` is an empty cell.
pub struct Grid3x3 {
    pub cells: Vec<u8>,
}

impl Grid3x3 {
    /// 81 cells, every symbol in `0..=9`.
    pub open spec fn wf(self) -> bool {
        &&& self.cells@.len() == 81
        &&& forall|i: int| 0 <= i < 81 ==> self.cells@[i] <= 9
    }

    /// The symbol in column `x`, row `y`.
    pub open spec fn at(self, x: int, y: int) -> u8 {
        self.cells@[bidx(3, x, y)]
    }

    pub open spec fn pos_on_board(pos: Pos) -> bool {
        on_board(3, pos.0 as int, pos.1 as int)
    }

    /// The canonical valid filled board.
    pub fn new() -> (r: Self)
        ensures
            r.wf(),
            valid(r.cells@, 3),
            forall|x: int, y: int| on_board(3, x, y) ==> r.at(x, y) == base_val(3, x, y),
    {
        let mut cells: Vec<u8> = Vec::new();
        let mut i: usize = 0;
        while i < 81
            invariant
                i <= 81,
                cells@.len() == i,
                forall|j: int| 0 <= j < i ==> #[trigger] cells@[j] == base_val(3, j % 9, j / 9),
            decreases 81 - i,
        {
            let x = i % 9;
            let y = i / 9;
            let v: u8 = ((x + (y % 3) * 3 + y / 3) % 9 + 1) as u8;
            proof {
                board::lemma_sides();
                board::lemma_coords_of_index(3, i as int);
                assert(v == base_val(3, i as int % 9, i as int / 9));
            }
            cells.push(v);
            i = i + 1;
        }
        let r = Grid3x3 { cells };
        proof {
            board::lemma_sides();
            assert forall|x: int, y: int| on_board(3, x, y) implies r.at(x, y) == base_val(
                3,
                x,
                y,
            ) by {
                board::lemma_bidx_bound(3, x, y);
                board::lemma_idx_coords(9, x, y);
            }
            board::lemma_base_valid(r.cells@, 3);
            assert forall|i: int| 0 <= i < 81 implies r.cells@[i] <= 9 by {
                board::lemma_coords_of_index(3, i);
                vstd::arithmetic::div_mod::lemma_mod_bound(
                    i % 9 + ((i / 9) % 3) * 3 + (i / 9) / 3,
                    9,
                );
            }
        }
        r
    }

    /// The all-empty board.
    pub fn empty() -> (r: Self)
        ensures
            r.wf(),
            forall|i: int| 0 <= i < 81 ==> r.cells@[i] == 0,
    {
        let mut cells: Vec<u8> = Vec::new();
        let mut i: usize = 0;
        while i < 81
            invariant
                i <= 81,
                cells@.len() == i,
                forall|j: int| 0 <= j < i ==> cells@[j] == 0,
            decreases 81 - i,
        {
            cells.push(0);
            i = i + 1;
        }
        Grid3x3 { cells }
    }

    /// The symbol at a position.
    pub fn get(&self, pos: Pos) -> (r: u8)
        requires
            self.wf(),
            Self::pos_on_board(pos),
        ensures
            r == self.at(pos.0 as int, pos.1 as int),
    {
        proof {
            board::lemma_bidx_bound(3, pos.0 as int, pos.1 as int);
        }
        self.cells[pos.1 * 9 + pos.0]
    }

    /// Overwrites the symbol at a position.
    pub fn set(&mut self, pos: Pos, v: u8)
        requires
            old(self).wf(),
            Self::pos_on_board(pos),
            v <= 9,
        ensures
            final(self).wf(),
            final(self).cells@ == old(self).cells@.update(bidx(3, pos.0 as int, pos.1 as int), v),
    {
        proof {
            board::lemma_bidx_bound(3, pos.0 as int, pos.1 as int);
        }
        self.cells.set(pos.1 * 9 + pos.0, v);
    }

    /// The nine symbols of the row through `pos`, left to right.
    pub fn get_row_for(&self, pos: Pos) -> (r: Vec<u8>)
        requires
            self.wf(),
            Self::pos_on_board(pos),
        ensures
            r@.len() == 9,
            forall|i: int| 0 <= i < 9 ==> r@[i] == self.at(i, pos.1 as int),
    {
        let y = pos.1;
        let mut r: Vec<u8> = Vec::new();
        let mut i: usize = 0;
        while i < 9
            invariant
                self.wf(),
                y < 9,
                i <= 9,
                r@.len() == i,
                forall|j: int| 0 <= j < i ==> r@[j] == self.at(j, y as int),
            decreases 9 - i,
        {
            proof {
                board::lemma_bidx_bound(3, i as int, y as int);
            }
            r.push(self.cells[y * 9 + i]);
            i = i + 1;
        }
        r
    }

    /// The nine symbols of the column through `pos`, top to bottom.
    pub fn get_col_for(&self, pos: Pos) -> (r: Vec<u8>)
        requires
            self.wf(),
            Self::pos_on_board(pos),
        ensures
            r@.len() == 9,
            forall|i: int| 0 <= i < 9 ==> r@[i] == self.at(pos.0 as int, i),
    {
        let x = pos.0;
        let mut r: Vec<u8> = Vec::new();
        let mut i: usize = 0;
        while i < 9
            invariant
                self.wf(),
                x < 9,
                i <= 9,
                r@.len() == i,
                forall|j: int| 0 <= j < i ==> r@[j] == self.at(x as int, j),
            decreases 9 - i,
        {
            proof {
                board::lemma_bidx_bound(3, x as int, i as int);
            }
            r.push(self.cells[i * 9 + x]);
            i = i + 1;
        }
        r
    }

    /// The nine symbols of the box containing `pos`, row-major within the
    /// box.
    pub fn get_box_for(&self, pos: Pos) -> (r: Vec<u8>)
        requires
            self.wf(),
            Self::pos_on_board(pos),
        ensures
            r@.len() == 9,
            forall|i: int| 0 <= i < 9 ==> r@[i] == self.at(
                (pos.0 as int / 3) * 3 + i % 3,
                (pos.1 as int / 3) * 3 + i / 3,
            ),
    {
        let bx = pos.0 / 3;
        let by = pos.1 / 3;
        proof {
            board::lemma_band_bound(3, pos.0 as int);
            board::lemma_band_bound(3, pos.1 as int);
        }
        let mut r: Vec<u8> = Vec::new();
        let mut i: usize = 0;
        while i < 9
            invariant
                self.wf(),
                bx < 3,
                by < 3,
                bx == pos.0 as int / 3,
                by == pos.1 as int / 3,
                i <= 9,
                r@.len() == i,
                forall|j: int| 0 <= j < i ==> r@[j] == self.at(
                    bx as int * 3 + j % 3,
                    by as int * 3 + j / 3,
                ),
            decreases 9 - i,
        {
            let dx = i % 3;
            let dy = i / 3;
            proof {
                board::lemma_band_bound(3, i as int);
                board::lemma_bidx_bound(3, (bx * 3 + dx) as int, (by * 3 + dy) as int);
            }
            r.push(self.cells[(by * 3 + dy) * 9 + (bx * 3 + dx)]);
            i = i + 1;
        }
        r
    }

    /// Whether symbol `n` may be written at `pos`.
    pub fn pos_is_valid(&self, pos: Pos, n: u8) -> (r: bool)
        requires
            self.wf(),
            Self::pos_on_board(pos),
        ensures
            r == placeable(self.cells@, 3, pos.0 as int, pos.1 as int, n),
    {
        proof {
            board::lemma_sides();
        }
        board::placeable_check(&self.cells, 3, pos.0, pos.1, n)
    }

    /// Checks a completely filled board: `None` iff no cell is empty and no
    /// row, column or box repeats a symbol.
    pub fn is_valid(&self) -> (r: Option<Pos>)
        requires
            self.wf(),
        ensures
            r is None <==> valid(self.cells@, 3),
            r is Some ==> Self::pos_on_board(r.unwrap()),
            !full(self.cells@, 3) ==> r is Some && self.cells@[bidx(
                3,
                r.unwrap().0 as int,
                r.unwrap().1 as int,
            )] == 0 && forall|j: int|
                0 <= j < bidx(3, r.unwrap().0 as int, r.unwrap().1 as int) ==> self.cells@[j]
                    != 0,
    {
        proof {
            board::lemma_sides();
        }
        board::conflict_scan(&self.cells, 3)
    }

    /// Scrambles a valid filled board with random symmetry transforms and
    /// symbol relabelings; the result is again a valid filled board.
    pub fn randomize(&mut self)
        requires
            old(self).wf(),
            valid(old(self).cells@, 3),
        ensures
            final(self).wf(),
            valid(final(self).cells@, 3),
            board::rearranged(3, old(self).cells@, final(self).cells@),
    {
        proof {
            board::lemma_sides();
            board::lemma_rearranged_refl(3, self.cells@);
        }
        let rounds = rng::rand_range(10, 100);
        let mut it: u64 = 0;
        while it < rounds
            invariant
                self.wf(),
                valid(self.cells@, 3),
                board::rearranged(3, old(self).cells@, self.cells@),
                it <= rounds <= 100,
            decreases rounds - it,
        {
            let ghost pre = self.cells@;
            let op = rng::rand_range(1, 11);
            let t: board::Transform = if op <= 4 {
                if op <= 2 {
                    let l1 = rng::rand_range(0, 8) as usize;
                    let off = rng::rand_range(1, 2) as usize;
                    let l2 = l1 / 3 * 3 + (l1 % 3 + off) % 3;
                    proof {
                        board::lemma_band_bound(3, l1 as int);
                        board::lemma_band_member(3, l1 as int / 3, (l1 as int % 3 + off) % 3);
                    }
                    if op == 1 {
                        board::Transform::SwapRows(l1, l2)
                    } else {
                        board::Transform::SwapCols(l1, l2)
                    }
                } else {
                    let g1 = rng::rand_range(0, 2) as usize;
                    let off = rng::rand_range(1, 2) as usize;
                    let g2 = (g1 + off) % 3;
                    if op == 3 {
                        board::Transform::SwapRowBands(g1, g2)
                    } else {
                        board::Transform::SwapColBands(g1, g2)
                    }
                }
            } else {
                match op {
                    5 => board::Transform::MainDiagonal,
                    6 => board::Transform::AntiDiagonal,
                    7 => board::Transform::Rot90,
                    8 => board::Transform::Rot180,
                    9 => board::Transform::Rot270,
                    10 => board::Transform::FlipRows,
                    _ => board::Transform::FlipCols,
                }
            };
            proof {
                board::lemma_sides();
            }
            let next = board::apply_transform(&self.cells, 3, t);
            proof {
                board::lemma_transform_no_conflicts(self.cells@, next@, 3, t);
                assert forall|i: int| 0 <= i < 81 implies next@[i] <= 9 by {
                    board::lemma_coords_of_index(3, i);
                    let x = i % 9;
                    let y = i / 9;
                    board::lemma_source_on_board(t, 3, x, y);
                    let p = board::source_of(t, 3, x, y);
                    board::lemma_bidx_bound(3, p.0, p.1);
                    assert(next@[i] == self.cells@[bidx(3, p.0, p.1)]);
                }
                board::lemma_transform_rearranges(self.cells@, next@, 3, t);
            }
            self.cells = next;
            proof {
                board::lemma_rearranged_trans(3, old(self).cells@, pre, self.cells@);
            }
            it = it + 1;
        }
        let mut it2: u64 = 0;
        while it2 < rounds
            invariant
                self.wf(),
                valid(self.cells@, 3),
                board::rearranged(3, old(self).cells@, self.cells@),
                it2 <= rounds <= 100,
            decreases rounds - it2,
        {
            let ghost outer = self.cells@;
            // two distinct symbols: the second is a nonzero offset from the first
            let a = rng::rand_range(1, 9);
            let off = rng::rand_range(1, 8);
            let c = ((a - 1 + off) % 9 + 1) as u8;
            let a = a as u8;
            let mut i: usize = 0;
            let ghost pre = self.cells@;
            while i < 81
                invariant
                    self.cells@.len() == 81,
                    1 <= a <= 9,
                    1 <= c <= 9,
                    i <= 81,
                    forall|j: int| 0 <= j < 81 ==> pre[j] <= 9,
                    forall|j: int| i <= j < 81 ==> self.cells@[j] == pre[j],
                    forall|j: int| 0 <= j < i ==> #[trigger] self.cells@[j] == (if pre[j] == a {
                        c
                    } else if pre[j] == c {
                        a
                    } else {
                        pre[j]
                    }),
                decreases 81 - i,
            {
                let v = self.cells[i];
                if v == a {
                    self.cells.set(i, c);
                } else if v == c {
                    self.cells.set(i, a);
                }
                i = i + 1;
            }
            proof {
                board::lemma_sides();
                board::lemma_relabel_no_conflicts(pre, self.cells@, 3, a, c);
                board::lemma_relabel_rearranges(pre, self.cells@, 3, a, c);
                board::lemma_rearranged_trans(3, old(self).cells@, outer, self.cells@);
            }
            it2 = it2 + 1;
        }
    }

    /// A freshly scrambled valid filled board.
    pub fn randomized() -> (r: Self)
        ensures
            r.wf(),
            valid(r.cells@, 3),
            board::rearranged(
                3,
                Seq::new((81) as nat, |i: int| base_val(3, i % 9, i / 9)),
                r.cells@,
            ),
    {
        let grid0 = Self::new();
        proof {
            board::lemma_sides();
            assert(grid0.cells@ =~= Seq::new((81) as nat, |i: int| base_val(3, i % 9, i
                / 9))) by {
                assert forall|i: int| 0 <= i < 81 implies grid0.cells@[i] == base_val(
                    3,
                    i % 9,
                    i / 9,
                ) by {
                    board::lemma_coords_of_index(3, i);
                }
            }
        }
        let mut grid = grid0;
        grid.randomize();
        grid
    }

    /// Blanks up to `n` cells of a filled board in a random visiting order,
    /// never taking a symbol's last occurrence once another symbol is gone.
    /// Every touched cell becomes empty, every other cell is untouched, and
    /// at most one symbol ends with no occurrences.
    pub fn remove_nums(&mut self, n: usize)
        requires
            old(self).wf(),
            full(old(self).cells@, 3),
            n < 81,
        ensures
            final(self).wf(),
            forall|i: int|
                0 <= i < 81 && final(self).cells@[i] != old(self).cells@[i]
                    ==> #[trigger] final(self).cells@[i] == 0,
            board::changed_upto(old(self).cells@, final(self).cells@, 81) <= n,
            forall|v1: u8, v2: u8|
                1 <= v1 <= 9 && 1 <= v2 <= 9 && v1 != v2 && board::occ(old(self).cells@, v1) > 0
                    && board::occ(old(self).cells@, v2) > 0 ==> !(#[trigger] board::occ(
                    final(self).cells@,
                    v1,
                ) == 0 && #[trigger] board::occ(final(self).cells@, v2) == 0),
            board::changed_upto(old(self).cells@, final(self).cells@, 81) < n ==> forall|i: int|
                0 <= i < 81 && final(self).cells@[i] != 0 ==> #[trigger] board::occ(
                    final(self).cells@,
                    final(self).cells@[i],
                ) == 1,
            n <= 72 ==> board::changed_upto(old(self).cells@, final(self).cells@, 81) == n,
    {
        let mut order: Vec<usize> = Vec::new();
        let mut i: usize = 0;
        while i < 81
            invariant
                i <= 81,
                order@.len() == i,
                forall|j: int| 0 <= j < i ==> order@[j] == j,
            decreases 81 - i,
        {
            order.push(i);
            i = i + 1;
        }
        let ghost orig_order = order@;
        rng::shuffle(&mut order);
        proof {
            board::lemma_shuffled_indices(orig_order, order@);
        }
        let mut nums: Vec<u8> = Vec::new();
        let mut s: usize = 0;
        while s < 10
            invariant
                s <= 10,
                nums@.len() == s,
                forall|v: int| 0 <= v < s ==> nums@[v] == 0,
            decreases 10 - s,
        {
            nums.push(0);
            s = s + 1;
        }
        let mut c: usize = 0;
        while c < 81
            invariant
                self.wf(),
                *self == *old(self),
                c <= 81,
                nums@.len() == 10,
                forall|v: u8| 1 <= v <= 9 ==> nums@[v as int] == board::occ_upto(
                    self.cells@,
                    v,
                    c as int,
                ),
            decreases 81 - c,
        {
            let v = self.cells[c];
            if v != 0 {
                proof {
                    assert(1 <= v <= 9);
                    assert forall|v2: u8| 1 <= v2 <= 9 implies board::occ_upto(
                        self.cells@,
                        v2,
                        c as int,
                    ) <= c as int by {
                        board::lemma_occ_upto_bound(self.cells@, v2, c as int);
                    }
                }
                let cur = nums[v as usize];
                nums.set(v as usize, cur + 1);
            }
            c = c + 1;
        }
        proof {
            board::lemma_changed_upto_refl(self.cells@, 81);
        }
        let mut removed: usize = 0;
        let mut num_gone: bool = false;
        let mut t: usize = 0;
        while t < 81 && removed < n
            invariant
                self.wf(),
                self.cells@.len() == 81,
                old(self).wf(),
                full(old(self).cells@, 3),
                n < 81,
                t <= 81,
                removed <= n,
                order@.len() == 81,
                forall|j: int| 0 <= j < 81 ==> #[trigger] order@[j] < 81,
                forall|j1: int, j2: int| 0 <= j1 < j2 < 81 ==> order@[j1] != order@[j2],
                forall|p: usize| p < 81 ==> #[trigger] order@.contains(p),
                forall|j: int| 0 <= j < t ==> self.cells@[#[trigger] order@[j] as int] == 0
                    || board::occ(self.cells@, self.cells@[order@[j] as int]) == 1,
                nums@.len() == 10,
                forall|v: u8| 1 <= v <= 9 ==> nums@[v as int] == board::occ(self.cells@, v),
                forall|i: int|
                    0 <= i < 81 && self.cells@[i] != old(self).cells@[i]
                        ==> #[trigger] self.cells@[i] == 0,
                board::changed_upto(old(self).cells@, self.cells@, 81) == removed,
                forall|v: u8|
                    1 <= v <= 9 && board::occ(old(self).cells@, v) > 0 && #[trigger] board::occ(
                        self.cells@,
                        v,
                    ) == 0 ==> num_gone,
                forall|v1: u8, v2: u8|
                    1 <= v1 <= 9 && 1 <= v2 <= 9 && v1 != v2 && board::occ(old(self).cells@, v1)
                        > 0 && board::occ(old(self).cells@, v2) > 0 ==> !(#[trigger] board::occ(
                        self.cells@,
                        v1,
                    ) == 0 && #[trigger] board::occ(self.cells@, v2) == 0),
            decreases 81 - t,
        {
            let idx = order[t];
            let v = self.cells[idx];
            if v != 0 && (!num_gone || nums[v as usize] != 1) {
                proof {
                    board::lemma_occ_witness(self.cells@, v, idx as int);
                    assert(self.cells@[idx as int] == old(self).cells@[idx as int]);
                    board::lemma_occ_witness(old(self).cells@, v, idx as int);
                }
                let ghost prev = self.cells@;
                let ghost prev_gone = num_gone;
                self.cells.set(idx, 0);
                let cur = nums[v as usize];
                nums.set(v as usize, cur - 1);
                removed = removed + 1;
                if nums[v as usize] == 0 {
                    num_gone = true;
                }
                proof {
                    assert forall|v2: u8| 1 <= v2 <= 9 && v2 != v implies #[trigger] board::occ(
                        self.cells@,
                        v2,
                    ) == board::occ(prev, v2) by {
                        board::lemma_occ_upto_update(prev, idx as int, 0u8, v2, 81);
                    }
                    assert(board::occ(self.cells@, v) == board::occ(prev, v) - 1) by {
                        board::lemma_occ_upto_update(prev, idx as int, 0u8, v, 81);
                    }
                    assert forall|v2: u8| 1 <= v2 <= 9 implies nums@[v2 as int] == board::occ(
                        self.cells@,
                        v2,
                    ) by {
                        board::lemma_occ_upto_update(prev, idx as int, 0u8, v2, 81);
                    }
                    board::lemma_changed_upto_update(old(self).cells@, prev, idx as int, 0u8, 81);
                    assert(num_gone == (prev_gone || board::occ(self.cells@, v) == 0));
                    if prev_gone {
                        assert(board::occ(prev, v) != 1);
                        assert(board::occ(self.cells@, v) >= 1);
                        assert forall|v2: u8|
                            1 <= v2 <= 9 && board::occ(old(self).cells@, v2) > 0
                                && #[trigger] board::occ(self.cells@, v2) == 0 implies
                        num_gone by {
                            if v2 != v {
                                assert(board::occ(prev, v2) == 0);
                            }
                        }
                    } else {
                        assert forall|v2: u8|
                            1 <= v2 <= 9 && v2 != v && board::occ(old(self).cells@, v2)
                                > 0 implies #[trigger] board::occ(self.cells@, v2) > 0 by {
                            board::lemma_occ_upto_bound(prev, v2, 81);
                            assert(board::occ(prev, v2) != 0);
                        }
                    }
                    assert forall|v1: u8, v2: u8|
                        1 <= v1 <= 9 && 1 <= v2 <= 9 && v1 != v2 && board::occ(
                            old(self).cells@,
                            v1,
                        ) > 0 && board::occ(old(self).cells@, v2) > 0 implies !(
                    #[trigger] board::occ(self.cells@, v1) == 0 && #[trigger] board::occ(
                        self.cells@,
                        v2,
                    ) == 0) by {
                        if board::occ(self.cells@, v1) == 0 && board::occ(self.cells@, v2) == 0 {
                            if prev_gone {
                                assert(board::occ(prev, v1) == 0);
                                assert(board::occ(prev, v2) == 0);
                            } else {
                                assert(v1 == v || board::occ(self.cells@, v1) > 0);
                                assert(v2 == v || board::occ(self.cells@, v2) > 0);
                            }
                        }
                    }
                    // cells already frozen as last occurrences stay frozen
                    assert forall|j: int|
                        0 <= j < t + 1 implies self.cells@[#[trigger] order@[j] as int] == 0
                        || board::occ(self.cells@, self.cells@[order@[j] as int]) == 1 by {
                        if j == t {
                            assert(self.cells@[idx as int] == 0);
                        } else {
                            let q = order@[j] as int;
                            assert(order@[j] != order@[t as int]);
                            assert(self.cells@[q] == prev[q]);
                            if prev[q] != 0 && board::occ(prev, prev[q]) == 1 {
                                let vq = prev[q];
                                if vq == v {
                                    if q < idx as int {
                                        board::lemma_occ_two_witnesses(prev, v, q, idx as int);
                                    } else {
                                        board::lemma_occ_two_witnesses(prev, v, idx as int, q);
                                    }
                                }
                                board::lemma_occ_upto_update(prev, idx as int, 0u8, vq, 81);
                            }
                        }
                    }
                }
            } else {
                proof {
                    assert forall|j: int|
                        0 <= j < t + 1 implies self.cells@[#[trigger] order@[j] as int] == 0
                        || board::occ(self.cells@, self.cells@[order@[j] as int]) == 1 by {
                        if j == t && v != 0 {
                            assert(nums@[v as int] == 1);
                        }
                    }
                }
            }
            t = t + 1;
        }
        proof {
            if removed < n {
                assert forall|i: int|
                    0 <= i < 81 && self.cells@[i] != 0 implies #[trigger] board::occ(
                    self.cells@,
                    self.cells@[i],
                ) == 1 by {
                    assert(order@.contains(i as usize));
                    let j = choose|j: int| 0 <= j < order@.len() && order@[j] == i as usize;
                    assert(self.cells@[order@[j] as int] == 0 || board::occ(
                        self.cells@,
                        self.cells@[order@[j] as int],
                    ) == 1);
                }
                // so few cells can survive that the target must have been met
                assert forall|i: int|
                    0 <= i < 81 implies ((old(self).cells@[i] != self.cells@[i])
                    <==> self.cells@[i] == 0) by {
                    if self.cells@[i] == 0 {
                        assert(old(self).cells@[i] != 0);
                    }
                }
                board::lemma_changed_zero_count(old(self).cells@, self.cells@, self.cells@, 81);
                board::lemma_few_survivors(self.cells@, 9);
                assert(removed >= 72);
            }
        }
    }
}

/// A 16x16 board of bare symbols; `0` is an empty cell.
pub struct Grid4x4 {
    pub cells: Vec<u8>,
}

impl Grid4x4 {
    /// 256 cells, every symbol in `0..=16`.
    pub open spec fn wf(self) -> bool {
        &&& self.cells@.len() == 256
        &&& forall|i: int| 0 <= i < 256 ==> self.cells@[i] <= 16
    }

    /// The symbol in column `x`, row `y`.
    pub open spec fn at(self, x: int, y: int) -> u8 {
        self.cells@[bidx(4, x, y)]
    }

    pub open spec fn pos_on_board(pos: Pos) -> bool {
        on_board(4, pos.0 as int, pos.1 as int)
    }

    /// The canonical valid filled board.
    pub fn new() -> (r: Self)
        ensures
            r.wf(),
            valid(r.cells@, 4),
            forall|x: int, y: int| on_board(4, x, y) ==> r.at(x, y) == base_val(4, x, y),
    {
        let mut cells: Vec<u8> = Vec::new();
        let mut i: usize = 0;
        while i < 256
            invariant
                i <= 256,
                cells@.len() == i,
                forall|j: int| 0 <= j < i ==> #[trigger] cells@[j] == base_val(4, j % 16, j / 16),
            decreases 256 - i,
        {
            let x = i % 16;
            let y = i / 16;
            let v: u8 = ((x + (y % 4) * 4 + y / 4) % 16 + 1) as u8;
            proof {
                board::lemma_sides();
                board::lemma_coords_of_index(4, i as int);
                assert(v == base_val(4, i as int % 16, i as int / 16));
            }
            cells.push(v);
            i = i + 1;
        }
        let r = Grid4x4 { cells };
        proof {
            board::lemma_sides();
            assert forall|x: int, y: int| on_board(4, x, y) implies r.at(x, y) == base_val(
                4,
                x,
                y,
            ) by {
                board::lemma_bidx_bound(4, x, y);
                board::lemma_idx_coords(16, x, y);
            }
            board::lemma_base_valid(r.cells@, 4);
            assert forall|i: int| 0 <= i < 256 implies r.cells@[i] <= 16 by {
                board::lemma_coords_of_index(4, i);
                vstd::arithmetic::div_mod::lemma_mod_bound(
                    i % 16 + ((i / 16) % 4) * 4 + (i / 16) / 4,
                    9,
                );
            }
        }
        r
    }

    /// The all-empty board.
    pub fn empty() -> (r: Self)
        ensures
            r.wf(),
            forall|i: int| 0 <= i < 256 ==> r.cells@[i] == 0,
    {
        let mut cells: Vec<u8> = Vec::new();
        let mut i: usize = 0;
        while i < 256
            invariant
                i <= 256,
                cells@.len() == i,
                forall|j: int| 0 <= j < i ==> cells@[j] == 0,
            decreases 256 - i,
        {
            cells.push(0);
            i = i + 1;
        }
        Grid4x4 { cells }
    }

    /// The symbol at a position.
    pub fn get(&self, pos: Pos) -> (r: u8)
        requires
            self.wf(),
            Self::pos_on_board(pos),
        ensures
            r == self.at(pos.0 as int, pos.1 as int),
    {
        proof {
            board::lemma_bidx_bound(4, pos.0 as int, pos.1 as int);
        }
        self.cells[pos.1 * 16 + pos.0]
    }

    /// Overwrites the symbol at a position.
    pub fn set(&mut self, pos: Pos, v: u8)
        requires
            old(self).wf(),
            Self::pos_on_board(pos),
            v <= 16,
        ensures
            final(self).wf(),
            final(self).cells@ == old(self).cells@.update(bidx(4, pos.0 as int, pos.1 as int), v),
    {
        proof {
            board::lemma_bidx_bound(4, pos.0 as int, pos.1 as int);
        }
        self.cells.set(pos.1 * 16 + pos.0, v);
    }

    /// The sixteen symbols of the row through `pos`, left to right.
    pub fn get_row_for(&self, pos: Pos) -> (r: Vec<u8>)
        requires
            self.wf(),
            Self::pos_on_board(pos),
        ensures
            r@.len() == 16,
            forall|i: int| 0 <= i < 16 ==> r@[i] == self.at(i, pos.1 as int),
    {
        let y = pos.1;
        let mut r: Vec<u8> = Vec::new();
        let mut i: usize = 0;
        while i < 16
            invariant
                self.wf(),
                y < 16,
                i <= 16,
                r@.len() == i,
                forall|j: int| 0 <= j < i ==> r@[j] == self.at(j, y as int),
            decreases 16 - i,
        {
            proof {
                board::lemma_bidx_bound(4, i as int, y as int);
            }
            r.push(self.cells[y * 16 + i]);
            i = i + 1;
        }
        r
    }

    /// The sixteen symbols of the column through `pos`, top to bottom.
    pub fn get_col_for(&self, pos: Pos) -> (r: Vec<u8>)
        requires
            self.wf(),
            Self::pos_on_board(pos),
        ensures
            r@.len() == 16,
            forall|i: int| 0 <= i < 16 ==> r@[i] == self.at(pos.0 as int, i),
    {
        let x = pos.0;
        let mut r: Vec<u8> = Vec::new();
        let mut i: usize = 0;
        while i < 16
            invariant
                self.wf(),
                x < 16,
                i <= 16,
                r@.len() == i,
                forall|j: int| 0 <= j < i ==> r@[j] == self.at(x as int, j),
            decreases 16 - i,
        {
            proof {
                board::lemma_bidx_bound(4, x as int, i as int);
            }
            r.push(self.cells[i * 16 + x]);
            i = i + 1;
        }
        r
    }

    /// The sixteen symbols of the box containing `pos`, row-major within the
    /// box.
    pub fn get_box_for(&self, pos: Pos) -> (r: Vec<u8>)
        requires
            self.wf(),
            Self::pos_on_board(pos),
        ensures
            r@.len() == 16,
            forall|i: int| 0 <= i < 16 ==> r@[i] == self.at(
                (pos.0 as int / 4) * 4 + i % 4,
                (pos.1 as int / 4) * 4 + i / 4,
            ),
    {
        let bx = pos.0 / 4;
        let by = pos.1 / 4;
        proof {
            board::lemma_band_bound(4, pos.0 as int);
            board::lemma_band_bound(4, pos.1 as int);
        }
        let mut r: Vec<u8> = Vec::new();
        let mut i: usize = 0;
        while i < 16
            invariant
                self.wf(),
                bx < 4,
                by < 4,
                bx == pos.0 as int / 4,
                by == pos.1 as int / 4,
                i <= 16,
                r@.len() == i,
                forall|j: int| 0 <= j < i ==> r@[j] == self.at(
                    bx as int * 4 + j % 4,
                    by as int * 4 + j / 4,
                ),
            decreases 16 - i,
        {
            let dx = i % 4;
            let dy = i / 4;
            proof {
                board::lemma_band_bound(4, i as int);
                board::lemma_bidx_bound(4, (bx * 4 + dx) as int, (by * 4 + dy) as int);
            }
            r.push(self.cells[(by * 4 + dy) * 16 + (bx * 4 + dx)]);
            i = i + 1;
        }
        r
    }

    /// Whether symbol `n` may be written at `pos`.
    pub fn pos_is_valid(&self, pos: Pos, n: u8) -> (r: bool)
        requires
            self.wf(),
            Self::pos_on_board(pos),
        ensures
            r == placeable(self.cells@, 4, pos.0 as int, pos.1 as int, n),
    {
        proof {
            board::lemma_sides();
        }
        board::placeable_check(&self.cells, 4, pos.0, pos.1, n)
    }

    /// Checks a completely filled board: `None` iff no cell is empty and no
    /// row, column or box repeats a symbol.
    pub fn is_valid(&self) -> (r: Option<Pos>)
        requires
            self.wf(),
        ensures
            r is None <==> valid(self.cells@, 4),
            r is Some ==> Self::pos_on_board(r.unwrap()),
            !full(self.cells@, 4) ==> r is Some && self.cells@[bidx(
                4,
                r.unwrap().0 as int,
                r.unwrap().1 as int,
            )] == 0 && forall|j: int|
                0 <= j < bidx(4, r.unwrap().0 as int, r.unwrap().1 as int) ==> self.cells@[j]
                    != 0,
    {
        proof {
            board::lemma_sides();
        }
        board::conflict_scan(&self.cells, 4)
    }

    /// Scrambles a valid filled board with random symmetry transforms and
    /// symbol relabelings; the result is again a valid filled board.
    pub fn randomize(&mut self)
        requires
            old(self).wf(),
            valid(old(self).cells@, 4),
        ensures
            final(self).wf(),
            valid(final(self).cells@, 4),
            board::rearranged(4, old(self).cells@, final(self).cells@),
    {
        proof {
            board::lemma_sides();
            board::lemma_rearranged_refl(4, self.cells@);
        }
        let rounds = rng::rand_range(10, 100);
        let mut it: u64 = 0;
        while it < rounds
            invariant
                self.wf(),
                valid(self.cells@, 4),
                board::rearranged(4, old(self).cells@, self.cells@),
                it <= rounds <= 100,
            decreases rounds - it,
        {
            let ghost pre = self.cells@;
            let op = rng::rand_range(1, 11);
            let t: board::Transform = if op <= 4 {
                if op <= 2 {
                    let l1 = rng::rand_range(0, 15) as usize;
                    let off = rng::rand_range(1, 3) as usize;
                    let l2 = l1 / 4 * 4 + (l1 % 4 + off) % 4;
                    proof {
                        board::lemma_band_bound(4, l1 as int);
                        board::lemma_band_member(4, l1 as int / 4, (l1 as int % 4 + off) % 4);
                    }
                    if op == 1 {
                        board::Transform::SwapRows(l1, l2)
                    } else {
                        board::Transform::SwapCols(l1, l2)
                    }
                } else {
                    let g1 = rng::rand_range(0, 3) as usize;
                    let off = rng::rand_range(1, 3) as usize;
                    let g2 = (g1 + off) % 4;
                    if op == 3 {
                        board::Transform::SwapRowBands(g1, g2)
                    } else {
                        board::Transform::SwapColBands(g1, g2)
                    }
                }
            } else {
                match op {
                    5 => board::Transform::MainDiagonal,
                    6 => board::Transform::AntiDiagonal,
                    7 => board::Transform::Rot90,
                    8 => board::Transform::Rot180,
                    9 => board::Transform::Rot270,
                    10 => board::Transform::FlipRows,
                    _ => board::Transform::FlipCols,
                }
            };
            proof {
                board::lemma_sides();
            }
            let next = board::apply_transform(&self.cells, 4, t);
            proof {
                board::lemma_transform_no_conflicts(self.cells@, next@, 4, t);
                assert forall|i: int| 0 <= i < 256 implies next@[i] <= 16 by {
                    board::lemma_coords_of_index(4, i);
                    let x = i % 16;
                    let y = i / 16;
                    board::lemma_source_on_board(t, 4, x, y);
                    let p = board::source_of(t, 4, x, y);
                    board::lemma_bidx_bound(4, p.0, p.1);
                    assert(next@[i] == self.cells@[bidx(4, p.0, p.1)]);
                }
                board::lemma_transform_rearranges(self.cells@, next@, 4, t);
            }
            self.cells = next;
            proof {
                board::lemma_rearranged_trans(4, old(self).cells@, pre, self.cells@);
            }
            it = it + 1;
        }
        let mut it2: u64 = 0;
        while it2 < rounds
            invariant
                self.wf(),
                valid(self.cells@, 4),
                board::rearranged(4, old(self).cells@, self.cells@),
                it2 <= rounds <= 100,
            decreases rounds - it2,
        {
            let ghost outer = self.cells@;
            // two distinct symbols: the second is a nonzero offset from the first
            let a = rng::rand_range(1, 16);
            let off = rng::rand_range(1, 15);
            let c = ((a - 1 + off) % 16 + 1) as u8;
            let a = a as u8;
            let mut i: usize = 0;
            let ghost pre = self.cells@;
            while i < 256
                invariant
                    self.cells@.len() == 256,
                    1 <= a <= 16,
                    1 <= c <= 16,
                    i <= 256,
                    forall|j: int| 0 <= j < 256 ==> pre[j] <= 16,
                    forall|j: int| i <= j < 256 ==> self.cells@[j] == pre[j],
                    forall|j: int| 0 <= j < i ==> #[trigger] self.cells@[j] == (if pre[j] == a {
                        c
                    } else if pre[j] == c {
                        a
                    } else {
                        pre[j]
                    }),
                decreases 256 - i,
            {
                let v = self.cells[i];
                if v == a {
                    self.cells.set(i, c);
                } else if v == c {
                    self.cells.set(i, a);
                }
                i = i + 1;
            }
            proof {
                board::lemma_sides();
                board::lemma_relabel_no_conflicts(pre, self.cells@, 4, a, c);
                board::lemma_relabel_rearranges(pre, self.cells@, 4, a, c);
                board::lemma_rearranged_trans(4, old(self).cells@, outer, self.cells@);
            }
            it2 = it2 + 1;
        }
    }

    /// A freshly scrambled valid filled board.
    pub fn randomized() -> (r: Self)
        ensures
            r.wf(),
            valid(r.cells@, 4),
            board::rearranged(
                4,
                Seq::new((256) as nat, |i: int| base_val(4, i % 16, i / 16)),
                r.cells@,
            ),
    {
        let grid0 = Self::new();
        proof {
            board::lemma_sides();
            assert(grid0.cells@ =~= Seq::new((256) as nat, |i: int| base_val(4, i % 16, i
                / 16))) by {
                assert forall|i: int| 0 <= i < 256 implies grid0.cells@[i] == base_val(
                    4,
                    i % 16,
                    i / 16,
                ) by {
                    board::lemma_coords_of_index(4, i);
                }
            }
        }
        let mut grid = grid0;
        grid.randomize();
        grid
    }

    /// Blanks up to `n` cells of a filled board in a random visiting order,
    /// never taking a symbol's last occurrence once another symbol is gone.
    /// Every touched cell becomes empty, every other cell is untouched, and
    /// at most one symbol ends with no occurrences.
    pub fn remove_nums(&mut self, n: usize)
        requires
            old(self).wf(),
            full(old(self).cells@, 4),
            n < 256,
        ensures
            final(self).wf(),
            forall|i: int|
                0 <= i < 256 && final(self).cells@[i] != old(self).cells@[i]
                    ==> #[trigger] final(self).cells@[i] == 0,
            board::changed_upto(old(self).cells@, final(self).cells@, 256) <= n,
            forall|v1: u8, v2: u8|
                1 <= v1 <= 16 && 1 <= v2 <= 16 && v1 != v2 && board::occ(old(self).cells@, v1) > 0
                    && board::occ(old(self).cells@, v2) > 0 ==> !(#[trigger] board::occ(
                    final(self).cells@,
                    v1,
                ) == 0 && #[trigger] board::occ(final(self).cells@, v2) == 0),
            board::changed_upto(old(self).cells@, final(self).cells@, 256) < n ==> forall|i: int|
                0 <= i < 256 && final(self).cells@[i] != 0 ==> #[trigger] board::occ(
                    final(self).cells@,
                    final(self).cells@[i],
                ) == 1,
            n <= 240 ==> board::changed_upto(old(self).cells@, final(self).cells@, 256) == n,
    {
        let mut order: Vec<usize> = Vec::new();
        let mut i: usize = 0;
        while i < 256
            invariant
                i <= 256,
                order@.len() == i,
                forall|j: int| 0 <= j < i ==> order@[j] == j,
            decreases 256 - i,
        {
            order.push(i);
            i = i + 1;
        }
        let ghost orig_order = order@;
        rng::shuffle(&mut order);
        proof {
            board::lemma_shuffled_indices(orig_order, order@);
        }
        let mut nums: Vec<u16> = Vec::new();
        let mut s: usize = 0;
        while s < 17
            invariant
                s <= 17,
                nums@.len() == s,
                forall|v: int| 0 <= v < s ==> nums@[v] == 0,
            decreases 17 - s,
        {
            nums.push(0);
            s = s + 1;
        }
        let mut c: usize = 0;
        while c < 256
            invariant
                self.wf(),
                *self == *old(self),
                c <= 256,
                nums@.len() == 17,
                forall|v: u8| 1 <= v <= 16 ==> nums@[v as int] == board::occ_upto(
                    self.cells@,
                    v,
                    c as int,
                ),
            decreases 256 - c,
        {
            let v = self.cells[c];
            if v != 0 {
                proof {
                    assert(1 <= v <= 16);
                    assert forall|v2: u8| 1 <= v2 <= 16 implies board::occ_upto(
                        self.cells@,
                        v2,
                        c as int,
                    ) <= c as int by {
                        board::lemma_occ_upto_bound(self.cells@, v2, c as int);
                    }
                }
                let cur = nums[v as usize];
                nums.set(v as usize, cur + 1);
            }
            c = c + 1;
        }
        proof {
            board::lemma_changed_upto_refl(self.cells@, 256);
        }
        let mut removed: usize = 0;
        let mut num_gone: bool = false;
        let mut t: usize = 0;
        while t < 256 && removed < n
            invariant
                self.wf(),
                self.cells@.len() == 256,
                old(self).wf(),
                full(old(self).cells@, 4),
                n < 256,
                t <= 256,
                removed <= n,
                order@.len() == 256,
                forall|j: int| 0 <= j < 256 ==> #[trigger] order@[j] < 256,
                forall|j1: int, j2: int| 0 <= j1 < j2 < 256 ==> order@[j1] != order@[j2],
                forall|p: usize| p < 256 ==> #[trigger] order@.contains(p),
                forall|j: int| 0 <= j < t ==> self.cells@[#[trigger] order@[j] as int] == 0
                    || board::occ(self.cells@, self.cells@[order@[j] as int]) == 1,
                nums@.len() == 17,
                forall|v: u8| 1 <= v <= 16 ==> nums@[v as int] == board::occ(self.cells@, v),
                forall|i: int|
                    0 <= i < 256 && self.cells@[i] != old(self).cells@[i]
                        ==> #[trigger] self.cells@[i] == 0,
                board::changed_upto(old(self).cells@, self.cells@, 256) == removed,
                forall|v: u8|
                    1 <= v <= 16 && board::occ(old(self).cells@, v) > 0 && #[trigger] board::occ(
                        self.cells@,
                        v,
                    ) == 0 ==> num_gone,
                forall|v1: u8, v2: u8|
                    1 <= v1 <= 16 && 1 <= v2 <= 16 && v1 != v2 && board::occ(old(self).cells@, v1)
                        > 0 && board::occ(old(self).cells@, v2) > 0 ==> !(#[trigger] board::occ(
                        self.cells@,
                        v1,
                    ) == 0 && #[trigger] board::occ(self.cells@, v2) == 0),
            decreases 256 - t,
        {
            let idx = order[t];
            let v = self.cells[idx];
            if v != 0 && (!num_gone || nums[v as usize] != 1) {
                proof {
                    board::lemma_occ_witness(self.cells@, v, idx as int);
                    assert(self.cells@[idx as int] == old(self).cells@[idx as int]);
                    board::lemma_occ_witness(old(self).cells@, v, idx as int);
                }
                let ghost prev = self.cells@;
                let ghost prev_gone = num_gone;
                self.cells.set(idx, 0);
                let cur = nums[v as usize];
                nums.set(v as usize, cur - 1);
                removed = removed + 1;
                if nums[v as usize] == 0 {
                    num_gone = true;
                }
                proof {
                    assert forall|v2: u8| 1 <= v2 <= 16 && v2 != v implies #[trigger] board::occ(
                        self.cells@,
                        v2,
                    ) == board::occ(prev, v2) by {
                        board::lemma_occ_upto_update(prev, idx as int, 0u8, v2, 256);
                    }
                    assert(board::occ(self.cells@, v) == board::occ(prev, v) - 1) by {
                        board::lemma_occ_upto_update(prev, idx as int, 0u8, v, 256);
                    }
                    assert forall|v2: u8| 1 <= v2 <= 16 implies nums@[v2 as int] == board::occ(
                        self.cells@,
                        v2,
                    ) by {
                        board::lemma_occ_upto_update(prev, idx as int, 0u8, v2, 256);
                    }
                    board::lemma_changed_upto_update(old(self).cells@, prev, idx as int, 0u8, 256);
                    assert(num_gone == (prev_gone || board::occ(self.cells@, v) == 0));
                    if prev_gone {
                        assert(board::occ(prev, v) != 1);
                        assert(board::occ(self.cells@, v) >= 1);
                        assert forall|v2: u8|
                            1 <= v2 <= 16 && board::occ(old(self).cells@, v2) > 0
                                && #[trigger] board::occ(self.cells@, v2) == 0 implies
                        num_gone by {
                            if v2 != v {
                                assert(board::occ(prev, v2) == 0);
                            }
                        }
                    } else {
                        assert forall|v2: u8|
                            1 <= v2 <= 16 && v2 != v && board::occ(old(self).cells@, v2)
                                > 0 implies #[trigger] board::occ(self.cells@, v2) > 0 by {
                            board::lemma_occ_upto_bound(prev, v2, 256);
                            assert(board::occ(prev, v2) != 0);
                        }
                    }
                    assert forall|v1: u8, v2: u8|
                        1 <= v1 <= 16 && 1 <= v2 <= 16 && v1 != v2 && board::occ(
                            old(self).cells@,
                            v1,
                        ) > 0 && board::occ(old(self).cells@, v2) > 0 implies !(
                    #[trigger] board::occ(self.cells@, v1) == 0 && #[trigger] board::occ(
                        self.cells@,
                        v2,
                    ) == 0) by {
                        if board::occ(self.cells@, v1) == 0 && board::occ(self.cells@, v2) == 0 {
                            if prev_gone {
                                assert(board::occ(prev, v1) == 0);
                                assert(board::occ(prev, v2) == 0);
                            } else {
                                assert(v1 == v || board::occ(self.cells@, v1) > 0);
                                assert(v2 == v || board::occ(self.cells@, v2) > 0);
                            }
                        }
                    }
                    // cells already frozen as last occurrences stay frozen
                    assert forall|j: int|
                        0 <= j < t + 1 implies self.cells@[#[trigger] order@[j] as int] == 0
                        || board::occ(self.cells@, self.cells@[order@[j] as int]) == 1 by {
                        if j == t {
                            assert(self.cells@[idx as int] == 0);
                        } else {
                            let q = order@[j] as int;
                            assert(order@[j] != order@[t as int]);
                            assert(self.cells@[q] == prev[q]);
                            if prev[q] != 0 && board::occ(prev, prev[q]) == 1 {
                                let vq = prev[q];
                                if vq == v {
                                    if q < idx as int {
                                        board::lemma_occ_two_witnesses(prev, v, q, idx as int);
                                    } else {
                                        board::lemma_occ_two_witnesses(prev, v, idx as int, q);
                                    }
                                }
                                board::lemma_occ_upto_update(prev, idx as int, 0u8, vq, 256);
                            }
                        }
                    }
                }
            } else {
                proof {
                    assert forall|j: int|
                        0 <= j < t + 1 implies self.cells@[#[trigger] order@[j] as int] == 0
                        || board::occ(self.cells@, self.cells@[order@[j] as int]) == 1 by {
                        if j == t && v != 0 {
                            assert(nums@[v as int] == 1);
                        }
                    }
                }
            }
            t = t + 1;
        }
        proof {
            if removed < n {
                assert forall|i: int|
                    0 <= i < 256 && self.cells@[i] != 0 implies #[trigger] board::occ(
                    self.cells@,
                    self.cells@[i],
                ) == 1 by {
                    assert(order@.contains(i as usize));
                    let j = choose|j: int| 0 <= j < order@.len() && order@[j] == i as usize;
                    assert(self.cells@[order@[j] as int] == 0 || board::occ(
                        self.cells@,
                        self.cells@[order@[j] as int],
                    ) == 1);
                }
                // so few cells can survive that the target must have been met
                assert forall|i: int|
                    0 <= i < 256 implies ((old(self).cells@[i] != self.cells@[i])
                    <==> self.cells@[i] == 0) by {
                    if self.cells@[i] == 0 {
                        assert(old(self).cells@[i] != 0);
                    }
                }
                board::lemma_changed_zero_count(old(self).cells@, self.cells@, self.cells@, 256);
                board::lemma_few_survivors(self.cells@, 16);
                assert(removed >= 240);
            }
        }
    }
}


/// One recorded transition of the linear history: the position, the symbol
/// written, and the symbol it replaced.
#[derive(Debug)]
pub struct Move {
    pub pos: Pos,
    pub num: u8,
    pub prev_num: u8,
}

impl Move {
    pub fn new(pos: Pos, num: u8, prev_num: u8) -> (r: Self)
        ensures
            r == (Move { pos, num, prev_num }),
    {
        Move { pos, num, prev_num }
    }
}

impl Clone for Move {
    fn clone(&self) -> (r: Self)
        ensures
            r == *self,
    {
        *self
    }
}

impl Copy for Move {

}

impl PartialEq for Move {
    fn eq(&self, other: &Self) -> (r: bool) {
        self.pos.0 == other.pos.0 && self.pos.1 == other.pos.1 && self.num == other.num
            && self.prev_num == other.prev_num
    }
}

impl Eq for Move {

}

impl vstd::std_specs::cmp::PartialEqSpecImpl for Move {
    open spec fn obeys_eq_spec() -> bool {
        true
    }

    open spec fn eq_spec(&self, other: &Move) -> bool {
        *self == *other
    }
}

/// A linear move history: a list of moves and a cursor counting how many of
/// them are applied. `pos == 0` means there is nothing to undo.
pub struct History {
    pub moves: Vec<Move>,
    pub pos: usize,
}

impl History {
    /// The cursor never points past the end of the list.
    pub open spec fn wf(self) -> bool {
        self.pos <= self.moves@.len()
    }

    pub fn new() -> (r: Self)
        ensures
            r.wf(),
            r.moves@.len() == 0,
            r.pos == 0,
    {
        History { moves: Vec::new(), pos: 0 }
    }

    /// Records a move at the cursor, discarding any forward branch, and
    /// advances the cursor onto it.
    pub fn push(&mut self, mv: Move)
        requires
            old(self).wf(),
        ensures
            final(self).wf(),
            final(self).moves@ == old(self).moves@.take(old(self).pos as int).push(mv),
            final(self).pos == old(self).pos + 1,
    {
        self.moves.truncate(self.pos);
        self.moves.push(mv);
        self.pos = self.moves.len();
        proof {
            assert(self.moves@ =~= old(self).moves@.take(old(self).pos as int).push(mv));
        }
    }

    pub fn can_undo(&self) -> (r: bool)
        ensures
            r == (self.pos != 0),
    {
        self.pos != 0
    }

    /// Steps the cursor back and returns the move it stepped over; `None`
    /// when nothing is left to undo.
    pub fn undo(&mut self) -> (r: Option<Move>)
        requires
            old(self).wf(),
        ensures
            final(self).wf(),
            final(self).moves@ == old(self).moves@,
            old(self).pos == 0 ==> r is None && final(self).pos == old(self).pos,
            old(self).pos != 0 ==> r == Option::Some(old(self).moves@[old(self).pos - 1])
                && final(self).pos == old(self).pos - 1,
    {
        if self.pos == 0 {
            return None;
        }
        self.pos = self.pos - 1;
        Some(self.moves[self.pos])
    }

    pub fn can_redo(&self) -> (r: bool)
        requires
            self.wf(),
        ensures
            r == (self.pos != self.moves@.len()),
    {
        self.pos != self.moves.len()
    }

    /// Returns the move at the cursor and steps it forward; `None` when
    /// nothing is left to redo.
    pub fn redo(&mut self) -> (r: Option<Move>)
        requires
            old(self).wf(),
        ensures
            final(self).wf(),
            final(self).moves@ == old(self).moves@,
            old(self).pos == old(self).moves@.len() ==> r is None
                && final(self).pos == old(self).pos,
            old(self).pos != old(self).moves@.len() ==> r == Option::Some(
                old(self).moves@[old(self).pos as int],
            ) && final(self).pos == old(self).pos + 1,
    {
        if self.pos == self.moves.len() {
            return None;
        }
        let mv = self.moves[self.pos];
        self.pos = self.pos + 1;
        Some(mv)
    }

    /// Replaces the move at the cursor and discards everything after it;
    /// appends when the history is empty of applied moves.
    pub fn replace(&mut self, mv: Move)
        requires
            old(self).wf(),
        ensures
            final(self).wf(),
            old(self).pos == 0 ==> final(self).moves@ =~= seq![mv] && final(self).pos == 1,
            old(self).pos != 0 ==> final(self).moves@ == old(self).moves@.take(
                old(self).pos as int,
            ).update(old(self).pos - 1, mv) && final(self).pos == old(self).pos,
    {
        if self.pos == 0 {
            // with nothing applied this records: the whole undone branch is
            // discarded and the log restarts with this one move
            self.push(mv);
            proof {
                assert(self.moves@ =~= seq![mv]);
            }
            return;
        }
        self.moves.set(self.pos - 1, mv);
        self.moves.truncate(self.pos);
        proof {
            assert(self.moves@ =~= old(self).moves@.take(old(self).pos as int).update(
                old(self).pos - 1,
                mv,
            ));
        }
    }
}

} // verus!
