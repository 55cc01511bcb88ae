//! The 9x9 board: a tagged cell type carrying a value, a given flag or
//! pencil-mark notes, and the grid built from it.

use vstd::prelude::*;
use crate::board;
use crate::board::{
    base_val, bidx, box_has, col_has, full, no_conflicts, on_board, placeable, row_has, side,
    val_at, valid,
};
use crate::Pos;
use crate::rng;
use crate::history::Move;

verus! {

/// One cell of a 9x9 board. A cell either is empty, holds a value in
/// `1..=9` (with a flag marking an unchangeable clue), or holds a set of
/// pencil-mark notes as the low nine bits of a mask.
#[derive(Clone, Copy, Debug)]
pub enum Num3x3 {
    Empty,
    Value { num: u8, given: bool },
    Notes { bits: u16 },
}

/// Whether note `num` is set in a note mask.
pub open spec fn note_bit3(bits: u16, num: u8) -> bool
    recommends
        1 <= num <= 9,
{
    bits & (1u16 << ((num - 1) as u16)) != 0
}

impl Num3x3 {
    /// Value cells carry a symbol in range, note masks stay below `2^9`.
    pub open spec fn wf(self) -> bool {
        match self {
            Num3x3::Empty => true,
            Num3x3::Value { num, given } => 1 <= num <= 9,
            Num3x3::Notes { bits } => bits < 512,
        }
    }

    /// The symbol this cell contributes to its units (`0` for empty and
    /// note cells).
    pub open spec fn spec_num(self) -> u8 {
        match self {
            Num3x3::Value { num, given } => num,
            _ => 0,
        }
    }

    pub open spec fn spec_is_note(self) -> bool {
        self is Notes
    }

    pub open spec fn spec_is_given(self) -> bool {
        match self {
            Num3x3::Value { num, given } => given,
            _ => false,
        }
    }

    /// The cell that `with_note` produces: note cells gain the mark, any
    /// other cell is restarted as a fresh set holding only the mark.
    pub open spec fn spec_with_note(self, num: u8) -> Num3x3
        recommends
            1 <= num <= 9,
    {
        match self {
            Num3x3::Notes { bits } => Num3x3::Notes { bits: bits | (1u16 << ((num - 1) as u16)) },
            _ => Num3x3::Notes { bits: 1u16 << ((num - 1) as u16) },
        }
    }

    /// The cell that `with_toggle_note` produces: note cells flip the mark,
    /// any other cell is restarted as a fresh set holding only the mark.
    pub open spec fn spec_with_toggle_note(self, num: u8) -> Num3x3
        recommends
            1 <= num <= 9,
    {
        match self {
            Num3x3::Notes { bits } => Num3x3::Notes { bits: bits ^ (1u16 << ((num - 1) as u16)) },
            _ => Num3x3::Notes { bits: 1u16 << ((num - 1) as u16) },
        }
    }

    pub fn new(num: u8) -> (r: Self)
        requires
            num <= 9,
        ensures
            r.wf(),
            r == (if num == 0 {
                Num3x3::Empty
            } else {
                Num3x3::Value { num, given: false }
            }),
            r.spec_num() == num,
    {
        if num == 0 {
            Num3x3::Empty
        } else {
            Num3x3::Value { num, given: false }
        }
    }

    pub fn new_note(num: u8) -> (r: Self)
        requires
            num <= 9,
        ensures
            r.wf(),
            r == (if num == 0 {
                Num3x3::Empty
            } else {
                Num3x3::Notes { bits: 1u16 << ((num - 1) as u16) }
            }),
    {
        if num == 0 {
            Num3x3::Empty
        } else {
            proof {
                lemma_note3_mask_bound(num);
            }
            Num3x3::Notes { bits: 1u16 << ((num - 1) as u16) }
        }
    }

    /// The cell's value; `None` while the cell holds notes.
    pub fn num(self) -> (r: Option<u8>)
        ensures
            r == (if self.spec_is_note() {
                Option::<u8>::None
            } else {
                Option::Some(self.spec_num())
            }),
    {
        match self {
            Num3x3::Notes { .. } => None,
            Num3x3::Value { num, .. } => Some(num),
            Num3x3::Empty => Some(0),
        }
    }

    pub fn num_or_zero(self) -> (r: u8)
        ensures
            r == self.spec_num(),
    {
        match self {
            Num3x3::Value { num, .. } => num,
            _ => 0,
        }
    }

    pub fn is_note(self) -> (r: bool)
        ensures
            r == self.spec_is_note(),
    {
        match self {
            Num3x3::Notes { .. } => true,
            _ => false,
        }
    }

    pub fn is_given(self) -> (r: bool)
        ensures
            r == self.spec_is_given(),
    {
        match self {
            Num3x3::Value { given, .. } => given,
            _ => false,
        }
    }

    /// Whether note `num` is set; `None` when the cell is not in note mode
    /// or `num` is zero.
    pub fn has_note(self, num: u8) -> (r: Option<bool>)
        requires
            num <= 9,
        ensures
            r == (match self {
                Num3x3::Notes { bits } => if num != 0 {
                    Option::Some(note_bit3(bits, num))
                } else {
                    Option::<bool>::None
                },
                _ => Option::<bool>::None,
            }),
    {
        match self {
            Num3x3::Notes { bits } => {
                if num != 0 {
                    Some(bits & (1u16 << ((num - 1) as u16)) != 0)
                } else {
                    None
                }
            },
            _ => None,
        }
    }

    /// All nine note flags; `None` when the cell is not in note mode.
    pub fn notes(self) -> (r: Option<Vec<bool>>)
        ensures
            match self {
                Num3x3::Notes { bits } => r is Some && r.unwrap()@.len() == 9 && forall|i: int|
                    0 <= i < 9 ==> r.unwrap()@[i] == note_bit3(bits, (i + 1) as u8),
                _ => r is None,
            },
    {
        match self {
            Num3x3::Notes { bits } => {
                let mut v: Vec<bool> = Vec::new();
                let mut i: u8 = 0;
                while i < 9
                    invariant
                        i <= 9,
                        v@.len() == i as int,
                        forall|j: int| 0 <= j < i ==> v@[j] == note_bit3(bits, (j + 1) as u8),
                    decreases 9 - i,
                {
                    v.push(bits & (1u16 << (i as u16)) != 0);
                    i = i + 1;
                }
                Some(v)
            },
            _ => None,
        }
    }

    pub fn with_num(self, num: u8) -> (r: Self)
        requires
            num <= 9,
        ensures
            r.wf(),
            r == (if num == 0 {
                Num3x3::Empty
            } else {
                Num3x3::Value { num, given: false }
            }),
    {
        Self::new(num)
    }

    pub fn with_note(self, num: u8) -> (r: Self)
        requires
            self.wf(),
            1 <= num <= 9,
        ensures
            r.wf(),
            r == self.spec_with_note(num),
    {
        proof {
            lemma_note3_mask_bound(num);
        }
        match self {
            Num3x3::Notes { bits } => {
                let nb = bits | (1u16 << ((num - 1) as u16));
                proof {
                    lemma_note3_or_bound(bits, num);
                }
                Num3x3::Notes { bits: nb }
            },
            _ => Num3x3::Notes { bits: 1u16 << ((num - 1) as u16) },
        }
    }

    /// Applies `with_note` for every set flag in `nums` in ascending order.
    pub fn with_notes(self, nums: &Vec<bool>) -> (r: Self)
        requires
            self.wf(),
            nums@.len() == 9,
        ensures
            r.wf(),
            r == (if mask3_of(nums@) == 0 {
                self
            } else {
                match self {
                    Num3x3::Notes { bits } => Num3x3::Notes { bits: bits | mask3_of(nums@) },
                    _ => Num3x3::Notes { bits: mask3_of(nums@) },
                }
            }),
    {
        let mut m: u16 = 0;
        let mut i: usize = 0;
        while i < 9
            invariant
                i <= 9,
                nums@.len() == 9,
                m == mask3_of(nums@.take(i as int)),
                m < 512,
            decreases 9 - i,
        {
            if nums[i] {
                let prev = m;
                let sh: u16 = i as u16;
                m = m | (1u16 << sh);
                proof {
                    assert(prev < 512 && sh < 9 ==> (prev | (1u16 << sh)) < 512) by (bit_vector);
                }
            }
            proof {
                assert(nums@.take(i + 1).drop_last() =~= nums@.take(i as int));
                assert(nums@.take(i + 1).last() == nums@[i as int]);
            }
            i = i + 1;
        }
        proof {
            assert(nums@.take(9) =~= nums@);
        }
        if m == 0 {
            self
        } else {
            match self {
                Num3x3::Notes { bits } => {
                    let nb = bits | m;
                    proof {
                        assert(nb < 512) by (bit_vector)
                            requires nb == (bits | m), bits < 512, m < 512;
                    }
                    Num3x3::Notes { bits: nb }
                },
                _ => Num3x3::Notes { bits: m },
            }
        }
    }

    pub fn with_toggle_note(self, num: u8) -> (r: Self)
        requires
            self.wf(),
            1 <= num <= 9,
        ensures
            r.wf(),
            r == self.spec_with_toggle_note(num),
    {
        proof {
            lemma_note3_mask_bound(num);
        }
        match self {
            Num3x3::Notes { bits } => {
                let nb = bits ^ (1u16 << ((num - 1) as u16));
                proof {
                    lemma_note3_xor_bound(bits, num);
                }
                Num3x3::Notes { bits: nb }
            },
            _ => Num3x3::Notes { bits: 1u16 << ((num - 1) as u16) },
        }
    }

    pub fn set_num(&mut self, num: u8)
        requires
            num <= 9,
        ensures
            final(self).wf(),
            *final(self) == (if num == 0 {
                Num3x3::Empty
            } else {
                Num3x3::Value { num, given: false }
            }),
    {
        *self = Self::new(num);
    }

    pub fn set_note(&mut self, num: u8)
        requires
            old(self).wf(),
            1 <= num <= 9,
        ensures
            final(self).wf(),
            *final(self) == old(self).spec_with_note(num),
    {
        *self = self.with_note(num);
    }

    /// Toggles the note and reports whether the call set it (`true`) or
    /// cleared it (`false`).
    pub fn set_toggle_note(&mut self, num: u8) -> (r: bool)
        requires
            old(self).wf(),
            1 <= num <= 9,
        ensures
            final(self).wf(),
            *final(self) == old(self).spec_with_toggle_note(num),
            r == (match *final(self) {
                Num3x3::Notes { bits } => note_bit3(bits, num),
                _ => false,
            }),
    {
        let next = self.with_toggle_note(num);
        let r = match next {
            Num3x3::Notes { bits } => bits & (1u16 << ((num - 1) as u16)) != 0,
            _ => false,
        };
        *self = next;
        r
    }

    /// Marks a value cell as a given clue; empty and note cells collapse to
    /// empty, as only value cells can carry the flag.
    pub fn set_given(&mut self)
        requires
            old(self).wf(),
        ensures
            final(self).wf(),
            *final(self) == (match *old(self) {
                Num3x3::Value { num, given } => Num3x3::Value { num, given: true },
                _ => Num3x3::Empty,
            }),
    {
        *self = match *self {
            Num3x3::Value { num, given } => Num3x3::Value { num, given: true },
            _ => Num3x3::Empty,
        };
    }
}

impl Default for Num3x3 {
    fn default() -> (r: Self)
        ensures
            r == Num3x3::Empty,
    {
        Num3x3::Empty
    }
}

impl PartialEq for Num3x3 {
    fn eq(&self, other: &Self) -> (r: bool) {
        match (*self, *other) {
            (Num3x3::Empty, Num3x3::Empty) => true,
            (Num3x3::Value { num: n1, given: g1 }, Num3x3::Value { num: n2, given: g2 }) => n1
                == n2 && g1 == g2,
            (Num3x3::Notes { bits: b1 }, Num3x3::Notes { bits: b2 }) => b1 == b2,
            _ => false,
        }
    }
}

impl Eq for Num3x3 {

}

impl vstd::std_specs::cmp::PartialEqSpecImpl for Num3x3 {
    open spec fn obeys_eq_spec() -> bool {
        true
    }

    open spec fn eq_spec(&self, other: &Num3x3) -> bool {
        *self == *other
    }
}

/// The mask holding exactly the single note `num`.
proof fn lemma_note3_mask_bound(num: u8)
    requires
        1 <= num <= 9,
    ensures
        0 < (1u16 << ((num - 1) as u16)) < 512,
{
    let sh = (num - 1) as u16;
    assert(sh < 9 ==> 0 < (1u16 << sh) < 512) by (bit_vector);
}

proof fn lemma_note3_or_bound(bits: u16, num: u8)
    requires
        bits < 512,
        1 <= num <= 9,
    ensures
        (bits | (1u16 << ((num - 1) as u16))) < 512,
{
    let sh = (num - 1) as u16;
    assert(bits < 512 && sh < 9 ==> (bits | (1u16 << sh)) < 512) by (bit_vector);
}

proof fn lemma_note3_xor_bound(bits: u16, num: u8)
    requires
        bits < 512,
        1 <= num <= 9,
    ensures
        (bits ^ (1u16 << ((num - 1) as u16))) < 512,
{
    let sh = (num - 1) as u16;
    assert(bits < 512 && sh < 9 ==> (bits ^ (1u16 << sh)) < 512) by (bit_vector);
}

/// The note mask holding exactly the flags set in `s`.
pub open spec fn mask3_of(s: Seq<bool>) -> u16
    decreases s.len(),
{
    if s.len() == 0 {
        0u16
    } else if s.last() {
        mask3_of(s.drop_last()) | (1u16 << ((s.len() - 1) as u16))
    } else {
        mask3_of(s.drop_last())
    }
}

/// The packed integer written to the binary encoding for one cell: notes set
/// the top bit, the given flag sets the next bit, values use the low bits.
pub open spec fn raw3_of(c: Num3x3) -> u16 {
    match c {
        Num3x3::Empty => 0u16,
        Num3x3::Value { num, given } => if given {
            (num + 16384) as u16
        } else {
            num as u16
        },
        Num3x3::Notes { bits } => (32768 + bits) as u16,
    }
}

/// The cell read back from a packed integer; out-of-range values normalize
/// to an empty cell, note masks keep their low nine bits.
pub open spec fn cell3_of_raw(raw: u16) -> Num3x3 {
    if raw >= 32768 {
        Num3x3::Notes { bits: ((raw - 32768) as u16 % 512) as u16 }
    } else {
        let v = raw as int % 256;
        if 1 <= v <= 9 {
            Num3x3::Value { num: v as u8, given: raw >= 16384 }
        } else {
            Num3x3::Empty
        }
    }
}

/// Reading back a well-formed cell's packed integer restores the cell.
pub proof fn lemma_cell3_roundtrip(c: Num3x3)
    requires
        c.wf(),
    ensures
        cell3_of_raw(raw3_of(c)) == c,
{
}

/// A 9x9 grid of cells, stored row-major.
pub struct Grid3x3 {
    pub cells: Vec<Num3x3>,
}

impl Grid3x3 {
    /// 81 well-formed cells.
    pub open spec fn wf(self) -> bool {
        &&& self.cells@.len() == 81
        &&& forall|i: int| 0 <= i < 81 ==> (#[trigger] self.cells@[i]).wf()
    }

    /// The symbols on the board, row-major, `0` for cells without a value.
    pub open spec fn vals(self) -> Seq<u8> {
        self.cells@.map_values(|c: Num3x3| c.spec_num())
    }

    /// The cell in column `x`, row `y`.
    pub open spec fn at(self, x: int, y: int) -> Num3x3 {
        self.cells@[bidx(3, x, y)]
    }

    pub open spec fn pos_on_board(pos: Pos) -> bool {
        on_board(3, pos.0 as int, pos.1 as int)
    }

    /// The canonical valid filled board.
    pub fn new() -> (r: Self)
        ensures
            r.wf(),
            valid(r.vals(), 3),
            forall|x: int, y: int| on_board(3, x, y) ==> r.at(x, y) == (Num3x3::Value {
                num: base_val(3, x, y),
                given: false,
            }),
    {
        let mut cells: Vec<Num3x3> = Vec::new();
        let mut i: usize = 0;
        while i < 81
            invariant
                i <= 81,
                cells@.len() == i,
                forall|j: int| 0 <= j < i ==> #[trigger] cells@[j] == (Num3x3::Value {
                    num: base_val(3, j % 9, j / 9),
                    given: false,
                }),
            decreases 81 - i,
        {
            let x = i % 9;
            let y = i / 9;
            let v: u8 = ((x + (y % 3) * 3 + y / 3) % 9 + 1) as u8;
            proof {
                board::lemma_sides();
                board::lemma_coords_of_index(3, i as int);
                assert(v == base_val(3, i as int % 9, i as int / 9));
            }
            cells.push(Num3x3::Value { num: v, given: false });
            i = i + 1;
        }
        let r = Grid3x3 { cells };
        proof {
            board::lemma_sides();
            assert forall|x: int, y: int| on_board(3, x, y) implies r.at(x, y) == (Num3x3::Value {
                num: base_val(3, x, y),
                given: false,
            }) by {
                board::lemma_bidx_bound(3, x, y);
                board::lemma_idx_coords(9, x, y);
            }
            assert forall|i: int| 0 <= i < 81 implies (#[trigger] r.cells@[i]).wf() by {
                board::lemma_coords_of_index(3, i);
                vstd::arithmetic::div_mod::lemma_mod_bound(
                    i % 9 + ((i / 9) % 3) * 3 + (i / 9) / 3,
                    9,
                );
            }
            assert forall|x: int, y: int| on_board(3, x, y) implies val_at(r.vals(), 3, x, y)
                == base_val(3, x, y) by {
                board::lemma_bidx_bound(3, x, y);
            }
            board::lemma_base_valid(r.vals(), 3);
        }
        r
    }

    /// The all-empty board.
    pub fn empty() -> (r: Self)
        ensures
            r.wf(),
            r.cells@.len() == 81,
            forall|i: int| 0 <= i < 81 ==> r.cells@[i] == Num3x3::Empty,
            forall|i: int| 0 <= i < 81 ==> r.vals()[i] == 0,
    {
        let mut cells: Vec<Num3x3> = Vec::new();
        let mut i: usize = 0;
        while i < 81
            invariant
                i <= 81,
                cells@.len() == i,
                forall|j: int| 0 <= j < i ==> cells@[j] == Num3x3::Empty,
            decreases 81 - i,
        {
            cells.push(Num3x3::Empty);
            i = i + 1;
        }
        Grid3x3 { cells }
    }

    /// The cell at a position.
    pub fn get(&self, pos: Pos) -> (r: Num3x3)
        requires
            self.wf(),
            Self::pos_on_board(pos),
        ensures
            r == self.at(pos.0 as int, pos.1 as int),
    {
        proof {
            board::lemma_bidx_bound(3, pos.0 as int, pos.1 as int);
        }
        self.cells[pos.1 * 9 + pos.0]
    }

    /// Overwrites the cell at a position.
    pub fn set(&mut self, pos: Pos, c: Num3x3)
        requires
            old(self).wf(),
            Self::pos_on_board(pos),
            c.wf(),
        ensures
            final(self).wf(),
            final(self).cells@ == old(self).cells@.update(
                bidx(3, pos.0 as int, pos.1 as int),
                c,
            ),
            final(self).vals() == old(self).vals().update(
                bidx(3, pos.0 as int, pos.1 as int),
                c.spec_num(),
            ),
    {
        proof {
            board::lemma_bidx_bound(3, pos.0 as int, pos.1 as int);
        }
        self.cells.set(pos.1 * 9 + pos.0, c);
        proof {
            assert(self.vals() =~= old(self).vals().update(
                bidx(3, pos.0 as int, pos.1 as int),
                c.spec_num(),
            ));
        }
    }

    /// The board's symbols as a plain vector (`0` for valueless cells).
    fn to_vals(&self) -> (r: Vec<u8>)
        requires
            self.wf(),
        ensures
            r@ == self.vals(),
    {
        let mut r: Vec<u8> = Vec::new();
        let mut i: usize = 0;
        while i < 81
            invariant
                self.wf(),
                i <= 81,
                r@.len() == i,
                forall|j: int| 0 <= j < i ==> r@[j] == self.vals()[j],
            decreases 81 - i,
        {
            r.push(self.cells[i].num_or_zero());
            i = i + 1;
        }
        proof {
            assert(r@ =~= self.vals());
        }
        r
    }

    /// The nine cells of the row through `pos`, left to right.
    pub fn get_row_for(&self, pos: Pos) -> (r: Vec<Num3x3>)
        requires
            self.wf(),
            Self::pos_on_board(pos),
        ensures
            r@.len() == 9,
            forall|i: int| 0 <= i < 9 ==> r@[i] == self.at(i, pos.1 as int),
    {
        let y = pos.1;
        let mut r: Vec<Num3x3> = Vec::new();
        let mut i: usize = 0;
        while i < 9
            invariant
                self.wf(),
                y < 9,
                i <= 9,
                r@.len() == i,
                forall|j: int| 0 <= j < i ==> r@[j] == self.at(j, y as int),
            decreases 9 - i,
        {
            proof {
                board::lemma_bidx_bound(3, i as int, y as int);
            }
            r.push(self.cells[y * 9 + i]);
            i = i + 1;
        }
        r
    }

    /// The nine cells of the column through `pos`, top to bottom.
    pub fn get_col_for(&self, pos: Pos) -> (r: Vec<Num3x3>)
        requires
            self.wf(),
            Self::pos_on_board(pos),
        ensures
            r@.len() == 9,
            forall|i: int| 0 <= i < 9 ==> r@[i] == self.at(pos.0 as int, i),
    {
        let x = pos.0;
        let mut r: Vec<Num3x3> = Vec::new();
        let mut i: usize = 0;
        while i < 9
            invariant
                self.wf(),
                x < 9,
                i <= 9,
                r@.len() == i,
                forall|j: int| 0 <= j < i ==> r@[j] == self.at(x as int, j),
            decreases 9 - i,
    {
            proof {
                board::lemma_bidx_bound(3, x as int, i as int);
            }
            r.push(self.cells[i * 9 + x]);
            i = i + 1;
        }
        r
    }

    /// The nine cells of the box containing `pos`, row-major within the box.
    pub fn get_box_for(&self, pos: Pos) -> (r: Vec<Num3x3>)
        requires
            self.wf(),
            Self::pos_on_board(pos),
        ensures
            r@.len() == 9,
            forall|i: int| 0 <= i < 9 ==> r@[i] == self.at(
                (pos.0 as int / 3) * 3 + i % 3,
                (pos.1 as int / 3) * 3 + i / 3,
            ),
    {
        let bx = pos.0 / 3;
        let by = pos.1 / 3;
        proof {
            board::lemma_band_bound(3, pos.0 as int);
            board::lemma_band_bound(3, pos.1 as int);
        }
        let mut r: Vec<Num3x3> = Vec::new();
        let mut i: usize = 0;
        while i < 9
            invariant
                self.wf(),
                bx < 3,
                by < 3,
                bx == pos.0 as int / 3,
                by == pos.1 as int / 3,
                i <= 9,
                r@.len() == i,
                forall|j: int| 0 <= j < i ==> r@[j] == self.at(
                    bx as int * 3 + j % 3,
                    by as int * 3 + j / 3,
                ),
            decreases 9 - i,
        {
            let dx = i % 3;
            let dy = i / 3;
            proof {
                board::lemma_band_bound(3, i as int);
                board::lemma_bidx_bound(3, (bx * 3 + dx) as int, (by * 3 + dy) as int);
            }
            r.push(self.cells[(by * 3 + dy) * 9 + (bx * 3 + dx)]);
            i = i + 1;
        }
        r
    }

    /// Whether symbol `n` may be written at `pos`: clearing is always
    /// allowed, otherwise `n` must not occur in the row, the column or the
    /// box of `pos`.
    pub fn pos_is_valid(&self, pos: Pos, n: u8) -> (r: bool)
        requires
            self.wf(),
            Self::pos_on_board(pos),
        ensures
            r == placeable(self.vals(), 3, pos.0 as int, pos.1 as int, n),
    {
        let vals = self.to_vals();
        board::placeable_check(&vals, 3, pos.0, pos.1, n)
    }

    /// Writes the whole cell `num` at `pos` if its value may be placed
    /// there, and reports whether it did; the grid is untouched otherwise.
    pub fn try_place(&mut self, pos: Pos, num: Num3x3) -> (r: bool)
        requires
            old(self).wf(),
            Self::pos_on_board(pos),
            num.wf(),
        ensures
            final(self).wf(),
            r == placeable(old(self).vals(), 3, pos.0 as int, pos.1 as int, num.spec_num()),
            r ==> final(self).cells@ == old(self).cells@.update(
                bidx(3, pos.0 as int, pos.1 as int),
                num,
            ),
            r ==> final(self).vals() == old(self).vals().update(
                bidx(3, pos.0 as int, pos.1 as int),
                num.spec_num(),
            ),
            !r ==> *final(self) == *old(self),
            r && no_conflicts(old(self).vals(), 3) ==> no_conflicts(final(self).vals(), 3),
    {
        if self.pos_is_valid(pos, num.num_or_zero()) {
            self.set(pos, num);
            proof {
                if no_conflicts(old(self).vals(), 3) {
                    board::lemma_place_no_conflicts(
                        old(self).vals(),
                        3,
                        pos.0 as int,
                        pos.1 as int,
                        num.spec_num(),
                    );
                }
            }
            true
        } else {
            false
        }
    }

    /// Checks a completely filled board: `None` iff no cell is empty and no
    /// row, column or box repeats a symbol; otherwise the position of the
    /// first empty or conflicting cell found by the scan.
    pub fn is_valid(&self) -> (r: Option<Pos>)
        requires
            self.wf(),
        ensures
            r is None <==> valid(self.vals(), 3),
            r is Some ==> Self::pos_on_board(r.unwrap()),
            !full(self.vals(), 3) ==> r is Some && self.vals()[bidx(
                3,
                r.unwrap().0 as int,
                r.unwrap().1 as int,
            )] == 0 && forall|j: int|
                0 <= j < bidx(3, r.unwrap().0 as int, r.unwrap().1 as int) ==> self.vals()[j]
                    != 0,
    {
        let vals = self.to_vals();
        proof {
            board::lemma_sides();
        }
        board::conflict_scan(&vals, 3)
    }

    /// Marks every value cell as a given clue.
    pub fn set_given(&mut self)
        requires
            old(self).wf(),
        ensures
            final(self).wf(),
            final(self).cells@.len() == 81,
            forall|i: int| 0 <= i < 81 ==> final(self).cells@[i] == (
            match old(self).cells@[i] {
                Num3x3::Value { num, given } => Num3x3::Value { num, given: true },
                _ => old(self).cells@[i],
            }),
            final(self).vals() == old(self).vals(),
    {
        let mut i: usize = 0;
        while i < 81
            invariant
                self.cells@.len() == 81,
                old(self).wf(),
                i <= 81,
                forall|j: int| 0 <= j < 81 ==> (#[trigger] self.cells@[j]).wf(),
                forall|j: int| i <= j < 81 ==> self.cells@[j] == old(self).cells@[j],
                forall|j: int| 0 <= j < i ==> self.cells@[j] == (match old(self).cells@[j] {
                    Num3x3::Value { num, given } => Num3x3::Value { num, given: true },
                    _ => old(self).cells@[j],
                }),
            decreases 81 - i,
        {
            let c = self.cells[i];
            match c {
                Num3x3::Value { num, given } => {
                    self.cells.set(i, Num3x3::Value { num, given: true });
                },
                _ => {},
            }
            i = i + 1;
        }
        proof {
            assert(final(self).vals() =~= old(self).vals());
        }
    }

    /// The 162-byte binary form: each cell's packed integer, big-endian,
    /// row-major.
    pub fn encode(&self) -> (r: Vec<u8>)
        requires
            self.wf(),
        ensures
            r@.len() == 162,
            forall|i: int| 0 <= i < 81 ==> r@[2 * i] == (raw3_of(self.cells@[i]) / 256) as u8
                && r@[2 * i + 1] == (raw3_of(self.cells@[i]) % 256) as u8,
    {
        let mut r: Vec<u8> = Vec::new();
        let mut i: usize = 0;
        while i < 81
            invariant
                self.wf(),
                i <= 81,
                r@.len() == 2 * i,
                forall|j: int| 0 <= j < i ==> r@[2 * j] == (raw3_of(self.cells@[j]) / 256) as u8
                    && r@[2 * j + 1] == (raw3_of(self.cells@[j]) % 256) as u8,
            decreases 81 - i,
        {
            let raw: u16 = match self.cells[i] {
                Num3x3::Empty => 0,
                Num3x3::Value { num, given } => if given {
                    num as u16 + 16384
                } else {
                    num as u16
                },
                Num3x3::Notes { bits } => 32768 + bits,
            };
            r.push((raw / 256) as u8);
            r.push((raw % 256) as u8);
            i = i + 1;
        }
        r
    }

    /// Reads the 162-byte binary form back, replacing the whole board;
    /// reports `false`, leaving the board untouched, when the buffer is too
    /// short. Extra bytes past the needed length are ignored.
    pub fn decode_from(&mut self, encoded: &[u8]) -> (r: bool)
        ensures
            r == (encoded@.len() >= 162),
            r ==> final(self).wf() && final(self).cells@.len() == 81 && forall|i: int|
                0 <= i < 81 ==> final(self).cells@[i] == cell3_of_raw(
                    ((encoded@[2 * i] as int) * 256 + (encoded@[2 * i + 1] as int)) as u16,
                ),
            !r ==> *final(self) == *old(self),
    {
        if encoded.len() < 162 {
            return false;
        }
        let mut cells: Vec<Num3x3> = Vec::new();
        let mut i: usize = 0;
        while i < 81
            invariant
                encoded@.len() >= 162,
                i <= 81,
                cells@.len() == i,
                forall|j: int| 0 <= j < i ==> cells@[j] == cell3_of_raw(
                    ((encoded@[2 * j] as int) * 256 + (encoded@[2 * j + 1] as int)) as u16,
                ) && (#[trigger] cells@[j]).wf(),
            decreases 81 - i,
        {
            let raw: u16 = (encoded[2 * i] as u16) * 256 + (encoded[2 * i + 1] as u16);
            let c: Num3x3 = if raw >= 32768 {
                Num3x3::Notes { bits: (raw - 32768) % 512 }
            } else {
                let v: u16 = raw % 256;
                if 1 <= v && v <= 9 {
                    Num3x3::Value { num: v as u8, given: raw >= 16384 }
                } else {
                    Num3x3::Empty
                }
            };
            cells.push(c);
            i = i + 1;
        }
        self.cells = cells;
        true
    }

    /// Builds a grid from its binary form; `None` when the buffer is too
    /// short.
    pub fn from_encoded(encoded: &[u8]) -> (r: Option<Self>)
        ensures
            r is Some <==> encoded@.len() >= 162,
            r is Some ==> r.unwrap().wf() && r.unwrap().cells@.len() == 81 && forall|i: int|
                0 <= i < 81 ==> r.unwrap().cells@[i] == cell3_of_raw(
                    ((encoded@[2 * i] as int) * 256 + (encoded@[2 * i + 1] as int)) as u16,
                ),
    {
        let mut grid = Self::empty();
        if grid.decode_from(encoded) {
            Some(grid)
        } else {
            None
        }
    }
}

impl PartialEq for Grid3x3 {
    fn eq(&self, other: &Self) -> (r: bool) {
        if self.cells.len() != other.cells.len() {
            return false;
        }
        let mut i: usize = 0;
        while i < self.cells.len()
            invariant
                self.cells@.len() == other.cells@.len(),
                i <= self.cells@.len(),
                forall|j: int| 0 <= j < i ==> self.cells@[j] == other.cells@[j],
            decreases self.cells@.len() - i,
        {
            if !(self.cells[i] == other.cells[i]) {
                return false;
            }
            i = i + 1;
        }
        proof {
            assert(self.cells@ =~= other.cells@);
        }
        true
    }
}

impl vstd::std_specs::cmp::PartialEqSpecImpl for Grid3x3 {
    open spec fn obeys_eq_spec() -> bool {
        true
    }

    open spec fn eq_spec(&self, other: &Grid3x3) -> bool {
        self.cells@ == other.cells@
    }
}

/// Encoding a well-formed board and decoding the bytes restores every cell:
/// the binary round trip is the identity.
pub proof fn lemma_grid3_codec_roundtrip(g: Grid3x3, e: Seq<u8>, g2: Grid3x3)
    requires
        g.wf(),
        e.len() == 162,
        forall|i: int| 0 <= i < 81 ==> e[2 * i] == (raw3_of(g.cells@[i]) / 256) as u8 && e[2 * i
            + 1] == (raw3_of(g.cells@[i]) % 256) as u8,
        g2.cells@.len() == 81,
        forall|i: int| 0 <= i < 81 ==> g2.cells@[i] == cell3_of_raw(
            ((e[2 * i] as int) * 256 + (e[2 * i + 1] as int)) as u16,
        ),
    ensures
        g2.cells@ == g.cells@,
{
    assert forall|i: int| 0 <= i < 81 implies g2.cells@[i] == g.cells@[i] by {
        let raw = raw3_of(g.cells@[i]);
        assert((raw / 256) as u8 as u16 * 256 + (raw % 256) as u8 as u16 == raw) by {
            vstd::arithmetic::div_mod::lemma_fundamental_div_mod(raw as int, 256);
            vstd::arithmetic::div_mod::lemma_mod_bound(raw as int, 256);
            vstd::arithmetic::div_mod::lemma_div_pos_is_pos(raw as int, 256);
            assert(raw as int / 256 < 256) by {
                if raw as int / 256 >= 256 {
                    vstd::arithmetic::mul::lemma_mul_inequality(256, raw as int / 256, 256);
                    vstd::arithmetic::mul::lemma_mul_is_commutative(256, raw as int / 256);
                }
            }
        }
        lemma_cell3_roundtrip(g.cells@[i]);
    }
    assert(g2.cells@ =~= g.cells@);
}


/// A completed assignment over `a`: a filled, conflict-free board of the
/// symbols `1..=9` that agrees with `a` wherever `a` holds a value.
pub open spec fn sol3_of(a: Seq<u8>, t: Seq<u8>) -> bool {
    &&& t.len() == 81
    &&& full(t, 3)
    &&& no_conflicts(t, 3)
    &&& forall|i: int| 0 <= i < 81 ==> 1 <= #[trigger] t[i] <= 9
    &&& forall|i: int| 0 <= i < 81 && a[i] != 0 ==> #[trigger] t[i] == a[i]
}

/// Whether some completed assignment extends the board `a`.
pub open spec fn solvable3(a: Seq<u8>) -> bool {
    exists|t: Seq<u8>| sol3_of(a, t)
}

/// Cells that hold a value in `a` hold the same cell in `b`: `b` only fills
/// in cells that were valueless in `a`.
pub open spec fn keeps_values3(a: Grid3x3, b: Grid3x3) -> bool {
    forall|i: int| 0 <= i < 81 && a.vals()[i] != 0 ==> a.cells@[i] == #[trigger] b.cells@[i]
}

impl Grid3x3 {
    /// Rebuilds the board through one symmetry transform: afterwards cell
    /// `(x, y)` shows what the old board showed at `source_of(t, 3, x, y)`.
    fn apply(&mut self, t: board::Transform)
        requires
            old(self).wf(),
            board::transform_ok(t, 3),
        ensures
            final(self).wf(),
            forall|x: int, y: int| on_board(3, x, y) ==> #[trigger] final(self).at(x, y)
                == old(self).at(
                board::source_of(t, 3, x, y).0,
                board::source_of(t, 3, x, y).1,
            ),
            valid(old(self).vals(), 3) ==> valid(final(self).vals(), 3),
            board::rearranged(3, old(self).vals(), final(self).vals()),
    {
        proof {
            board::lemma_sides();
        }
        self.cells = board::apply_transform(&self.cells, 3, t);
        proof {
            assert forall|x: int, y: int| on_board(3, x, y) implies #[trigger] self.at(x, y)
                == old(self).at(
                board::source_of(t, 3, x, y).0,
                board::source_of(t, 3, x, y).1,
            ) && val_at(self.vals(), 3, x, y) == val_at(
                old(self).vals(),
                3,
                board::source_of(t, 3, x, y).0,
                board::source_of(t, 3, x, y).1,
            ) by {
                board::lemma_source_on_board(t, 3, x, y);
                board::lemma_bidx_bound(3, x, y);
                let p = board::source_of(t, 3, x, y);
                board::lemma_bidx_bound(3, p.0, p.1);
            }
            assert forall|i: int| 0 <= i < 81 implies (#[trigger] self.cells@[i]).wf() by {
                board::lemma_coords_of_index(3, i);
                let x = i % 9;
                let y = i / 9;
                board::lemma_source_on_board(t, 3, x, y);
                let p = board::source_of(t, 3, x, y);
                board::lemma_bidx_bound(3, p.0, p.1);
                assert(self.cells@[i] == old(self).cells@[bidx(3, p.0, p.1)]);
            }
            if valid(old(self).vals(), 3) {
                board::lemma_transform_no_conflicts(old(self).vals(), self.vals(), 3, t);
            }
            assert forall|i: int| 0 <= i < 81 implies #[trigger] old(self).vals()[i] <= 9 by {
                assert(old(self).cells@[i].wf());
            }
            board::lemma_transform_rearranges(old(self).vals(), self.vals(), 3, t);
        }
    }

    /// Exchanges the symbols `a` and `c` everywhere on the board, keeping
    /// given flags in place; a validity-preserving relabeling.
    fn relabel(&mut self, a: u8, c: u8)
        requires
            old(self).wf(),
            1 <= a <= 9,
            1 <= c <= 9,
        ensures
            final(self).wf(),
            final(self).cells@.len() == 81,
            forall|i: int| 0 <= i < 81 ==> #[trigger] final(self).cells@[i] == (
            match old(self).cells@[i] {
                Num3x3::Value { num, given } => if num == a {
                    Num3x3::Value { num: c, given }
                } else if num == c {
                    Num3x3::Value { num: a, given }
                } else {
                    old(self).cells@[i]
                },
                _ => old(self).cells@[i],
            }),
            valid(old(self).vals(), 3) ==> valid(final(self).vals(), 3),
            board::rearranged(3, old(self).vals(), final(self).vals()),
    {
        let mut i: usize = 0;
        while i < 81
            invariant
                old(self).wf(),
                self.cells@.len() == 81,
                1 <= a <= 9,
                1 <= c <= 9,
                i <= 81,
                forall|j: int| i <= j < 81 ==> self.cells@[j] == old(self).cells@[j],
                forall|j: int| 0 <= j < i ==> #[trigger] self.cells@[j] == (
                match old(self).cells@[j] {
                    Num3x3::Value { num, given } => if num == a {
                        Num3x3::Value { num: c, given }
                    } else if num == c {
                        Num3x3::Value { num: a, given }
                    } else {
                        old(self).cells@[j]
                    },
                    _ => old(self).cells@[j],
                }),
            decreases 81 - i,
        {
            match self.cells[i] {
                Num3x3::Value { num, given } => {
                    if num == a {
                        self.cells.set(i, Num3x3::Value { num: c, given });
                    } else if num == c {
                        self.cells.set(i, Num3x3::Value { num: a, given });
                    }
                },
                _ => {},
            }
            i = i + 1;
        }
        proof {
            assert forall|i: int| 0 <= i < 81 implies (#[trigger] self.cells@[i]).wf() by {
                assert(old(self).cells@[i].wf());
            }
            assert forall|i: int| 0 <= i < 81 implies self.vals()[i] == (
            if old(self).vals()[i] == a {
                c
            } else if old(self).vals()[i] == c {
                a
            } else {
                old(self).vals()[i]
            }) by {
                assert(old(self).cells@[i].wf());
            }
            if valid(old(self).vals(), 3) {
                board::lemma_sides();
                board::lemma_relabel_no_conflicts(old(self).vals(), self.vals(), 3, a, c);
            }
            board::lemma_sides();
            assert forall|i: int| 0 <= i < 81 implies #[trigger] old(self).vals()[i] <= 9 by {
                assert(old(self).cells@[i].wf());
            }
            board::lemma_relabel_rearranges(old(self).vals(), self.vals(), 3, a, c);
        }
    }

    /// Scrambles a valid filled board with a random number of random
    /// symmetry transforms, then relabels random symbol pairs; the result is
    /// again a valid filled board.
    pub fn randomize(&mut self)
        requires
            old(self).wf(),
            valid(old(self).vals(), 3),
        ensures
            final(self).wf(),
            valid(final(self).vals(), 3),
            board::rearranged(3, old(self).vals(), final(self).vals()),
    {
        proof {
            board::lemma_sides();
            assert forall|i: int|
                0 <= i < self.vals().len() implies #[trigger] self.vals()[i] <= side(3) by {
                assert(self.cells@[i].wf());
            }
            board::lemma_rearranged_refl(3, self.vals());
        }
        let rounds = rng::rand_range(100, 1000);
        let mut it: u64 = 0;
        while it < rounds
            invariant
                self.wf(),
                valid(self.vals(), 3),
                board::rearranged(3, old(self).vals(), self.vals()),
                it <= rounds <= 1000,
            decreases rounds - it,
        {
            let ghost pre = self.vals();
            let op = rng::rand_range(1, 11);
            if op <= 4 {
                if op <= 2 {
                    // swap two distinct lines of one band
                    let l1 = rng::rand_range(0, 8) as usize;
                    let off = rng::rand_range(1, 2) as usize;
                    let l2 = l1 / 3 * 3 + (l1 % 3 + off) % 3;
                    proof {
                        board::lemma_band_bound(3, l1 as int);
                        board::lemma_band_member(3, l1 as int / 3, (l1 as int % 3 + off) % 3);
                    }
                    if op == 1 {
                        self.apply(board::Transform::SwapRows(l1, l2));
                    } else {
                        self.apply(board::Transform::SwapCols(l1, l2));
                    }
                } else {
                    // swap two distinct bands
                    let g1 = rng::rand_range(0, 2) as usize;
                    let off = rng::rand_range(1, 2) as usize;
                    let g2 = (g1 + off) % 3;
                    if op == 3 {
                        self.apply(board::Transform::SwapRowBands(g1, g2));
                    } else {
                        self.apply(board::Transform::SwapColBands(g1, g2));
                    }
                }
            } else {
                let t = match op {
                    5 => board::Transform::MainDiagonal,
                    6 => board::Transform::AntiDiagonal,
                    7 => board::Transform::Rot90,
                    8 => board::Transform::Rot180,
                    9 => board::Transform::Rot270,
                    10 => board::Transform::FlipRows,
                    _ => board::Transform::FlipCols,
                };
                self.apply(t);
            }
            proof {
                board::lemma_rearranged_trans(3, old(self).vals(), pre, self.vals());
            }
            it = it + 1;
        }
        let mut it2: u64 = 0;
        while it2 < rounds
            invariant
                self.wf(),
                valid(self.vals(), 3),
                board::rearranged(3, old(self).vals(), self.vals()),
                it2 <= rounds <= 1000,
            decreases rounds - it2,
        {
            let ghost pre = self.vals();
            // two distinct symbols: the second is a nonzero offset from the first
            let a = rng::rand_range(1, 9);
            let off = rng::rand_range(1, 8);
            let c = ((a - 1 + off) % 9 + 1) as u8;
            let a = a as u8;
            self.relabel(a, c);
            proof {
                board::lemma_rearranged_trans(3, old(self).vals(), pre, self.vals());
            }
            it2 = it2 + 1;
        }
    }

    /// A freshly scrambled valid filled board.
    pub fn randomized() -> (r: Self)
        ensures
            r.wf(),
            valid(r.vals(), 3),
            board::rearranged(
                3,
                Seq::new((81) as nat, |i: int| base_val(3, i % 9, i / 9)),
                r.vals(),
            ),
    {
        let grid0 = Self::new();
        proof {
            board::lemma_sides();
            assert(grid0.vals() =~= Seq::new((81) as nat, |i: int| base_val(3, i % 9, i
                / 9))) by {
                assert forall|i: int| 0 <= i < 81 implies grid0.vals()[i] == base_val(
                    3,
                    i % 9,
                    i / 9,
                ) by {
                    board::lemma_coords_of_index(3, i);
                }
            }
        }
        let mut grid = grid0;
        grid.randomize();
        grid
    }

    /// The first valueless cell at flat index `start` or beyond.
    fn next_empty(&self, start: usize) -> (r: Option<usize>)
        requires
            self.wf(),
            start <= 81,
        ensures
            match r {
                Option::Some(k) => start <= k < 81 && self.vals()[k as int] == 0 && forall|j: int|
                    start <= j < k ==> self.vals()[j] != 0,
                Option::None => forall|j: int| start <= j < 81 ==> self.vals()[j] != 0,
            },
    {
        let mut i: usize = start;
        while i < 81
            invariant
                self.wf(),
                start <= i <= 81,
                forall|j: int| start <= j < i ==> self.vals()[j] != 0,
            decreases 81 - i,
        {
            if self.cells[i].num_or_zero() == 0 {
                return Some(i);
            }
            i = i + 1;
        }
        None
    }

    /// The first valueless cell in row-major order; `None` when every cell
    /// holds a value.
    pub fn first_empty(&self) -> (r: Option<Pos>)
        requires
            self.wf(),
        ensures
            match r {
                Option::Some(pos) => Self::pos_on_board(pos) && val_at(
                    self.vals(),
                    3,
                    pos.0 as int,
                    pos.1 as int,
                ) == 0 && forall|j: int|
                    0 <= j < bidx(3, pos.0 as int, pos.1 as int) ==> self.vals()[j] != 0,
                Option::None => full(self.vals(), 3),
            },
    {
        match self.next_empty(0) {
            Some(k) => {
                proof {
                    board::lemma_sides();
                    board::lemma_coords_of_index(3, k as int);
                }
                Some((k % 9, k / 9))
            },
            None => None,
        }
    }

    /// Fills every valueless cell by deterministic backtracking, trying the
    /// symbols in ascending order. It succeeds exactly when some completed
    /// assignment extends the board; on success the board is a valid filled
    /// board extending the old one, on failure the board is unchanged.
    pub fn solve(&mut self) -> (r: bool)
        requires
            old(self).wf(),
            no_conflicts(old(self).vals(), 3),
        ensures
            final(self).wf(),
            r == solvable3(old(self).vals()),
            r ==> valid(final(self).vals(), 3),
            r ==> keeps_values3(*old(self), *final(self)),
            !r ==> final(self).cells@ == old(self).cells@,
    {
        let first = self.next_empty(0);
        let r = match first {
            None => {
                proof {
                    board::lemma_sides();
                }
                true
            },
            Some(k) => self.solve_helper(k),
        };
        proof {
            if r {
                assert forall|i: int| 0 <= i < 81 implies 1 <= self.vals()[i] <= 9 && (old(
                    self,
                ).vals()[i] != 0 ==> self.vals()[i] == old(self).vals()[i]) by {
                    assert(self.cells@[i].wf());
                    if old(self).vals()[i] != 0 {
                        assert(old(self).cells@[i] == self.cells@[i]);
                    }
                }
                assert(sol3_of(old(self).vals(), self.vals()));
            }
        }
        r
    }

    /// Backtracking from the first valueless cell `k`; every cell before `k`
    /// holds a value.
    fn solve_helper(&mut self, k: usize) -> (r: bool)
        requires
            old(self).wf(),
            no_conflicts(old(self).vals(), 3),
            k < 81,
            old(self).vals()[k as int] == 0,
            forall|j: int| 0 <= j < k ==> old(self).vals()[j] != 0,
        ensures
            final(self).wf(),
            r ==> valid(final(self).vals(), 3),
            r ==> keeps_values3(*old(self), *final(self)),
            !r ==> final(self).cells@ == old(self).cells@,
            !r ==> !solvable3(old(self).vals()),
        decreases 81 - k,
    {
        proof {
            board::lemma_sides();
            board::lemma_coords_of_index(3, k as int);
        }
        let saved = self.cells[k];
        let pos: Pos = (k % 9, k / 9);
        let mut n: u8 = 1;
        while n <= 9
            invariant
                self.cells@.len() == 81,
                self.wf(),
                no_conflicts(self.vals(), 3),
                k < 81,
                pos == (k % 9, k / 9),
                bidx(3, pos.0 as int, pos.1 as int) == k as int,
                Self::pos_on_board(pos),
                1 <= n <= 10,
                saved == old(self).cells@[k as int],
                old(self).wf(),
                no_conflicts(old(self).vals(), 3),
                old(self).vals()[k as int] == 0,
                forall|j: int| 0 <= j < k ==> old(self).vals()[j] != 0,
                forall|i: int| 0 <= i < 81 && i != k ==> self.cells@[i] == old(self).cells@[i],
                self.vals()[k as int] < n,
                forall|t: Seq<u8>| #[trigger] sol3_of(old(self).vals(), t) ==> t[k as int] >= n,
            decreases 10 - n,
        {
            let ghost before = *self;
            if self.try_place(pos, Num3x3::new(n)) {
                proof {
                    assert(self.cells@ == before.cells@.update(k as int, Num3x3::Value {
                        num: n,
                        given: false,
                    }));
                }
                let nxt = self.next_empty(k + 1);
                match nxt {
                    None => {
                        proof {
                            assert forall|j: int| 0 <= j < 81 implies self.vals()[j] != 0 by {
                                if j < k {
                                    assert(before.cells@[j] == old(self).cells@[j]);
                                    assert(self.cells@[j] == before.cells@[j]);
                                    assert(self.vals()[j] == old(self).vals()[j]);
                                } else if j == k {
                                    assert(self.cells@[j] == (Num3x3::Value {
                                        num: n,
                                        given: false,
                                    }));
                                }
                            }
                        }
                        return true;
                    },
                    Some(k2) => {
                        proof {
                            assert forall|j: int| 0 <= j < k2 implies self.vals()[j] != 0 by {
                                if j < k {
                                    assert(before.cells@[j] == old(self).cells@[j]);
                                    assert(self.cells@[j] == before.cells@[j]);
                                    assert(self.vals()[j] == old(self).vals()[j]);
                                } else if j == k {
                                    assert(self.cells@[j] == (Num3x3::Value {
                                        num: n,
                                        given: false,
                                    }));
                                }
                            }
                        }
                        let ghost mid = *self;
                        if self.solve_helper(k2) {
                            proof {
                                assert forall|i: int|
                                    0 <= i < 81 && old(self).vals()[i] != 0 implies old(
                                    self,
                                ).cells@[i] == self.cells@[i] by {
                                    assert(mid.cells@[i] == old(self).cells@[i]);
                                    assert(mid.vals()[i] == old(self).vals()[i]);
                                }
                            }
                            return true;
                        }
                        proof {
                            // no completed assignment writes n here: it would
                            // solve the extended board, which has no solution
                            assert forall|t: Seq<u8>|
                                #[trigger] sol3_of(old(self).vals(), t) implies t[k as int]
                                >= n + 1 by {
                                if t[k as int] == n {
                                    assert forall|i: int|
                                        0 <= i < 81 && mid.vals()[i] != 0 implies #[trigger] t[i]
                                        == mid.vals()[i] by {
                                        if i != k {
                                            assert(mid.cells@[i] == old(self).cells@[i]);
                                        }
                                    }
                                    assert(sol3_of(mid.vals(), t));
                                    assert(solvable3(mid.vals()));
                                }
                            }
                        }
                    },
                }
            } else {
                proof {
                    // the blocking occurrence of n sits on a peer cell that
                    // already held a value, so a completed assignment cannot
                    // write n here either
                    assert forall|t: Seq<u8>|
                        #[trigger] sol3_of(old(self).vals(), t) implies t[k as int] >= n + 1 by {
                        if t[k as int] == n {
                            lemma_solution3_blocked(before.vals(), old(self).vals(), t, k as int, n);
                        }
                    }
                }
            }
            n = n + 1;
        }
        self.cells.set(k, saved);
        proof {
            assert(self.cells@ =~= old(self).cells@);
            assert forall|t: Seq<u8>| !#[trigger] sol3_of(old(self).vals(), t) by {
                if sol3_of(old(self).vals(), t) {
                    assert(t[k as int] >= 10);
                    assert(t[k as int] <= 9);
                }
            }
        }
        false
    }

}

/// A board that blocks symbol `n` at cell `k` blocks every completed
/// assignment from writing `n` there, as long as the board matches the
/// assignment's origin everywhere but at `k` itself.
proof fn lemma_solution3_blocked(cur: Seq<u8>, orig: Seq<u8>, t: Seq<u8>, k: int, n: u8)
    requires
        cur.len() == 81,
        orig.len() == 81,
        0 <= k < 81,
        forall|i: int| 0 <= i < 81 && i != k ==> cur[i] == orig[i],
        cur[k] != n,
        1 <= n <= 9,
        !placeable(cur, 3, k % 9, k / 9, n),
        sol3_of(orig, t),
    ensures
        t[k] != n,
{
    board::lemma_sides();
    board::lemma_coords_of_index(3, k);
    let x = k % 9;
    let y = k / 9;
    if t[k] == n {
        if row_has(cur, 3, y, n) {
            let xq = choose|xq: int| 0 <= xq < side(3) && val_at(cur, 3, xq, y) == n;
            board::lemma_bidx_bound(3, xq, y);
            board::lemma_idx_coords(9, xq, y);
            assert(bidx(3, xq, y) != k);
            assert(t[bidx(3, xq, y)] == n);
            assert(val_at(t, 3, xq, y) == val_at(t, 3, x, y));
            assert(board::share_unit(3, xq, y, x, y));
        } else if col_has(cur, 3, x, n) {
            let yq = choose|yq: int| 0 <= yq < side(3) && val_at(cur, 3, x, yq) == n;
            board::lemma_bidx_bound(3, x, yq);
            board::lemma_idx_coords(9, x, yq);
            assert(bidx(3, x, yq) != k);
            assert(t[bidx(3, x, yq)] == n);
            assert(val_at(t, 3, x, yq) == val_at(t, 3, x, y));
            assert(board::share_unit(3, x, yq, x, y));
        } else {
            assert(box_has(cur, 3, x / 3, y / 3, n));
            let (xq, yq): (int, int) = choose|xq: int, yq: int|
                on_board(3, xq, yq) && xq / 3 == x / 3 && yq / 3 == y / 3 && val_at(
                    cur,
                    3,
                    xq,
                    yq,
                ) == n;
            board::lemma_bidx_bound(3, xq, yq);
            board::lemma_idx_coords(9, xq, yq);
            assert(bidx(3, xq, yq) != k);
            assert(t[bidx(3, xq, yq)] == n);
            assert(val_at(t, 3, xq, yq) == val_at(t, 3, x, y));
            assert(board::share_unit(3, xq, yq, x, y));
        }
    }
}

impl Grid3x3 {
    /// Fills the whole board by backtracking, trying each cell's symbols in
    /// an independently shuffled order; the result is a valid filled board.
    /// Should the search ever fail to complete a board (a filled completion
    /// always exists from an empty board), the canonical board stands in so
    /// that a valid board is returned in every case.
    pub fn generate() -> (r: Self)
        ensures
            r.wf(),
            valid(r.vals(), 3),
            forall|i: int| 0 <= i < 81 ==> 1 <= #[trigger] r.vals()[i] <= 9,
            forall|i: int| 0 <= i < 81 ==> #[trigger] r.cells@[i] == (Num3x3::Value {
                num: r.vals()[i],
                given: false,
            }),
    {
        let mut grid = Self::empty();
        let mut infos: Vec<Vec<u8>> = Vec::new();
        let mut i: usize = 0;
        while i < 81
            invariant
                i <= 81,
                infos@.len() == i,
                forall|j: int, l: int|
                    0 <= j < i && 0 <= l < infos@[j]@.len() ==> 1 <= #[trigger] infos@[j]@[l] <= 9,
            decreases 81 - i,
        {
            let mut cand: Vec<u8> = Vec::new();
            let mut v: u8 = 1;
            while v <= 9
                invariant
                    v <= 10,
                    cand@.len() == v - 1,
                    forall|l: int| 0 <= l < cand@.len() ==> 1 <= #[trigger] cand@[l] <= 9,
                decreases 10 - v,
            {
                cand.push(v);
                v = v + 1;
            }
            let ghost orig = cand@;
            rng::shuffle(&mut cand);
            proof {
                board::lemma_multiset_same_elems(orig, cand@);
                assert forall|l: int| 0 <= l < cand@.len() implies 1 <= #[trigger] cand@[l]
                    <= 9 by {
                    assert(orig.contains(cand@[l]));
                }
            }
            infos.push(cand);
            i = i + 1;
        }
        proof {
            board::lemma_sides();
            assert forall|x: int, y: int| on_board(3, x, y) implies val_at(grid.vals(), 3, x, y)
                == 0 by {
                board::lemma_bidx_bound(3, x, y);
            }
            assert(no_conflicts(grid.vals(), 3));
        }
        let r = if grid.gen_helper(&infos, 0) {
            grid
        } else {
            Self::new()
        };
        proof {
            assert forall|i: int| 0 <= i < 81 implies 1 <= #[trigger] r.vals()[i] <= 9 by {
                assert(r.cells@[i].wf());
                assert(r.vals()[i] != 0);
            }
            assert forall|i: int| 0 <= i < 81 implies #[trigger] r.cells@[i] == (Num3x3::Value {
                num: r.vals()[i],
                given: false,
            }) by {
                board::lemma_sides();
                board::lemma_coords_of_index(3, i);
                assert(r.at(i % 9, i / 9) == r.cells@[i]);
            }
        }
        r
    }


    /// Clears one cell to empty.
    fn clear_cell(&mut self, idx: usize)
        requires
            old(self).wf(),
            idx < 81,
        ensures
            final(self).wf(),
            final(self).cells@ == old(self).cells@.update(idx as int, Num3x3::Empty),
            final(self).vals() == old(self).vals().update(idx as int, 0u8),
    {
        self.cells.set(idx, Num3x3::Empty);
        proof {
            assert(self.vals() =~= old(self).vals().update(idx as int, 0u8));
        }
    }

    /// Blanks up to `n_remove` cells of a filled board in a random order,
    /// never taking a symbol's last remaining occurrence once some other
    /// symbol has already been fully removed; returns how many cells were
    /// blanked. Every touched cell becomes empty, every other cell is left
    /// exactly as it was, and at most one symbol ends with no occurrences.
    pub fn remove_nums(&mut self, n_remove: usize) -> (r: usize)
        requires
            old(self).wf(),
            full(old(self).vals(), 3),
            n_remove < 81,
        ensures
            final(self).wf(),
            r <= n_remove,
            forall|i: int|
                0 <= i < 81 && final(self).cells@[i] != old(self).cells@[i]
                    ==> #[trigger] final(self).cells@[i] == Num3x3::Empty,
            board::changed_upto(old(self).cells@, final(self).cells@, 81) == r,
            forall|v1: u8, v2: u8|
                1 <= v1 <= 9 && 1 <= v2 <= 9 && v1 != v2 && board::occ(old(self).vals(), v1) > 0
                    && board::occ(old(self).vals(), v2) > 0 ==> !(#[trigger] board::occ(
                    final(self).vals(),
                    v1,
                ) == 0 && #[trigger] board::occ(final(self).vals(), v2) == 0),
            r < n_remove ==> forall|i: int|
                0 <= i < 81 && final(self).vals()[i] != 0 ==> #[trigger] board::occ(
                    final(self).vals(),
                    final(self).vals()[i],
                ) == 1,
            n_remove <= 72 ==> r == n_remove,
            no_conflicts(old(self).vals(), 3) ==> no_conflicts(final(self).vals(), 3),
    {
        // random visiting order over all 81 cells
        let mut order: Vec<usize> = Vec::new();
        let mut i: usize = 0;
        while i < 81
            invariant
                i <= 81,
                order@.len() == i,
                forall|j: int| 0 <= j < i ==> order@[j] == j,
            decreases 81 - i,
        {
            order.push(i);
            i = i + 1;
        }
        let ghost orig_order = order@;
        rng::shuffle(&mut order);
        proof {
            board::lemma_shuffled_indices(orig_order, order@);
        }
        // exact occurrence counts of every symbol
        let mut nums: Vec<u8> = Vec::new();
        let mut s: usize = 0;
        while s < 10
            invariant
                s <= 10,
                nums@.len() == s,
                forall|v: int| 0 <= v < s ==> nums@[v] == 0,
            decreases 10 - s,
        {
            nums.push(0);
            s = s + 1;
        }
        let mut c: usize = 0;
        while c < 81
            invariant
                self.wf(),
                *self == *old(self),
                c <= 81,
                nums@.len() == 10,
                forall|v: u8| 1 <= v <= 9 ==> nums@[v as int] == board::occ_upto(
                    self.vals(),
                    v,
                    c as int,
                ),
            decreases 81 - c,
        {
            let v = self.cells[c].num_or_zero();
            if v != 0 {
                proof {
                    assert(1 <= v <= 9);
                    assert forall|v2: u8| 1 <= v2 <= 9 implies board::occ_upto(
                        self.vals(),
                        v2,
                        c as int,
                    ) <= c as int by {
                        board::lemma_occ_upto_bound(self.vals(), v2, c as int);
                    }
                }
                let cur = nums[v as usize];
                nums.set(v as usize, cur + 1);
            }
            c = c + 1;
        }
        // visit the shuffled cells, blanking while the constraint allows
        proof {
            board::lemma_changed_upto_refl(self.cells@, 81);
        }
        let mut removed: usize = 0;
        let mut num_gone: bool = false;
        let mut t: usize = 0;
        while t < 81 && removed < n_remove
            invariant
                self.wf(),
                self.cells@.len() == 81,
                old(self).wf(),
                full(old(self).vals(), 3),
                n_remove < 81,
                t <= 81,
                removed <= n_remove,
                order@.len() == 81,
                forall|j: int| 0 <= j < 81 ==> #[trigger] order@[j] < 81,
                forall|j1: int, j2: int| 0 <= j1 < j2 < 81 ==> order@[j1] != order@[j2],
                forall|p: usize| p < 81 ==> #[trigger] order@.contains(p),
                forall|j: int| 0 <= j < t ==> self.vals()[#[trigger] order@[j] as int] == 0
                    || board::occ(self.vals(), self.vals()[order@[j] as int]) == 1,
                nums@.len() == 10,
                forall|v: u8| 1 <= v <= 9 ==> nums@[v as int] == board::occ(self.vals(), v),
                forall|i: int|
                    0 <= i < 81 && self.cells@[i] != old(self).cells@[i]
                        ==> #[trigger] self.cells@[i] == Num3x3::Empty,
                board::changed_upto(old(self).cells@, self.cells@, 81) == removed,
                forall|v: u8|
                    1 <= v <= 9 && board::occ(old(self).vals(), v) > 0 && #[trigger] board::occ(
                        self.vals(),
                        v,
                    ) == 0 ==> num_gone,
                forall|v1: u8, v2: u8|
                    1 <= v1 <= 9 && 1 <= v2 <= 9 && v1 != v2 && board::occ(old(self).vals(), v1)
                        > 0 && board::occ(old(self).vals(), v2) > 0 ==> !(#[trigger] board::occ(
                        self.vals(),
                        v1,
                    ) == 0 && #[trigger] board::occ(self.vals(), v2) == 0),
            decreases 81 - t,
        {
            let idx = order[t];
            let v = self.cells[idx].num_or_zero();
            if v != 0 && (!num_gone || nums[v as usize] != 1) {
                proof {
                    assert(self.vals()[idx as int] == v);
                    board::lemma_occ_witness(self.vals(), v, idx as int);
                    assert(self.cells@[idx as int] == old(self).cells@[idx as int]);
                    assert(old(self).vals()[idx as int] == v);
                    board::lemma_occ_witness(old(self).vals(), v, idx as int);
                }
                let ghost prev = *self;
                let ghost prev_gone = num_gone;
                self.clear_cell(idx);
                let cur = nums[v as usize];
                nums.set(v as usize, cur - 1);
                removed = removed + 1;
                if nums[v as usize] == 0 {
                    num_gone = true;
                }
                proof {
                    // only the removed symbol's count moved, and by one
                    assert forall|v2: u8| 1 <= v2 <= 9 && v2 != v implies #[trigger] board::occ(
                        self.vals(),
                        v2,
                    ) == board::occ(prev.vals(), v2) by {
                        board::lemma_occ_upto_update(prev.vals(), idx as int, 0u8, v2, 81);
                    }
                    assert(board::occ(self.vals(), v) == board::occ(prev.vals(), v) - 1) by {
                        board::lemma_occ_upto_update(prev.vals(), idx as int, 0u8, v, 81);
                    }
                    assert forall|v2: u8| 1 <= v2 <= 9 implies nums@[v2 as int] == board::occ(
                        self.vals(),
                        v2,
                    ) by {
                        board::lemma_occ_upto_update(prev.vals(), idx as int, 0u8, v2, 81);
                    }
                    // the changed-cell count moves by exactly one
                    board::lemma_changed_upto_update(
                        old(self).cells@,
                        prev.cells@,
                        idx as int,
                        Num3x3::Empty,
                        81,
                    );
                    assert(num_gone == (prev_gone || board::occ(self.vals(), v) == 0));
                    if prev_gone {
                        // the guard kept this symbol above one occurrence, so no
                        // new symbol was fully removed
                        assert(board::occ(prev.vals(), v) != 1);
                        assert(board::occ(self.vals(), v) >= 1);
                        assert forall|v2: u8|
                            1 <= v2 <= 9 && board::occ(old(self).vals(), v2) > 0 && #[trigger]
                        board::occ(self.vals(), v2) == 0 implies num_gone by {
                            if v2 != v {
                                assert(board::occ(prev.vals(), v2) == 0);
                            }
                        }
                    } else {
                        // no symbol was fully removed before this step
                        assert forall|v2: u8|
                            1 <= v2 <= 9 && v2 != v && board::occ(old(self).vals(), v2)
                                > 0 implies #[trigger] board::occ(self.vals(), v2) > 0 by {
                            board::lemma_occ_upto_bound(prev.vals(), v2, 81);
                            assert(board::occ(prev.vals(), v2) != 0);
                        }
                    }
                    assert forall|v1: u8, v2: u8|
                        1 <= v1 <= 9 && 1 <= v2 <= 9 && v1 != v2 && board::occ(
                            old(self).vals(),
                            v1,
                        ) > 0 && board::occ(old(self).vals(), v2) > 0 implies !(
                    #[trigger] board::occ(self.vals(), v1) == 0 && #[trigger] board::occ(
                        self.vals(),
                        v2,
                    ) == 0) by {
                        if board::occ(self.vals(), v1) == 0 && board::occ(self.vals(), v2) == 0 {
                            if prev_gone {
                                assert(board::occ(prev.vals(), v1) == 0);
                                assert(board::occ(prev.vals(), v2) == 0);
                            } else {
                                assert(v1 == v || board::occ(self.vals(), v1) > 0);
                                assert(v2 == v || board::occ(self.vals(), v2) > 0);
                            }
                        }
                    }
                    // cells already frozen as last occurrences stay frozen
                    assert forall|j: int|
                        0 <= j < t + 1 implies self.vals()[#[trigger] order@[j] as int] == 0
                        || board::occ(self.vals(), self.vals()[order@[j] as int]) == 1 by {
                        if j == t {
                            assert(self.vals()[idx as int] == 0);
                        } else {
                            let q = order@[j] as int;
                            assert(order@[j] != order@[t as int]);
                            assert(self.vals()[q] == prev.vals()[q]);
                            if prev.vals()[q] != 0 && board::occ(prev.vals(), prev.vals()[q])
                                == 1 {
                                let vq = prev.vals()[q];
                                if vq == v {
                                    if q < idx as int {
                                        board::lemma_occ_two_witnesses(
                                            prev.vals(),
                                            v,
                                            q,
                                            idx as int,
                                        );
                                    } else {
                                        board::lemma_occ_two_witnesses(
                                            prev.vals(),
                                            v,
                                            idx as int,
                                            q,
                                        );
                                    }
                                }
                                board::lemma_occ_upto_update(prev.vals(), idx as int, 0u8, vq, 81);
                            }
                        }
                    }
                }
            } else {
                proof {
                    assert forall|j: int|
                        0 <= j < t + 1 implies self.vals()[#[trigger] order@[j] as int] == 0
                        || board::occ(self.vals(), self.vals()[order@[j] as int]) == 1 by {
                        if j == t && v != 0 {
                            assert(nums@[v as int] == 1);
                        }
                    }
                }
            }
            t = t + 1;
        }
        proof {
            if removed < n_remove {
                assert forall|i: int|
                    0 <= i < 81 && self.vals()[i] != 0 implies #[trigger] board::occ(
                    self.vals(),
                    self.vals()[i],
                ) == 1 by {
                    assert(order@.contains(i as usize));
                    let j = choose|j: int| 0 <= j < order@.len() && order@[j] == i as usize;
                    assert(self.vals()[order@[j] as int] == 0 || board::occ(
                        self.vals(),
                        self.vals()[order@[j] as int],
                    ) == 1);
                }
                // so few cells can survive that the target must have been met
                assert forall|i: int|
                    0 <= i < 81 implies ((old(self).cells@[i] != self.cells@[i]) <==> self.vals()[i]
                    == 0) by {
                    if self.vals()[i] == 0 {
                        assert(old(self).vals()[i] != 0);
                    }
                }
                assert forall|i: int|
                    0 <= i < self.vals().len() implies #[trigger] self.vals()[i] <= 9 by {
                    assert(self.cells@[i].wf());
                }
                board::lemma_changed_zero_count(old(self).cells@, self.cells@, self.vals(), 81);
                board::lemma_few_survivors(self.vals(), 9);
                assert(removed >= 72);
            }
            if no_conflicts(old(self).vals(), 3) {
                assert forall|x1: int, y1: int, x2: int, y2: int|
                    on_board(3, x1, y1) && on_board(3, x2, y2) && !(x1 == x2 && y1 == y2)
                        && board::share_unit(3, x1, y1, x2, y2) && #[trigger] val_at(
                        self.vals(),
                        3,
                        x1,
                        y1,
                    ) == #[trigger] val_at(self.vals(), 3, x2, y2) implies val_at(
                    self.vals(),
                    3,
                    x1,
                    y1,
                ) == 0 by {
                    board::lemma_bidx_bound(3, x1, y1);
                    board::lemma_bidx_bound(3, x2, y2);
                    if val_at(self.vals(), 3, x1, y1) != 0 {
                        assert(self.cells@[bidx(3, x1, y1)] == old(self).cells@[bidx(3, x1, y1)]);
                        assert(self.cells@[bidx(3, x2, y2)] == old(self).cells@[bidx(3, x2, y2)]);
                        assert(val_at(old(self).vals(), 3, x1, y1) == val_at(
                            self.vals(),
                            3,
                            x1,
                            y1,
                        ));
                        assert(val_at(old(self).vals(), 3, x2, y2) == val_at(
                            self.vals(),
                            3,
                            x2,
                            y2,
                        ));
                    }
                }
            }
        }
        removed
    }

    /// Backtracking fill of the cells at flat index `k` and beyond, trying
    /// the shuffled candidates of each cell in order. On success every cell
    /// holds a value and the board stays conflict-free; on failure the board
    /// is unchanged.
    fn gen_helper(&mut self, infos: &Vec<Vec<u8>>, k: usize) -> (r: bool)
        requires
            old(self).wf(),
            no_conflicts(old(self).vals(), 3),
            infos@.len() == 81,
            forall|j: int, l: int|
                0 <= j < 81 && 0 <= l < infos@[j]@.len() ==> 1 <= #[trigger] infos@[j]@[l] <= 9,
            k <= 81,
            forall|j: int| 0 <= j < k ==> old(self).cells@[j] == (Num3x3::Value {
                num: old(self).vals()[j],
                given: false,
            }) && old(self).vals()[j] != 0,
            forall|j: int| k <= j < 81 ==> old(self).cells@[j] == Num3x3::Empty,
        ensures
            final(self).wf(),
            r ==> valid(final(self).vals(), 3),
            r ==> forall|i: int| 0 <= i < 81 ==> #[trigger] final(self).cells@[i] == (Num3x3::Value {
                num: final(self).vals()[i],
                given: false,
            }),
            !r ==> final(self).cells@ == old(self).cells@,
        decreases 81 - k,
    {
        if k == 81 {
            proof {
                board::lemma_sides();
            }
            return true;
        }
        proof {
            board::lemma_sides();
            board::lemma_coords_of_index(3, k as int);
        }
        let pos: Pos = (k % 9, k / 9);
        let cand = &infos[k];
        let mut l: usize = 0;
        while l < cand.len()
            invariant
                self.cells@.len() == 81,
                self.wf(),
                no_conflicts(self.vals(), 3),
                k < 81,
                pos == (k % 9, k / 9),
                bidx(3, pos.0 as int, pos.1 as int) == k as int,
                Self::pos_on_board(pos),
                l <= cand@.len(),
                cand == infos@[k as int],
                infos@.len() == 81,
                forall|j: int, m: int|
                    0 <= j < 81 && 0 <= m < infos@[j]@.len() ==> 1 <= #[trigger] infos@[j]@[m]
                        <= 9,
                old(self).wf(),
                no_conflicts(old(self).vals(), 3),
                forall|j: int| 0 <= j < k ==> old(self).cells@[j] == (Num3x3::Value {
                    num: old(self).vals()[j],
                    given: false,
                }) && old(self).vals()[j] != 0,
                forall|j: int| k <= j < 81 ==> old(self).cells@[j] == Num3x3::Empty,
                forall|i: int| 0 <= i < 81 && i != k ==> self.cells@[i] == old(self).cells@[i],
            decreases cand@.len() - l,
        {
            let ghost before = *self;
            if self.try_place(pos, Num3x3::new(cand[l])) {
                let ghost mid = *self;
                proof {
                    assert(self.cells@ == before.cells@.update(k as int, Num3x3::Value {
                        num: cand@[l as int],
                        given: false,
                    }));
                    assert forall|j: int|
                        0 <= j < k + 1 implies self.cells@[j] == (Num3x3::Value {
                        num: self.vals()[j],
                        given: false,
                    }) && self.vals()[j] != 0 by {
                        if j < k {
                            assert(before.cells@[j] == old(self).cells@[j]);
                            assert(self.cells@[j] == before.cells@[j]);
                            assert(self.vals()[j] == old(self).vals()[j]);
                        } else if j == k {
                            assert(self.cells@[j] == (Num3x3::Value {
                                num: cand@[l as int],
                                given: false,
                            }));
                        }
                    }
                    assert forall|j: int| k + 1 <= j < 81 implies self.cells@[j]
                        == Num3x3::Empty by {
                        assert(self.cells@[j] == old(self).cells@[j]);
                    }
                }
                if self.gen_helper(infos, k + 1) {
                    return true;
                }
                proof {
                    assert(self.cells@ == mid.cells@);
                }
            }
            l = l + 1;
        }
        self.cells.set(k, Num3x3::Empty);
        proof {
            assert forall|i: int| 0 <= i < 81 implies self.cells@[i] == old(self).cells@[i] by {
                if i == k {
                    assert(old(self).cells@[i] == Num3x3::Empty);
                }
            }
            assert(self.cells@ =~= old(self).cells@);
        }
        false
    }
}


/// A cell with note `n` removed; any other cell is untouched.
pub open spec fn clear_note3(c: Num3x3, n: u8) -> Num3x3
    recommends
        1 <= n <= 9,
{
    match c {
        Num3x3::Notes { bits } => if note_bit3(bits, n) {
            Num3x3::Notes { bits: bits ^ (1u16 << ((n - 1) as u16)) }
        } else {
            c
        },
        _ => c,
    }
}

/// Performs one validated gameplay edit as an atomic move group: writes the
/// whole cell `num` at `pos` and, when it carries a value, clears that value
/// from the pencil marks of every cell sharing the row, the column or the
/// box of `pos`. Returns the recorded group — the primary move first, one
/// move per cleared note — or `None`, changing nothing, when the value may
/// not be placed. `counts` tracks how often each symbol occurs on the board
/// and is kept exact.
pub fn grid_update_rcb(
    grid: &mut Grid3x3,
    counts: &mut Vec<usize>,
    pos: Pos,
    num: Num3x3,
) -> (r: Option<Vec<Move<Num3x3>>>)
    requires
        old(grid).wf(),
        Grid3x3::pos_on_board(pos),
        num.wf(),
        old(counts)@.len() == 9,
        forall|v: u8| 1 <= v <= 9 ==> old(counts)@[v - 1] == board::occ(old(grid).vals(), v),
    ensures
        final(grid).wf(),
        r is Some <==> placeable(old(grid).vals(), 3, pos.0 as int, pos.1 as int, num.spec_num()),
        r is None ==> *final(grid) == *old(grid) && *final(counts) == *old(counts),
        r is Some ==> {
            let n = num.spec_num();
            let px = pos.0 as int;
            let py = pos.1 as int;
            &&& forall|xx: int, yy: int| on_board(3, xx, yy) ==> #[trigger] final(grid).at(xx, yy)
                == (if xx == px && yy == py {
                    num
                } else if n != 0 && board::share_unit(3, xx, yy, px, py) {
                    clear_note3(old(grid).at(xx, yy), n)
                } else {
                    old(grid).at(xx, yy)
                })
            &&& final(counts)@.len() == 9
            &&& forall|v: u8| 1 <= v <= 9 ==> final(counts)@[v - 1] == board::occ(
                final(grid).vals(),
                v,
            )
            &&& no_conflicts(old(grid).vals(), 3) ==> no_conflicts(final(grid).vals(), 3)
        },
        r is Some ==> {
            let n = num.spec_num();
            let mvs = r.unwrap()@;
            &&& mvs.len() >= 1
            &&& mvs[0] == (Move { old: old(grid).at(pos.0 as int, pos.1 as int), new: num, pos })
            &&& forall|k: int| 1 <= k < mvs.len() ==> {
                let q = (#[trigger] mvs[k]).pos;
                &&& on_board(3, q.0 as int, q.1 as int)
                &&& board::share_unit(3, q.0 as int, q.1 as int, pos.0 as int, pos.1 as int)
                &&& mvs[k].old == old(grid).at(q.0 as int, q.1 as int)
                &&& mvs[k].old is Notes
                &&& mvs[k].new == clear_note3(mvs[k].old, n)
                &&& mvs[k].new != mvs[k].old
            }
        },
{
    let n = num.num_or_zero();
    if !grid.pos_is_valid(pos, n) {
        return None;
    }
    let primary = Move { old: grid.get(pos), new: num, pos };
    let mut mvs: Vec<Move<Num3x3>> = Vec::new();
    mvs.push(primary);
    let (px, py) = pos;
    if n != 0 {
        // clear the new value's pencil mark along the row, the column and
        // the box of `pos`
        let mut x2: usize = 0;
        while x2 < 9
            invariant
                grid.wf(),
                old(grid).wf(),
                Grid3x3::pos_on_board(pos),
                num.wf(),
                (px, py) == pos,
                1 <= n <= 9,
                n == num.spec_num(),
                x2 <= 9,
                forall|xx: int, yy: int| on_board(3, xx, yy) ==> #[trigger] grid.at(xx, yy) == (
                if yy == py as int && xx < x2 {
                    clear_note3(old(grid).at(xx, yy), n)
                } else {
                    old(grid).at(xx, yy)
                }),
                rcb_moves_ok(mvs@, *old(grid), pos, num, n),
            decreases 9 - x2,
        {
            let ghost gpre = *grid;
            let c = grid.get((x2, py));
            proof {
                board::lemma_bidx_bound(3, x2 as int, py as int);
                assert(c.wf());
            }
            match c.has_note(n) {
                Some(true) => {
                    let nc = c.with_toggle_note(n);
                    proof {
                        lemma_clear3_changes(c, n);
                        assert(c == old(grid).at(x2 as int, py as int));
                        assert(nc == clear_note3(c, n));
                    }
                    mvs.push(Move { old: c, new: nc, pos: (x2, py) });
                    grid.set((x2, py), nc);
                },
                _ => {},
            }
            proof {
                assert(grid.at(x2 as int, py as int) == clear_note3(
                    gpre.at(x2 as int, py as int),
                    n,
                ));
                assert forall|xx: int, yy: int| on_board(3, xx, yy) implies #[trigger] grid.at(
                    xx,
                    yy,
                ) == (if yy == py as int && xx < x2 + 1 {
                    clear_note3(old(grid).at(xx, yy), n)
                } else {
                    old(grid).at(xx, yy)
                }) by {
                    board::lemma_bidx_bound(3, xx, yy);
                    if !(xx == x2 as int && yy == py as int) {
                        board::lemma_bidx_injective(3, xx, yy, x2 as int, py as int);
                        assert(grid.at(xx, yy) == gpre.at(xx, yy));
                    }
                }
            }
            x2 = x2 + 1;
        }
        let mut y2: usize = 0;
        while y2 < 9
            invariant
                grid.wf(),
                old(grid).wf(),
                Grid3x3::pos_on_board(pos),
                num.wf(),
                (px, py) == pos,
                1 <= n <= 9,
                n == num.spec_num(),
                y2 <= 9,
                forall|xx: int, yy: int| on_board(3, xx, yy) ==> #[trigger] grid.at(xx, yy) == (
                if yy == py as int || (xx == px as int && yy < y2) {
                    clear_note3(old(grid).at(xx, yy), n)
                } else {
                    old(grid).at(xx, yy)
                }),
                rcb_moves_ok(mvs@, *old(grid), pos, num, n),
            decreases 9 - y2,
        {
            let ghost gpre = *grid;
            let c = grid.get((px, y2));
            proof {
                board::lemma_bidx_bound(3, px as int, y2 as int);
                assert(c.wf());
            }
            match c.has_note(n) {
                Some(true) => {
                    let nc = c.with_toggle_note(n);
                    proof {
                        lemma_clear3_changes(c, n);
                        // a cell already cleared cannot still carry the note
                        if y2 as int == py as int {
                            lemma_clear3_cleared(old(grid).at(px as int, py as int), n);
                        }
                        assert(c == old(grid).at(px as int, y2 as int));
                        assert(nc == clear_note3(c, n));
                    }
                    mvs.push(Move { old: c, new: nc, pos: (px, y2) });
                    grid.set((px, y2), nc);
                },
                _ => {},
            }
            proof {
                lemma_clear3_twice(old(grid).at(px as int, y2 as int), n);
                if y2 as int == py as int {
                    lemma_clear3_cleared(old(grid).at(px as int, py as int), n);
                }
                assert(grid.at(px as int, y2 as int) == (if y2 as int == py as int {
                    clear_note3(old(grid).at(px as int, y2 as int), n)
                } else {
                    clear_note3(gpre.at(px as int, y2 as int), n)
                }));
                assert forall|xx: int, yy: int| on_board(3, xx, yy) implies #[trigger] grid.at(
                    xx,
                    yy,
                ) == (if yy == py as int || (xx == px as int && yy < y2 + 1) {
                    clear_note3(old(grid).at(xx, yy), n)
                } else {
                    old(grid).at(xx, yy)
                }) by {
                    board::lemma_bidx_bound(3, xx, yy);
                    if !(xx == px as int && yy == y2 as int) {
                        board::lemma_bidx_injective(3, xx, yy, px as int, y2 as int);
                        assert(grid.at(xx, yy) == gpre.at(xx, yy));
                    }
                }
            }
            y2 = y2 + 1;
        }
        let bx = px / 3;
        let by = py / 3;
        proof {
            board::lemma_band_bound(3, px as int);
            board::lemma_band_bound(3, py as int);
        }
        let mut k: usize = 0;
        while k < 9
            invariant
                grid.wf(),
                old(grid).wf(),
                Grid3x3::pos_on_board(pos),
                num.wf(),
                (px, py) == pos,
                1 <= n <= 9,
                n == num.spec_num(),
                bx == px as int / 3,
                by == py as int / 3,
                bx < 3,
                by < 3,
                k <= 9,
                forall|xx: int, yy: int| on_board(3, xx, yy) ==> #[trigger] grid.at(xx, yy) == (
                if yy == py as int || xx == px as int || (xx / 3 == px as int / 3 && yy / 3
                    == py as int / 3 && (yy % 3) * 3 + xx % 3 < k) {
                    clear_note3(old(grid).at(xx, yy), n)
                } else {
                    old(grid).at(xx, yy)
                }),
                rcb_moves_ok(mvs@, *old(grid), pos, num, n),
            decreases 9 - k,
        {
            let dx = k % 3;
            let dy = k / 3;
            proof {
                board::lemma_band_bound(3, k as int);
                board::lemma_band_compose(3, bx as int, dx as int);
                board::lemma_band_compose(3, by as int, dy as int);
                board::lemma_band_compose(3, dy as int, dx as int);
            }
            let qx = bx * 3 + dx;
            let qy = by * 3 + dy;
            let ghost gpre = *grid;
            let c = grid.get((qx, qy));
            proof {
                board::lemma_bidx_bound(3, qx as int, qy as int);
                assert(c.wf());
            }
            match c.has_note(n) {
                Some(true) => {
                    let nc = c.with_toggle_note(n);
                    proof {
                        lemma_clear3_changes(c, n);
                        if qy as int == py as int || qx as int == px as int {
                            lemma_clear3_cleared(old(grid).at(qx as int, qy as int), n);
                        }
                        assert(c == old(grid).at(qx as int, qy as int));
                        assert(nc == clear_note3(c, n));
                    }
                    mvs.push(Move { old: c, new: nc, pos: (qx, qy) });
                    grid.set((qx, qy), nc);
                },
                _ => {},
            }
            proof {
                lemma_clear3_twice(old(grid).at(qx as int, qy as int), n);
                if qy as int == py as int || qx as int == px as int {
                    lemma_clear3_cleared(old(grid).at(qx as int, qy as int), n);
                }
                assert(grid.at(qx as int, qy as int) == clear_note3(
                    old(grid).at(qx as int, qy as int),
                    n,
                ));
                assert forall|xx: int, yy: int| on_board(3, xx, yy) implies #[trigger] grid.at(
                    xx,
                    yy,
                ) == (if yy == py as int || xx == px as int || (xx / 3 == px as int / 3 && yy / 3
                    == py as int / 3 && (yy % 3) * 3 + xx % 3 < k + 1) {
                    clear_note3(old(grid).at(xx, yy), n)
                } else {
                    old(grid).at(xx, yy)
                }) by {
                    board::lemma_band_bound(3, xx);
                    board::lemma_band_bound(3, yy);
                    board::lemma_bidx_bound(3, xx, yy);
                    if !(xx == qx as int && yy == qy as int) {
                        board::lemma_bidx_injective(3, xx, yy, qx as int, qy as int);
                        assert(grid.at(xx, yy) == gpre.at(xx, yy));
                    }
                    if xx / 3 == px as int / 3 && yy / 3 == py as int / 3 && (yy % 3) * 3 + xx % 3
                        == k as int {
                        board::lemma_band_compose(3, yy % 3, xx % 3);
                        assert(xx == qx as int && yy == qy as int);
                    }
                }
            }
            k = k + 1;
        }
        proof {
            assert forall|xx: int, yy: int|
                on_board(3, xx, yy) && board::share_unit(3, xx, yy, px as int, py as int)
                    implies #[trigger] grid.at(xx, yy) == clear_note3(old(grid).at(xx, yy), n) by {
                board::lemma_band_bound(3, xx);
                board::lemma_band_bound(3, yy);
                board::lemma_band_compose(3, yy % 3, xx % 3);
            }
        }
        let cur = counts[n as usize - 1];
        proof {
            lemma_vals3_preserved(*old(grid), *grid, n);
            board::lemma_occ_upto_bound(old(grid).vals(), n, 81);
            assert(cur == board::occ(old(grid).vals(), n));
            assert(cur <= 81);
        }
        counts.set(n as usize - 1, cur + 1);
    }
    proof {
        if n == 0 {
            assert(grid.vals() =~= old(grid).vals());
        }
        assert(grid.vals() == old(grid).vals());
        board::lemma_bidx_bound(3, px as int, py as int);
    }
    // write the primary cell last, as the note pass may have visited it
    let v0 = grid.get(pos).num_or_zero();
    let ghost pre = *grid;
    proof {
        assert(grid.vals()[bidx(3, px as int, py as int)] == v0);
        assert(old(grid).vals()[bidx(3, px as int, py as int)] == v0);
        if n != 0 {
            // the value may be placed, so the cell cannot already hold it
            assert(!row_has(old(grid).vals(), 3, py as int, n));
            assert(v0 != n);
        }
    }
    if v0 != 0 {
        proof {
            board::lemma_occ_witness(grid.vals(), v0, bidx(3, px as int, py as int));
        }
        let cur = counts[v0 as usize - 1];
        counts.set(v0 as usize - 1, cur - 1);
    }
    grid.set(pos, num);
    proof {
        assert(grid.vals() == pre.vals().update(bidx(3, px as int, py as int), num.spec_num()));
        assert(pre.vals() == old(grid).vals());
        assert(pre.vals()[bidx(3, px as int, py as int)] == v0);
        assert forall|v: u8| 1 <= v <= 9 implies counts@[v - 1] == board::occ(
            grid.vals(),
            v,
        ) by {
            board::lemma_occ_upto_update(
                pre.vals(),
                bidx(3, px as int, py as int),
                num.spec_num(),
                v,
                81,
            );
            assert(board::occ(grid.vals(), v) == board::occ(pre.vals(), v) + (
            if num.spec_num() == v && v0 != v {
                1int
            } else {
                0int
            }) - (if v0 == v && num.spec_num() != v {
                1int
            } else {
                0int
            }));
        }
        assert forall|xx: int, yy: int| on_board(3, xx, yy) implies #[trigger] grid.at(xx, yy)
            == (if xx == px as int && yy == py as int {
            num
        } else if n != 0 && board::share_unit(3, xx, yy, px as int, py as int) {
            clear_note3(old(grid).at(xx, yy), n)
        } else {
            old(grid).at(xx, yy)
        }) by {
            board::lemma_bidx_bound(3, xx, yy);
            board::lemma_band_bound(3, xx);
            board::lemma_band_bound(3, yy);
            board::lemma_band_compose(3, yy % 3, xx % 3);
            if !(xx == px as int && yy == py as int) {
                board::lemma_bidx_injective(3, xx, yy, px as int, py as int);
                assert(grid.at(xx, yy) == pre.at(xx, yy));
            }
        }
        if no_conflicts(old(grid).vals(), 3) {
            board::lemma_place_no_conflicts(
                pre.vals(),
                3,
                px as int,
                py as int,
                num.spec_num(),
            );
        }
    }
    Some(mvs)
}

/// The recorded group so far: the primary move first, then one well-formed
/// note-clear per entry.
pub open spec fn rcb_moves_ok(
    mvs: Seq<Move<Num3x3>>,
    g: Grid3x3,
    pos: Pos,
    num: Num3x3,
    n: u8,
) -> bool {
    &&& mvs.len() >= 1
    &&& mvs[0] == (Move { old: g.at(pos.0 as int, pos.1 as int), new: num, pos })
    &&& forall|k: int| 1 <= k < mvs.len() ==> {
        let q = (#[trigger] mvs[k]).pos;
        &&& on_board(3, q.0 as int, q.1 as int)
        &&& board::share_unit(3, q.0 as int, q.1 as int, pos.0 as int, pos.1 as int)
        &&& mvs[k].old == g.at(q.0 as int, q.1 as int)
        &&& mvs[k].old is Notes
        &&& mvs[k].new == clear_note3(mvs[k].old, n)
        &&& mvs[k].new != mvs[k].old
    }
}

/// Clearing a note twice is clearing it once.
proof fn lemma_clear3_twice(c: Num3x3, n: u8)
    requires
        1 <= n <= 9,
    ensures
        clear_note3(clear_note3(c, n), n) == clear_note3(c, n),
{
    match c {
        Num3x3::Notes { bits } => {
            let sh = (n - 1) as u16;
            assert(sh < 9 && bits & (1u16 << sh) != 0 ==> ((bits ^ (1u16 << sh)) & (1u16 << sh)
                == 0)) by (bit_vector);
        },
        _ => {},
    }
}

/// Clearing a note that is set changes the cell.
proof fn lemma_clear3_changes(c: Num3x3, n: u8)
    requires
        1 <= n <= 9,
    ensures
        (match c {
            Num3x3::Notes { bits } => note_bit3(bits, n),
            _ => false,
        }) ==> clear_note3(c, n) != c,
{
    match c {
        Num3x3::Notes { bits } => {
            let sh = (n - 1) as u16;
            assert(sh < 9 && bits & (1u16 << sh) != 0 ==> (bits ^ (1u16 << sh)) != bits)
                by (bit_vector);
        },
        _ => {},
    }
}

/// A cleared cell no longer carries the note.
proof fn lemma_clear3_cleared(c: Num3x3, n: u8)
    requires
        1 <= n <= 9,
    ensures
        (match clear_note3(c, n) {
            Num3x3::Notes { bits } => !note_bit3(bits, n),
            _ => true,
        }) || clear_note3(c, n) == c,
{
    match c {
        Num3x3::Notes { bits } => {
            let sh = (n - 1) as u16;
            assert(sh < 9 && bits & (1u16 << sh) != 0 ==> ((bits ^ (1u16 << sh)) & (1u16 << sh)
                == 0)) by (bit_vector);
        },
        _ => {},
    }
}

/// Note clearing never touches a cell's contributed symbol, so the board's
/// value sequence is unchanged while only pencil marks were edited.
proof fn lemma_vals3_preserved(a: Grid3x3, b: Grid3x3, n: u8)
    requires
        a.wf(),
        b.wf(),
        1 <= n <= 9,
        forall|xx: int, yy: int| on_board(3, xx, yy) ==> #[trigger] b.at(xx, yy) == a.at(xx, yy)
            || #[trigger] b.at(xx, yy) == clear_note3(a.at(xx, yy), n),
    ensures
        b.vals() == a.vals(),
{
    assert forall|i: int| 0 <= i < 81 implies b.vals()[i] == a.vals()[i] by {
        board::lemma_sides();
        board::lemma_coords_of_index(3, i);
        let xx = i % 9;
        let yy = i / 9;
        assert(b.at(xx, yy) == b.cells@[i] && a.at(xx, yy) == a.cells@[i]);
    }
    assert(b.vals() =~= a.vals());
}

} // verus!

