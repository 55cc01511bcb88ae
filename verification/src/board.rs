//! The mathematical model shared by every board order: a board of box size
//! `b` is a flat, row-major sequence of `side(b) * side(b)` symbol values,
//! where `0` stands for an empty cell and `1..=side(b)` are the symbols.
//!
//! All placement, validity and transformation reasoning is done here, generic
//! in `b`; the concrete grid types instantiate it with `b = 3` or `b = 4`.

use vstd::prelude::*;
use vstd::arithmetic::div_mod::{
    lemma_div_pos_is_pos, lemma_fundamental_div_mod, lemma_fundamental_div_mod_converse_div,
    lemma_fundamental_div_mod_converse_mod, lemma_mod_bound,
};
use vstd::arithmetic::mul::{lemma_mul_inequality, lemma_mul_is_commutative};

verus! {

/// Side length of a board with boxes of size `b`.
pub open spec fn side(b: int) -> int {
    b * b
}

/// The two concrete board orders, spelled out for use at call sites.
pub proof fn lemma_sides()
    ensures
        side(3) == 9,
        side(3) * side(3) == 81,
        side(4) == 16,
        side(4) * side(4) == 256,
{
}

/// Row-major index of the cell in column `x`, row `y`.
pub open spec fn bidx(b: int, x: int, y: int) -> int {
    y * side(b) + x
}

pub open spec fn on_board(b: int, x: int, y: int) -> bool {
    0 <= x < side(b) && 0 <= y < side(b)
}

/// The symbol in column `x`, row `y` (`0` when the cell is empty).
pub open spec fn val_at(s: Seq<u8>, b: int, x: int, y: int) -> u8 {
    s[bidx(b, x, y)]
}

/// Two cell addresses constrain each other iff they share a row, a column,
/// or a `b`x`b` box.
pub open spec fn share_unit(b: int, x1: int, y1: int, x2: int, y2: int) -> bool {
    ||| y1 == y2
    ||| x1 == x2
    ||| (x1 / b == x2 / b && y1 / b == y2 / b)
}

pub open spec fn row_has(s: Seq<u8>, b: int, y: int, v: u8) -> bool {
    exists|x: int| 0 <= x < side(b) && val_at(s, b, x, y) == v
}

pub open spec fn col_has(s: Seq<u8>, b: int, x: int, v: u8) -> bool {
    exists|y: int| 0 <= y < side(b) && val_at(s, b, x, y) == v
}

/// Whether symbol `v` occurs in the box whose box coordinates are `(bx, by)`.
pub open spec fn box_has(s: Seq<u8>, b: int, bx: int, by: int, v: u8) -> bool {
    exists|x: int, y: int|
        on_board(b, x, y) && x / b == bx && y / b == by && val_at(s, b, x, y) == v
}

/// Whether writing symbol `v` at `(x, y)` is allowed: clearing (`v == 0`) is
/// always allowed, and a symbol is allowed iff it does not already occur in
/// the row, column or box of `(x, y)` (including `(x, y)` itself).
pub open spec fn placeable(s: Seq<u8>, b: int, x: int, y: int, v: u8) -> bool {
    ||| v == 0
    ||| (!row_has(s, b, y, v) && !col_has(s, b, x, v) && !box_has(s, b, x / b, y / b, v))
}

/// Every cell holds a symbol.
pub open spec fn full(s: Seq<u8>, b: int) -> bool {
    forall|i: int| 0 <= i < s.len() ==> s[i] != 0
}

/// No two distinct cells that share a unit hold the same symbol.
pub open spec fn no_conflicts(s: Seq<u8>, b: int) -> bool {
    forall|x1: int, y1: int, x2: int, y2: int|
        on_board(b, x1, y1) && on_board(b, x2, y2) && !(x1 == x2 && y1 == y2)
            && share_unit(b, x1, y1, x2, y2) && #[trigger] val_at(s, b, x1, y1)
            == #[trigger] val_at(s, b, x2, y2) ==> val_at(s, b, x1, y1) == 0
}

/// A completely and correctly filled board: every row, column and box holds
/// pairwise distinct symbols and no cell is empty.
pub open spec fn valid(s: Seq<u8>, b: int) -> bool {
    &&& s.len() == side(b) * side(b)
    &&& full(s, b)
    &&& no_conflicts(s, b)
}

/// `(y*n + x) / n == y` and `(y*n + x) % n == x` for `0 <= x < n`.
pub proof fn lemma_idx_coords(n: int, x: int, y: int)
    requires
        n >= 1,
        0 <= x < n,
        0 <= y,
    ensures
        (y * n + x) / n == y,
        (y * n + x) % n == x,
{
    lemma_fundamental_div_mod_converse_div(y * n + x, n, y, x);
    lemma_fundamental_div_mod_converse_mod(y * n + x, n, y, x);
}

/// Splitting a flat index `0 <= i < n*n` into coordinates `(i % n, i / n)`
/// lands on the board and reassembles to `i`.
pub proof fn lemma_coords_of_index(b: int, i: int)
    requires
        b >= 1,
        0 <= i < side(b) * side(b),
    ensures
        on_board(b, i % side(b), i / side(b)),
        bidx(b, i % side(b), i / side(b)) == i,
{
    let n = side(b);
    assert(n >= 1) by (nonlinear_arith)
        requires b >= 1, n == b * b;
    lemma_band_bound(n, i);
}

/// Quotients below `b` stay below `b`: `0 <= x < b*b` gives `0 <= x/b < b`.
pub proof fn lemma_band_bound(b: int, x: int)
    requires
        b >= 1,
        0 <= x < b * b,
    ensures
        0 <= x / b < b,
        x / b * b + x % b == x,
        0 <= x % b < b,
{
    lemma_fundamental_div_mod(x, b);
    lemma_mod_bound(x, b);
    lemma_div_pos_is_pos(x, b);
    lemma_mul_is_commutative(b, x / b);
    if x / b >= b {
        lemma_mul_inequality(b, x / b, b);
    }
}

/// Reflection respects bands: cells in one band of `b` rows reflect into a
/// common band.
pub proof fn lemma_reflect_band(b: int, x1: int, x2: int)
    requires
        b >= 1,
        0 <= x1 < b * b,
        0 <= x2 < b * b,
        x1 / b == x2 / b,
    ensures
        (b * b - 1 - x1) / b == (b * b - 1 - x2) / b,
{
    lemma_reflect_band_one(b, x1);
    lemma_reflect_band_one(b, x2);
}

/// `(b*b - 1 - x) / b == b - 1 - x/b` for `0 <= x < b*b`.
pub proof fn lemma_reflect_band_one(b: int, x: int)
    requires
        b >= 1,
        0 <= x < b * b,
    ensures
        (b * b - 1 - x) / b == b - 1 - x / b,
        0 <= b * b - 1 - x < b * b,
{
    lemma_band_bound(b, x);
    let q = x / b;
    let r = x % b;
    assert(b * b - 1 - x == (b - 1 - q) * b + (b - 1 - r)) by (nonlinear_arith)
        requires x == q * b + r;
    lemma_fundamental_div_mod_converse_div(b * b - 1 - x, b, b - 1 - q, b - 1 - r);
}

/// A band-local offset reassembles into its band: `(q*b + r) / b == q`.
pub proof fn lemma_band_member(b: int, q: int, r: int)
    requires
        b >= 1,
        0 <= r < b,
        0 <= q,
    ensures
        (q * b + r) / b == q,
        (q * b + r) % b == r,
{
    lemma_fundamental_div_mod_converse_div(q * b + r, b, q, r);
    lemma_fundamental_div_mod_converse_mod(q * b + r, b, q, r);
}

/// The heart of every transformation proof: if `s2` reads each of its cells
/// from `s` through a coordinate map `f` that is injective and carries any
/// two distinct cells sharing a unit to two distinct cells sharing a unit,
/// then conflict-freedom transfers from `s` to `s2`.
pub proof fn lemma_remap_no_conflicts(
    s: Seq<u8>,
    s2: Seq<u8>,
    b: int,
    f: spec_fn(int, int) -> (int, int),
)
    requires
        b >= 1,
        no_conflicts(s, b),
        forall|x: int, y: int| on_board(b, x, y) ==> {
            let p = #[trigger] f(x, y);
            on_board(b, p.0, p.1) && val_at(s2, b, x, y) == val_at(s, b, p.0, p.1)
        },
        forall|x1: int, y1: int, x2: int, y2: int|
            on_board(b, x1, y1) && on_board(b, x2, y2) && !(x1 == x2 && y1 == y2)
                && #[trigger] share_unit(b, x1, y1, x2, y2) ==> {
                let p = f(x1, y1);
                let q = f(x2, y2);
                !(p.0 == q.0 && p.1 == q.1) && share_unit(b, p.0, p.1, q.0, q.1)
            },
    ensures
        no_conflicts(s2, b),
{
    assert forall|x1: int, y1: int, x2: int, y2: int|
        on_board(b, x1, y1) && on_board(b, x2, y2) && !(x1 == x2 && y1 == y2)
            && share_unit(b, x1, y1, x2, y2) && #[trigger] val_at(s2, b, x1, y1)
            == #[trigger] val_at(s2, b, x2, y2) implies val_at(s2, b, x1, y1) == 0 by {
        let p = f(x1, y1);
        let q = f(x2, y2);
        assert(val_at(s, b, p.0, p.1) == val_at(s, b, q.0, q.1));
    }
}

/// Transferring fullness across a pointwise coordinate map.
pub proof fn lemma_remap_full(
    s: Seq<u8>,
    s2: Seq<u8>,
    b: int,
    f: spec_fn(int, int) -> (int, int),
)
    requires
        b >= 1,
        s2.len() == side(b) * side(b),
        full(s, b),
        s.len() == side(b) * side(b),
        forall|x: int, y: int| on_board(b, x, y) ==> {
            let p = #[trigger] f(x, y);
            on_board(b, p.0, p.1) && val_at(s2, b, x, y) == val_at(s, b, p.0, p.1)
        },
    ensures
        full(s2, b),
{
    assert forall|i: int| 0 <= i < s2.len() implies s2[i] != 0 by {
        lemma_coords_of_index(b, i);
        let x = i % side(b);
        let y = i / side(b);
        let p = f(x, y);
        lemma_bidx_bound(b, p.0, p.1);
        assert(val_at(s2, b, x, y) == val_at(s, b, p.0, p.1));
        assert(s[bidx(b, p.0, p.1)] != 0);
    }
}

/// Writing a placeable symbol keeps the board conflict-free.
pub proof fn lemma_place_no_conflicts(s: Seq<u8>, b: int, x: int, y: int, v: u8)
    requires
        b >= 1,
        s.len() == side(b) * side(b),
        no_conflicts(s, b),
        on_board(b, x, y),
        placeable(s, b, x, y, v),
    ensures
        no_conflicts(s.update(bidx(b, x, y), v), b),
{
    lemma_bidx_bound(b, x, y);
    let s2 = s.update(bidx(b, x, y), v);
    assert forall|x1: int, y1: int, x2: int, y2: int|
        on_board(b, x1, y1) && on_board(b, x2, y2) && !(x1 == x2 && y1 == y2)
            && share_unit(b, x1, y1, x2, y2) && #[trigger] val_at(s2, b, x1, y1)
            == #[trigger] val_at(s2, b, x2, y2) implies val_at(s2, b, x1, y1) == 0 by {
        lemma_bidx_injective(b, x1, y1, x2, y2);
        lemma_bidx_bound(b, x1, y1);
        lemma_bidx_bound(b, x2, y2);
        if val_at(s2, b, x1, y1) != 0 {
            if x1 == x && y1 == y {
                // the partner cell kept its old value, which conflicts with v
                lemma_bidx_injective(b, x, y, x2, y2);
                assert(val_at(s, b, x2, y2) == v);
                lemma_share_unit_has(s, b, x, y, x2, y2, v);
            } else if x2 == x && y2 == y {
                lemma_bidx_injective(b, x, y, x1, y1);
                assert(val_at(s, b, x1, y1) == v);
                lemma_share_unit_has(s, b, x, y, x1, y1, v);
            } else {
                lemma_bidx_injective(b, x, y, x1, y1);
                lemma_bidx_injective(b, x, y, x2, y2);
                assert(val_at(s, b, x1, y1) == val_at(s2, b, x1, y1));
                assert(val_at(s, b, x2, y2) == val_at(s2, b, x2, y2));
            }
        }
    }
}

/// A cell sharing a unit with `(x, y)` and holding `v != 0` witnesses one of
/// the three `..._has` predicates at `(x, y)`, so `v` is not placeable there.
proof fn lemma_share_unit_has(s: Seq<u8>, b: int, x: int, y: int, xq: int, yq: int, v: u8)
    requires
        b >= 1,
        on_board(b, x, y),
        on_board(b, xq, yq),
        share_unit(b, x, y, xq, yq),
        val_at(s, b, xq, yq) == v,
        v != 0,
    ensures
        !placeable(s, b, x, y, v),
{
    if yq == y {
        assert(row_has(s, b, y, v));
    } else if xq == x {
        assert(col_has(s, b, x, v));
    } else {
        assert(box_has(s, b, x / b, y / b, v));
    }
}

/// A board coordinate's flat index lies within the board.
pub proof fn lemma_bidx_bound(b: int, x: int, y: int)
    requires
        b >= 1,
        on_board(b, x, y),
    ensures
        0 <= bidx(b, x, y) < side(b) * side(b),
{
    let n = side(b);
    assert(0 <= y * n + x < n * n) by (nonlinear_arith)
        requires 0 <= x < n, 0 <= y < n;
}

/// Distinct coordinates give distinct flat indices.
pub proof fn lemma_bidx_injective(b: int, x1: int, y1: int, x2: int, y2: int)
    requires
        b >= 1,
        on_board(b, x1, y1),
        on_board(b, x2, y2),
        !(x1 == x2 && y1 == y2),
    ensures
        bidx(b, x1, y1) != bidx(b, x2, y2),
{
    lemma_idx_coords(side(b), x1, y1);
    lemma_idx_coords(side(b), x2, y2);
}

/// Writing a placeable symbol leaves it in the written cell and nowhere
/// else in that cell's row, column or box: each of the three units then
/// holds the symbol exactly once.
pub proof fn lemma_place_unique(s: Seq<u8>, b: int, x: int, y: int, v: u8)
    requires
        b >= 1,
        s.len() == side(b) * side(b),
        no_conflicts(s, b),
        on_board(b, x, y),
        placeable(s, b, x, y, v),
        v != 0,
    ensures
        ({
            let s2 = s.update(bidx(b, x, y), v);
            &&& val_at(s2, b, x, y) == v
            &&& forall|x2: int| 0 <= x2 < side(b) && x2 != x ==> val_at(s2, b, x2, y) != v
            &&& forall|y2: int| 0 <= y2 < side(b) && y2 != y ==> val_at(s2, b, x, y2) != v
            &&& forall|x2: int, y2: int|
                in_box(b, x / b, y / b, x2, y2) && !(x2 == x && y2 == y) ==> val_at(
                    s2,
                    b,
                    x2,
                    y2,
                ) != v
        }),
{
    lemma_place_no_conflicts(s, b, x, y, v);
    lemma_bidx_bound(b, x, y);
    let s2 = s.update(bidx(b, x, y), v);
    assert(val_at(s2, b, x, y) == v);
    assert forall|x2: int| 0 <= x2 < side(b) && x2 != x implies val_at(s2, b, x2, y) != v by {
        lemma_bidx_bound(b, x2, y);
        assert(share_unit(b, x2, y, x, y));
        if val_at(s2, b, x2, y) == v {
            assert(val_at(s2, b, x2, y) == val_at(s2, b, x, y));
        }
    }
    assert forall|y2: int| 0 <= y2 < side(b) && y2 != y implies val_at(s2, b, x, y2) != v by {
        lemma_bidx_bound(b, x, y2);
        assert(share_unit(b, x, y2, x, y));
        if val_at(s2, b, x, y2) == v {
            assert(val_at(s2, b, x, y2) == val_at(s2, b, x, y));
        }
    }
    assert forall|x2: int, y2: int|
        in_box(b, x / b, y / b, x2, y2) && !(x2 == x && y2 == y) implies val_at(s2, b, x2, y2)
        != v by {
        lemma_bidx_bound(b, x2, y2);
        assert(share_unit(b, x2, y2, x, y));
        if val_at(s2, b, x2, y2) == v {
            assert(val_at(s2, b, x2, y2) == val_at(s2, b, x, y));
        }
    }
}

/// Exchanging two symbols everywhere on the board (a relabeling) keeps a
/// valid board valid.
pub proof fn lemma_relabel_no_conflicts(s: Seq<u8>, s2: Seq<u8>, b: int, a: u8, c: u8)
    requires
        b >= 1,
        no_conflicts(s, b),
        a != 0,
        c != 0,
        s.len() == side(b) * side(b),
        s2.len() == s.len(),
        forall|i: int| 0 <= i < s.len() ==> s2[i] == (
            if s[i] == a { c } else if s[i] == c { a } else { s[i] }
        ),
    ensures
        no_conflicts(s2, b),
        full(s, b) ==> full(s2, b),
{
    assert forall|x1: int, y1: int, x2: int, y2: int|
        on_board(b, x1, y1) && on_board(b, x2, y2) && !(x1 == x2 && y1 == y2)
            && share_unit(b, x1, y1, x2, y2) && #[trigger] val_at(s2, b, x1, y1)
            == #[trigger] val_at(s2, b, x2, y2) implies val_at(s2, b, x1, y1) == 0 by {
        lemma_bidx_bound(b, x1, y1);
        lemma_bidx_bound(b, x2, y2);
        assert(val_at(s, b, x1, y1) == val_at(s, b, x2, y2));
    }
}

/// One structure-preserving board symmetry. Swaps carry their line or band
/// parameters; a swap of two rows or columns is only validity-preserving when
/// both lie within one band of `b` lines, and band swaps take band indices.
#[derive(Clone, Copy, Debug)]
pub enum Transform {
    SwapRows(usize, usize),
    SwapCols(usize, usize),
    SwapRowBands(usize, usize),
    SwapColBands(usize, usize),
    MainDiagonal,
    AntiDiagonal,
    Rot90,
    Rot180,
    Rot270,
    FlipRows,
    FlipCols,
}

/// Exchange of exactly the two line indices `a` and `c`.
pub open spec fn swap2(a: int, c: int, y: int) -> int {
    if y == a {
        c
    } else if y == c {
        a
    } else {
        y
    }
}

/// The line that lands on line `y` when bands `g1` and `g2` (of `b` lines
/// each) are exchanged.
pub open spec fn band_swap(b: int, g1: int, g2: int, y: int) -> int {
    swap2(g1, g2, y / b) * b + y % b
}

/// The cell of the old board that the transformed board shows at `(x, y)`.
pub open spec fn source_of(t: Transform, b: int, x: int, y: int) -> (int, int) {
    let n = side(b);
    match t {
        Transform::SwapRows(y1, y2) => (x, swap2(y1 as int, y2 as int, y)),
        Transform::SwapCols(x1, x2) => (swap2(x1 as int, x2 as int, x), y),
        Transform::SwapRowBands(g1, g2) => (x, band_swap(b, g1 as int, g2 as int, y)),
        Transform::SwapColBands(g1, g2) => (band_swap(b, g1 as int, g2 as int, x), y),
        Transform::MainDiagonal => (y, x),
        Transform::AntiDiagonal => (n - 1 - y, n - 1 - x),
        Transform::Rot90 => (y, n - 1 - x),
        Transform::Rot180 => (n - 1 - x, n - 1 - y),
        Transform::Rot270 => (n - 1 - y, x),
        Transform::FlipRows => (x, n - 1 - y),
        Transform::FlipCols => (n - 1 - x, y),
    }
}

/// The parameters a transform is allowed to carry on a board of box size `b`.
pub open spec fn transform_ok(t: Transform, b: int) -> bool {
    match t {
        Transform::SwapRows(y1, y2) => 0 <= y1 < side(b) && 0 <= y2 < side(b)
            && y1 as int / b == y2 as int / b,
        Transform::SwapCols(x1, x2) => 0 <= x1 < side(b) && 0 <= x2 < side(b)
            && x1 as int / b == x2 as int / b,
        Transform::SwapRowBands(g1, g2) => 0 <= g1 < b && 0 <= g2 < b,
        Transform::SwapColBands(g1, g2) => 0 <= g1 < b && 0 <= g2 < b,
        _ => true,
    }
}

/// `0 <= q < b` and `0 <= r < b` compose into a line index `q*b + r` of its
/// band `q`.
pub proof fn lemma_band_compose(b: int, q: int, r: int)
    requires
        b >= 1,
        0 <= q < b,
        0 <= r < b,
    ensures
        0 <= q * b + r < b * b,
        (q * b + r) / b == q,
        (q * b + r) % b == r,
{
    lemma_band_member(b, q, r);
    lemma_mul_inequality(q, b - 1, b);
    assert((b - 1) * b == b * b - b) by (nonlinear_arith);
    assert(q * b >= 0) by (nonlinear_arith)
        requires q >= 0, b >= 1;
}

/// A band swap sends each line of the board to a line of the board, lines of
/// one band to a common band, and distinct lines to distinct lines.
pub proof fn lemma_band_swap_props(b: int, g1: int, g2: int, y: int)
    requires
        b >= 1,
        0 <= g1 < b,
        0 <= g2 < b,
        0 <= y < side(b),
    ensures
        0 <= band_swap(b, g1, g2, y) < side(b),
        band_swap(b, g1, g2, y) / b == swap2(g1, g2, y / b),
        band_swap(b, g1, g2, y) % b == y % b,
{
    lemma_band_bound(b, y);
    lemma_band_compose(b, swap2(g1, g2, y / b), y % b);
}

/// Writing the transformed board pointwise from the old one preserves both
/// conflict-freedom and fullness, for every admissible transform.
pub proof fn lemma_transform_no_conflicts(s: Seq<u8>, s2: Seq<u8>, b: int, t: Transform)
    requires
        b >= 1,
        s.len() == side(b) * side(b),
        s2.len() == s.len(),
        no_conflicts(s, b),
        transform_ok(t, b),
        forall|x: int, y: int| on_board(b, x, y) ==> #[trigger] s2[bidx(b, x, y)] == s[
            bidx(b, source_of(t, b, x, y).0, source_of(t, b, x, y).1)
        ],
    ensures
        no_conflicts(s2, b),
        full(s, b) ==> full(s2, b),
{
    let n = side(b);
    let f = |x: int, y: int| source_of(t, b, x, y);
    assert forall|x: int, y: int| on_board(b, x, y) implies {
        let p = #[trigger] f(x, y);
        on_board(b, p.0, p.1) && val_at(s2, b, x, y) == val_at(s, b, p.0, p.1)
    } by {
        lemma_source_on_board(t, b, x, y);
    }
    assert forall|x1: int, y1: int, x2: int, y2: int|
        on_board(b, x1, y1) && on_board(b, x2, y2) && !(x1 == x2 && y1 == y2)
            && #[trigger] share_unit(b, x1, y1, x2, y2) implies {
        let p = f(x1, y1);
        let q = f(x2, y2);
        !(p.0 == q.0 && p.1 == q.1) && share_unit(b, p.0, p.1, q.0, q.1)
    } by {
        lemma_source_shares(t, b, x1, y1, x2, y2);
    }
    lemma_remap_no_conflicts(s, s2, b, f);
    if full(s, b) {
        lemma_remap_full(s, s2, b, f);
    }
}

/// Every admissible transform reads each board cell from a board cell.
pub proof fn lemma_source_on_board(t: Transform, b: int, x: int, y: int)
    requires
        b >= 1,
        transform_ok(t, b),
        on_board(b, x, y),
    ensures
        on_board(b, source_of(t, b, x, y).0, source_of(t, b, x, y).1),
{
    match t {
        Transform::SwapRowBands(g1, g2) => {
            lemma_band_swap_props(b, g1 as int, g2 as int, y);
        },
        Transform::SwapColBands(g1, g2) => {
            lemma_band_swap_props(b, g1 as int, g2 as int, x);
        },
        _ => {},
    }
}

/// Distinct cells that share a unit are read from distinct cells that share
/// a unit, for every admissible transform.
pub proof fn lemma_source_shares(t: Transform, b: int, x1: int, y1: int, x2: int, y2: int)
    requires
        b >= 1,
        transform_ok(t, b),
        on_board(b, x1, y1),
        on_board(b, x2, y2),
        !(x1 == x2 && y1 == y2),
        share_unit(b, x1, y1, x2, y2),
    ensures
        ({
            let p = source_of(t, b, x1, y1);
            let q = source_of(t, b, x2, y2);
            !(p.0 == q.0 && p.1 == q.1) && share_unit(b, p.0, p.1, q.0, q.1)
        }),
{
    let n = side(b);
    match t {
        Transform::SwapRows(a, c) => {
            // swapped rows stay within their band, so boxes map to boxes
            lemma_band_bound(b, y1);
            lemma_band_bound(b, y2);
        },
        Transform::SwapCols(a, c) => {
            lemma_band_bound(b, x1);
            lemma_band_bound(b, x2);
        },
        Transform::SwapRowBands(g1, g2) => {
            lemma_band_swap_props(b, g1 as int, g2 as int, y1);
            lemma_band_swap_props(b, g1 as int, g2 as int, y2);
            lemma_band_bound(b, y1);
            lemma_band_bound(b, y2);
            if band_swap(b, g1 as int, g2 as int, y1) == band_swap(b, g1 as int, g2 as int, y2) {
                assert(y1 / b == y2 / b && y1 % b == y2 % b);
                assert(y1 == y2);
            }
        },
        Transform::SwapColBands(g1, g2) => {
            lemma_band_swap_props(b, g1 as int, g2 as int, x1);
            lemma_band_swap_props(b, g1 as int, g2 as int, x2);
            lemma_band_bound(b, x1);
            lemma_band_bound(b, x2);
            if band_swap(b, g1 as int, g2 as int, x1) == band_swap(b, g1 as int, g2 as int, x2) {
                assert(x1 / b == x2 / b && x1 % b == x2 % b);
                assert(x1 == x2);
            }
        },
        Transform::MainDiagonal => {},
        Transform::AntiDiagonal => {
            lemma_reflect_pair(b, x1, x2);
            lemma_reflect_pair(b, y1, y2);
        },
        Transform::Rot90 => {
            lemma_reflect_pair(b, x1, x2);
        },
        Transform::Rot180 => {
            lemma_reflect_pair(b, x1, x2);
            lemma_reflect_pair(b, y1, y2);
        },
        Transform::Rot270 => {
            lemma_reflect_pair(b, y1, y2);
        },
        Transform::FlipRows => {
            lemma_reflect_pair(b, y1, y2);
        },
        Transform::FlipCols => {
            lemma_reflect_pair(b, x1, x2);
        },
    }
}

/// Every admissible transform reads distinct cells from distinct cells: the
/// transformation is injective, hence a bijection of the board, and carries
/// a valid board to a rearrangement of the same cells.
pub proof fn lemma_source_injective(t: Transform, b: int, x1: int, y1: int, x2: int, y2: int)
    requires
        b >= 1,
        transform_ok(t, b),
        on_board(b, x1, y1),
        on_board(b, x2, y2),
        !(x1 == x2 && y1 == y2),
    ensures
        source_of(t, b, x1, y1) != source_of(t, b, x2, y2),
{
    if share_unit(b, x1, y1, x2, y2) {
        lemma_source_shares(t, b, x1, y1, x2, y2);
    }
}

/// Exchanging a pair of symbols is its own inverse: relabeling twice
/// restores every cell, so the symbol pass of randomization is a bijection
/// on boards.
pub proof fn lemma_relabel_involution(v: u8, a: u8, c: u8)
    ensures
        ({
            let w: u8 = if v == a {
                c
            } else if v == c {
                a
            } else {
                v
            };
            (if w == a {
                c
            } else if w == c {
                a
            } else {
                w
            }) == v
        }),
{
}

/// Reflection facts needed to carry a shared box across `x -> n-1-x`.
proof fn lemma_reflect_pair(b: int, x1: int, x2: int)
    requires
        b >= 1,
        0 <= x1 < side(b),
        0 <= x2 < side(b),
    ensures
        x1 / b == x2 / b ==> (side(b) - 1 - x1) / b == (side(b) - 1 - x2) / b,
        0 <= side(b) - 1 - x1 < side(b),
{
    if x1 / b == x2 / b {
        lemma_reflect_band(b, x1, x2);
    }
}

/// Builds the transformed board: the result reads cell `(x, y)` from the old
/// board's cell `source_of(t, b, x, y)`.
pub fn apply_transform<T: Copy>(cells: &Vec<T>, bsz: usize, t: Transform) -> (r: Vec<T>)
    requires
        1 <= bsz <= 15,
        cells@.len() == side(bsz as int) * side(bsz as int),
        transform_ok(t, bsz as int),
    ensures
        r@.len() == cells@.len(),
        forall|x: int, y: int| on_board(bsz as int, x, y) ==> #[trigger] r@[bidx(
            bsz as int, x, y
        )] == cells@[
            bidx(
                bsz as int,
                source_of(t, bsz as int, x, y).0,
                source_of(t, bsz as int, x, y).1,
            )
        ],
{
    let ghost b = bsz as int;
    proof {
        assert(bsz * bsz <= 225 && bsz * bsz * (bsz * bsz) <= 50625) by (nonlinear_arith)
            requires 1 <= bsz <= 15;
    }
    let n: usize = bsz * bsz;
    assert(n == side(b));
    let nn: usize = n * n;
    let mut r: Vec<T> = Vec::new();
    let mut i: usize = 0;
    while i < nn
        invariant
            b == bsz as int,
            n == side(b),
            n <= 225,
            side(b) * side(b) <= 50625,
            nn == side(b) * side(b),
            1 <= bsz <= 15,
            cells@.len() == nn,
            transform_ok(t, b),
            i <= nn,
            r@.len() == i,
            forall|x: int, y: int| on_board(b, x, y) && bidx(b, x, y) < i
                ==> #[trigger] r@[bidx(b, x, y)] == cells@[
                    bidx(b, source_of(t, b, x, y).0, source_of(t, b, x, y).1)
                ],
        decreases nn - i,
    {
        let x: usize = i % n;
        let y: usize = i / n;
        proof {
            lemma_coords_of_index(b, i as int);
        }
        let (sx, sy): (usize, usize) = match t {
            Transform::SwapRows(y1, y2) => (x, if y == y1 { y2 } else if y == y2 { y1 } else { y }),
            Transform::SwapCols(x1, x2) => (if x == x1 { x2 } else if x == x2 { x1 } else { x }, y),
            Transform::SwapRowBands(g1, g2) => {
                let g = y / bsz;
                let off = y % bsz;
                proof {
                    lemma_band_bound(b, y as int);
                    lemma_band_compose(b, swap2(g1 as int, g2 as int, y as int / b), y as int % b);
                }
                let gs = if g == g1 { g2 } else if g == g2 { g1 } else { g };
                (x, gs * bsz + off)
            },
            Transform::SwapColBands(g1, g2) => {
                let g = x / bsz;
                let off = x % bsz;
                proof {
                    lemma_band_bound(b, x as int);
                    lemma_band_compose(b, swap2(g1 as int, g2 as int, x as int / b), x as int % b);
                }
                let gs = if g == g1 { g2 } else if g == g2 { g1 } else { g };
                (gs * bsz + off, y)
            },
            Transform::MainDiagonal => (y, x),
            Transform::AntiDiagonal => (n - 1 - y, n - 1 - x),
            Transform::Rot90 => (y, n - 1 - x),
            Transform::Rot180 => (n - 1 - x, n - 1 - y),
            Transform::Rot270 => (n - 1 - y, x),
            Transform::FlipRows => (x, n - 1 - y),
            Transform::FlipCols => (n - 1 - x, y),
        };
        proof {
            assert((sx as int, sy as int) == source_of(t, b, x as int, y as int));
            lemma_source_on_board(t, b, x as int, y as int);
            lemma_bidx_bound(b, sx as int, sy as int);
        }
        let src: usize = sy * n + sx;
        r.push(cells[src]);
        proof {
            assert forall|xx: int, yy: int| on_board(b, xx, yy) && bidx(b, xx, yy) < i + 1
                implies #[trigger] r@[bidx(b, xx, yy)] == cells@[
                    bidx(b, source_of(t, b, xx, yy).0, source_of(t, b, xx, yy).1)
                ] by {
                if bidx(b, xx, yy) == i {
                    lemma_idx_coords(n as int, xx, yy);
                    assert(xx == x as int && yy == y as int);
                }
            }
        }
        i = i + 1;
    }
    proof {
        assert forall|x: int, y: int| on_board(b, x, y) implies #[trigger] r@[bidx(b, x, y)]
            == cells@[
                bidx(b, source_of(t, b, x, y).0, source_of(t, b, x, y).1)
            ] by {
            lemma_bidx_bound(b, x, y);
        }
    }
    r
}

/// Whether the cells at flat indices `i` and `j` share a row, a column or a
/// box.
pub open spec fn share_unit_idx(b: int, i: int, j: int) -> bool {
    share_unit(b, i % side(b), i / side(b), j % side(b), j / side(b))
}

/// `s2` is `s` rearranged: a bijection `perm` of the cells that carries
/// cells sharing a unit to cells sharing a unit, followed by a renaming
/// `sym` of the symbols that keeps empty cells empty.
pub open spec fn rearrangement(
    b: int,
    s: Seq<u8>,
    s2: Seq<u8>,
    perm: Seq<int>,
    sym: Seq<u8>,
) -> bool {
    &&& s.len() == side(b) * side(b)
    &&& s2.len() == s.len()
    &&& perm.len() == s.len()
    &&& sym.len() == side(b) + 1
    &&& sym[0] == 0
    &&& forall|v: int| 0 <= v < sym.len() ==> #[trigger] sym[v] <= side(b)
    &&& forall|v1: int, v2: int|
        0 <= v1 < sym.len() && 0 <= v2 < sym.len() && v1 != v2 ==> sym[v1] != sym[v2]
    &&& forall|i: int| 0 <= i < s.len() ==> #[trigger] s[i] <= side(b)
    &&& forall|i: int| 0 <= i < perm.len() ==> 0 <= #[trigger] perm[i] < s.len()
    &&& forall|i1: int, i2: int|
        0 <= i1 < perm.len() && 0 <= i2 < perm.len() && i1 != i2 ==> perm[i1] != perm[i2]
    &&& forall|i1: int, i2: int|
        0 <= i1 < perm.len() && 0 <= i2 < perm.len() && i1 != i2 && share_unit_idx(b, i1, i2)
            ==> #[trigger] share_unit_idx(b, perm[i1], perm[i2])
    &&& forall|i: int| 0 <= i < s2.len() ==> #[trigger] s2[i] == sym[s[perm[i]] as int]
}

/// `s2` arises from `s` by some unit-preserving cell bijection and symbol
/// renaming.
pub open spec fn rearranged(b: int, s: Seq<u8>, s2: Seq<u8>) -> bool {
    exists|perm: Seq<int>, sym: Seq<u8>| rearrangement(b, s, s2, perm, sym)
}

/// Every board is a rearrangement of itself.
pub proof fn lemma_rearranged_refl(b: int, s: Seq<u8>)
    requires
        1 <= b <= 15,
        s.len() == side(b) * side(b),
        forall|i: int| 0 <= i < s.len() ==> #[trigger] s[i] <= side(b),
    ensures
        rearranged(b, s, s),
{
    let perm = Seq::new(s.len(), |i: int| i);
    let sym = Seq::new((side(b) + 1) as nat, |v: int| v as u8);
    assert(1 <= side(b) <= 225) by (nonlinear_arith)
        requires 1 <= b <= 15;
    assert(rearrangement(b, s, s, perm, sym));
}

/// Rearranging twice is rearranging once: the relation composes.
pub proof fn lemma_rearranged_trans(b: int, s1: Seq<u8>, s2: Seq<u8>, s3: Seq<u8>)
    requires
        b >= 1,
        rearranged(b, s1, s2),
        rearranged(b, s2, s3),
    ensures
        rearranged(b, s1, s3),
{
    let (p1, y1): (Seq<int>, Seq<u8>) = choose|p1: Seq<int>, y1: Seq<u8>|
        rearrangement(b, s1, s2, p1, y1);
    let (p2, y2): (Seq<int>, Seq<u8>) = choose|p2: Seq<int>, y2: Seq<u8>|
        rearrangement(b, s2, s3, p2, y2);
    let perm = Seq::new(p2.len(), |i: int| p1[p2[i]]);
    let sym = Seq::new(y2.len(), |v: int| y2[y1[v] as int]);
    assert forall|i1: int, i2: int|
        0 <= i1 < perm.len() && 0 <= i2 < perm.len() && i1 != i2 implies perm[i1] != perm[
        i2
    ] by {
        assert(p2[i1] != p2[i2]);
    }
    assert forall|i1: int, i2: int|
        0 <= i1 < perm.len() && 0 <= i2 < perm.len() && i1 != i2 && share_unit_idx(b, i1, i2)
            implies #[trigger] share_unit_idx(b, perm[i1], perm[i2]) by {
        assert(p2[i1] != p2[i2]);
        assert(share_unit_idx(b, p2[i1], p2[i2]));
        assert(share_unit_idx(b, p1[p2[i1]], p1[p2[i2]]));
    }
    assert forall|v1: int, v2: int|
        0 <= v1 < sym.len() && 0 <= v2 < sym.len() && v1 != v2 implies sym[v1] != sym[v2] by {
        assert(y1[v1] != y1[v2]);
    }
    assert forall|i: int| 0 <= i < s3.len() implies #[trigger] s3[i] == sym[s1[perm[i]] as int] by {
        assert(s3[i] == y2[s2[p2[i]] as int]);
        assert(s2[p2[i]] == y1[s1[p1[p2[i]]] as int]);
    }
    assert(rearrangement(b, s1, s3, perm, sym));
}

/// One symmetry transform is a rearrangement (with the symbols untouched).
pub proof fn lemma_transform_rearranges(s: Seq<u8>, s2: Seq<u8>, b: int, t: Transform)
    requires
        1 <= b <= 15,
        s.len() == side(b) * side(b),
        s2.len() == s.len(),
        transform_ok(t, b),
        forall|i: int| 0 <= i < s.len() ==> #[trigger] s[i] <= side(b),
        forall|x: int, y: int| on_board(b, x, y) ==> #[trigger] s2[bidx(b, x, y)] == s[
            bidx(b, source_of(t, b, x, y).0, source_of(t, b, x, y).1)
        ],
    ensures
        rearranged(b, s, s2),
{
    let n = side(b);
    assert(1 <= n <= 225) by (nonlinear_arith)
        requires 1 <= b <= 15, n == b * b;
    let perm = Seq::new(
        s.len(),
        |i: int| bidx(b, source_of(t, b, i % n, i / n).0, source_of(t, b, i % n, i / n).1),
    );
    let sym = Seq::new((n + 1) as nat, |v: int| v as u8);
    assert forall|i: int| 0 <= i < perm.len() implies 0 <= #[trigger] perm[i] < s.len() by {
        lemma_coords_of_index(b, i);
        lemma_source_on_board(t, b, i % n, i / n);
        let p = source_of(t, b, i % n, i / n);
        lemma_bidx_bound(b, p.0, p.1);
    }
    assert forall|i1: int, i2: int|
        0 <= i1 < perm.len() && 0 <= i2 < perm.len() && i1 != i2 implies perm[i1] != perm[
        i2
    ] by {
        lemma_coords_of_index(b, i1);
        lemma_coords_of_index(b, i2);
        lemma_source_injective(t, b, i1 % n, i1 / n, i2 % n, i2 / n);
        lemma_source_on_board(t, b, i1 % n, i1 / n);
        lemma_source_on_board(t, b, i2 % n, i2 / n);
        let q1 = source_of(t, b, i1 % n, i1 / n);
        let q2 = source_of(t, b, i2 % n, i2 / n);
        lemma_bidx_injective(b, q1.0, q1.1, q2.0, q2.1);
    }
    assert forall|i1: int, i2: int|
        0 <= i1 < perm.len() && 0 <= i2 < perm.len() && i1 != i2 && share_unit_idx(b, i1, i2)
            implies #[trigger] share_unit_idx(b, perm[i1], perm[i2]) by {
        lemma_coords_of_index(b, i1);
        lemma_coords_of_index(b, i2);
        lemma_source_shares(t, b, i1 % n, i1 / n, i2 % n, i2 / n);
        lemma_source_on_board(t, b, i1 % n, i1 / n);
        lemma_source_on_board(t, b, i2 % n, i2 / n);
        let q1 = source_of(t, b, i1 % n, i1 / n);
        let q2 = source_of(t, b, i2 % n, i2 / n);
        lemma_bidx_bound(b, q1.0, q1.1);
        lemma_bidx_bound(b, q2.0, q2.1);
        lemma_idx_coords(n, q1.0, q1.1);
        lemma_idx_coords(n, q2.0, q2.1);
    }
    assert forall|i: int| 0 <= i < s2.len() implies #[trigger] s2[i] == sym[s[perm[i]] as int] by {
        lemma_coords_of_index(b, i);
        lemma_source_on_board(t, b, i % n, i / n);
        let p = source_of(t, b, i % n, i / n);
        lemma_bidx_bound(b, p.0, p.1);
        assert(s2[bidx(b, i % n, i / n)] == s[bidx(b, p.0, p.1)]);
    }
    assert(rearrangement(b, s, s2, perm, sym));
}

/// Exchanging one symbol pair everywhere is a rearrangement (with the cells
/// untouched).
pub proof fn lemma_relabel_rearranges(s: Seq<u8>, s2: Seq<u8>, b: int, a: u8, c: u8)
    requires
        1 <= b <= 15,
        s.len() == side(b) * side(b),
        s2.len() == s.len(),
        1 <= a <= side(b),
        1 <= c <= side(b),
        forall|i: int| 0 <= i < s.len() ==> #[trigger] s[i] <= side(b),
        forall|i: int| 0 <= i < s.len() ==> #[trigger] s2[i] == (
        if s[i] == a {
            c
        } else if s[i] == c {
            a
        } else {
            s[i]
        }),
    ensures
        rearranged(b, s, s2),
{
    let n = side(b);
    assert(1 <= n <= 225) by (nonlinear_arith)
        requires 1 <= b <= 15, n == b * b;
    let perm = Seq::new(s.len(), |i: int| i);
    let sym = Seq::new(
        (n + 1) as nat,
        |v: int| if v == a {
            c
        } else if v == c {
            a
        } else {
            v as u8
        },
    );
    assert forall|v1: int, v2: int|
        0 <= v1 < sym.len() && 0 <= v2 < sym.len() && v1 != v2 implies sym[v1] != sym[v2] by {
        lemma_relabel_involution(sym[v1], a, c);
        lemma_relabel_involution(sym[v2], a, c);
    }
    assert forall|i: int| 0 <= i < s2.len() implies #[trigger] s2[i] == sym[s[perm[i]] as int] by {
        assert(perm[i] == i);
    }
    assert(rearrangement(b, s, s2, perm, sym));
}

/// Congruent numbers less than one modulus apart are equal.
pub proof fn lemma_mod_injective(n: int, a1: int, a2: int)
    requires
        n >= 1,
        a1 >= 0,
        a2 >= 0,
        a1 % n == a2 % n,
        -n < a1 - a2 < n,
    ensures
        a1 == a2,
{
    lemma_fundamental_div_mod(a1, n);
    lemma_fundamental_div_mod(a2, n);
    let d = a1 / n - a2 / n;
    assert(a1 - a2 == n * d) by (nonlinear_arith)
        requires a1 == n * (a1 / n) + a1 % n, a2 == n * (a2 / n) + a2 % n, a1 % n == a2 % n,
            d == a1 / n - a2 / n;
    if d >= 1 {
        assert(n * d >= n) by (nonlinear_arith)
            requires n >= 1, d >= 1;
    }
    if d <= -1 {
        assert(n * d <= -n) by (nonlinear_arith)
            requires n >= 1, d <= -1;
    }
}

/// The canonical filled board: row `y` shows the base sequence `1..=n`
/// rotated left by `(y % b)*b + y/b`, so that consecutive rows of a band
/// shift by `b` and bands shift by one.
pub open spec fn base_val(b: int, x: int, y: int) -> u8 {
    (((x + (y % b) * b + y / b) % side(b)) + 1) as u8
}

/// The canonical board pattern is a valid filled board.
pub proof fn lemma_base_valid(s: Seq<u8>, b: int)
    requires
        1 <= b <= 15,
        s.len() == side(b) * side(b),
        forall|x: int, y: int| on_board(b, x, y) ==> val_at(s, b, x, y) == base_val(b, x, y),
    ensures
        valid(s, b),
{
    let n = side(b);
    assert(1 <= n <= 225) by (nonlinear_arith)
        requires 1 <= b <= 15, n == b * b;
    assert forall|i: int| 0 <= i < s.len() implies s[i] != 0 by {
        lemma_coords_of_index(b, i);
        let x = i % n;
        let y = i / n;
        lemma_base_range(b, x, y);
        assert(s[i] == val_at(s, b, x, y));
    }
    assert forall|x1: int, y1: int, x2: int, y2: int|
        on_board(b, x1, y1) && on_board(b, x2, y2) && !(x1 == x2 && y1 == y2)
            && share_unit(b, x1, y1, x2, y2) && #[trigger] val_at(s, b, x1, y1)
            == #[trigger] val_at(s, b, x2, y2) implies val_at(s, b, x1, y1) == 0 by {
        lemma_base_distinct(b, x1, y1, x2, y2);
    }
}

/// Each canonical cell holds a symbol in `1..=side(b)`.
proof fn lemma_base_range(b: int, x: int, y: int)
    requires
        1 <= b <= 15,
        on_board(b, x, y),
    ensures
        1 <= base_val(b, x, y) <= side(b),
{
    let n = side(b);
    assert(1 <= n <= 225) by (nonlinear_arith)
        requires 1 <= b <= 15, n == b * b;
    lemma_mod_bound(x + (y % b) * b + y / b, n);
}

/// Distinct cells of a common unit hold distinct canonical symbols.
proof fn lemma_base_distinct(b: int, x1: int, y1: int, x2: int, y2: int)
    requires
        1 <= b <= 15,
        on_board(b, x1, y1),
        on_board(b, x2, y2),
        !(x1 == x2 && y1 == y2),
        share_unit(b, x1, y1, x2, y2),
    ensures
        base_val(b, x1, y1) != base_val(b, x2, y2),
{
    let n = side(b);
    assert(1 <= n <= 225) by (nonlinear_arith)
        requires 1 <= b <= 15, n == b * b;
    lemma_band_bound(b, x1);
    lemma_band_bound(b, x2);
    lemma_band_bound(b, y1);
    lemma_band_bound(b, y2);
    let s1 = (y1 % b) * b + y1 / b;
    let s2 = (y2 % b) * b + y2 / b;
    lemma_band_compose(b, y1 % b, y1 / b);
    lemma_band_compose(b, y2 % b, y2 / b);
    let a1 = x1 + s1;
    let a2 = x2 + s2;
    lemma_mod_bound(a1, n);
    lemma_mod_bound(a2, n);
    lemma_base_range(b, x1, y1);
    lemma_base_range(b, x2, y2);
    if base_val(b, x1, y1) == base_val(b, x2, y2) {
        assert(a1 % n == a2 % n);
        if y1 == y2 {
            lemma_mod_injective(n, a1, a2);
            assert(x1 == x2);
        } else if x1 == x2 {
            lemma_mod_injective(n, a1, a2);
            assert(s1 == s2);
            assert(y1 % b == y2 % b && y1 / b == y2 / b);
            assert(y1 == y2);
        } else {
            // both cells lie in one box
            assert(x1 / b == x2 / b && y1 / b == y2 / b);
            let r1 = y1 % b;
            let r2 = y2 % b;
            // column offsets within the shared column band stay below b
            assert(-b < x1 - x2 < b);
            if r1 - r2 >= 1 {
                assert(b <= (r1 - r2) * b <= b * b - b) by (nonlinear_arith)
                    requires 1 <= r1 - r2 <= b - 1, b >= 1;
            }
            if r1 - r2 <= -1 {
                assert(-(b * b) + b <= (r1 - r2) * b <= -b) by (nonlinear_arith)
                    requires -(b - 1) <= r1 - r2 <= -1, b >= 1;
            }
            assert(s1 - s2 == (r1 - r2) * b) by (nonlinear_arith)
                requires s1 == r1 * b + y1 / b, s2 == r2 * b + y2 / b, y1 / b == y2 / b;
            lemma_mod_injective(n, a1, a2);
            assert(x1 - x2 == (r2 - r1) * b) by (nonlinear_arith)
                requires a1 == a2, a1 == x1 + s1, a2 == x2 + s2, s1 - s2 == (r1 - r2) * b;
            if r2 - r1 >= 1 {
                assert((r2 - r1) * b >= b) by (nonlinear_arith)
                    requires r2 - r1 >= 1, b >= 1;
            }
            if r2 - r1 <= -1 {
                assert((r2 - r1) * b <= -b) by (nonlinear_arith)
                    requires r2 - r1 <= -1, b >= 1;
            }
            assert(r1 == r2);
            assert(y1 == y2);
            assert(x1 == x2);
        }
    }
}

/// Decides `placeable` by scanning the row, the column and the box of
/// `(x, y)` for the symbol `v`.
pub fn placeable_check(vals: &Vec<u8>, bsz: usize, x: usize, y: usize, v: u8) -> (r: bool)
    requires
        1 <= bsz <= 15,
        vals@.len() == side(bsz as int) * side(bsz as int),
        x < side(bsz as int),
        y < side(bsz as int),
    ensures
        r == placeable(vals@, bsz as int, x as int, y as int, v),
{
    let ghost b = bsz as int;
    if v == 0 {
        return true;
    }
    proof {
        assert(bsz * bsz <= 225 && bsz * bsz * (bsz * bsz) <= 50625) by (nonlinear_arith)
            requires bsz <= 15;
    }
    let n: usize = bsz * bsz;
    let mut i: usize = 0;
    while i < n
        invariant
            b == bsz as int,
            1 <= bsz <= 15,
            n == side(b),
            n <= 225,
            side(b) * side(b) <= 50625,
            vals@.len() == side(b) * side(b),
            x < n,
            y < n,
            i <= n,
            v != 0,
            forall|x2: int| 0 <= x2 < i ==> val_at(vals@, b, x2, y as int) != v,
        decreases n - i,
    {
        proof {
            lemma_bidx_bound(b, i as int, y as int);
        }
        if vals[y * n + i] == v {
            proof {
                assert(val_at(vals@, b, i as int, y as int) == v);
                assert(row_has(vals@, b, y as int, v));
            }
            return false;
        }
        i = i + 1;
    }
    let mut j: usize = 0;
    while j < n
        invariant
            b == bsz as int,
            1 <= bsz <= 15,
            n == side(b),
            n <= 225,
            side(b) * side(b) <= 50625,
            vals@.len() == side(b) * side(b),
            x < n,
            y < n,
            j <= n,
            v != 0,
            forall|y2: int| 0 <= y2 < j ==> val_at(vals@, b, x as int, y2) != v,
        decreases n - j,
    {
        proof {
            lemma_bidx_bound(b, x as int, j as int);
        }
        if vals[j * n + x] == v {
            proof {
                assert(val_at(vals@, b, x as int, j as int) == v);
                assert(col_has(vals@, b, x as int, v));
            }
            return false;
        }
        j = j + 1;
    }
    let bx: usize = x / bsz;
    let by: usize = y / bsz;
    proof {
        lemma_band_bound(b, x as int);
        lemma_band_bound(b, y as int);
    }
    let mut k: usize = 0;
    while k < n
        invariant
            b == bsz as int,
            1 <= bsz <= 15,
            n == side(b),
            n <= 225,
            side(b) * side(b) <= 50625,
            vals@.len() == side(b) * side(b),
            x < n,
            y < n,
            bx == x as int / b,
            by == y as int / b,
            bx < bsz,
            by < bsz,
            k <= n,
            v != 0,
            forall|xx: int, yy: int|
                on_board(b, xx, yy) && xx / b == bx as int && yy / b == by as int
                    && (yy % b) * b + (xx % b) < k ==> #[trigger] val_at(vals@, b, xx, yy) != v,
        decreases n - k,
    {
        let dx: usize = k % bsz;
        let dy: usize = k / bsz;
        proof {
            lemma_band_bound(b, k as int);
            lemma_band_compose(b, bx as int, dx as int);
            lemma_band_compose(b, by as int, dy as int);
            lemma_band_compose(b, dy as int, dx as int);
            lemma_bidx_bound(b, (bx * bsz + dx) as int, (by * bsz + dy) as int);
        }
        if vals[(by * bsz + dy) * n + (bx * bsz + dx)] == v {
            proof {
                let xx = bx as int * b + dx as int;
                let yy = by as int * b + dy as int;
                assert(on_board(b, xx, yy) && xx / b == x as int / b && yy / b == y as int / b
                    && val_at(vals@, b, xx, yy) == v);
                assert(box_has(vals@, b, x as int / b, y as int / b, v));
            }
            return false;
        }
        proof {
            let xv = bx as int * b + dx as int;
            let yv = by as int * b + dy as int;
            assert forall|xx: int, yy: int|
                on_board(b, xx, yy) && xx / b == bx as int && yy / b == by as int
                    && (yy % b) * b + (xx % b) < k + 1 implies #[trigger] val_at(vals@, b, xx, yy)
                != v by {
                lemma_band_bound(b, xx);
                lemma_band_bound(b, yy);
                if (yy % b) * b + (xx % b) == k as int {
                    lemma_band_compose(b, yy % b, xx % b);
                    assert(yy % b == dy as int && xx % b == dx as int);
                    assert(xx == xv && yy == yv);
                }
            }
        }
        k = k + 1;
    }
    proof {
        assert(!row_has(vals@, b, y as int, v));
        assert(!col_has(vals@, b, x as int, v));
        assert forall|xx: int, yy: int|
            on_board(b, xx, yy) && xx / b == x as int / b && yy / b == y as int / b
                implies val_at(vals@, b, xx, yy) != v by {
            lemma_band_bound(b, xx);
            lemma_band_bound(b, yy);
            lemma_band_compose(b, yy % b, xx % b);
        }
        assert(!box_has(vals@, b, x as int / b, y as int / b, v));
    }
    true
}

/// Scans the whole board for an empty cell or a conflicting pair; reports
/// `None` exactly on completely and correctly filled boards.
pub fn conflict_scan(vals: &Vec<u8>, bsz: usize) -> (r: Option<(usize, usize)>)
    requires
        1 <= bsz <= 15,
        vals@.len() == side(bsz as int) * side(bsz as int),
        forall|i: int| 0 <= i < vals@.len() ==> vals@[i] <= side(bsz as int),
    ensures
        r is None <==> valid(vals@, bsz as int),
        r is Some ==> on_board(bsz as int, r.unwrap().0 as int, r.unwrap().1 as int),
        !full(vals@, bsz as int) ==> r is Some && vals@[bidx(
            bsz as int,
            r.unwrap().0 as int,
            r.unwrap().1 as int,
        )] == 0 && forall|j: int|
            0 <= j < bidx(bsz as int, r.unwrap().0 as int, r.unwrap().1 as int) ==> vals@[j] != 0,
{
    let ghost b = bsz as int;
    proof {
        assert(bsz * bsz <= 225 && bsz * bsz * (bsz * bsz) <= 50625) by (nonlinear_arith)
            requires bsz <= 15;
    }
    let n: usize = bsz * bsz;
    let nn: usize = n * n;
    // empty cells first
    let mut i: usize = 0;
    while i < nn
        invariant
            b == bsz as int,
            1 <= bsz <= 15,
            n == side(b),
            n <= 225,
            side(b) * side(b) <= 50625,
            nn == side(b) * side(b),
            vals@.len() == nn,
            i <= nn,
            forall|j: int| 0 <= j < i ==> vals@[j] != 0,
        decreases nn - i,
    {
        if vals[i] == 0 {
            proof {
                lemma_coords_of_index(b, i as int);
                assert(vals@[i as int] == 0);
                assert(!full(vals@, b));
                assert(bidx(b, i as int % side(b), i as int / side(b)) == i as int);
            }
            return Some((i % n, i / n));
        }
        i = i + 1;
    }
    // every cell of every row, column and box, one unit at a time
    let mut y: usize = 0;
    while y < n
        invariant
            b == bsz as int,
            1 <= bsz <= 15,
            n == side(b),
            n <= 225,
            side(b) * side(b) <= 50625,
            nn == side(b) * side(b),
            vals@.len() == nn,
            forall|i: int| 0 <= i < vals@.len() ==> vals@[i] <= side(b),
            full(vals@, b),
            y <= n,
            forall|y2: int, x1: int, x2: int|
                0 <= y2 < y && 0 <= x1 < x2 < n ==> val_at(vals@, b, x1, y2) != val_at(
                    vals@, b, x2, y2
                ),
        decreases n - y,
    {
        if let Some(x) = unit_dup_scan(vals, bsz, 0, y, true) {
            proof {
                let (x1, x2): (int, int) = choose|x1: int, x2: int|
                    !(0 <= x1 < x2 < side(b) ==> val_at(vals@, b, x1, y as int) != val_at(
                        vals@, b, x2, y as int
                    ));
                lemma_bidx_bound(b, x1, y as int);
                assert(val_at(vals@, b, x1, y as int) != 0);
                assert(share_unit(b, x1, y as int, x2, y as int));
                assert(!no_conflicts(vals@, b));
            }
            return Some((x, y));
        }
        y = y + 1;
    }
    let mut x: usize = 0;
    while x < n
        invariant
            b == bsz as int,
            1 <= bsz <= 15,
            n == side(b),
            n <= 225,
            side(b) * side(b) <= 50625,
            nn == side(b) * side(b),
            vals@.len() == nn,
            forall|i: int| 0 <= i < vals@.len() ==> vals@[i] <= side(b),
            full(vals@, b),
            x <= n,
            forall|x2: int, y1: int, y2: int|
                0 <= x2 < x && 0 <= y1 < y2 < n ==> val_at(vals@, b, x2, y1) != val_at(
                    vals@, b, x2, y2
                ),
            forall|y2: int, x1: int, x2: int|
                0 <= y2 < n && 0 <= x1 < x2 < n ==> val_at(vals@, b, x1, y2) != val_at(
                    vals@, b, x2, y2
                ),
        decreases n - x,
    {
        if let Some(yf) = unit_dup_scan(vals, bsz, x, 0, false) {
            proof {
                let (y1, y2): (int, int) = choose|y1: int, y2: int|
                    !(0 <= y1 < y2 < side(b) ==> val_at(vals@, b, x as int, y1) != val_at(
                        vals@, b, x as int, y2
                    ));
                lemma_bidx_bound(b, x as int, y1);
                assert(val_at(vals@, b, x as int, y1) != 0);
                assert(share_unit(b, x as int, y1, x as int, y2));
                assert(!no_conflicts(vals@, b));
            }
            return Some((x, yf));
        }
        x = x + 1;
    }
    let mut bn: usize = 0;
    while bn < n
        invariant
            b == bsz as int,
            1 <= bsz <= 15,
            n == side(b),
            n <= 225,
            side(b) * side(b) <= 50625,
            nn == side(b) * side(b),
            vals@.len() == nn,
            forall|i: int| 0 <= i < vals@.len() ==> vals@[i] <= side(b),
            full(vals@, b),
            bn <= n,
            forall|x2: int, y1: int, y2: int|
                0 <= x2 < n && 0 <= y1 < y2 < n ==> val_at(vals@, b, x2, y1) != val_at(
                    vals@, b, x2, y2
                ),
            forall|y2: int, x1: int, x2: int|
                0 <= y2 < n && 0 <= x1 < x2 < n ==> val_at(vals@, b, x1, y2) != val_at(
                    vals@, b, x2, y2
                ),
            forall|x1: int, y1: int, x2: int, y2: int|
                on_board(b, x1, y1) && on_board(b, x2, y2) && x1 / b == x2 / b && y1 / b == y2 / b
                    && (y1 / b) * b + x1 / b < bn && !(x1 == x2 && y1 == y2)
                    ==> #[trigger] val_at(vals@, b, x1, y1) != #[trigger] val_at(vals@, b, x2, y2),
        decreases n - bn,
    {
        proof {
            lemma_band_bound(b, bn as int);
        }
        if let Some(p) = box_dup_scan(vals, bsz, bn % bsz, bn / bsz) {
            proof {
                let (x1, y1, x2, y2): (int, int, int, int) = choose|x1: int, y1: int, x2: int, y2: int|
                    !(in_box(b, bn as int % b, bn as int / b, x1, y1)
                        && in_box(b, bn as int % b, bn as int / b, x2, y2)
                        && !(x1 == x2 && y1 == y2) ==> val_at(vals@, b, x1, y1) != val_at(
                        vals@, b, x2, y2
                    ));
                lemma_bidx_bound(b, x1, y1);
                assert(val_at(vals@, b, x1, y1) != 0);
                assert(share_unit(b, x1, y1, x2, y2));
                assert(!no_conflicts(vals@, b));
            }
            return Some(p);
        }
        proof {
            assert forall|x1: int, y1: int, x2: int, y2: int|
                on_board(b, x1, y1) && on_board(b, x2, y2) && x1 / b == x2 / b && y1 / b == y2 / b
                    && (y1 / b) * b + x1 / b < bn + 1 && !(x1 == x2 && y1 == y2)
                    implies #[trigger] val_at(vals@, b, x1, y1) != #[trigger] val_at(
                    vals@, b, x2, y2
                ) by {
                lemma_band_bound(b, x1);
                lemma_band_bound(b, y1);
                if (y1 / b) * b + x1 / b == bn as int {
                    lemma_band_compose(b, y1 / b, x1 / b);
                    assert(x1 / b == bn as int % b && y1 / b == bn as int / b);
                    assert(in_box(b, bn as int % b, bn as int / b, x1, y1));
                    assert(in_box(b, bn as int % b, bn as int / b, x2, y2));
                }
            }
        }
        bn = bn + 1;
    }
    proof {
        assert forall|x1: int, y1: int, x2: int, y2: int|
            on_board(b, x1, y1) && on_board(b, x2, y2) && x1 / b == x2 / b && y1 / b == y2 / b
                && !(x1 == x2 && y1 == y2) implies #[trigger] val_at(vals@, b, x1, y1)
            != #[trigger] val_at(vals@, b, x2, y2) by {
            lemma_band_bound(b, x1);
            lemma_band_bound(b, y1);
            lemma_band_compose(b, y1 / b, x1 / b);
        }
        lemma_units_give_no_conflicts(vals@, b);
    }
    None
}

/// Rows, columns and boxes each being duplicate-free yields full
/// conflict-freedom.
proof fn lemma_units_give_no_conflicts(s: Seq<u8>, b: int)
    requires
        b >= 1,
        s.len() == side(b) * side(b),
        forall|y2: int, x1: int, x2: int|
            0 <= y2 < side(b) && 0 <= x1 < x2 < side(b) ==> val_at(s, b, x1, y2) != val_at(
                s, b, x2, y2
            ),
        forall|x2: int, y1: int, y2: int|
            0 <= x2 < side(b) && 0 <= y1 < y2 < side(b) ==> val_at(s, b, x2, y1) != val_at(
                s, b, x2, y2
            ),
        forall|x1: int, y1: int, x2: int, y2: int|
            on_board(b, x1, y1) && on_board(b, x2, y2) && x1 / b == x2 / b && y1 / b == y2 / b
                && !(x1 == x2 && y1 == y2) ==> #[trigger] val_at(s, b, x1, y1)
                != #[trigger] val_at(s, b, x2, y2),
    ensures
        no_conflicts(s, b),
{
    assert forall|x1: int, y1: int, x2: int, y2: int|
        on_board(b, x1, y1) && on_board(b, x2, y2) && !(x1 == x2 && y1 == y2)
            && share_unit(b, x1, y1, x2, y2) && #[trigger] val_at(s, b, x1, y1)
            == #[trigger] val_at(s, b, x2, y2) implies val_at(s, b, x1, y1) == 0 by {
        if y1 == y2 {
            if x1 < x2 {
                assert(val_at(s, b, x1, y1) != val_at(s, b, x2, y1));
            } else {
                assert(val_at(s, b, x2, y1) != val_at(s, b, x1, y1));
            }
        } else if x1 == x2 {
            if y1 < y2 {
                assert(val_at(s, b, x1, y1) != val_at(s, b, x1, y2));
            } else {
                assert(val_at(s, b, x1, y2) != val_at(s, b, x1, y1));
            }
        } else {
            assert(val_at(s, b, x1, y1) != val_at(s, b, x2, y2));
        }
    }
}

/// Scans one row (`along_row`, at row `y`) or one column (at column `x`) for
/// a repeated symbol; returns the offending line coordinate of the second
/// occurrence.
fn unit_dup_scan(vals: &Vec<u8>, bsz: usize, x: usize, y: usize, along_row: bool) -> (r: Option<
    usize,
>)
    requires
        1 <= bsz <= 15,
        vals@.len() == side(bsz as int) * side(bsz as int),
        along_row ==> y < side(bsz as int),
        !along_row ==> x < side(bsz as int),
    ensures
        along_row ==> (r is None <==> forall|x1: int, x2: int|
            0 <= x1 < x2 < side(bsz as int) ==> val_at(vals@, bsz as int, x1, y as int) != val_at(
                vals@, bsz as int, x2, y as int
            )),
        !along_row ==> (r is None <==> forall|y1: int, y2: int|
            0 <= y1 < y2 < side(bsz as int) ==> val_at(vals@, bsz as int, x as int, y1) != val_at(
                vals@, bsz as int, x as int, y2
            )),
        r is Some ==> r.unwrap() < side(bsz as int),
{
    let ghost b = bsz as int;
    proof {
        assert(bsz * bsz <= 225 && bsz * bsz * (bsz * bsz) <= 50625) by (nonlinear_arith)
            requires bsz <= 15;
    }
    let n: usize = bsz * bsz;
    let mut k: usize = 0;
    while k < n
        invariant
            b == bsz as int,
            1 <= bsz <= 15,
            n == side(b),
            n <= 225,
            side(b) * side(b) <= 50625,
            vals@.len() == side(b) * side(b),
            along_row ==> y < n,
            !along_row ==> x < n,
            k <= n,
            along_row ==> forall|k1: int, k2: int|
                0 <= k1 < k2 < k ==> val_at(vals@, b, k1, y as int) != val_at(
                    vals@, b, k2, y as int
                ),
            !along_row ==> forall|k1: int, k2: int|
                0 <= k1 < k2 < k ==> val_at(vals@, b, x as int, k1) != val_at(
                    vals@, b, x as int, k2
                ),
        decreases n - k,
    {
        let vk: u8 = if along_row {
            proof {
                lemma_bidx_bound(b, k as int, y as int);
            }
            vals[y * n + k]
        } else {
            proof {
                lemma_bidx_bound(b, x as int, k as int);
            }
            vals[k * n + x]
        };
        let mut j: usize = 0;
        while j < k
            invariant
                b == bsz as int,
                1 <= bsz <= 15,
                n == side(b),
                n <= 225,
                side(b) * side(b) <= 50625,
                vals@.len() == side(b) * side(b),
                along_row ==> y < n,
                !along_row ==> x < n,
                k < n,
                j <= k,
                along_row ==> vk == val_at(vals@, b, k as int, y as int),
                !along_row ==> vk == val_at(vals@, b, x as int, k as int),
                along_row ==> forall|j2: int| 0 <= j2 < j ==> val_at(vals@, b, j2, y as int) != vk,
                !along_row ==> forall|j2: int| 0 <= j2 < j ==> val_at(vals@, b, x as int, j2)
                    != vk,
            decreases k - j,
        {
            let vj: u8 = if along_row {
                proof {
                    lemma_bidx_bound(b, j as int, y as int);
                }
                vals[y * n + j]
            } else {
                proof {
                    lemma_bidx_bound(b, x as int, j as int);
                }
                vals[j * n + x]
            };
            if vj == vk {
                proof {
                    if along_row {
                        assert(val_at(vals@, b, j as int, y as int) == val_at(
                            vals@, b, k as int, y as int
                        ));
                    } else {
                        assert(val_at(vals@, b, x as int, j as int) == val_at(
                            vals@, b, x as int, k as int
                        ));
                    }
                }
                return Some(k);
            }
            j = j + 1;
        }
        k = k + 1;
    }
    None
}

/// Whether `(x, y)` lies in the box with box coordinates `(bx, by)`.
pub open spec fn in_box(b: int, bx: int, by: int, x: int, y: int) -> bool {
    on_board(b, x, y) && x / b == bx && y / b == by
}

/// Scans the box with box coordinates `(bx, by)` for a repeated symbol.
fn box_dup_scan(vals: &Vec<u8>, bsz: usize, bx: usize, by: usize) -> (r: Option<(usize, usize)>)
    requires
        1 <= bsz <= 15,
        vals@.len() == side(bsz as int) * side(bsz as int),
        bx < bsz,
        by < bsz,
    ensures
        r is None <==> forall|x1: int, y1: int, x2: int, y2: int|
            in_box(bsz as int, bx as int, by as int, x1, y1)
                && in_box(bsz as int, bx as int, by as int, x2, y2) && !(x1 == x2 && y1 == y2)
                ==> #[trigger] val_at(vals@, bsz as int, x1, y1) != #[trigger] val_at(
                vals@, bsz as int, x2, y2
            ),
        r is Some ==> on_board(bsz as int, r.unwrap().0 as int, r.unwrap().1 as int),
{
    let ghost b = bsz as int;
    proof {
        assert(bsz * bsz <= 225 && bsz * bsz * (bsz * bsz) <= 50625) by (nonlinear_arith)
            requires bsz <= 15;
    }
    let n: usize = bsz * bsz;
    let ghost key = |xx: int, yy: int| (yy % b) * b + (xx % b);
    let mut k: usize = 0;
    while k < n
        invariant
            b == bsz as int,
            1 <= bsz <= 15,
            n == side(b),
            n <= 225,
            side(b) * side(b) <= 50625,
            vals@.len() == side(b) * side(b),
            bx < bsz,
            by < bsz,
            k <= n,
            key == (|xx: int, yy: int| (yy % b) * b + (xx % b)),
            forall|x1: int, y1: int, x2: int, y2: int|
                in_box(b, bx as int, by as int, x1, y1) && in_box(b, bx as int, by as int, x2, y2)
                    && key(x1, y1) < k && key(x2, y2) < k && !(x1 == x2 && y1 == y2)
                    ==> #[trigger] val_at(vals@, b, x1, y1) != #[trigger] val_at(vals@, b, x2, y2),
        decreases n - k,
    {
        let dx: usize = k % bsz;
        let dy: usize = k / bsz;
        proof {
            lemma_band_bound(b, k as int);
            lemma_band_compose(b, bx as int, dx as int);
            lemma_band_compose(b, by as int, dy as int);
            lemma_band_compose(b, dy as int, dx as int);
            lemma_bidx_bound(b, (bx * bsz + dx) as int, (by * bsz + dy) as int);
        }
        let ghost xv = bx as int * b + dx as int;
        let ghost yv = by as int * b + dy as int;
        proof {
            assert(in_box(b, bx as int, by as int, xv, yv) && key(xv, yv) == k as int);
        }
        let vk: u8 = vals[(by * bsz + dy) * n + (bx * bsz + dx)];
        let mut j: usize = 0;
        while j < k
            invariant
                b == bsz as int,
                1 <= bsz <= 15,
                n == side(b),
                n <= 225,
                side(b) * side(b) <= 50625,
                vals@.len() == side(b) * side(b),
                bx < bsz,
                by < bsz,
                k < n,
                j <= k,
                dx < bsz,
                dy < bsz,
                bx * bsz + dx < n,
                by * bsz + dy < n,
                key == (|xx: int, yy: int| (yy % b) * b + (xx % b)),
                xv == bx as int * b + dx as int,
                yv == by as int * b + dy as int,
                in_box(b, bx as int, by as int, xv, yv),
                key(xv, yv) == k as int,
                vk == val_at(vals@, b, xv, yv),
                forall|xx: int, yy: int|
                    in_box(b, bx as int, by as int, xx, yy) && key(xx, yy) < j
                        ==> #[trigger] val_at(vals@, b, xx, yy) != vk,
            decreases k - j,
        {
            let ex: usize = j % bsz;
            let ey: usize = j / bsz;
            proof {
                lemma_band_bound(b, j as int);
                lemma_band_compose(b, bx as int, ex as int);
                lemma_band_compose(b, by as int, ey as int);
                lemma_band_compose(b, ey as int, ex as int);
                lemma_bidx_bound(b, (bx * bsz + ex) as int, (by * bsz + ey) as int);
            }
            let ghost xw = bx as int * b + ex as int;
            let ghost yw = by as int * b + ey as int;
            proof {
                assert(in_box(b, bx as int, by as int, xw, yw) && key(xw, yw) == j as int);
            }
            let vj: u8 = vals[(by * bsz + ey) * n + (bx * bsz + ex)];
            if vj == vk {
                proof {
                    assert(val_at(vals@, b, xw, yw) == val_at(vals@, b, xv, yv));
                    assert(!(xw == xv && yw == yv));
                }
                return Some((bx * bsz + dx, by * bsz + dy));
            }
            proof {
                assert forall|xx: int, yy: int|
                    in_box(b, bx as int, by as int, xx, yy) && key(xx, yy) < j + 1
                        implies #[trigger] val_at(vals@, b, xx, yy) != vk by {
                    lemma_band_bound(b, xx);
                    lemma_band_bound(b, yy);
                    if key(xx, yy) == j as int {
                        lemma_band_compose(b, yy % b, xx % b);
                        assert(xx == xw && yy == yw);
                    }
                }
            }
            j = j + 1;
        }
        proof {
            assert forall|x1: int, y1: int, x2: int, y2: int|
                in_box(b, bx as int, by as int, x1, y1) && in_box(b, bx as int, by as int, x2, y2)
                    && key(x1, y1) < k + 1 && key(x2, y2) < k + 1 && !(x1 == x2 && y1 == y2)
                    implies #[trigger] val_at(vals@, b, x1, y1) != #[trigger] val_at(
                    vals@, b, x2, y2
                ) by {
                lemma_band_bound(b, x1);
                lemma_band_bound(b, y1);
                lemma_band_bound(b, x2);
                lemma_band_bound(b, y2);
                if key(x1, y1) == k as int {
                    lemma_band_compose(b, y1 % b, x1 % b);
                    assert(x1 == xv && y1 == yv);
                }
                if key(x2, y2) == k as int {
                    lemma_band_compose(b, y2 % b, x2 % b);
                    assert(x2 == xv && y2 == yv);
                }
            }
        }
        k = k + 1;
    }
    proof {
        assert forall|x1: int, y1: int, x2: int, y2: int|
            in_box(b, bx as int, by as int, x1, y1) && in_box(b, bx as int, by as int, x2, y2)
                && !(x1 == x2 && y1 == y2) implies #[trigger] val_at(vals@, b, x1, y1)
            != #[trigger] val_at(vals@, b, x2, y2) by {
            lemma_band_bound(b, x1);
            lemma_band_bound(b, y1);
            lemma_band_bound(b, x2);
            lemma_band_bound(b, y2);
            lemma_band_compose(b, y1 % b, x1 % b);
            lemma_band_compose(b, y2 % b, x2 % b);
        }
    }
    None
}

/// Number of cells in `s.take(k)` holding symbol `v`.
pub open spec fn occ_upto(s: Seq<u8>, v: u8, k: int) -> int
    decreases k,
{
    if k <= 0 {
        0
    } else {
        occ_upto(s, v, k - 1) + if s[k - 1] == v { 1int } else { 0int }
    }
}

/// Number of cells of `s` holding symbol `v`.
pub open spec fn occ(s: Seq<u8>, v: u8) -> int {
    occ_upto(s, v, s.len() as int)
}

/// Occurrence counts are bounded by the prefix length.
pub proof fn lemma_occ_upto_bound(s: Seq<u8>, v: u8, k: int)
    requires
        0 <= k <= s.len(),
    ensures
        0 <= occ_upto(s, v, k) <= k,
    decreases k,
{
    if k > 0 {
        lemma_occ_upto_bound(s, v, k - 1);
    }
}

/// How one update changes each prefix count: only counts of the old and the
/// new value at that cell move, each by one.
pub proof fn lemma_occ_upto_update(s: Seq<u8>, i: int, w: u8, v: u8, k: int)
    requires
        0 <= i < s.len(),
        0 <= k <= s.len(),
    ensures
        occ_upto(s.update(i, w), v, k) == occ_upto(s, v, k)
            + (if i < k && w == v && s[i] != v { 1int } else { 0int })
            - (if i < k && s[i] == v && w != v { 1int } else { 0int }),
    decreases k,
{
    if k > 0 {
        lemma_occ_upto_update(s, i, w, v, k - 1);
    }
}

/// Prefix counts grow with the prefix.
pub proof fn lemma_occ_upto_mono(s: Seq<u8>, v: u8, k1: int, k2: int)
    requires
        0 <= k1 <= k2 <= s.len(),
    ensures
        occ_upto(s, v, k1) <= occ_upto(s, v, k2),
    decreases k2 - k1,
{
    if k1 < k2 {
        lemma_occ_upto_mono(s, v, k1, k2 - 1);
    }
}

/// A cell holding `v` witnesses at least one occurrence of `v`.
pub proof fn lemma_occ_witness(s: Seq<u8>, v: u8, i: int)
    requires
        0 <= i < s.len(),
        s[i] == v,
    ensures
        occ(s, v) >= 1,
{
    lemma_occ_upto_bound(s, v, i);
    lemma_occ_upto_mono(s, v, i + 1, s.len() as int);
}

/// Number of positions below `k` where `a` and `b` differ.
pub open spec fn changed_upto<T>(a: Seq<T>, b: Seq<T>, k: int) -> int
    decreases k,
{
    if k <= 0 {
        0
    } else {
        changed_upto(a, b, k - 1) + if a[k - 1] == b[k - 1] {
            0int
        } else {
            1int
        }
    }
}

/// How one update to `b` moves the count of differing positions.
pub proof fn lemma_changed_upto_update<T>(a: Seq<T>, b: Seq<T>, i: int, w: T, k: int)
    requires
        0 <= i < b.len(),
        0 <= k <= b.len(),
    ensures
        changed_upto(a, b.update(i, w), k) == changed_upto(a, b, k)
            - (if i < k && a[i] != b[i] { 1int } else { 0int })
            + (if i < k && a[i] != w { 1int } else { 0int }),
    decreases k,
{
    if k > 0 {
        lemma_changed_upto_update(a, b, i, w, k - 1);
    }
}

/// A sequence differs from itself nowhere.
pub proof fn lemma_changed_upto_refl<T>(a: Seq<T>, k: int)
    requires
        0 <= k <= a.len(),
    ensures
        changed_upto(a, a, k) == 0,
    decreases k,
{
    if k > 0 {
        lemma_changed_upto_refl(a, k - 1);
    }
}

/// A positive occurrence count has a witnessing cell.
pub proof fn lemma_occ_nonzero_witness(s: Seq<u8>, v: u8, k: int)
    requires
        0 <= k <= s.len(),
        occ_upto(s, v, k) >= 1,
    ensures
        exists|i: int| 0 <= i < k && s[i] == v,
    decreases k,
{
    if k > 0 {
        if s[k - 1] == v {
            assert(0 <= k - 1 < k && s[k - 1] == v);
        } else {
            lemma_occ_nonzero_witness(s, v, k - 1);
        }
    }
}

/// Sum of the occurrence counts of the symbols `1..=vmax` in the prefix `k`.
pub open spec fn occ_total(s: Seq<u8>, vmax: int, k: int) -> int
    decreases vmax,
{
    if vmax <= 0 {
        0
    } else {
        occ_upto(s, vmax as u8, k) + occ_total(s, vmax - 1, k)
    }
}

/// Number of valued cells in the prefix `k`.
pub open spec fn nonzero_upto(s: Seq<u8>, k: int) -> int
    decreases k,
{
    if k <= 0 {
        0
    } else {
        nonzero_upto(s, k - 1) + if s[k - 1] != 0 {
            1int
        } else {
            0int
        }
    }
}

/// Extending the prefix by one cell raises the summed counts by one exactly
/// when that cell holds a symbol within `1..=vmax`.
proof fn lemma_occ_total_step(s: Seq<u8>, vmax: int, k: int)
    requires
        1 <= k <= s.len(),
        0 <= vmax <= 255,
    ensures
        occ_total(s, vmax, k) == occ_total(s, vmax, k - 1) + (
        if 1 <= s[k - 1] <= vmax {
            1int
        } else {
            0int
        }),
    decreases vmax,
{
    if vmax > 0 {
        lemma_occ_total_step(s, vmax - 1, k);
    }
}

/// An empty prefix contributes nothing to the summed counts.
proof fn lemma_occ_total_zero(s: Seq<u8>, vmax: int)
    requires
        0 <= vmax,
    ensures
        occ_total(s, vmax, 0) == 0,
    decreases vmax,
{
    if vmax > 0 {
        lemma_occ_total_zero(s, vmax - 1);
    }
}

/// On a board whose symbols stay within `1..=vmax`, the occurrence counts of
/// the symbols add up to the number of valued cells.
pub proof fn lemma_occ_total_counts(s: Seq<u8>, vmax: int, k: int)
    requires
        0 <= k <= s.len(),
        1 <= vmax <= 255,
        forall|i: int| 0 <= i < k ==> s[i] <= vmax,
    ensures
        occ_total(s, vmax, k) == nonzero_upto(s, k),
    decreases k,
{
    if k == 0 {
        lemma_occ_total_zero(s, vmax);
    } else {
        lemma_occ_total_counts(s, vmax, k - 1);
        lemma_occ_total_step(s, vmax, k);
    }
}

/// When no symbol occurs more than once, the summed counts stay below the
/// number of symbols.
proof fn lemma_occ_total_bound(s: Seq<u8>, vmax: int, k: int)
    requires
        0 <= k <= s.len(),
        0 <= vmax <= 255,
        forall|v: u8| 1 <= v <= vmax ==> occ_upto(s, v, k) <= 1,
    ensures
        occ_total(s, vmax, k) <= vmax,
    decreases vmax,
{
    if vmax > 0 {
        lemma_occ_total_bound(s, vmax - 1, k);
        lemma_occ_upto_bound(s, vmax as u8, k);
        assert(occ_upto(s, vmax as u8, k) <= 1);
    }
}

/// When every valued cell holds its symbol's last occurrence, at most
/// `vmax` cells can still hold a value.
pub proof fn lemma_few_survivors(s: Seq<u8>, vmax: int)
    requires
        1 <= vmax <= 255,
        forall|i: int| 0 <= i < s.len() ==> s[i] <= vmax,
        forall|i: int| 0 <= i < s.len() && s[i] != 0 ==> occ(s, #[trigger] s[i]) == 1,
    ensures
        nonzero_upto(s, s.len() as int) <= vmax,
{
    let k = s.len() as int;
    assert forall|v: u8| 1 <= v <= vmax implies occ_upto(s, v, k) <= 1 by {
        lemma_occ_upto_bound(s, v, k);
        if occ_upto(s, v, k) >= 2 {
            lemma_occ_nonzero_witness(s, v, k);
            let i = choose|i: int| 0 <= i < k && s[i] == v;
            assert(occ(s, s[i]) == 1);
        }
    }
    lemma_occ_total_bound(s, vmax, k);
    lemma_occ_total_counts(s, vmax, k);
}

/// Cells that differ are exactly the emptied ones: the changed count and
/// the count of still-valued cells split the board.
pub proof fn lemma_changed_zero_count<T>(a: Seq<T>, b: Seq<T>, v: Seq<u8>, k: int)
    requires
        0 <= k <= a.len(),
        a.len() == b.len(),
        a.len() == v.len(),
        forall|i: int| 0 <= i < k ==> ((a[i] != b[i]) <==> v[i] == 0),
    ensures
        changed_upto(a, b, k) + nonzero_upto(v, k) == k,
    decreases k,
{
    if k > 0 {
        lemma_changed_zero_count(a, b, v, k - 1);
    }
}

/// Two distinct cells holding one symbol witness at least two occurrences.
pub proof fn lemma_occ_two_witnesses(s: Seq<u8>, v: u8, i1: int, i2: int)
    requires
        0 <= i1 < i2 < s.len(),
        s[i1] == v,
        s[i2] == v,
    ensures
        occ(s, v) >= 2,
{
    lemma_occ_upto_two(s, v, i1, i2, s.len() as int);
}

/// Prefix counts cover any two distinct witnesses below the prefix bound.
proof fn lemma_occ_upto_two(s: Seq<u8>, v: u8, i1: int, i2: int, k: int)
    requires
        0 <= i1 < i2 < s.len(),
        s[i1] == v,
        s[i2] == v,
        0 <= k <= s.len(),
    ensures
        occ_upto(s, v, k) >= (if i1 < k { 1int } else { 0int }) + (if i2 < k { 1int } else { 0int }),
    decreases k,
{
    if k > 0 {
        lemma_occ_upto_two(s, v, i1, i2, k - 1);
    }
}

/// A reordering of the identity index sequence is a permutation of the
/// indices: every entry is in range, no entry repeats, and every index
/// occurs.
pub proof fn lemma_shuffled_indices(a: Seq<usize>, b: Seq<usize>)
    requires
        a.to_multiset() == b.to_multiset(),
        forall|j: int| 0 <= j < a.len() ==> a[j] == j,
    ensures
        b.len() == a.len(),
        forall|j: int| 0 <= j < b.len() ==> (#[trigger] b[j]) < a.len(),
        forall|j1: int, j2: int| 0 <= j1 < j2 < b.len() ==> b[j1] != b[j2],
        forall|p: usize| p < a.len() ==> #[trigger] b.contains(p),
{
    a.to_multiset_ensures();
    b.to_multiset_ensures();
    assert forall|j: int| 0 <= j < b.len() implies (#[trigger] b[j]) < a.len() by {
        assert(b.contains(b[j]));
        assert(b.to_multiset().count(b[j]) > 0);
        assert(a.to_multiset().count(b[j]) > 0);
        assert(a.contains(b[j]));
        let m = choose|m: int| 0 <= m < a.len() && a[m] == b[j];
        assert(a[m] == m);
    }
    assert forall|i: int, j: int|
        0 <= i < a.len() && 0 <= j < a.len() && i != j implies a[i] != a[j] by {
        assert(a[i] == i && a[j] == j);
    }
    assert(a.no_duplicates());
    a.lemma_multiset_has_no_duplicates();
    assert forall|x: usize| b.to_multiset().contains(x) implies b.to_multiset().count(x) == 1 by {
        assert(b.to_multiset().count(x) > 0);
        assert(a.to_multiset().count(x) > 0);
        assert(a.contains(x));
        assert(a.to_multiset().contains(x));
        assert(a.to_multiset().count(x) == 1);
    }
    b.lemma_multiset_has_no_duplicates_conv();
    assert forall|j1: int, j2: int| 0 <= j1 < j2 < b.len() implies b[j1] != b[j2] by {
        assert(b.no_duplicates());
    }
    assert forall|p: usize| p < a.len() implies #[trigger] b.contains(p) by {
        assert(a[p as int] == p);
        assert(a.contains(p));
        assert(a.to_multiset().count(p) > 0);
        assert(b.to_multiset().count(p) > 0);
    }
}

/// Sequences with one multiset have one length, and elements of one are
/// elements of the other.
pub proof fn lemma_multiset_same_elems<T>(a: Seq<T>, b: Seq<T>)
    requires
        a.to_multiset() == b.to_multiset(),
    ensures
        a.len() == b.len(),
        forall|i: int| 0 <= i < b.len() ==> a.contains(#[trigger] b[i]),
{
    a.to_multiset_ensures();
    b.to_multiset_ensures();
    assert forall|i: int| 0 <= i < b.len() implies a.contains(#[trigger] b[i]) by {
        assert(b.contains(b[i]));
        assert(b.to_multiset().count(b[i]) > 0);
    }
}

} // verus!
