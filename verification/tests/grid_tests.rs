//! Tests for the plain-byte grids and the packed-cell 9x9 grid.

use sudku_grid::simple::Grid3x3;
use sudku_grid::grid3;
use sudku_grid::grid3::Num3x3;

#[test]
fn row_col_box_3x3() {
    let grid = Grid3x3::new();

    let got = grid.get_row_for((0, 0));
    assert_eq!(got, vec![1, 2, 3, 4, 5, 6, 7, 8, 9]);
    let got = grid.get_col_for((0, 0));
    assert_eq!(got, vec![1, 4, 7, 2, 5, 8, 3, 6, 9]);
    let got = grid.get_box_for((0, 0));
    assert_eq!(got, vec![1, 2, 3, 4, 5, 6, 7, 8, 9]);

    let got = grid.get_row_for((2, 1));
    assert_eq!(got, vec![4, 5, 6, 7, 8, 9, 1, 2, 3]);
    let got = grid.get_col_for((2, 1));
    assert_eq!(got, vec![3, 6, 9, 4, 7, 1, 5, 8, 2]);
    let got = grid.get_box_for((2, 1));
    assert_eq!(got, vec![1, 2, 3, 4, 5, 6, 7, 8, 9]);

    let got = grid.get_row_for((4, 4));
    assert_eq!(got, vec![5, 6, 7, 8, 9, 1, 2, 3, 4]);
    let got = grid.get_col_for((4, 4));
    assert_eq!(got, vec![5, 8, 2, 6, 9, 3, 7, 1, 4]);
    let got = grid.get_box_for((4, 4));
    assert_eq!(got, vec![5, 6, 7, 8, 9, 1, 2, 3, 4]);
}

#[test]
fn pos_is_valid_3x3() {
    let mut grid = Grid3x3::empty();
    grid.set((0, 0), 1);
    grid.set((1, 4), 1);
    grid.set((4, 1), 1);
    assert!(!grid.pos_is_valid((1, 1), 1));
    assert!(!grid.pos_is_valid((2, 2), 1));
    assert!(!grid.pos_is_valid((8, 1), 1));
    assert!(!grid.pos_is_valid((1, 8), 1));

    assert!(grid.pos_is_valid((1, 1), 2));
    assert!(grid.pos_is_valid((2, 2), 2));
    assert!(grid.pos_is_valid((8, 1), 2));
    assert!(grid.pos_is_valid((1, 8), 2));
}

#[test]
fn pos_is_valid_packed_3x3() {
    // the packed grid rejects and accepts the same placements
    let mut grid = grid3::Grid3x3::empty();
    grid.set((0, 0), Num3x3::new(1));
    grid.set((1, 4), Num3x3::new(1));
    grid.set((4, 1), Num3x3::new(1));
    assert!(!grid.pos_is_valid((1, 1), 1));
    assert!(!grid.pos_is_valid((2, 2), 1));
    assert!(!grid.pos_is_valid((8, 1), 1));
    assert!(!grid.pos_is_valid((1, 8), 1));

    assert!(grid.pos_is_valid((1, 1), 2));
    assert!(grid.pos_is_valid((2, 2), 2));
    assert!(grid.pos_is_valid((8, 1), 2));
    assert!(grid.pos_is_valid((1, 8), 2));

    // clearing is always allowed
    assert!(grid.pos_is_valid((0, 0), 0));
}

#[test]
fn new_board_is_valid() {
    assert_eq!(Grid3x3::new().is_valid(), None);
    assert_eq!(sudku_grid::simple::Grid4x4::new().is_valid(), None);
    assert_eq!(grid3::Grid3x3::new().is_valid(), None);
    assert_eq!(sudku_grid::grid4::Grid4x4::new().is_valid(), None);
}

#[test]
fn empty_board_is_not_valid() {
    let grid = grid3::Grid3x3::empty();
    // on a not-full board the reported position is the scan's first empty cell
    assert_eq!(grid.is_valid(), Some((0, 0)));
    assert_eq!(grid.first_empty(), Some((0, 0)));
    let mut one = grid3::Grid3x3::new();
    one.set((3, 2), Num3x3::Empty);
    assert_eq!(one.is_valid(), Some((3, 2)));
}

#[test]
fn generate_produces_valid_full_board() {
    for _ in 0..3 {
        let grid = grid3::Grid3x3::generate();
        assert_eq!(grid.is_valid(), None);
        assert_eq!(grid.first_empty(), None);
        for y in 0..9 {
            for x in 0..9 {
                let v = grid.get((x, y)).num_or_zero();
                assert!(1 <= v && v <= 9);
            }
        }
    }
}

#[test]
fn randomized_is_valid() {
    for _ in 0..3 {
        let grid = grid3::Grid3x3::randomized();
        assert_eq!(grid.is_valid(), None);
        let grid = sudku_grid::grid4::Grid4x4::randomized();
        assert_eq!(grid.is_valid(), None);
        let grid = Grid3x3::randomized();
        assert_eq!(grid.is_valid(), None);
    }
}

#[test]
fn place_appears_exactly_once_in_units() {
    let mut grid = grid3::Grid3x3::empty();
    assert!(grid.try_place((4, 2), Num3x3::new(7)));
    let row = grid.get_row_for((4, 2));
    assert_eq!(row.iter().filter(|c| c.num_or_zero() == 7).count(), 1);
    let col = grid.get_col_for((4, 2));
    assert_eq!(col.iter().filter(|c| c.num_or_zero() == 7).count(), 1);
    let bx = grid.get_box_for((4, 2));
    assert_eq!(bx.iter().filter(|c| c.num_or_zero() == 7).count(), 1);

    // placing the same value in a peer cell is rejected
    assert!(!grid.try_place((4, 8), Num3x3::new(7)));
    assert!(!grid.try_place((0, 2), Num3x3::new(7)));
    assert!(!grid.try_place((3, 1), Num3x3::new(7)));
    // clearing the cell empties it
    assert!(grid.try_place((4, 2), Num3x3::new(0)));
    assert_eq!(grid.get((4, 2)).num_or_zero(), 0);
    assert_eq!(grid.get((4, 2)).num(), Some(0));
}

#[test]
fn encode_decode_roundtrip() {
    let mut grid = grid3::Grid3x3::randomized();
    grid.set((0, 0), Num3x3::new_note(3).with_note(5));
    grid.set((1, 1), Num3x3::Value { num: 9, given: true });
    grid.set((2, 2), Num3x3::Empty);
    let bytes = grid.encode();
    assert_eq!(bytes.len(), 162);
    let back = grid3::Grid3x3::from_encoded(&bytes).unwrap();
    assert!(back == grid);

    // decoding a truncated buffer fails without touching the target
    let snapshot = grid3::Grid3x3::new();
    let mut target = grid3::Grid3x3::new();
    assert!(!target.decode_from(&bytes[..161]));
    assert!(target == snapshot);

    let grid4 = sudku_grid::grid4::Grid4x4::randomized();
    let bytes = grid4.encode();
    assert_eq!(bytes.len(), 1024);
    let back = sudku_grid::grid4::Grid4x4::from_encoded(&bytes).unwrap();
    assert!(back == grid4);
    assert!(sudku_grid::grid4::Grid4x4::from_encoded(&bytes[..1023]).is_none());
}

#[test]
fn encode_is_big_endian_packed() {
    let mut grid = grid3::Grid3x3::empty();
    grid.set((0, 0), Num3x3::new(5));
    grid.set((1, 0), Num3x3::Value { num: 2, given: true });
    grid.set((2, 0), Num3x3::new_note(1).with_note(9));
    let bytes = grid.encode();
    // a bare value: low byte holds it
    assert_eq!((bytes[0], bytes[1]), (0x00, 0x05));
    // a given value: bit 14 set
    assert_eq!((bytes[2], bytes[3]), (0x40, 0x02));
    // notes 1 and 9: bit 15 plus mask 0b1_0000_0001
    assert_eq!((bytes[4], bytes[5]), (0x81, 0x01));
    // an empty cell encodes as zero
    assert_eq!((bytes[6], bytes[7]), (0x00, 0x00));
}

#[test]
fn solve_completes_a_thinned_board() {
    let mut grid = grid3::Grid3x3::randomized();
    let removed = grid.remove_nums(30);
    assert!(removed <= 30);
    assert!(grid.solve());
    assert_eq!(grid.is_valid(), None);
}

#[test]
fn solve_reports_unsolvable_and_rolls_back() {
    // two blocked cells in one row: 1 and 2 both already occur in every
    // region the empty cells could take them
    let mut grid = grid3::Grid3x3::empty();
    grid.set((0, 0), Num3x3::new(1));
    grid.set((1, 0), Num3x3::new(2));
    let mut full = grid3::Grid3x3::randomized();
    // an already-complete board solves trivially
    assert!(full.solve());
    assert_eq!(full.is_valid(), None);
    // a consistent sparse board solves too
    assert!(grid.solve());
    assert_eq!(grid.is_valid(), None);
    assert_eq!(grid.get((0, 0)).num_or_zero(), 1);
    assert_eq!(grid.get((1, 0)).num_or_zero(), 2);
}

#[test]
fn remove_nums_blanks_exactly_that_many() {
    let mut grid = grid3::Grid3x3::randomized();
    let before: Vec<u8> = (0..81).map(|i| grid.get((i % 9, i / 9)).num_or_zero()).collect();
    let removed = grid.remove_nums(20);
    assert_eq!(removed, 20);
    let mut blank = 0;
    let mut changed = 0;
    let mut gone = [0u8; 10];
    for i in 0..81 {
        let v = grid.get((i % 9, i / 9)).num_or_zero();
        if v == 0 {
            blank += 1;
        } else {
            gone[v as usize] += 1;
        }
        if v != before[i] {
            changed += 1;
            assert_eq!(v, 0, "a changed cell must be blank");
        }
    }
    assert_eq!(blank, 20);
    assert_eq!(changed, 20);
    // at most one symbol may have disappeared completely
    let vanished = (1..=9).filter(|&v| gone[v as usize] == 0).count();
    assert!(vanished <= 1);
}

#[test]
fn generate_leaves_cells_unflagged() {
    let grid = grid3::Grid3x3::generate();
    for y in 0..9 {
        for x in 0..9 {
            let c = grid.get((x, y));
            assert!(!c.is_given());
            assert!(!c.is_note());
        }
    }
}

#[test]
fn set_given_marks_values() {
    let mut grid = grid3::Grid3x3::randomized();
    grid.remove_nums(10);
    grid.set_given();
    for y in 0..9 {
        for x in 0..9 {
            let c = grid.get((x, y));
            if c.num_or_zero() != 0 {
                assert!(c.is_given());
            } else {
                assert!(!c.is_given());
            }
        }
    }
}

#[test]
fn cell_note_operations() {
    let c = Num3x3::new(0);
    assert!(!c.is_note());
    let c = c.with_toggle_note(3);
    assert!(c.is_note());
    assert_eq!(c.has_note(3), Some(true));
    assert_eq!(c.has_note(4), Some(false));
    assert_eq!(c.num(), None);
    let c = c.with_note(7);
    assert_eq!(c.has_note(3), Some(true));
    assert_eq!(c.has_note(7), Some(true));
    let c = c.with_toggle_note(3);
    assert_eq!(c.has_note(3), Some(false));
    assert_eq!(c.has_note(7), Some(true));
    let notes = c.notes().unwrap();
    assert_eq!(notes.len(), 9);
    assert!(notes[6]);
    assert!(!notes[2]);
    // a value cell reports no notes
    assert_eq!(Num3x3::new(5).notes(), None);
    assert_eq!(Num3x3::new(5).has_note(1), None);
    // note operations restart a bare value cell as a fresh set
    let c = Num3x3::new(5).with_note(2);
    assert_eq!(c.notes().unwrap(), vec![false, true, false, false, false, false, false, false,
        false]);
    let mut c = Num3x3::new(4);
    assert!(c.set_toggle_note(9));
    assert_eq!(c.has_note(9), Some(true));
    assert!(!c.set_toggle_note(9));
    assert_eq!(c.has_note(9), Some(false));
    let mut c = Num3x3::new(6);
    c.set_given();
    assert!(c.is_given());
    assert_eq!(c.num_or_zero(), 6);
    let v = Num3x3::new(0);
    assert_eq!(v.num_or_zero(), 0);
    let withs = Num3x3::new(0).with_notes(&vec![true, false, true, false, false, false, false,
        false, false]);
    assert_eq!(withs.has_note(1), Some(true));
    assert_eq!(withs.has_note(2), Some(false));
    assert_eq!(withs.has_note(3), Some(true));
}

#[test]
fn grid_update_rcb_clears_peer_notes() {
    let mut grid = grid3::Grid3x3::empty();
    // pencil marks holding 5 around (4, 4): same row, same column, same box
    grid.set((0, 4), Num3x3::new_note(5));
    grid.set((4, 0), Num3x3::new_note(5).with_note(1));
    grid.set((3, 3), Num3x3::new_note(5));
    // a pencil mark elsewhere stays
    grid.set((8, 8), Num3x3::new_note(5));
    let mut counts = vec![0usize; 9];
    let mvs = grid3::grid_update_rcb(&mut grid, &mut counts, (4, 4), Num3x3::new(5));
    let mvs = mvs.expect("placement must be allowed");
    // primary move first, then one clear per marked peer
    assert_eq!(mvs.len(), 4);
    assert_eq!(mvs[0].pos, (4, 4));
    assert_eq!(grid.get((4, 4)).num_or_zero(), 5);
    assert_eq!(grid.get((0, 4)).has_note(5), Some(false));
    assert_eq!(grid.get((4, 0)).has_note(5), Some(false));
    assert_eq!(grid.get((4, 0)).has_note(1), Some(true));
    assert_eq!(grid.get((3, 3)).has_note(5), Some(false));
    assert_eq!(grid.get((8, 8)).has_note(5), Some(true));
    assert_eq!(counts[4], 1);
    // a blocked placement changes nothing and returns no group
    let snapshot = grid.encode();
    let refused = grid3::grid_update_rcb(&mut grid, &mut counts, (6, 4), Num3x3::new(5));
    assert!(refused.is_none());
    assert_eq!(grid.encode(), snapshot);
}

#[test]
fn solve_refuses_blocked_boards() {
    // row 0 holds 1..=8 and a 9 blocks the last cell through its column,
    // so no completed assignment exists
    let mut grid = grid3::Grid3x3::empty();
    for x in 0..8 {
        grid.set((x, 0), Num3x3::new((x + 1) as u8));
    }
    grid.set((8, 4), Num3x3::new(9));
    let before = grid.encode();
    assert!(!grid.solve());
    assert_eq!(grid.encode(), before, "a failed solve must leave the board unchanged");
}

#[test]
fn remove_nums_respects_the_symbol_floor() {
    // asking for everything still keeps one occurrence of all but one symbol
    let mut grid = grid3::Grid3x3::randomized();
    let removed = grid.remove_nums(80);
    assert!(removed <= 73, "at most eight of each symbol plus one whole symbol can go");
    let mut left = [0usize; 10];
    for i in 0..81usize {
        let v = grid.get((i % 9, i / 9)).num_or_zero();
        left[v as usize] += 1;
    }
    let vanished = (1..=9).filter(|&v| left[v as usize] == 0).count();
    assert!(vanished <= 1);
}
