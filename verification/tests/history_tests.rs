//! Tests for the undo/redo logs: single moves, move groups, and the linear
//! history.

use sudku_grid::history::{History, Move, MultiHistory, Where};
use sudku_grid::simple;

fn new_history<I: IntoIterator<Item = Move<i32>>>(iter: I) -> History<i32> {
    let mut hist = History::new();
    iter.into_iter().for_each(|i| hist.update(i));
    hist
}

fn new_multi_history<I: IntoIterator<Item = Vec<Move<i32>>>>(iter: I) -> MultiHistory<i32> {
    let mut hist = MultiHistory::new();
    iter.into_iter().for_each(|i| hist.update(i));
    hist
}

#[test]
fn history_update_undo_redo() {
    let moves = (0..10)
        .map(|i| Move::new(i, i, (i as usize, i as usize)))
        .collect::<Vec<_>>();
    let mut hist = new_history(moves.clone());
    assert_eq!(hist.loc(), Where::Back, "bad loc");

    for mv in moves.iter().copied().rev() {
        assert_eq!(hist.undo(), Some(mv), "bad undo");
    }
    assert_eq!(hist.loc(), Where::Front, "bad loc");
    assert_eq!(hist.undo(), None, "bad undo");
    for mv in moves.iter().copied() {
        assert_eq!(hist.redo(), Some(mv), "bad redo");
    }
    assert_eq!(hist.loc(), Where::Back, "bad loc");
    assert_eq!(hist.redo(), None, "bad redo");
    assert!(hist == new_history(moves.clone()));

    let mv = Move::new(0, 0, (0, 0));
    hist.undo();
    assert_eq!(hist.loc(), Where::Middle, "bad loc");
    hist.update(mv);
    assert_eq!(hist.redo(), None, "bad redo");

    assert_eq!(hist.undo(), Some(mv), "bad undo");
    assert_eq!(hist.redo(), Some(mv), "bad redo");

    for _ in moves.iter() {
        hist.undo();
    }
    let mv = Move::new(0, 0, (0, 0));
    assert_eq!(hist.loc(), Where::Front);
    hist.update(mv);
    assert_eq!(hist.redo(), None, "bad redo");

    assert_eq!(hist.undo(), Some(mv), "bad undo");
    assert_eq!(hist.undo(), None, "bad undo");

    assert_eq!(hist.redo(), Some(mv), "bad redo");
    assert_eq!(hist.redo(), None, "bad redo");
}

#[test]
fn history_clone_same_eq() {
    let mut hist = new_history((0..10).map(|i| Move::new(i, i, (i as usize, i as usize))));
    let mut histc = hist.clone();
    assert!(hist == histc, "bad clone or eq");
    assert!(hist.same_as(&histc), "bad same as");

    histc.undo();
    assert!(!(hist == histc), "bad eq");
    assert!(hist.same_as(&histc), "bad same as");

    histc.redo();
    assert!(hist == histc, "bad eq");
    assert!(hist.same_as(&histc), "bad same as");

    histc.undo();
    histc.update(Move::new(-1, -1, (0, 0)));
    assert!(!(hist == histc), "bad eq");
    assert!(!hist.same_as(&histc), "bad same as");

    histc.undo();
    histc.update(Move::new(9, 9, (9, 9)));
    hist.undo();
    assert!(!(hist == histc), "bad eq");
    assert!(hist.same_as(&histc), "bad same as");

    hist.redo();
    assert!(hist == histc, "bad eq");
    assert!(hist.same_as(&histc), "bad same as");

    hist.undo();
    hist.update(Move::new(-1, -1, (0, 0)));
    assert!(!(hist == histc), "bad eq");
    assert!(!hist.same_as(&histc), "bad same as");
}

#[test]
fn multi_history_update_undo_redo() {
    let moves = (0..10)
        .map(|i| vec![Move::new(i, i, (i as usize, i as usize)); 2])
        .collect::<Vec<_>>();
    let mut hist = new_multi_history(moves.clone());
    assert_eq!(hist.loc(), Where::Back, "bad loc");

    for mvs in moves.iter().cloned().rev() {
        assert_eq!(hist.undo(), Some(mvs), "bad undo");
    }
    assert_eq!(hist.loc(), Where::Front, "bad loc");
    assert_eq!(hist.undo(), None, "bad undo");
    for mvs in moves.iter().cloned() {
        assert_eq!(hist.redo(), Some(mvs), "bad redo");
    }
    assert_eq!(hist.loc(), Where::Back, "bad loc");
    assert_eq!(hist.redo(), None, "bad redo");
    assert!(hist == new_multi_history(moves.clone()));

    let mvs = vec![Move::new(0, 0, (0, 0)); 2];
    hist.undo();
    assert_eq!(hist.loc(), Where::Middle, "bad loc");
    hist.update(mvs.clone());
    assert_eq!(hist.redo(), None, "bad redo");

    assert_eq!(hist.undo(), Some(mvs.clone()), "bad undo");
    assert_eq!(hist.redo(), Some(mvs.clone()), "bad redo");

    for _ in moves.iter() {
        hist.undo();
    }
    let mvs = vec![Move::new(0, 0, (0, 0)); 2];
    assert_eq!(hist.loc(), Where::Front);
    hist.update(mvs.clone());
    assert_eq!(hist.redo(), None, "bad redo");

    assert_eq!(hist.undo(), Some(mvs.clone()), "bad undo");
    assert_eq!(hist.undo(), None, "bad undo");

    assert_eq!(hist.redo(), Some(mvs.clone()), "bad redo");
    assert_eq!(hist.redo(), None, "bad redo");
}

#[test]
fn multi_history_clone_same_eq() {
    let mut hist =
        new_multi_history((0..10).map(|i| vec![Move::new(i, i, (i as usize, i as usize)); 2]));
    let mut histc = hist.clone();
    assert!(hist == histc, "bad clone or eq");
    assert!(hist.same_as(&histc), "bad same as");

    histc.undo();
    assert!(!(hist == histc), "bad eq");
    assert!(hist.same_as(&histc), "bad same as");

    histc.redo();
    assert!(hist == histc, "bad eq");
    assert!(hist.same_as(&histc), "bad same as");

    histc.undo();
    histc.update(vec![Move::new(-1, -1, (0, 0)); 2]);
    assert!(!(hist == histc), "bad eq");
    assert!(!hist.same_as(&histc), "bad same as");

    histc.undo();
    histc.update(vec![Move::new(9, 9, (9, 9)); 2]);
    hist.undo();
    assert!(!(hist == histc), "bad eq");
    assert!(hist.same_as(&histc), "bad same as");

    hist.redo();
    assert!(hist == histc, "bad eq");
    assert!(hist.same_as(&histc), "bad same as");

    hist.undo();
    hist.update(vec![Move::new(-1, -1, (0, 0)); 2]);
    assert!(!(hist == histc), "bad eq");
    assert!(!hist.same_as(&histc), "bad same as");
}

#[test]
fn record_after_undo_discards_forward_branch() {
    // record three, undo twice, record a fourth: the log is exactly the
    // first and the new entry, with nothing to redo
    let mut hist = History::new();
    let m1 = Move::new(1, 1, (1, 1));
    let m2 = Move::new(2, 2, (2, 2));
    let m3 = Move::new(3, 3, (3, 3));
    let m4 = Move::new(4, 4, (4, 4));
    hist.update(m1);
    hist.update(m2);
    hist.update(m3);
    assert_eq!(hist.undo(), Some(m3));
    assert_eq!(hist.undo(), Some(m2));
    assert_eq!(hist.loc(), Where::Middle);
    hist.update(m4);
    assert_eq!(hist.redo(), None);
    assert!(!hist.can_redo());
    assert_eq!(hist.undo(), Some(m4));
    assert_eq!(hist.undo(), Some(m1));
    assert_eq!(hist.undo(), None);

    let mut expect = History::new();
    expect.update(m1);
    expect.update(m4);
    for _ in 0..2 {
        expect.undo();
    }
    assert!(hist == expect);
}

#[test]
fn clear_empties_the_log() {
    let mut hist = new_history((0..4).map(|i| Move::new(i, i, (0, 0))));
    assert!(hist.can_undo());
    hist.clear();
    assert!(!hist.can_undo());
    assert!(!hist.can_redo());
    assert_eq!(hist.loc(), Where::Back);

    let mut multi = new_multi_history((0..4).map(|i| vec![Move::new(i, i, (0, 0))]));
    assert!(multi.can_undo());
    multi.clear();
    assert!(!multi.can_undo());
    assert!(!multi.can_redo());
}

#[test]
fn simple_history_push_undo_redo_replace() {
    let mut hist = simple::History::new();
    assert!(!hist.can_undo());
    assert!(!hist.can_redo());
    let m1 = simple::Move::new((0, 0), 3, 0);
    let m2 = simple::Move::new((1, 0), 4, 0);
    let m3 = simple::Move::new((2, 0), 5, 0);
    hist.push(m1);
    hist.push(m2);
    hist.push(m3);
    assert_eq!(hist.undo(), Some(m3));
    assert_eq!(hist.undo(), Some(m2));
    assert_eq!(hist.redo(), Some(m2));
    assert_eq!(hist.redo(), Some(m3));
    assert_eq!(hist.redo(), None);
    assert_eq!(hist.undo(), Some(m3));
    // replace overwrites the move at the cursor and drops what follows
    let m4 = simple::Move::new((3, 0), 6, 0);
    hist.replace(m4);
    assert_eq!(hist.redo(), None);
    assert_eq!(hist.undo(), Some(m4));
    assert_eq!(hist.undo(), Some(m1));
    assert_eq!(hist.undo(), None);
}

#[test]
fn simple_history_replace_at_front_records_one_entry() {
    // with every move undone, replace discards the whole log and restarts
    // it with the one new entry
    let mut hist = simple::History::new();
    let m1 = simple::Move::new((0, 0), 1, 0);
    let m2 = simple::Move::new((1, 0), 2, 0);
    let m3 = simple::Move::new((5, 5), 9, 0);
    hist.push(m1);
    hist.push(m2);
    assert_eq!(hist.undo(), Some(m2));
    assert_eq!(hist.undo(), Some(m1));
    hist.replace(m3);
    assert_eq!(hist.redo(), None);
    assert!(!hist.can_redo());
    assert_eq!(hist.undo(), Some(m3));
    assert_eq!(hist.undo(), None);
}

#[test]
fn simple_history_push_discards_forward_branch() {
    let mut hist = simple::History::new();
    let m1 = simple::Move::new((0, 0), 1, 0);
    let m2 = simple::Move::new((1, 0), 2, 0);
    let m3 = simple::Move::new((2, 0), 3, 0);
    let m4 = simple::Move::new((3, 0), 4, 0);
    hist.push(m1);
    hist.push(m2);
    hist.push(m3);
    assert_eq!(hist.undo(), Some(m3));
    assert_eq!(hist.undo(), Some(m2));
    // recording with a forward branch pending discards it
    hist.push(m4);
    assert_eq!(hist.redo(), None);
    assert!(!hist.can_redo());
    assert_eq!(hist.undo(), Some(m4));
    assert_eq!(hist.undo(), Some(m1));
    assert_eq!(hist.undo(), None);
}
