//! Text rendering: symbol names (digits, then letters past nine) and the
//! fixed-width board dumps with `_` for empty cells, `| ` at box boundaries
//! and a dashed rule between box bands.

use vstd::prelude::*;
use vstd::string::StringExecFns;
use crate::grid3::Grid3x3;
use crate::grid4::Grid4x4;

verus! {

/// The characters naming symbol `n`: `1..=9` as digits, `10..=16` as the
/// letters `A..=G`, anything else empty.
pub open spec fn num_str(n: u8) -> Seq<char> {
    if n == 1 {
        "1"@
    } else if n == 2 {
        "2"@
    } else if n == 3 {
        "3"@
    } else if n == 4 {
        "4"@
    } else if n == 5 {
        "5"@
    } else if n == 6 {
        "6"@
    } else if n == 7 {
        "7"@
    } else if n == 8 {
        "8"@
    } else if n == 9 {
        "9"@
    } else if n == 10 {
        "A"@
    } else if n == 11 {
        "B"@
    } else if n == 12 {
        "C"@
    } else if n == 13 {
        "D"@
    } else if n == 14 {
        "E"@
    } else if n == 15 {
        "F"@
    } else if n == 16 {
        "G"@
    } else {
        ""@
    }
}

/// The printable name of a symbol.
pub fn num_to_str(n: u8) -> (r: &'static str)
    ensures
        r@ == num_str(n),
{
    match n {
        1 => "1",
        2 => "2",
        3 => "3",
        4 => "4",
        5 => "5",
        6 => "6",
        7 => "7",
        8 => "8",
        9 => "9",
        10 => "A",
        11 => "B",
        12 => "C",
        13 => "D",
        14 => "E",
        15 => "F",
        16 => "G",
        _ => "",
    }
}

/// A cell's text: its symbol name (or `_` when empty) followed by its
/// column separator.
pub open spec fn cell3_text(g: Grid3x3, x: int, y: int) -> Seq<char> {
    let v = g.at(x, y).spec_num();
    (if v == 0 {
        "_"@
    } else {
        num_str(v)
    }) + (if x == 2 || x == 5 {
        " | "@
    } else if x == 8 {
        ""@
    } else {
        " "@
    })
}

/// The text of row `y` from column `x` rightwards.
pub open spec fn row3_text_from(g: Grid3x3, y: int, x: int) -> Seq<char>
    decreases 9 - x,
{
    if x < 0 || x >= 9 {
        Seq::empty()
    } else {
        cell3_text(g, x, y) + row3_text_from(g, y, x + 1)
    }
}

/// The line break after row `y`, with a dashed rule between box bands.
pub open spec fn row3_sep(y: int) -> Seq<char> {
    if y % 3 == 2 && y != 8 {
        "\n---------------------\n"@
    } else {
        "\n"@
    }
}

/// The text of the board from row `y` downwards.
pub open spec fn grid3_text_from(g: Grid3x3, y: int) -> Seq<char>
    decreases 9 - y,
{
    if y < 0 || y >= 9 {
        Seq::empty()
    } else {
        row3_text_from(g, y, 0) + row3_sep(y) + grid3_text_from(g, y + 1)
    }
}

/// The whole board as fixed-width text.
pub open spec fn grid3_text(g: Grid3x3) -> Seq<char> {
    grid3_text_from(g, 0)
}

/// Renders a 9x9 board: rows of symbols separated by spaces, `| ` at the
/// box boundaries, `_` for empty cells, and a dashed rule between bands.
pub fn grid3_to_text(g: &Grid3x3) -> (r: String)
    requires
        g.wf(),
    ensures
        r@ == grid3_text(*g),
{
    let mut out = String::new();
    proof {
        reveal_strlit("");
    }
    let mut y: usize = 0;
    while y < 9
        invariant
            g.wf(),
            y <= 9,
            grid3_text(*g) == out@ + grid3_text_from(*g, y as int),
        decreases 9 - y,
    {
        let mut x: usize = 0;
        while x < 9
            invariant
                g.wf(),
                y < 9,
                x <= 9,
                grid3_text(*g) == out@ + row3_text_from(*g, y as int, x as int) + row3_sep(
                    y as int,
                ) + grid3_text_from(*g, y + 1),
            decreases 9 - x,
        {
            let v = g.get((x, y)).num_or_zero();
            if v == 0 {
                out.append("_");
            } else {
                out.append(num_to_str(v));
            }
            if x == 2 || x == 5 {
                out.append(" | ");
            } else if x != 8 {
                out.append(" ");
            }
            proof {
                reveal_strlit("");
                assert(grid3_text(*g) =~= out@ + row3_text_from(*g, y as int, x + 1) + row3_sep(
                    y as int,
                ) + grid3_text_from(*g, y + 1));
            }
            x = x + 1;
        }
        if y % 3 == 2 && y != 8 {
            out.append("\n---------------------\n");
        } else {
            out.append("\n");
        }
        proof {
            assert(grid3_text(*g) =~= out@ + grid3_text_from(*g, y + 1));
        }
        y = y + 1;
    }
    proof {
        assert(grid3_text(*g) =~= out@);
    }
    out
}

/// A cell's text on the 16x16 board: its symbol name (or `_`) followed by
/// its column separator.
pub open spec fn cell4_text(g: Grid4x4, x: int, y: int) -> Seq<char> {
    let v = g.at(x, y).spec_num();
    (if v == 0 {
        "_"@
    } else {
        num_str(v)
    }) + (if x == 3 || x == 7 || x == 11 {
        " | "@
    } else if x == 15 {
        ""@
    } else {
        " "@
    })
}

/// The text of row `y` from column `x` rightwards.
pub open spec fn row4_text_from(g: Grid4x4, y: int, x: int) -> Seq<char>
    decreases 16 - x,
{
    if x < 0 || x >= 16 {
        Seq::empty()
    } else {
        cell4_text(g, x, y) + row4_text_from(g, y, x + 1)
    }
}

/// The line break after row `y`, with a dashed rule between box bands.
pub open spec fn row4_sep(y: int) -> Seq<char> {
    if y % 4 == 3 && y != 15 {
        "\n-------------------------------------\n"@
    } else {
        "\n"@
    }
}

/// The text of the board from row `y` downwards.
pub open spec fn grid4_text_from(g: Grid4x4, y: int) -> Seq<char>
    decreases 16 - y,
{
    if y < 0 || y >= 16 {
        Seq::empty()
    } else {
        row4_text_from(g, y, 0) + row4_sep(y) + grid4_text_from(g, y + 1)
    }
}

/// The whole board as fixed-width text.
pub open spec fn grid4_text(g: Grid4x4) -> Seq<char> {
    grid4_text_from(g, 0)
}

/// Renders a 16x16 board in the same fixed-width layout, with `A..=G` for
/// the symbols past nine.
pub fn grid4_to_text(g: &Grid4x4) -> (r: String)
    requires
        g.wf(),
    ensures
        r@ == grid4_text(*g),
{
    let mut out = String::new();
    proof {
        reveal_strlit("");
    }
    let mut y: usize = 0;
    while y < 16
        invariant
            g.wf(),
            y <= 16,
            grid4_text(*g) == out@ + grid4_text_from(*g, y as int),
        decreases 16 - y,
    {
        let mut x: usize = 0;
        while x < 16
            invariant
                g.wf(),
                y < 16,
                x <= 16,
                grid4_text(*g) == out@ + row4_text_from(*g, y as int, x as int) + row4_sep(
                    y as int,
                ) + grid4_text_from(*g, y + 1),
            decreases 16 - x,
        {
            let v = g.get((x, y)).num_or_zero();
            if v == 0 {
                out.append("_");
            } else {
                out.append(num_to_str(v));
            }
            if x == 3 || x == 7 || x == 11 {
                out.append(" | ");
            } else if x != 15 {
                out.append(" ");
            }
            proof {
                reveal_strlit("");
                assert(grid4_text(*g) =~= out@ + row4_text_from(*g, y as int, x + 1) + row4_sep(
                    y as int,
                ) + grid4_text_from(*g, y + 1));
            }
            x = x + 1;
        }
        if y % 4 == 3 && y != 15 {
            out.append("\n-------------------------------------\n");
        } else {
            out.append("\n");
        }
        proof {
            assert(grid4_text(*g) =~= out@ + grid4_text_from(*g, y + 1));
        }
        y = y + 1;
    }
    proof {
        assert(grid4_text(*g) =~= out@);
    }
    out
}

} // verus!
