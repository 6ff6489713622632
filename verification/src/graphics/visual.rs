//! Texts and page turns of a step-through of the boards of a solution.

use vstd::prelude::*;
use vstd::string::StringExecFns;

verus! {

/// A key press, as far as the step-through tells keys apart.
#[derive(Debug, Copy, Clone, PartialEq, Eq)]
pub enum Press {
    /// Back to the board before.
    Left,
    /// On to the next board.
    Right,
    /// Any other key.
    Other,
}

/// Number of the board shown after `press`, when board `index` of `count` is shown.
pub open spec fn page_after(index: int, count: int, press: Press) -> int {
    match press {
        Press::Right => if index < count - 1 {
            index + 1
        } else {
            index
        },
        Press::Left => if index > 0 {
            index - 1
        } else {
            index
        },
        Press::Other => index,
    }
}

/// The character of a decimal digit.
pub open spec fn digit(value: int) -> char {
    if value == 0 {
        '0'
    } else if value == 1 {
        '1'
    } else if value == 2 {
        '2'
    } else if value == 3 {
        '3'
    } else if value == 4 {
        '4'
    } else if value == 5 {
        '5'
    } else if value == 6 {
        '6'
    } else if value == 7 {
        '7'
    } else if value == 8 {
        '8'
    } else {
        '9'
    }
}

/// The decimal digits of a natural number, without leading zeros.
pub open spec fn decimal(value: nat) -> Seq<char>
    decreases value,
{
    if value < 10 {
        seq![digit(value as int)]
    } else {
        decimal(value / 10).push(digit((value % 10) as int))
    }
}

/// The decimal digits of an integer, with a minus sign before a negative one.
pub open spec fn signed_decimal(value: int) -> Seq<char> {
    if value < 0 {
        seq!['-'] + decimal((-value) as nat)
    } else {
        decimal(value as nat)
    }
}

/// What a cell shows: a star for the empty slot, the label of the tile otherwise.
pub open spec fn cell_text(label: int, size: int) -> Seq<char> {
    if label == size * size {
        seq!['*']
    } else {
        signed_decimal(label)
    }
}

/// The line that tells how long the search took.
pub open spec fn caption_text(time: Seq<char>) -> Seq<char> {
    "Duration : "@ + time + "s"@
}

/// Number of the board to show after `press`, when board `index` of
/// `count` is shown: one on or one back, staying within the boards.
pub fn turn_page(index: usize, count: usize, press: Press) -> (next: usize)
    requires
        index < count,
    ensures
        next == page_after(index as int, count as int, press),
        next < count,
{
    match press {
        Press::Right => {
            if index < count - 1 {
                index + 1
            } else {
                index
            }
        },
        Press::Left => {
            if index > 0 {
                index - 1
            } else {
                index
            }
        },
        Press::Other => index,
    }
}

/// The text of one decimal digit.
fn digit_text(value: u32) -> (text: &'static str)
    requires
        value < 10,
    ensures
        text@ == seq![digit(value as int)],
{
    proof {
        reveal_strlit("0");
        reveal_strlit("1");
        reveal_strlit("2");
        reveal_strlit("3");
        reveal_strlit("4");
        reveal_strlit("5");
        reveal_strlit("6");
        reveal_strlit("7");
        reveal_strlit("8");
        reveal_strlit("9");
    }
    let text: &'static str = if value == 0 {
        "0"
    } else if value == 1 {
        "1"
    } else if value == 2 {
        "2"
    } else if value == 3 {
        "3"
    } else if value == 4 {
        "4"
    } else if value == 5 {
        "5"
    } else if value == 6 {
        "6"
    } else if value == 7 {
        "7"
    } else if value == 8 {
        "8"
    } else {
        "9"
    };
    assert(text@ =~= seq![digit(value as int)]);
    text
}

/// The decimal digits of `value`.
pub fn decimal_text(value: u32) -> (text: String)
    ensures
        text@ == decimal(value as nat),
{
    let mut text: String = String::from_str(digit_text(value % 10));
    let mut rest: u32 = value / 10;
    proof {
        if rest > 0 {
            assert(decimal(value as nat) =~= decimal(rest as nat) + text@);
        }
    }
    while rest > 0
        invariant
            rest > 0 ==> decimal(value as nat) == decimal(rest as nat) + text@,
            rest == 0 ==> decimal(value as nat) == text@,
        decreases rest,
    {
        let ghost low = text@;
        let ghost above = rest;
        text = String::from_str(digit_text(rest % 10)).concat(text.as_str());
        rest = rest / 10;
        proof {
            assert(text@ == seq![digit((above % 10) as int)] + low);
            if rest > 0 {
                assert(decimal(above as nat) == decimal(rest as nat).push(
                    digit((above % 10) as int),
                ));
                assert(decimal(value as nat) =~= decimal(rest as nat) + text@);
            } else {
                assert(decimal(above as nat) == seq![digit(above as int)]);
                assert(decimal(value as nat) =~= text@);
            }
        }
    }
    text
}

/// What the cell that holds `label` shows on a board of side `size`.
pub fn cell_label(label: i32, size: i32) -> (text: String)
    ensures
        text@ == cell_text(label as int, size as int),
{
    assert(0 <= size * size <= 0x4000_0000_0000_0000) by (nonlinear_arith)
        requires
            -0x8000_0000 <= size <= 0x7fff_ffff,
    ;
    let side: i64 = size as i64;
    if label as i64 == side * side {
        proof {
            reveal_strlit("*");
        }
        let star: String = String::from_str("*");
        assert(star@ =~= seq!['*']);
        star
    } else if label < 0 {
        proof {
            reveal_strlit("-");
        }
        let digits: String = decimal_text((-(label as i64)) as u32);
        let text: String = String::from_str("-").concat(digits.as_str());
        assert(text@ =~= seq!['-'] + decimal((-label) as nat));
        text
    } else {
        decimal_text(label as u32)
    }
}

/// The line that tells how long the search took, `time` being the seconds as text.
pub fn duration_caption(time: &str) -> (caption: String)
    ensures
        caption@ == caption_text(time@),
{
    String::from_str("Duration : ").concat(time).concat("s")
}

} // verus!
