use vstd::prelude::*;

verus! {

/// The points a letter is worth; letters outside the table are worth nothing.
pub open spec fn letter_value(ch: char) -> i32 {
    match ch {
        'A' => 1,
        'B' => 3,
        'C' => 8,
        'D' => 1,
        'E' => 1,
        'F' => 3,
        'G' => 2,
        'H' => 3,
        'I' => 1,
        'J' => 7,
        'K' => 3,
        'L' => 2,
        'M' => 3,
        'N' => 1,
        'O' => 2,
        'P' => 4,
        'R' => 1,
        'S' => 1,
        'T' => 1,
        'U' => 4,
        'V' => 3,
        'X' => 8,
        'Y' => 7,
        'Z' => 8,
        'Å' => 4,
        'Ä' => 4,
        'Ö' => 4,
        _ => 0,
    }
}

/// The points a letter is worth, see `letter_value`.
pub fn letter_points(ch: char) -> (r: i32)
    ensures
        r == letter_value(ch),
        0 <= r <= 8,
{
    match ch {
        'A' => 1,
        'B' => 3,
        'C' => 8,
        'D' => 1,
        'E' => 1,
        'F' => 3,
        'G' => 2,
        'H' => 3,
        'I' => 1,
        'J' => 7,
        'K' => 3,
        'L' => 2,
        'M' => 3,
        'N' => 1,
        'O' => 2,
        'P' => 4,
        'R' => 1,
        'S' => 1,
        'T' => 1,
        'U' => 4,
        'V' => 3,
        'X' => 8,
        'Y' => 7,
        'Z' => 8,
        'Å' => 4,
        'Ä' => 4,
        'Ö' => 4,
        _ => 0,
    }
}

} // verus!
