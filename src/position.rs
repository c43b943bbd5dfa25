use vstd::prelude::*;

verus! {

/// A zero-based (line, column) pair in editor coordinates.
#[derive(Clone, Copy, Debug, PartialEq, Eq, Structural)]
pub struct Position {
    pub line: u32,
    pub character: u32,
}

/// A (start, end) pair of positions.
#[derive(Clone, Copy, Debug, PartialEq, Eq, Structural)]
pub struct Range {
    pub start: Position,
    pub end: Position,
}

/// Whether `p` lies inside `r`, both ends included.
pub open spec fn spec_range_contains(r: Range, p: Position) -> bool {
    &&& r.start.line <= p.line <= r.end.line
    &&& p.line == r.start.line ==> p.character >= r.start.character
    &&& p.line == r.end.line ==> p.character <= r.end.character
}

/// The position that a one-based source location stands for.
pub open spec fn spec_location_position(line: u32, column: u32) -> Position {
    Position {
        line: if line == 0 { 0 } else { (line - 1) as u32 },
        character: if column == 0 { 0 } else { (column - 1) as u32 },
    }
}

impl Position {
    pub fn new(line: u32, character: u32) -> (r: Position)
        ensures
            r.line == line,
            r.character == character,
    {
        Position { line, character }
    }
}

impl Range {
    pub fn new(start: Position, end: Position) -> (r: Range)
        ensures
            r.start == start,
            r.end == end,
    {
        Range { start, end }
    }
}

/// The shared containment test of completion regions.
pub fn range_contains(range: &Range, pos: &Position) -> (r: bool)
    ensures
        r == spec_range_contains(*range, *pos),
{
    if pos.line < range.start.line || pos.line > range.end.line {
        return false;
    }
    if pos.line == range.start.line && pos.character < range.start.character {
        return false;
    }
    if pos.line == range.end.line && pos.character > range.end.character {
        return false;
    }
    true
}

/// Converts a one-based source location (line, column) to a zero-based
/// position; a zero component stays zero.
pub fn location_to_position(line: u32, column: u32) -> (r: Position)
    ensures
        r == spec_location_position(line, column),
{
    let l: u32 = if line == 0 { 0 } else { line - 1 };
    let c: u32 = if column == 0 { 0 } else { column - 1 };
    Position { line: l, character: c }
}

} // verus!
