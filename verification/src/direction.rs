//! D8 flow directions: the eight neighbours of a grid cell, plus `None`
//! for a cell that drains nowhere (a pit or a pour point).

use vstd::prelude::*;

verus! {

/// D8 flow direction (8 cardinal and diagonal directions); `NoFlow` marks a
/// cell that drains nowhere.
///
/// `y` grows downwards, so `North` is the neighbour at `(x, y - 1)`.
#[derive(Clone, Copy, Debug, PartialEq, Eq, Structural)]
pub enum FlowDirection {
    NoFlow,
    North,
    NorthEast,
    East,
    SouthEast,
    South,
    SouthWest,
    West,
    NorthWest,
}

impl FlowDirection {
    /// Horizontal component of the direction's offset.
    pub open spec fn dx(self) -> int {
        match self {
            FlowDirection::NorthEast | FlowDirection::East | FlowDirection::SouthEast => 1,
            FlowDirection::SouthWest | FlowDirection::West | FlowDirection::NorthWest => -1,
            _ => 0,
        }
    }

    /// Vertical component of the direction's offset.
    pub open spec fn dy(self) -> int {
        match self {
            FlowDirection::North | FlowDirection::NorthEast | FlowDirection::NorthWest => -1,
            FlowDirection::SouthEast | FlowDirection::South | FlowDirection::SouthWest => 1,
            _ => 0,
        }
    }

    /// Whether the direction points to a diagonal neighbour.
    pub open spec fn spec_is_diagonal(self) -> bool {
        self.dx() != 0 && self.dy() != 0
    }

    /// The eight proper directions, in the order the D8 scan visits them.
    pub open spec fn all_spec() -> Seq<FlowDirection> {
        seq![
            FlowDirection::North,
            FlowDirection::NorthEast,
            FlowDirection::East,
            FlowDirection::SouthEast,
            FlowDirection::South,
            FlowDirection::SouthWest,
            FlowDirection::West,
            FlowDirection::NorthWest,
        ]
    }

    /// Get the dx, dy offset for this direction.
    pub fn offset(&self) -> (r: (i32, i32))
        ensures
            r.0 == self.dx(),
            r.1 == self.dy(),
    {
        match self {
            FlowDirection::NoFlow => (0, 0),
            FlowDirection::North => (0, -1),
            FlowDirection::NorthEast => (1, -1),
            FlowDirection::East => (1, 0),
            FlowDirection::SouthEast => (1, 1),
            FlowDirection::South => (0, 1),
            FlowDirection::SouthWest => (-1, 1),
            FlowDirection::West => (-1, 0),
            FlowDirection::NorthWest => (-1, -1),
        }
    }

    /// Get all 8 directions.
    pub fn all() -> (r: [FlowDirection; 8])
        ensures
            r@ == Self::all_spec(),
    {
        let r = [
            FlowDirection::North,
            FlowDirection::NorthEast,
            FlowDirection::East,
            FlowDirection::SouthEast,
            FlowDirection::South,
            FlowDirection::SouthWest,
            FlowDirection::West,
            FlowDirection::NorthWest,
        ];
        assert(r@ =~= Self::all_spec());
        r
    }

    /// Whether moving in this direction crosses a cell diagonally; such a move
    /// covers a distance of `sqrt(2)` cells instead of one.
    pub fn is_diagonal(&self) -> (r: bool)
        ensures
            r == self.spec_is_diagonal(),
    {
        match self {
            FlowDirection::NorthEast | FlowDirection::SouthEast | FlowDirection::SouthWest
            | FlowDirection::NorthWest => true,
            _ => false,
        }
    }

    /// The direction's bit flag: `NoFlow` is 0, `North` 1, `NorthEast` 2,
    /// `East` 4, `SouthEast` 8, `South` 16, `SouthWest` 32, `West` 64 and
    /// `NorthWest` 128.
    pub open spec fn flag(self) -> u8 {
        match self {
            FlowDirection::NoFlow => 0,
            FlowDirection::North => 1,
            FlowDirection::NorthEast => 2,
            FlowDirection::East => 4,
            FlowDirection::SouthEast => 8,
            FlowDirection::South => 16,
            FlowDirection::SouthWest => 32,
            FlowDirection::West => 64,
            FlowDirection::NorthWest => 128,
        }
    }

    /// Encode the direction as its bit flag.
    pub fn bits(&self) -> (r: u8)
        ensures
            r == self.flag(),
    {
        match self {
            FlowDirection::NoFlow => 0,
            FlowDirection::North => 1,
            FlowDirection::NorthEast => 2,
            FlowDirection::East => 4,
            FlowDirection::SouthEast => 8,
            FlowDirection::South => 16,
            FlowDirection::SouthWest => 32,
            FlowDirection::West => 64,
            FlowDirection::NorthWest => 128,
        }
    }

    /// The direction whose bit flag is `b`, if there is one.
    pub fn from_bits(b: u8) -> (r: Option<FlowDirection>)
        ensures
            r matches Some(d) ==> d.flag() == b,
            r is None ==> forall|d: FlowDirection| #[trigger] d.flag() != b,
    {
        match b {
            0 => Some(FlowDirection::NoFlow),
            1 => Some(FlowDirection::North),
            2 => Some(FlowDirection::NorthEast),
            4 => Some(FlowDirection::East),
            8 => Some(FlowDirection::SouthEast),
            16 => Some(FlowDirection::South),
            32 => Some(FlowDirection::SouthWest),
            64 => Some(FlowDirection::West),
            128 => Some(FlowDirection::NorthWest),
            _ => None,
        }
    }
}

/// Each direction has its own flag, so decoding a flag gives back the
/// direction.
pub proof fn lemma_flags_distinct(a: FlowDirection, b: FlowDirection)
    ensures
        a.flag() == b.flag() <==> a == b,
{
}

/// Every proper direction occurs in `all_spec`; `None` does not.
pub proof fn lemma_all_directions(d: FlowDirection)
    ensures
        d != FlowDirection::NoFlow <==> exists|k: int|
            0 <= k < 8 && #[trigger] FlowDirection::all_spec()[k] == d,
        d == FlowDirection::NoFlow <==> d.dx() == 0 && d.dy() == 0,
{
    let s = FlowDirection::all_spec();
    match d {
        FlowDirection::NoFlow => {
            assert forall|k: int| 0 <= k < 8 implies #[trigger] s[k] != d by {}
        },
        FlowDirection::North => { assert(s[0] == d); },
        FlowDirection::NorthEast => { assert(s[1] == d); },
        FlowDirection::East => { assert(s[2] == d); },
        FlowDirection::SouthEast => { assert(s[3] == d); },
        FlowDirection::South => { assert(s[4] == d); },
        FlowDirection::SouthWest => { assert(s[5] == d); },
        FlowDirection::West => { assert(s[6] == d); },
        FlowDirection::NorthWest => { assert(s[7] == d); },
    }
}

} // verus!
