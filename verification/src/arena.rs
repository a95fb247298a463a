use vstd::prelude::*;

verus! {

/// How the inside of an arena is filled.
#[derive(Clone, Copy, Debug, PartialEq, Eq, Structural)]
pub enum ArenaKind {
    /// A perfect maze of walls.
    Maze,
    /// Obstacles scattered at random.
    Scatter,
}

/// The arena type named `maze` is a maze; every other name means scattered obstacles.
pub fn arena_kind(arena_type: &str) -> (kind: ArenaKind)
    ensures
        kind == (if arena_type@ == "maze"@ {
            ArenaKind::Maze
        } else {
            ArenaKind::Scatter
        }),
{
    let name = String::from_str(arena_type);
    let maze = String::from_str("maze");
    if name == maze {
        ArenaKind::Maze
    } else {
        ArenaKind::Scatter
    }
}

} // verus!
