//! The maze grid: rows of cell symbols, possibly of different lengths.
//! Everything outside the rows is solid.

use vstd::prelude::*;
use vstd::arithmetic::div_mod::lemma_fundamental_div_mod;
use vstd::arithmetic::div_mod::lemma_mod_bound;
use crate::geometry::div_floor;

verus! {

/// The maze as it is stored: one `Vec` of symbols per row.
pub type Maze = Vec<Vec<char>>;

/// The maze as contracts see it.
pub type Grid = Seq<Seq<char>>;

/// What a cell symbol stands for.
#[derive(Clone, Copy, Debug, PartialEq, Eq, Structural)]
pub enum CellKind {
    /// `' '`: open floor.
    Empty,
    /// `'-'`: a wall that runs along the x axis.
    WallHorizontal,
    /// `'|'`: a wall that runs along the y axis.
    WallVertical,
    /// `'+'`: a pillar where walls meet.
    Pillar,
    /// `'G'`: the door, drawn open once every collectible is gathered.
    Door,
    /// `'R'`: the cell an agent starts in.
    AgentSpawn,
    /// `'C'`: the cell a collectible lies in.
    CollectibleSpawn,
    /// `'g'`: the goal.
    Goal,
    /// Any other symbol: solid.
    Other,
}

/// The grid that a stored maze stands for.
pub open spec fn grid_of(maze: &Maze) -> Grid {
    Seq::new(maze@.len(), |j: int| maze@[j]@)
}

/// The kind of a symbol.
pub open spec fn kind_of(c: char) -> CellKind {
    if c == ' ' {
        CellKind::Empty
    } else if c == '-' {
        CellKind::WallHorizontal
    } else if c == '|' {
        CellKind::WallVertical
    } else if c == '+' {
        CellKind::Pillar
    } else if c == 'G' {
        CellKind::Door
    } else if c == 'R' {
        CellKind::AgentSpawn
    } else if c == 'C' {
        CellKind::CollectibleSpawn
    } else if c == 'g' {
        CellKind::Goal
    } else {
        CellKind::Other
    }
}

/// Whether a cell of this kind stops rays and movement: every kind does
/// but open floor and an agent's starting cell.
pub open spec fn kind_blocks(k: CellKind) -> bool {
    k != CellKind::Empty && k != CellKind::AgentSpawn
}

/// Whether a symbol can be walked on and seen through.
pub open spec fn passable(c: char) -> bool {
    c == ' ' || c == 'R'
}

/// Whether column `i` of row `j` exists.
pub open spec fn cell_in_bounds(g: Grid, i: int, j: int) -> bool {
    0 <= j < g.len() && 0 <= i < g[j].len()
}

/// Whether `(i, j)` is a cell of the grid that can be walked on.
pub open spec fn cell_walkable(g: Grid, i: int, j: int) -> bool {
    cell_in_bounds(g, i, j) && passable(g[j][i])
}

/// The index of the cell that holds a coordinate: the coordinate divided
/// by the cell size, rounded down.
pub open spec fn cell_index(coord: int, block_size: int) -> int {
    coord / block_size
}

/// No symbol of the grid blocks: each one is passable.
pub open spec fn wall_free(g: Grid) -> bool {
    forall|i: int, j: int| cell_in_bounds(g, i, j) ==> passable(#[trigger] g[j][i])
}

/// A cell of the grid has indices that fit the machine's index type, and
/// the grid holds there what the stored maze holds.
pub proof fn lemma_grid_cell(maze: &Maze, i: int, j: int)
    requires
        cell_in_bounds(grid_of(maze), i, j),
    ensures
        0 <= j < maze.len() <= usize::MAX,
        0 <= i < maze@[j].len() <= usize::MAX,
        grid_of(maze)[j][i] == maze@[j]@[i],
{
    assert(maze.len() == maze@.len());
    assert(maze@[j].len() == maze@[j]@.len());
}

impl CellKind {
    /// Whether a cell of this kind stops rays and movement.
    pub fn blocks(self) -> (r: bool)
        ensures
            r == kind_blocks(self),
    {
        match self {
            CellKind::Empty => false,
            CellKind::AgentSpawn => false,
            _ => true,
        }
    }

    /// Whether a cell of this kind is drawn as a door.
    pub fn is_door(self) -> (r: bool)
        ensures
            r == (self == CellKind::Door),
    {
        match self {
            CellKind::Door => true,
            _ => false,
        }
    }
}

/// Classifies a cell symbol.
pub fn cell_kind(c: char) -> (k: CellKind)
    ensures
        k == kind_of(c),
        kind_blocks(k) == !passable(c),
{
    if c == ' ' {
        CellKind::Empty
    } else if c == '-' {
        CellKind::WallHorizontal
    } else if c == '|' {
        CellKind::WallVertical
    } else if c == '+' {
        CellKind::Pillar
    } else if c == 'G' {
        CellKind::Door
    } else if c == 'R' {
        CellKind::AgentSpawn
    } else if c == 'C' {
        CellKind::CollectibleSpawn
    } else if c == 'g' {
        CellKind::Goal
    } else {
        CellKind::Other
    }
}

/// Whether `(i, j)` names a cell of the maze.
pub fn in_bounds(maze: &Maze, i: i64, j: i64) -> (r: bool)
    ensures
        r == cell_in_bounds(grid_of(maze), i as int, j as int),
{
    if j < 0 {
        return false;
    }
    if j as u64 >= maze.len() as u64 {
        return false;
    }
    if i < 0 {
        return false;
    }
    (i as u64) < maze[j as usize].len() as u64
}

/// Whether `(i, j)` is a cell of the maze that agents and the viewer can
/// stand in.
pub fn is_walkable_cell(maze: &Maze, i: i64, j: i64) -> (r: bool)
    ensures
        r == cell_walkable(grid_of(maze), i as int, j as int),
{
    if !in_bounds(maze, i, j) {
        return false;
    }
    proof {
        lemma_grid_cell(maze, i as int, j as int);
    }
    !cell_kind(maze[j as usize][i as usize]).blocks()
}

/// The symbol of cell `(i, j)`, which must exist.
pub fn symbol_at(maze: &Maze, i: i64, j: i64) -> (c: char)
    requires
        cell_in_bounds(grid_of(maze), i as int, j as int),
    ensures
        c == grid_of(maze)[j as int][i as int],
{
    proof {
        lemma_grid_cell(maze, i as int, j as int);
    }
    maze[j as usize][i as usize]
}

/// The cell of a coordinate has an index as small as a coordinate.
pub proof fn lemma_cell_range(coord: i32, block_size: u32)
    requires
        block_size > 0,
    ensures
        -0x8000_0000 <= cell_index(coord as int, block_size as int) <= 0x7fff_ffff,
{
    let c = coord as int;
    let b = block_size as int;
    lemma_fundamental_div_mod(c, b);
    lemma_mod_bound(c, b);
    if c >= 0 {
        assert(0 <= c / b <= c) by (nonlinear_arith)
            requires
                c >= 0,
                b >= 1,
        ;
    } else {
        assert(c <= c / b < 0) by (nonlinear_arith)
            requires
                c < 0,
                b >= 1,
                c == b * (c / b) + c % b,
                0 <= c % b < b,
        ;
    }
}

/// A coordinate divided by the cell size, rounded down.
pub fn cell_coord(coord: i32, block_size: u32) -> (q: i64)
    requires
        block_size > 0,
    ensures
        q == cell_index(coord as int, block_size as int),
        -0x8000_0000 <= q <= 0x7fff_ffff,
{
    proof {
        lemma_cell_range(coord, block_size);
    }
    div_floor(coord as i64, block_size as u64).0
}

/// The cell that holds a world position.
pub fn cell_indices_from_pos(pos_x: i32, pos_y: i32, block_size: u32) -> (cell: (i64, i64))
    requires
        block_size > 0,
    ensures
        cell.0 == cell_index(pos_x as int, block_size as int),
        cell.1 == cell_index(pos_y as int, block_size as int),
        -0x8000_0000 <= cell.0 <= 0x7fff_ffff,
        -0x8000_0000 <= cell.1 <= 0x7fff_ffff,
{
    (cell_coord(pos_x, block_size), cell_coord(pos_y, block_size))
}

/// The name under which the maze of a level is stored. Levels 1 to 3 have
/// a maze each; any other number falls back to the first.
pub fn load_maze_for_level(level: i32) -> (name: &'static str)
    ensures
        level == 2 ==> name@ == "maze2.txt"@,
        level == 3 ==> name@ == "maze3.txt"@,
        level != 2 && level != 3 ==> name@ == "maze1.txt"@,
{
    if level == 2 {
        "maze2.txt"
    } else if level == 3 {
        "maze3.txt"
    } else {
        "maze1.txt"
    }
}

/// The characters of a text, one by one.
pub fn chars_of(text: &str) -> (chars: Vec<char>)
    ensures
        chars@ == text@,
{
    let mut chars: Vec<char> = Vec::new();
    for c in it: text.chars()
        invariant
            it.seq() == text@,
            chars@.len() == it.index(),
            forall|j: int| 0 <= j < chars@.len() ==> chars@[j] == it.seq()[j],
    {
        chars.push(c);
    }
    assert(chars@ =~= text@);
    chars
}

/// The maze that a text stands for: one row for each line, one cell for
/// each character of it. Lines may differ in length.
pub fn load_maze(lines: &Vec<String>) -> (maze: Maze)
    ensures
        grid_of(&maze) == Seq::new(lines@.len(), |k: int| lines@[k]@),
{
    let mut maze: Maze = Vec::new();
    let mut k: usize = 0;
    while k < lines.len()
        invariant
            k <= lines.len(),
            maze@.len() == k,
            forall|j: int| 0 <= j < k ==> (#[trigger] maze@[j])@ == lines@[j]@,
        decreases lines.len() - k,
    {
        maze.push(chars_of(lines[k].as_str()));
        k = k + 1;
    }
    assert(grid_of(&maze) =~= Seq::new(lines@.len(), |k: int| lines@[k]@));
    maze
}

} // verus!
