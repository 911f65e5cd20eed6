use vstd::pervasive::VecAdditionalExecFns;
use vstd::prelude::*;

verus! {

/// One of the four cardinal directions a pawn can be pushed toward.
#[derive(Clone, Copy, Debug, PartialEq, Eq, Structural)]
pub enum Direction {
    Up,
    Down,
    Left,
    Right,
}

/// The flag value a direction contributes to a tile's exit mask and to the
/// move descriptors of a reported solution.
pub open spec fn dir_bit(d: Direction) -> u8 {
    match d {
        Direction::Up => 1,
        Direction::Down => 2,
        Direction::Left => 4,
        Direction::Right => 8,
    }
}

impl Direction {
    /// The exit-mask flag of this direction.
    pub fn bit(self) -> (r: u8)
        ensures
            r == dir_bit(self),
    {
        match self {
            Direction::Up => 1,
            Direction::Down => 2,
            Direction::Left => 4,
            Direction::Right => 8,
        }
    }
}

/// The fixed kind of a grid cell.
#[derive(Clone, Copy, Debug, PartialEq, Eq, Structural)]
pub enum TileType {
    Empty,
    Goal,
    Wall,
}

/// A movable piece. The puzzle is won when a Fox rests on every goal tile.
#[derive(Clone, Copy, Debug, PartialEq, Eq, Structural)]
pub enum Pawn {
    Fox,
    Monster,
}

/// A single grid cell: its kind, its occupant if any, the exit mask saying
/// which directions a pawn may depart toward, and its coordinates.
#[derive(Clone, Copy, Debug)]
pub struct Tile {
    pub tile_type: TileType,
    pub pawn: Option<Pawn>,
    pub edges: u8,
    pub x: usize,
    pub y: usize,
}

/// A complete grid configuration.
#[derive(Debug)]
pub struct Board {
    pub tiles: Vec<Tile>,
    pub width: usize,
    pub height: usize,
}

/// The mathematical value of a board: its tiles as a sequence, and its
/// dimensions as unbounded integers.
pub struct BoardModel {
    pub tiles: Seq<Tile>,
    pub width: int,
    pub height: int,
}

impl View for Board {
    type V = BoardModel;

    open spec fn view(&self) -> BoardModel {
        BoardModel { tiles: self.tiles@, width: self.width as int, height: self.height as int }
    }
}

impl BoardModel {
    /// Some tile of the board carries the given coordinates.
    pub open spec fn has_tile_at(self, x: int, y: int) -> bool {
        exists|i: int|
            0 <= i < self.tiles.len() && (#[trigger] self.tiles[i]).x as int == x
                && self.tiles[i].y as int == y
    }

    /// The index of the tile at the given coordinates (meaningful when the
    /// board is well formed and such a tile exists).
    pub open spec fn tile_idx(self, x: int, y: int) -> int {
        choose|i: int|
            0 <= i < self.tiles.len() && (#[trigger] self.tiles[i]).x as int == x
                && self.tiles[i].y as int == y
    }

    /// The tile at the given coordinates.
    pub open spec fn tile_at(self, x: int, y: int) -> Tile {
        self.tiles[self.tile_idx(x, y)]
    }

    /// The coordinates lie inside the grid rectangle.
    pub open spec fn in_bounds(self, x: int, y: int) -> bool {
        0 <= x < self.width && 0 <= y < self.height
    }

    /// Well-formedness: every tile lies inside the grid and no two tiles
    /// share a coordinate pair.
    pub open spec fn wf(self) -> bool {
        &&& forall|i: int|
            0 <= i < self.tiles.len() ==> self.in_bounds(
                (#[trigger] self.tiles[i]).x as int,
                self.tiles[i].y as int,
            )
        &&& forall|i: int, j: int|
            0 <= i < self.tiles.len() && 0 <= j < self.tiles.len() && i != j ==> !((
            #[trigger] self.tiles[i]).x == (#[trigger] self.tiles[j]).x && self.tiles[i].y
                == self.tiles[j].y)
    }

    /// Every coordinate of the grid rectangle is covered by a tile.
    pub open spec fn complete(self) -> bool {
        forall|x: int, y: int| self.in_bounds(x, y) ==> #[trigger] self.has_tile_at(x, y)
    }

    /// The solved predicate: every goal tile holds a Fox. A board without
    /// goal tiles is trivially solved.
    pub open spec fn solved(self) -> bool {
        forall|i: int|
            0 <= i < self.tiles.len() && (#[trigger] self.tiles[i]).tile_type == TileType::Goal
                ==> self.tiles[i].pawn == Some(Pawn::Fox)
    }

    /// A pawn may come to rest on the given coordinates: a tile exists there,
    /// it is empty or a goal, and no pawn occupies it.
    pub open spec fn can_step(self, x: int, y: int) -> bool {
        &&& self.has_tile_at(x, y)
        &&& self.tile_at(x, y).pawn is None
        &&& (self.tile_at(x, y).tile_type == TileType::Empty || self.tile_at(x, y).tile_type
            == TileType::Goal)
    }

    /// The same board with another tile sequence.
    pub open spec fn with_tiles(self, t: Seq<Tile>) -> BoardModel {
        BoardModel { tiles: t, ..self }
    }
}

/// The coordinates one cell away from `(x, y)` in direction `d`.
pub open spec fn move_target(x: int, y: int, d: Direction) -> (int, int) {
    match d {
        Direction::Up => (x, y - 1),
        Direction::Down => (x, y + 1),
        Direction::Left => (x - 1, y),
        Direction::Right => (x + 1, y),
    }
}

/// A single one-cell move of the pawn at `(x, y)` in direction `d` succeeds:
/// a pawn stands there, the tile's exit mask permits `d`, and the adjacent
/// cell in that direction is steppable.
pub open spec fn move_allowed(m: BoardModel, x: int, y: int, d: Direction) -> bool {
    &&& m.has_tile_at(x, y)
    &&& m.tile_at(x, y).pawn is Some
    &&& m.tile_at(x, y).edges & dir_bit(d) != 0
    &&& m.can_step(move_target(x, y, d).0, move_target(x, y, d).1)
}

/// The board after one one-cell move of the pawn at `(x, y)` in direction
/// `d`: the occupant is cleared from the source tile and set on the target
/// tile; everything else is unchanged.
pub open spec fn after_move(m: BoardModel, x: int, y: int, d: Direction) -> BoardModel {
    let t = move_target(x, y, d);
    let src = m.tile_at(x, y);
    let dst = m.tile_at(t.0, t.1);
    m.with_tiles(
        m.tiles.update(m.tile_idx(t.0, t.1), Tile { pawn: src.pawn, ..dst }).update(
            m.tile_idx(x, y),
            Tile { pawn: None, ..src },
        ),
    )
}

/// An upper bound on how many cells a pawn can still travel in direction `d`
/// before leaving the grid.
pub open spec fn slide_fuel(m: BoardModel, x: int, y: int, d: Direction) -> int {
    match d {
        Direction::Up => y,
        Direction::Down => m.height - y,
        Direction::Left => x,
        Direction::Right => m.width - x,
    }
}

/// The slide-until-blocked physics: the board after pushing the pawn at
/// `(x, y)` in direction `d` as far as it can travel, and the number of
/// cells traversed (0 when the very first one-cell move already fails).
pub open spec fn slide(m: BoardModel, x: int, y: int, d: Direction) -> (BoardModel, nat)
    decreases slide_fuel(m, x, y, d)
        when m.wf()
        via slide_decreases
{
    if move_allowed(m, x, y, d) {
        let t = move_target(x, y, d);
        let rec = slide(after_move(m, x, y, d), t.0, t.1, d);
        (rec.0, rec.1 + 1)
    } else {
        (m, 0)
    }
}

#[via_fn]
proof fn slide_decreases(m: BoardModel, x: int, y: int, d: Direction) {
    if m.wf() && move_allowed(m, x, y, d) {
        let t = move_target(x, y, d);
        assert(m.has_tile_at(t.0, t.1));
        let j = m.tile_idx(t.0, t.1);
        assert(0 <= j < m.tiles.len() && m.tiles[j].x as int == t.0 && m.tiles[j].y as int == t.1);
        assert(m.in_bounds(t.0, t.1));
    }
}

/// On a well-formed board, the tile found at the coordinates of tile `i` is
/// tile `i` itself.
pub proof fn lemma_tile_idx_is(m: BoardModel, i: int)
    requires
        m.wf(),
        0 <= i < m.tiles.len(),
    ensures
        m.has_tile_at(m.tiles[i].x as int, m.tiles[i].y as int),
        m.tile_idx(m.tiles[i].x as int, m.tiles[i].y as int) == i,
        m.tile_at(m.tiles[i].x as int, m.tiles[i].y as int) == m.tiles[i],
{
    let x = m.tiles[i].x as int;
    let y = m.tiles[i].y as int;
    assert(m.has_tile_at(x, y));
    let j = m.tile_idx(x, y);
    assert(0 <= j < m.tiles.len() && m.tiles[j].x as int == x && m.tiles[j].y as int == y);
    assert(j == i);
}

/// A wall tile with no exits and no occupant at the given coordinates.
pub open spec fn wall_tile(x: usize, y: usize) -> Tile {
    Tile { tile_type: TileType::Wall, pawn: None, edges: 0, x, y }
}

/// The wall tiles that normalization appends: one for every coordinate of
/// the grid rectangle that has no tile yet, scanned row by row from `(x, y)`.
pub open spec fn fill_from(m: BoardModel, y: int, x: int) -> Seq<Tile>
    decreases m.height - y, m.width - x,
{
    if y >= m.height {
        Seq::empty()
    } else if x >= m.width {
        fill_from(m, y + 1, 0)
    } else {
        let rest = fill_from(m, y, x + 1);
        if m.has_tile_at(x, y) {
            rest
        } else {
            seq![wall_tile(x as usize, y as usize)] + rest
        }
    }
}

/// The board after normalization: its own tiles followed by a wall tile
/// for every coordinate that had none.
pub open spec fn normalized(m: BoardModel) -> BoardModel {
    m.with_tiles(m.tiles + fill_from(m, 0, 0))
}

/// A complete board needs no wall filling anywhere.
proof fn lemma_fill_complete_empty(m: BoardModel, y: int, x: int)
    requires
        m.complete(),
        0 <= y,
        0 <= x,
    ensures
        fill_from(m, y, x) == Seq::<Tile>::empty(),
    decreases m.height - y, m.width - x,
{
    if y >= m.height {
    } else if x >= m.width {
        lemma_fill_complete_empty(m, y + 1, 0);
    } else {
        assert(m.in_bounds(x, y));
        assert(m.has_tile_at(x, y));
        lemma_fill_complete_empty(m, y, x + 1);
    }
}

/// Normalization is idempotent: on a complete board — such as any board
/// normalization itself produced — it changes nothing.
pub proof fn lemma_normalize_noop_when_complete(m: BoardModel)
    requires
        m.complete(),
    ensures
        normalized(m) == m,
{
    lemma_fill_complete_empty(m, 0, 0);
    assert(m.tiles + fill_from(m, 0, 0) =~= m.tiles);
}

/// Row-by-row scan order: `(tx, ty)` was visited before position `(x, y)`.
pub open spec fn scan_lt(ty: int, tx: int, y: int, x: int) -> bool {
    ty < y || (ty == y && tx < x)
}

/// One generated move: the board after the push, the coordinates the pushed
/// pawn started from, and the direction pushed.
#[derive(Debug)]
pub struct StepEntry {
    pub board: Board,
    pub pawn_at: (usize, usize),
    pub direction: Direction,
}

/// The mathematical value of a generated move.
pub struct StepModel {
    pub board: BoardModel,
    pub x: int,
    pub y: int,
    pub dir: Direction,
}

impl View for StepEntry {
    type V = StepModel;

    open spec fn view(&self) -> StepModel {
        StepModel {
            board: self.board@,
            x: self.pawn_at.0 as int,
            y: self.pawn_at.1 as int,
            dir: self.direction,
        }
    }
}

/// The values of a sequence of generated moves.
pub open spec fn steps_views(s: Seq<StepEntry>) -> Seq<StepModel> {
    s.map_values(|e: StepEntry| e@)
}

/// The fixed enumeration order of directions during move generation.
pub open spec fn dir_of_index(e: int) -> Direction {
    if e == 0 {
        Direction::Up
    } else if e == 1 {
        Direction::Down
    } else if e == 2 {
        Direction::Left
    } else {
        Direction::Right
    }
}

/// The moves generated from tile index `i` onward, beginning with direction
/// index `e` for tile `i`: one entry for each (pawn tile, direction) pair
/// whose slide traverses at least one cell, pawns in tile-storage order and
/// directions in the order Up, Down, Left, Right.
pub open spec fn steps_from(m: BoardModel, i: int, e: int) -> Seq<StepModel>
    decreases m.tiles.len() - i, 4 - e,
{
    if i >= m.tiles.len() {
        Seq::empty()
    } else if e >= 4 {
        steps_from(m, i + 1, 0)
    } else {
        let t = m.tiles[i];
        let d = dir_of_index(e);
        let s = slide(m, t.x as int, t.y as int, d);
        let rest = steps_from(m, i, e + 1);
        if t.pawn is Some && s.1 > 0 {
            seq![StepModel { board: s.0, x: t.x as int, y: t.y as int, dir: d }] + rest
        } else {
            rest
        }
    }
}

/// Every move a single push can produce from the given board.
pub open spec fn possible_steps(m: BoardModel) -> Seq<StepModel> {
    steps_from(m, 0, 0)
}

/// Every generated move's board is well formed, has the dimensions of its
/// source board, and keeps every tile's coordinates at its index.
pub proof fn lemma_steps_from_wf(m: BoardModel, i: int, e: int)
    requires
        m.wf(),
    ensures
        forall|k: int|
            0 <= k < steps_from(m, i, e).len() ==> {
                let s = #[trigger] steps_from(m, i, e)[k];
                &&& s.board.wf()
                &&& s.board.width == m.width
                &&& s.board.height == m.height
                &&& s.board.tiles.len() == m.tiles.len()
                &&& forall|n: int|
                    0 <= n < m.tiles.len() ==> (#[trigger] s.board.tiles[n]).x == m.tiles[n].x
                        && s.board.tiles[n].y == m.tiles[n].y
            },
    decreases m.tiles.len() - i, 4 - e,
{
    if i >= m.tiles.len() {
    } else if e >= 4 {
        lemma_steps_from_wf(m, i + 1, 0);
    } else {
        let t = m.tiles[i];
        lemma_slide_wf(m, t.x as int, t.y as int, dir_of_index(e));
        lemma_steps_from_wf(m, i, e + 1);
    }
}

/// A slide preserves well-formedness, the dimensions, and the coordinates of
/// every tile (only occupants change).
pub proof fn lemma_slide_wf(m: BoardModel, x: int, y: int, d: Direction)
    requires
        m.wf(),
    ensures
        ({
            let sm = slide(m, x, y, d).0;
            &&& sm.wf()
            &&& sm.width == m.width
            &&& sm.height == m.height
            &&& sm.tiles.len() == m.tiles.len()
            &&& forall|k: int|
                0 <= k < m.tiles.len() ==> (#[trigger] sm.tiles[k]).x == m.tiles[k].x
                    && sm.tiles[k].y == m.tiles[k].y
        }),
    decreases slide(m, x, y, d).1,
{
    if move_allowed(m, x, y, d) {
        let t = move_target(x, y, d);
        lemma_after_move(m, x, y, d);
        lemma_slide_wf(after_move(m, x, y, d), t.0, t.1, d);
    }
}

/// The number of cells a slide traverses never exceeds the distance to the
/// grid edge in its direction.
pub proof fn lemma_slide_count(m: BoardModel, x: int, y: int, d: Direction)
    requires
        m.wf(),
    ensures
        slide(m, x, y, d).1 == 0 || slide(m, x, y, d).1 <= slide_fuel(m, x, y, d),
    decreases slide(m, x, y, d).1,
{
    if move_allowed(m, x, y, d) {
        let t = move_target(x, y, d);
        let am = after_move(m, x, y, d);
        lemma_after_move(m, x, y, d);
        lemma_slide_count(am, t.0, t.1, d);
        assert(slide_fuel(am, t.0, t.1, d) == slide_fuel(m, x, y, d) - 1);
        let j = m.tile_idx(t.0, t.1);
        assert(0 <= j < m.tiles.len() && m.tiles[j].x as int == t.0 && m.tiles[j].y as int == t.1);
        assert(m.in_bounds(t.0, t.1));
        assert(slide_fuel(am, t.0, t.1, d) >= 0);
    }
}

/// Two boards of equal dimensions whose tiles agree index by index on their
/// coordinates present the same coordinates, with each at the same index.
pub proof fn lemma_coords_preserved(m1: BoardModel, m2: BoardModel)
    requires
        m1.wf(),
        m2.width == m1.width,
        m2.height == m1.height,
        m2.tiles.len() == m1.tiles.len(),
        forall|k: int|
            0 <= k < m1.tiles.len() ==> (#[trigger] m2.tiles[k]).x == m1.tiles[k].x
                && m2.tiles[k].y == m1.tiles[k].y,
    ensures
        m2.wf(),
        forall|a: int, b: int| #[trigger] m2.has_tile_at(a, b) <==> m1.has_tile_at(a, b),
        forall|a: int, b: int|
            m1.has_tile_at(a, b) ==> #[trigger] m2.tile_idx(a, b) == m1.tile_idx(a, b),
{
    assert forall|a: int, b: int| 0 <= a < m2.tiles.len() && 0 <= b < m2.tiles.len() && a != b
        implies !((#[trigger] m2.tiles[a]).x == (#[trigger] m2.tiles[b]).x && m2.tiles[a].y
        == m2.tiles[b].y) by {
        assert(m2.tiles[a].x == m1.tiles[a].x && m2.tiles[a].y == m1.tiles[a].y);
        assert(m2.tiles[b].x == m1.tiles[b].x && m2.tiles[b].y == m1.tiles[b].y);
    }
    assert(m2.wf());
    assert forall|a: int, b: int| #[trigger] m2.has_tile_at(a, b) <==> m1.has_tile_at(a, b) by {
        if m1.has_tile_at(a, b) {
            let i = m1.tile_idx(a, b);
            assert(m2.tiles[i].x as int == a && m2.tiles[i].y as int == b);
            assert(m2.has_tile_at(a, b));
        }
        if m2.has_tile_at(a, b) {
            let i = m2.tile_idx(a, b);
            assert(m1.tiles[i].x as int == a && m1.tiles[i].y as int == b);
            assert(m1.has_tile_at(a, b));
        }
    }
    assert forall|a: int, b: int| m1.has_tile_at(a, b) implies #[trigger] m2.tile_idx(a, b)
        == m1.tile_idx(a, b) by {
        let i = m1.tile_idx(a, b);
        assert(0 <= i < m1.tiles.len() && m1.tiles[i].x as int == a && m1.tiles[i].y as int == b);
        lemma_tile_idx_is(m2, i);
        assert(m2.tiles[i].x as int == a && m2.tiles[i].y as int == b);
    }
}

/// What one successful one-cell move does to a well-formed board: the source
/// loses its pawn, the target gains it, every other tile and all coordinates
/// are unchanged, and the board stays well formed.
pub proof fn lemma_after_move(m: BoardModel, x: int, y: int, d: Direction)
    requires
        m.wf(),
        move_allowed(m, x, y, d),
    ensures
        ({
            let am = after_move(m, x, y, d);
            let t = move_target(x, y, d);
            &&& am.wf()
            &&& am.width == m.width
            &&& am.height == m.height
            &&& am.tiles.len() == m.tiles.len()
            &&& forall|k: int|
                0 <= k < m.tiles.len() ==> (#[trigger] am.tiles[k]).x == m.tiles[k].x
                    && am.tiles[k].y == m.tiles[k].y
            &&& am.has_tile_at(t.0, t.1)
            &&& am.tile_at(t.0, t.1) == (Tile { pawn: m.tile_at(x, y).pawn, ..m.tile_at(t.0, t.1) })
            &&& am.tile_at(x, y) == (Tile { pawn: None, ..m.tile_at(x, y) })
        }),
{
    let am = after_move(m, x, y, d);
    let t = move_target(x, y, d);
    let i = m.tile_idx(x, y);
    let j = m.tile_idx(t.0, t.1);
    assert(m.has_tile_at(x, y));
    assert(0 <= i < m.tiles.len() && m.tiles[i].x as int == x && m.tiles[i].y as int == y);
    assert(m.has_tile_at(t.0, t.1));
    assert(0 <= j < m.tiles.len() && m.tiles[j].x as int == t.0 && m.tiles[j].y as int == t.1);
    assert(t.0 != x || t.1 != y);
    assert(i != j);
    assert(forall|k: int|
        0 <= k < m.tiles.len() ==> (#[trigger] am.tiles[k]).x == m.tiles[k].x && am.tiles[k].y
            == m.tiles[k].y);
    assert forall|a: int, b: int| 0 <= a < am.tiles.len() && 0 <= b < am.tiles.len() && a != b
        implies !((#[trigger] am.tiles[a]).x == (#[trigger] am.tiles[b]).x && am.tiles[a].y
        == am.tiles[b].y) by {
        assert(am.tiles[a].x == m.tiles[a].x && am.tiles[a].y == m.tiles[a].y);
        assert(am.tiles[b].x == m.tiles[b].x && am.tiles[b].y == m.tiles[b].y);
    }
    assert(am.wf());
    lemma_tile_idx_is(am, j);
    lemma_tile_idx_is(am, i);
}

impl Board {
    /// A board built from the given tiles and dimensions.
    pub fn new(width: usize, height: usize, tiles: Vec<Tile>) -> (r: Board)
        ensures
            r@ == (BoardModel { tiles: tiles@, width: width as int, height: height as int }),
    {
        Board { tiles, width, height }
    }

    /// The tile at the given coordinates, if any.
    pub fn get_tile_at(&self, x: usize, y: usize) -> (r: Option<Tile>)
        requires
            self@.wf(),
        ensures
            match r {
                Some(t) => self@.has_tile_at(x as int, y as int) && t == self@.tile_at(
                    x as int,
                    y as int,
                ),
                None => !self@.has_tile_at(x as int, y as int),
            },
    {
        let mut i: usize = 0;
        while i < self.tiles.len()
            invariant
                self@.wf(),
                i <= self.tiles.len(),
                forall|j: int|
                    0 <= j < i ==> !((#[trigger] self.tiles@[j]).x == x && self.tiles@[j].y == y),
            decreases self.tiles.len() - i,
        {
            let t = self.tiles[i];
            if t.x == x && t.y == y {
                proof {
                    lemma_tile_idx_is(self@, i as int);
                }
                return Some(t);
            }
            i += 1;
        }
        None
    }

    /// Whether every goal tile holds a Fox.
    pub fn is_solved(&self) -> (r: bool)
        ensures
            r == self@.solved(),
    {
        let mut i: usize = 0;
        while i < self.tiles.len()
            invariant
                i <= self.tiles.len(),
                forall|j: int|
                    0 <= j < i && (#[trigger] self.tiles@[j]).tile_type == TileType::Goal
                        ==> self.tiles@[j].pawn == Some(Pawn::Fox),
            decreases self.tiles.len() - i,
        {
            let t = self.tiles[i];
            match (t.tile_type, t.pawn) {
                (TileType::Goal, Some(Pawn::Fox)) => {},
                (TileType::Goal, _) => {
                    return false;
                },
                _ => {},
            }
            i += 1;
        }
        true
    }

    /// Replaces the tile at the given coordinates with the given tile.
    fn replace_tile_at(&mut self, x: usize, y: usize, tile: Tile)
        requires
            old(self)@.wf(),
            old(self)@.has_tile_at(x as int, y as int),
        ensures
            final(self)@.tiles == old(self)@.tiles.update(
                old(self)@.tile_idx(x as int, y as int),
                tile,
            ),
            final(self)@.width == old(self)@.width,
            final(self)@.height == old(self)@.height,
    {
        let ghost m0 = self@;
        let mut i: usize = 0;
        while i < self.tiles.len()
            invariant
                m0 == old(self)@,
                self@ == m0,
                i <= self.tiles.len(),
                m0.has_tile_at(x as int, y as int),
                m0.wf(),
                forall|j: int|
                    0 <= j < i ==> !((#[trigger] self.tiles@[j]).x == x && self.tiles@[j].y == y),
            decreases self.tiles.len() - i,
        {
            let t = self.tiles[i];
            if t.x == x && t.y == y {
                proof {
                    lemma_tile_idx_is(m0, i as int);
                }
                self.tiles.set(i, tile);
                return ;
            }
            i += 1;
        }
        proof {
            assert(!m0.has_tile_at(x as int, y as int));
        }
    }

    /// Attempts a single one-cell move of the pawn at `(x, y)` in the given
    /// direction, returning the pawn's new coordinates when it succeeds.
    fn move_pawn(&mut self, x: usize, y: usize, direction: Direction) -> (r: Option<
        (usize, usize),
    >)
        requires
            old(self)@.wf(),
            old(self)@.has_tile_at(x as int, y as int),
        ensures
            final(self)@.wf(),
            final(self)@.width == old(self)@.width,
            final(self)@.height == old(self)@.height,
            move_allowed(old(self)@, x as int, y as int, direction) ==> {
                let t = move_target(x as int, y as int, direction);
                &&& r == Some(((t.0 as usize), (t.1 as usize)))
                &&& final(self)@ == after_move(old(self)@, x as int, y as int, direction)
                &&& final(self)@.has_tile_at(t.0, t.1)
            },
            !move_allowed(old(self)@, x as int, y as int, direction) ==> r is None && final(self)@
                == old(self)@,
    {
        let ghost m0 = self@;
        let tile = self.get_tile_at(x, y).unwrap();
        let pawn = match tile.pawn {
            Some(p) => p,
            None => {
                return None;
            },
        };
        if tile.edges & direction.bit() == 0 {
            return None;
        }
        proof {
            let i = m0.tile_idx(x as int, y as int);
            assert(0 <= i < m0.tiles.len() && m0.tiles[i].x == x && m0.tiles[i].y == y);
            assert(m0.in_bounds(x as int, y as int));
        }
        let (tx, ty): (usize, usize) = match direction {
            Direction::Up => {
                if y == 0 {
                    proof {
                        assert(!m0.has_tile_at(x as int, -1));
                        assert(!move_allowed(m0, x as int, y as int, direction));
                    }
                    return None;
                }
                (x, y - 1)
            },
            Direction::Down => (x, y + 1),
            Direction::Left => {
                if x == 0 {
                    proof {
                        assert(!m0.has_tile_at(-1, y as int));
                        assert(!move_allowed(m0, x as int, y as int, direction));
                    }
                    return None;
                }
                (x - 1, y)
            },
            Direction::Right => (x + 1, y),
        };
        proof {
            assert((tx as int, ty as int) == move_target(x as int, y as int, direction));
        }
        if !self.can_step_at(tx, ty) {
            return None;
        }
        proof {
            assert(move_allowed(m0, x as int, y as int, direction));
            lemma_after_move(m0, x as int, y as int, direction);
        }
        let mut target_tile = self.get_tile_at(tx, ty).unwrap();
        target_tile.pawn = Some(pawn);
        let mut source_tile = tile;
        source_tile.pawn = None;
        self.replace_tile_at(tx, ty, target_tile);
        proof {
            let i = m0.tile_idx(x as int, y as int);
            let j = m0.tile_idx(tx as int, ty as int);
            assert(0 <= i < m0.tiles.len() && m0.tiles[i].x == x && m0.tiles[i].y == y);
            assert(0 <= j < m0.tiles.len() && m0.tiles[j].x == tx && m0.tiles[j].y == ty);
            assert(i != j);
            assert(forall|k: int|
                0 <= k < m0.tiles.len() ==> (#[trigger] self@.tiles[k]).x == m0.tiles[k].x
                    && self@.tiles[k].y == m0.tiles[k].y);
            lemma_coords_preserved(m0, self@);
            assert(self@.has_tile_at(x as int, y as int));
            assert(self@.tile_idx(x as int, y as int) == i);
        }
        self.replace_tile_at(x, y, source_tile);
        proof {
            assert(self@.tiles =~= after_move(m0, x as int, y as int, direction).tiles);
            assert(self@ == after_move(m0, x as int, y as int, direction));
        }
        Some((tx, ty))
    }

    /// Pushes the pawn at `(x, y)` in the given direction until a one-cell
    /// move fails, returning the number of cells traversed.
    fn push_pawn_until_blocked(&mut self, x: usize, y: usize, direction: Direction) -> (r: usize)
        requires
            old(self)@.wf(),
            old(self)@.has_tile_at(x as int, y as int),
        ensures
            final(self)@ == slide(old(self)@, x as int, y as int, direction).0,
            r as nat == slide(old(self)@, x as int, y as int, direction).1,
            final(self)@.wf(),
    {
        let mut moved_times: usize = 0;
        let mut cx = x;
        let mut cy = y;
        proof {
            lemma_slide_count(old(self)@, x as int, y as int, direction);
        }
        loop
            invariant
                self@.wf(),
                self@.has_tile_at(cx as int, cy as int),
                slide(old(self)@, x as int, y as int, direction).0 == slide(
                    self@,
                    cx as int,
                    cy as int,
                    direction,
                ).0,
                slide(old(self)@, x as int, y as int, direction).1 == moved_times + slide(
                    self@,
                    cx as int,
                    cy as int,
                    direction,
                ).1,
                slide(old(self)@, x as int, y as int, direction).1 <= usize::MAX,
            decreases slide(self@, cx as int, cy as int, direction).1,
        {
            let ghost prev = self@;
            match self.move_pawn(cx, cy, direction) {
                Some(p) => {
                    proof {
                        assert(move_allowed(prev, cx as int, cy as int, direction));
                    }
                    cx = p.0;
                    cy = p.1;
                    moved_times += 1;
                },
                None => {
                    proof {
                        assert(!move_allowed(prev, cx as int, cy as int, direction));
                        assert(slide(prev, cx as int, cy as int, direction) == (prev, 0nat));
                    }
                    return moved_times;
                },
            }
        }
    }

    /// Whether the board is well formed: every tile lies inside the grid
    /// rectangle and no two tiles share a coordinate pair.
    pub fn is_well_formed(&self) -> (r: bool)
        ensures
            r == self@.wf(),
    {
        let mut i: usize = 0;
        while i < self.tiles.len()
            invariant
                i <= self.tiles.len(),
                forall|a: int|
                    0 <= a < i ==> self@.in_bounds(
                        (#[trigger] self.tiles@[a]).x as int,
                        self.tiles@[a].y as int,
                    ),
                forall|a: int, b: int|
                    0 <= a < i && 0 <= b < self.tiles@.len() && a != b ==> !((
                    #[trigger] self.tiles@[a]).x == (#[trigger] self.tiles@[b]).x
                        && self.tiles@[a].y == self.tiles@[b].y),
            decreases self.tiles.len() - i,
        {
            let t = self.tiles[i];
            if t.x >= self.width || t.y >= self.height {
                return false;
            }
            let mut j: usize = 0;
            while j < self.tiles.len()
                invariant
                    i < self.tiles.len(),
                    j <= self.tiles.len(),
                    t == self.tiles@[i as int],
                    forall|b: int|
                        0 <= b < j && b != i ==> !((#[trigger] self.tiles@[b]).x
                            == self.tiles@[i as int].x && self.tiles@[b].y
                            == self.tiles@[i as int].y),
                decreases self.tiles.len() - j,
            {
                if j != i {
                    let u = self.tiles[j];
                    if u.x == t.x && u.y == t.y {
                        return false;
                    }
                }
                j += 1;
            }
            i += 1;
        }
        true
    }

    /// Normalization: appends a wall tile for every coordinate of the grid
    /// rectangle that has no tile, scanning row by row. Afterwards the board
    /// is complete: exactly one tile exists per coordinate pair.
    pub fn fulfill_board_with_walls(&mut self)
        requires
            old(self)@.wf(),
        ensures
            final(self)@ == normalized(old(self)@),
            final(self)@.wf(),
            final(self)@.complete(),
    {
        let ghost m0 = old(self)@;
        let width = self.width;
        let height = self.height;
        let mut y: usize = 0;
        while y < height
            invariant
                m0 == old(self)@,
                m0.wf(),
                self@.wf(),
                self@.width == m0.width,
                self@.height == m0.height,
                width == m0.width,
                height == m0.height,
                y <= height,
                m0.tiles + fill_from(m0, 0, 0) == self@.tiles + fill_from(m0, y as int, 0),
                m0.tiles.len() <= self@.tiles.len(),
                forall|k: int| 0 <= k < m0.tiles.len() ==> self@.tiles[k] == m0.tiles[k],
                forall|k: int|
                    m0.tiles.len() <= k < self@.tiles.len() ==> scan_lt(
                        (#[trigger] self@.tiles[k]).y as int,
                        self@.tiles[k].x as int,
                        y as int,
                        0,
                    ),
                forall|a: int, b: int|
                    m0.in_bounds(a, b) && scan_lt(b, a, y as int, 0)
                        ==> #[trigger] self@.has_tile_at(a, b),
            decreases height - y,
        {
            let mut x: usize = 0;
            while x < width
                invariant
                    m0 == old(self)@,
                    m0.wf(),
                    self@.wf(),
                    self@.width == m0.width,
                    self@.height == m0.height,
                    width == m0.width,
                    height == m0.height,
                    y < height,
                    x <= width,
                    m0.tiles + fill_from(m0, 0, 0) == self@.tiles + fill_from(
                        m0,
                        y as int,
                        x as int,
                    ),
                    m0.tiles.len() <= self@.tiles.len(),
                    forall|k: int| 0 <= k < m0.tiles.len() ==> self@.tiles[k] == m0.tiles[k],
                    forall|k: int|
                        m0.tiles.len() <= k < self@.tiles.len() ==> scan_lt(
                            (#[trigger] self@.tiles[k]).y as int,
                            self@.tiles[k].x as int,
                            y as int,
                            x as int,
                        ),
                    forall|a: int, b: int|
                        m0.in_bounds(a, b) && scan_lt(b, a, y as int, x as int)
                            ==> #[trigger] self@.has_tile_at(a, b),
                decreases width - x,
            {
                let ghost pre = self@;
                let missing = self.get_tile_at(x, y).is_none();
                if missing {
                    proof {
                        assert forall|k: int| 0 <= k < pre.tiles.len() implies !((
                        #[trigger] pre.tiles[k]).x == x && pre.tiles[k].y == y) by {
                            assert(!pre.has_tile_at(x as int, y as int));
                            if pre.tiles[k].x == x && pre.tiles[k].y == y {
                                assert(pre.has_tile_at(x as int, y as int));
                            }
                        }
                        assert(!m0.has_tile_at(x as int, y as int)) by {
                            if m0.has_tile_at(x as int, y as int) {
                                let j = m0.tile_idx(x as int, y as int);
                                assert(pre.tiles[j] == m0.tiles[j]);
                                assert(pre.has_tile_at(x as int, y as int));
                            }
                        }
                    }
                    self.tiles.push(
                        Tile { tile_type: TileType::Wall, pawn: None, edges: 0, x: x, y: y },
                    );
                    proof {
                        let cur = self@;
                        assert(cur.tiles == pre.tiles.push(wall_tile(x, y)));
                        assert forall|a: int, b: int|
                            0 <= a < cur.tiles.len() && 0 <= b < cur.tiles.len() && a != b
                            implies !((#[trigger] cur.tiles[a]).x == (#[trigger] cur.tiles[b]).x
                            && cur.tiles[a].y == cur.tiles[b].y) by {
                            if a < pre.tiles.len() && b < pre.tiles.len() {
                                assert(cur.tiles[a] == pre.tiles[a]);
                                assert(cur.tiles[b] == pre.tiles[b]);
                            }
                        }
                        assert(cur.wf());
                        assert(fill_from(m0, y as int, x as int) == seq![wall_tile(x, y)]
                            + fill_from(m0, y as int, x as int + 1));
                        assert(pre.tiles + (seq![wall_tile(x, y)] + fill_from(
                            m0,
                            y as int,
                            x as int + 1,
                        )) =~= cur.tiles + fill_from(m0, y as int, x as int + 1));
                        assert(cur.has_tile_at(x as int, y as int)) by {
                            assert(cur.tiles[pre.tiles.len() as int] == wall_tile(x, y));
                        }
                    }
                } else {
                    proof {
                        assert(pre.has_tile_at(x as int, y as int));
                        assert(m0.has_tile_at(x as int, y as int)) by {
                            let j = pre.tile_idx(x as int, y as int);
                            assert(0 <= j < pre.tiles.len() && pre.tiles[j].x == x
                                && pre.tiles[j].y == y);
                            if j >= m0.tiles.len() {
                                assert(scan_lt(
                                    pre.tiles[j].y as int,
                                    pre.tiles[j].x as int,
                                    y as int,
                                    x as int,
                                ));
                                assert(false);
                            }
                            assert(m0.tiles[j] == pre.tiles[j]);
                        }
                        assert(fill_from(m0, y as int, x as int) == fill_from(
                            m0,
                            y as int,
                            x as int + 1,
                        ));
                    }
                }
                proof {
                    let cur = self@;
                    assert forall|a: int, b: int|
                        m0.in_bounds(a, b) && scan_lt(b, a, y as int, x as int + 1)
                        implies #[trigger] cur.has_tile_at(a, b) by {
                        if scan_lt(b, a, y as int, x as int) {
                            assert(pre.has_tile_at(a, b));
                            let j = pre.tile_idx(a, b);
                            assert(cur.tiles[j] == pre.tiles[j]);
                            assert(cur.has_tile_at(a, b));
                        } else {
                            assert(a == x as int && b == y as int);
                        }
                    }
                }
                x += 1;
            }
            proof {
                assert(fill_from(m0, y as int, width as int) == fill_from(m0, y as int + 1, 0));
                assert forall|a: int, b: int|
                    m0.in_bounds(a, b) && scan_lt(b, a, y as int + 1, 0)
                    implies #[trigger] self@.has_tile_at(a, b) by {
                    assert(scan_lt(b, a, y as int, width as int));
                }
                assert forall|k: int| m0.tiles.len() <= k < self@.tiles.len() implies scan_lt(
                    (#[trigger] self@.tiles[k]).y as int,
                    self@.tiles[k].x as int,
                    y as int + 1,
                    0,
                ) by {
                    assert(scan_lt(
                        self@.tiles[k].y as int,
                        self@.tiles[k].x as int,
                        y as int,
                        width as int,
                    ));
                    assert((self@.tiles[k].x as int) < width);
                }
            }
            y += 1;
        }
        proof {
            assert(fill_from(m0, height as int, 0) == Seq::<Tile>::empty());
            assert(self@.tiles =~= m0.tiles + fill_from(m0, 0, 0));
            assert(self@ == normalized(m0));
            assert forall|a: int, b: int| self@.in_bounds(a, b)
                implies #[trigger] self@.has_tile_at(a, b) by {
                assert(scan_lt(b, a, height as int, 0));
            }
        }
    }

    /// Generates every board one push away from this one: for each pawn in
    /// tile-storage order and each direction in the order Up, Down, Left,
    /// Right, the slide-until-blocked result, provided the pawn moved at all.
    pub fn get_possible_steps(&self) -> (r: Vec<StepEntry>)
        requires
            self@.wf(),
        ensures
            steps_views(r@) == possible_steps(self@),
    {
        let ghost m = self@;
        let mut result: Vec<StepEntry> = Vec::new();
        let mut i: usize = 0;
        while i < self.tiles.len()
            invariant
                m == self@,
                self@.wf(),
                i <= self.tiles.len(),
                steps_views(result@) + steps_from(m, i as int, 0) == possible_steps(m),
            decreases self.tiles.len() - i,
        {
            let tile = self.tiles[i];
            let mut e: usize = 0;
            while e < 4
                invariant
                    m == self@,
                    self@.wf(),
                    e <= 4,
                    i < self.tiles.len(),
                    tile == self.tiles@[i as int],
                    steps_views(result@) + steps_from(m, i as int, e as int) == possible_steps(m),
                decreases 4 - e,
            {
                let dir = match e {
                    0 => Direction::Up,
                    1 => Direction::Down,
                    2 => Direction::Left,
                    _ => Direction::Right,
                };
                proof {
                    assert(dir == dir_of_index(e as int));
                    lemma_tile_idx_is(m, i as int);
                }
                let mut new_board = self.clone();
                let moved = new_board.push_pawn_until_blocked(tile.x, tile.y, dir);
                let ghost old_result = result@;
                if tile.pawn.is_some() && moved > 0 {
                    result.push(
                        StepEntry { board: new_board, pawn_at: (tile.x, tile.y), direction: dir },
                    );
                }
                proof {
                    let s = slide(m, tile.x as int, tile.y as int, dir);
                    let rest = steps_from(m, i as int, e as int + 1);
                    if tile.pawn is Some && s.1 > 0 {
                        let en = StepModel {
                            board: s.0,
                            x: tile.x as int,
                            y: tile.y as int,
                            dir: dir,
                        };
                        assert(steps_from(m, i as int, e as int) == seq![en] + rest);
                        assert(steps_views(result@) =~= steps_views(old_result).push(en));
                        assert(steps_views(old_result).push(en) + rest =~= steps_views(old_result)
                            + (seq![en] + rest));
                    } else {
                        assert(steps_from(m, i as int, e as int) == rest);
                    }
                }
                e += 1;
            }
            proof {
                assert(steps_from(m, i as int, 4) == steps_from(m, i as int + 1, 0));
            }
            i += 1;
        }
        proof {
            assert(steps_from(m, i as int, 0) == Seq::<StepModel>::empty());
            assert(steps_views(result@) =~= possible_steps(m));
        }
        result
    }

    /// Whether a pawn may come to rest at the given coordinates.
    fn can_step_at(&self, x: usize, y: usize) -> (r: bool)
        requires
            self@.wf(),
        ensures
            r == self@.can_step(x as int, y as int),
    {
        let tile = match self.get_tile_at(x, y) {
            Some(t) => t,
            None => {
                return false;
            },
        };
        match (tile.tile_type, tile.pawn) {
            (TileType::Empty, None) => true,
            (TileType::Goal, None) => true,
            _ => false,
        }
    }
}

/// The occupant standing at the given coordinates, or nothing where no tile
/// or no pawn is there.
pub open spec fn pawn_at(m: BoardModel, x: int, y: int) -> Option<Pawn> {
    if m.has_tile_at(x, y) {
        m.tile_at(x, y).pawn
    } else {
        None
    }
}

/// Every pawn of `a` stands with the same identity at the same coordinates
/// of `b`.
pub open spec fn pawns_covered(a: BoardModel, b: BoardModel) -> bool {
    forall|x: int, y: int|
        #[trigger] pawn_at(a, x, y) is Some ==> pawn_at(b, x, y) == pawn_at(a, x, y)
}

/// Two boards are the same search state: they agree on the mapping from
/// coordinates to occupants at every coordinate. Tile kinds and exit masks
/// play no part.
pub open spec fn state_equiv(a: BoardModel, b: BoardModel) -> bool {
    forall|x: int, y: int| #[trigger] pawn_at(a, x, y) == #[trigger] pawn_at(b, x, y)
}

/// The deduplication key of a board: the partial map from coordinates to the
/// pawn standing there.
pub open spec fn pawn_placement(m: BoardModel) -> Map<(int, int), Option<Pawn>> {
    Map::new(|c: (int, int)| pawn_at(m, c.0, c.1) is Some, |c: (int, int)| pawn_at(m, c.0, c.1))
}

/// Mutual coverage of pawns is exactly state equivalence.
pub proof fn lemma_covered_iff_equiv(a: BoardModel, b: BoardModel)
    ensures
        state_equiv(a, b) <==> (pawns_covered(a, b) && pawns_covered(b, a)),
{
    if pawns_covered(a, b) && pawns_covered(b, a) {
        assert forall|x: int, y: int| #[trigger] pawn_at(a, x, y) == #[trigger] pawn_at(
            b,
            x,
            y,
        ) by {
            if pawn_at(a, x, y) is Some {
            } else if pawn_at(b, x, y) is Some {
            }
        }
    }
}

/// Board equality and the deduplication key agree: two boards are the same
/// search state exactly when their pawn-placement projections are equal,
/// whatever their wall and goal layouts.
pub proof fn lemma_state_equiv_iff_placement(a: BoardModel, b: BoardModel)
    ensures
        state_equiv(a, b) <==> pawn_placement(a) == pawn_placement(b),
{
    let pa = pawn_placement(a);
    let pb = pawn_placement(b);
    if state_equiv(a, b) {
        assert forall|c: (int, int)| #[trigger] pa.dom().contains(c) implies pb.dom().contains(c)
            && pa[c] == pb[c] by {
            assert(pawn_at(a, c.0, c.1) == pawn_at(b, c.0, c.1));
        }
        assert forall|c: (int, int)| #[trigger] pb.dom().contains(c) implies pa.dom().contains(
            c,
        ) by {
            assert(pawn_at(a, c.0, c.1) == pawn_at(b, c.0, c.1));
        }
        assert(pa =~= pb);
    }
    if pa == pb {
        assert forall|x: int, y: int| #[trigger] pawn_at(a, x, y) == #[trigger] pawn_at(
            b,
            x,
            y,
        ) by {
            let c = (x, y);
            if pawn_at(a, x, y) is Some {
                assert(pa.dom().contains(c));
                assert(pb.dom().contains(c));
                assert(pa[c] == pb[c]);
            } else if pawn_at(b, x, y) is Some {
                assert(pb.dom().contains(c));
                assert(pa.dom().contains(c));
                assert(pa[c] == pb[c]);
            }
        }
    }
}

impl Board {
    /// Whether every pawn of this board sits at the same coordinates with the
    /// same identity on `other`.
    fn pawns_match(&self, other: &Board) -> (r: bool)
        requires
            self@.wf(),
            other@.wf(),
        ensures
            r == pawns_covered(self@, other@),
    {
        let mut i: usize = 0;
        while i < self.tiles.len()
            invariant
                self@.wf(),
                other@.wf(),
                i <= self.tiles.len(),
                forall|j: int|
                    0 <= j < i && (#[trigger] self.tiles@[j]).pawn is Some
                        ==> other@.has_tile_at(
                        self.tiles@[j].x as int,
                        self.tiles@[j].y as int,
                    ) && other@.tile_at(self.tiles@[j].x as int, self.tiles@[j].y as int).pawn
                        == self.tiles@[j].pawn,
            decreases self.tiles.len() - i,
        {
            let t = self.tiles[i];
            if t.pawn.is_some() {
                match other.get_tile_at(t.x, t.y) {
                    None => {
                        proof {
                            lemma_tile_idx_is(self@, i as int);
                            assert(pawn_at(self@, t.x as int, t.y as int) is Some);
                            assert(pawn_at(other@, t.x as int, t.y as int) is None);
                        }
                        return false;
                    },
                    Some(ot) => {
                        if !pawn_opt_eq(ot.pawn, t.pawn) {
                            proof {
                                lemma_tile_idx_is(self@, i as int);
                                assert(pawn_at(self@, t.x as int, t.y as int) == t.pawn);
                                assert(pawn_at(other@, t.x as int, t.y as int) == ot.pawn);
                            }
                            return false;
                        }
                    },
                }
            }
            i += 1;
        }
        proof {
            assert forall|x: int, y: int| #[trigger] pawn_at(self@, x, y) is Some implies pawn_at(
                other@,
                x,
                y,
            ) == pawn_at(self@, x, y) by {
                let k = self@.tile_idx(x, y);
                assert(0 <= k < self.tiles@.len() && self.tiles@[k].x as int == x
                    && self.tiles@[k].y as int == y);
                assert(self.tiles@[k].pawn is Some);
            }
        }
        true
    }

    /// Whether this board and `other` are the same search state: the same
    /// pawns at the same coordinates, whatever the tile kinds elsewhere.
    pub fn same_state(&self, other: &Board) -> (r: bool)
        requires
            self@.wf(),
            other@.wf(),
        ensures
            r == state_equiv(self@, other@),
    {
        proof {
            lemma_covered_iff_equiv(self@, other@);
        }
        if !self.pawns_match(other) {
            return false;
        }
        other.pawns_match(self)
    }
}

/// Whether two optional pawns are equal.
fn pawn_opt_eq(a: Option<Pawn>, b: Option<Pawn>) -> (r: bool)
    ensures
        r == (a == b),
{
    match (a, b) {
        (None, None) => true,
        (Some(Pawn::Fox), Some(Pawn::Fox)) => true,
        (Some(Pawn::Monster), Some(Pawn::Monster)) => true,
        _ => false,
    }
}

impl Clone for Board {
    /// A clone carries the same tiles and dimensions.
    fn clone(&self) -> (r: Board)
        ensures
            r@ == self@,
    {
        let mut tiles: Vec<Tile> = Vec::new();
        let mut i: usize = 0;
        while i < self.tiles.len()
            invariant
                i <= self.tiles.len(),
                tiles@ == self.tiles@.subrange(0, i as int),
            decreases self.tiles.len() - i,
        {
            tiles.push(self.tiles[i]);
            proof {
                assert(tiles@ =~= self.tiles@.subrange(0, i as int + 1));
            }
            i += 1;
        }
        proof {
            assert(tiles@ =~= self.tiles@);
        }
        Board { tiles, width: self.width, height: self.height }
    }
}

} // verus!
