use vstd::prelude::*;
use crate::point::Point;
use crate::point::rand_below;
use crate::tile::{OpenError, State, Tile, Value};

verus! {

/// The playing field: a rectangular grid of tiles, exclusively owned, with
/// exactly `mine_count` mines and every non-mine tile recording the number
/// of mines among its in-bounds neighbors.
#[derive(Debug)]
pub struct Board {
    pub tiles: Vec<Vec<Tile>>,
    pub width: usize,
    pub height: usize,
    pub mine_count: usize,
}

/// 1 when the condition holds, 0 otherwise; the unit of all grid counts.
pub open spec fn count_one(b: bool) -> int {
    if b {
        1
    } else {
        0
    }
}

/// How many tiles of one row satisfy the predicate.
pub open spec fn row_count(row: Seq<Tile>, f: spec_fn(Tile) -> bool) -> int
    decreases row.len(),
{
    if row.len() == 0 {
        0
    } else {
        row_count(row.drop_last(), f) + count_one(f(row.last()))
    }
}

/// How many tiles of the whole grid satisfy the predicate.
pub open spec fn grid_count(g: Seq<Vec<Tile>>, f: spec_fn(Tile) -> bool) -> int
    decreases g.len(),
{
    if g.len() == 0 {
        0
    } else {
        grid_count(g.drop_last(), f) + row_count(g.last()@, f)
    }
}

pub open spec fn is_mine_tile(t: Tile) -> bool {
    t.spec_value() == Value::Mine
}

pub open spec fn is_closed_tile(t: Tile) -> bool {
    t.spec_state() == State::Closed
}

/// The mine predicate as a value, shared by every count of mines.
pub open spec fn mine_pred() -> spec_fn(Tile) -> bool {
    |t: Tile| is_mine_tile(t)
}

/// The closed predicate as a value, shared by every count of closed tiles.
pub open spec fn closed_pred() -> spec_fn(Tile) -> bool {
    |t: Tile| is_closed_tile(t)
}

/// The number of mines on the grid.
pub open spec fn grid_mines(g: Seq<Vec<Tile>>) -> int {
    grid_count(g, mine_pred())
}

/// The number of still-closed tiles on the grid.
pub open spec fn grid_closed(g: Seq<Vec<Tile>>) -> int {
    grid_count(g, closed_pred())
}

/// The mine positions named by a prefix of a list of points.
pub open spec fn point_listed(s: Seq<Point>, x: int, y: int) -> bool {
    exists|i: int| 0 <= i < s.len() && (#[trigger] s[i]).x == x && s[i].y == y
}

/// Cells within one step of each other, excluding the cell itself.
pub open spec fn spec_adjacent(ax: int, ay: int, bx: int, by: int) -> bool {
    (ax != bx || ay != by) && -1 <= ax - bx <= 1 && -1 <= ay - by <= 1
}

/// How a cascade leaves the grid relative to the board it started from:
/// the same shape and values, states changed only from closed to opened,
/// and only on cells the cascade of (px, py) reaches.
pub open spec fn cascade_evolves(gb: Board, g: Board, px: int, py: int) -> bool {
    g.width == gb.width && g.height == gb.height && g.mine_count == gb.mine_count && g.dims_ok()
        && (forall|x: int, y: int|
        gb.in_bounds(x, y) ==> (#[trigger] g.tile(x, y)).spec_value() == gb.tile(
            x,
            y,
        ).spec_value()) && (forall|x: int, y: int|
        gb.in_bounds(x, y) ==> (#[trigger] g.tile(x, y)).spec_state() == gb.tile(
            x,
            y,
        ).spec_state() || (gb.tile(x, y).spec_state() == State::Closed && g.tile(
            x,
            y,
        ).spec_state() == State::Opened)) && (forall|x: int, y: int|
        gb.in_bounds(x, y) && gb.tile(x, y).spec_state() == State::Closed && (#[trigger] g.tile(
            x,
            y,
        )).spec_state() == State::Opened ==> gb.cascade(px, py, x, y))
}

/// Every queued cell of a cascade: in bounds, closed at the start, a zero
/// cell, already opened now, and reached by the cascade of (px, py).
pub open spec fn stack_ok(gb: Board, g: Board, px: int, py: int, s: Seq<Point>) -> bool {
    forall|k: int|
        0 <= k < s.len() ==> {
            let c = #[trigger] s[k];
            gb.in_bounds(c.x as int, c.y as int) && gb.tile(c.x as int, c.y as int).spec_state()
                == State::Closed && gb.tile(c.x as int, c.y as int).spec_value() == Value::Number(0)
                && g.tile(c.x as int, c.y as int).spec_state() == State::Opened && gb.cascade(
                px,
                py,
                c.x as int,
                c.y as int,
            )
        }
}

/// The cascade frontier is covered: every zero cell that the cascade has
/// opened either still waits on the queue, or all of its closed in-bounds
/// neighbors are already opened.
pub open spec fn frontier_ok(gb: Board, g: Board, s: Seq<Point>) -> bool {
    forall|cx: int, cy: int, nx: int, ny: int|
        gb.in_bounds(cx, cy) && gb.tile(cx, cy).spec_state() == State::Closed && (#[trigger] g.tile(
            cx,
            cy,
        )).spec_state() == State::Opened && gb.tile(cx, cy).spec_value() == Value::Number(0)
            && gb.in_bounds(nx, ny) && spec_adjacent(cx, cy, nx, ny) && gb.tile(
            nx,
            ny,
        ).spec_state() == State::Closed ==> point_listed(s, cx, cy) || (#[trigger] g.tile(
            nx,
            ny,
        )).spec_state() == State::Opened
}

impl Board {
    /// The grid is rectangular: `height` rows of `width` tiles each.
    pub open spec fn dims_ok(self) -> bool {
        self.tiles@.len() == self.height && forall|y: int|
            0 <= y < self.height ==> (#[trigger] self.tiles@[y])@.len() == self.width
    }

    pub open spec fn in_bounds(self, x: int, y: int) -> bool {
        0 <= x < self.width && 0 <= y < self.height
    }

    /// The tile at column `x` of row `y`.
    pub open spec fn tile(self, x: int, y: int) -> Tile {
        self.tiles@[y]@[x]
    }

    /// An in-bounds cell holding a mine; anything off the grid is no mine.
    pub open spec fn is_mine(self, x: int, y: int) -> bool {
        self.in_bounds(x, y) && self.tile(x, y).spec_value() == Value::Mine
    }

    /// The number of mines among the up-to-8 in-bounds neighbors of (x, y).
    #[verifier::opaque]
    pub open spec fn adj_mines(self, x: int, y: int) -> int {
        count_one(self.is_mine(x - 1, y - 1)) + count_one(self.is_mine(x, y - 1)) + count_one(
            self.is_mine(x + 1, y - 1),
        ) + count_one(self.is_mine(x - 1, y)) + count_one(self.is_mine(x + 1, y)) + count_one(
            self.is_mine(x - 1, y + 1),
        ) + count_one(self.is_mine(x, y + 1)) + count_one(self.is_mine(x + 1, y + 1))
    }

    /// Every non-mine tile records exactly its adjacent mine count.
    pub open spec fn numbers_ok(self) -> bool {
        forall|x: int, y: int|
            self.in_bounds(x, y) && !self.is_mine(x, y) ==> self.tile(x, y).spec_value()
                == Value::Number((#[trigger] self.adj_mines(x, y)) as i32)
    }

    /// Exactly `mine_count` tiles hold a mine.
    pub open spec fn mines_ok(self) -> bool {
        grid_mines(self.tiles@) == self.mine_count
    }

    /// A board as construction leaves it and every operation keeps it:
    /// positive dimensions, fewer mines than cells, a rectangular grid,
    /// an exact mine count, and correct adjacency numbers.
    pub open spec fn wf(self) -> bool {
        0 < self.width && 0 < self.height && self.mine_count < self.width * self.height
            && self.dims_ok() && self.mines_ok() && self.numbers_ok()
    }

    /// The game is won: every non-mine tile is opened. Mine tiles may be
    /// closed or flagged; their state is irrelevant.
    pub open spec fn won(self) -> bool {
        forall|x: int, y: int|
            self.in_bounds(x, y) ==> self.is_mine(x, y) || (#[trigger] self.tile(
                x,
                y,
            )).spec_state() == State::Opened
    }

    /// A cascade path: every cell in bounds and closed, consecutive cells
    /// adjacent, and every cell but the last showing zero adjacent mines.
    pub open spec fn is_cascade_path(self, path: Seq<Point>) -> bool {
        path.len() >= 1 && (forall|i: int|
            0 <= i < path.len() ==> self.in_bounds(
                (#[trigger] path[i]).x as int,
                path[i].y as int,
            )) && (forall|i: int|
            0 <= i < path.len() ==> self.tile(
                (#[trigger] path[i]).x as int,
                path[i].y as int,
            ).spec_state() == State::Closed) && (forall|i: int|
            0 <= i < path.len() - 1 ==> spec_adjacent(
                (#[trigger] path[i]).x as int,
                path[i].y as int,
                path[i + 1].x as int,
                path[i + 1].y as int,
            )) && (forall|i: int|
            0 <= i < path.len() - 1 ==> self.tile(
                (#[trigger] path[i]).x as int,
                path[i].y as int,
            ).spec_value() == Value::Number(0))
    }

    /// Cell (x2, y2) is opened by the cascade that opening (x1, y1) starts:
    /// a chain of adjacent closed zero tiles leads from the one to the
    /// other, whose last step may land on any closed tile. The opened cell
    /// itself is always in its own cascade.
    #[verifier::opaque]
    pub open spec fn cascade(self, x1: int, y1: int, x2: int, y2: int) -> bool {
        exists|path: Seq<Point>|
            #[trigger] self.is_cascade_path(path) && path[0].x == x1 && path[0].y == y1
                && path[path.len() - 1].x == x2 && path[path.len() - 1].y == y2
    }

    /// The `Result` of opening the addressed tile, classified by the
    /// tile's value and state.
    pub open spec fn spec_open_result(self, x: int, y: int) -> Result<(), OpenError> {
        if self.tile(x, y).spec_value() == Value::Mine {
            Err(OpenError::Mine)
        } else if self.tile(x, y).spec_state() == State::Flagged {
            Err(OpenError::Flagged)
        } else if self.tile(x, y).spec_state() == State::Opened {
            Err(OpenError::Opened)
        } else {
            Ok(())
        }
    }

    /// The tile addressed by `point`, borrowed for reading or mutation.
    /// Out-of-bounds access is a caller error, excluded by contract.
    pub fn tile_at(&mut self, point: &Point) -> (t: &mut Tile)
        requires
            old(self).dims_ok(),
            point.x < old(self).width,
            point.y < old(self).height,
        ensures
            *t == old(self).tile(point.x as int, point.y as int),
            final(self).width == old(self).width,
            final(self).height == old(self).height,
            final(self).mine_count == old(self).mine_count,
            final(self).tiles@.len() == old(self).tiles@.len(),
            forall|yy: int|
                0 <= yy < old(self).tiles@.len() && yy != point.y ==> final(self).tiles@[yy] == old(
                    self,
                ).tiles@[yy],
            final(self).tiles@[point.y as int]@ == old(self).tiles@[point.y as int]@.update(
                point.x as int,
                *final(t),
            ),
    {
        &mut self.tiles[point.y][point.x]
    }

    /// Whether (x, y) is an in-bounds mine; off-grid coordinates are not.
    fn mine_at(&self, x: usize, y: usize) -> (r: bool)
        requires
            self.dims_ok(),
        ensures
            r == self.is_mine(x as int, y as int),
    {
        if x < self.width && y < self.height {
            match self.tiles[y][x].value() {
                Value::Mine => true,
                Value::Number(_) => false,
            }
        } else {
            false
        }
    }

    /// Count the mines adjacent to the in-bounds cell (x, y) by looking at
    /// each of the eight surrounding cells.
    fn count_adjacent_mines(&self, x: usize, y: usize) -> (n: i32)
        requires
            self.dims_ok(),
            x < self.width,
            y < self.height,
        ensures
            n as int == self.adj_mines(x as int, y as int),
            0 <= n <= 8,
    {
        proof {
            reveal(Board::adj_mines);
        }
        let mut n: i32 = 0;
        if x > 0 && y > 0 && self.mine_at(x - 1, y - 1) {
            n += 1;
        }
        if y > 0 && self.mine_at(x, y - 1) {
            n += 1;
        }
        if y > 0 && self.mine_at(x + 1, y - 1) {
            n += 1;
        }
        if x > 0 && self.mine_at(x - 1, y) {
            n += 1;
        }
        if self.mine_at(x + 1, y) {
            n += 1;
        }
        if x > 0 && self.mine_at(x - 1, y + 1) {
            n += 1;
        }
        if self.mine_at(x, y + 1) {
            n += 1;
        }
        if self.mine_at(x + 1, y + 1) {
            n += 1;
        }
        n
    }

    /// Overwrite the value of cell (x, y), leaving its state and every
    /// other cell alone.
    fn set_value(&mut self, x: usize, y: usize, v: Value)
        requires
            old(self).dims_ok(),
            x < old(self).width,
            y < old(self).height,
        ensures
            final(self).width == old(self).width,
            final(self).height == old(self).height,
            final(self).mine_count == old(self).mine_count,
            final(self).dims_ok(),
            final(self).tiles@.len() == old(self).tiles@.len(),
            forall|yy: int|
                0 <= yy < old(self).tiles@.len() && yy != y ==> final(self).tiles@[yy] == old(
                    self,
                ).tiles@[yy],
            final(self).tiles@[y as int]@ == old(self).tiles@[y as int]@.update(
                x as int,
                final(self).tile(x as int, y as int),
            ),
            final(self).tile(x as int, y as int).spec_value() == v,
            final(self).tile(x as int, y as int).spec_state() == old(self).tile(
                x as int,
                y as int,
            ).spec_state(),
    {
        let p = Point::new(x, y);
        let t = self.tile_at(&p);
        t.replace_value(v);
    }

    /// Toggle the flag on the addressed tile: closed and flagged swap, an
    /// opened tile is left alone. Values and every other tile's state are
    /// untouched, so the board stays well formed.
    pub fn toggle_flag(&mut self, point: &Point)
        requires
            old(self).wf(),
            point.x < old(self).width,
            point.y < old(self).height,
        ensures
            final(self).wf(),
            final(self).width == old(self).width,
            final(self).height == old(self).height,
            final(self).mine_count == old(self).mine_count,
            final(self).tile(point.x as int, point.y as int) == old(self).tile(
                point.x as int,
                point.y as int,
            ).spec_flag(),
            forall|x: int, y: int|
                old(self).in_bounds(x, y) && !(x == point.x && y == point.y)
                    ==> #[trigger] final(self).tile(x, y) == old(self).tile(x, y),
    {
        let ghost gb = *old(self);
        let ix = point.x;
        let iy = point.y;
        let t = self.tile_at(point);
        t.flag();
        proof {
            let px = ix as int;
            let py = iy as int;
            assert forall|cx: int, cy: int|
                gb.in_bounds(cx, cy) && !(cx == px && cy == py) implies #[trigger] self.tile(
                cx,
                cy,
            ) == gb.tile(cx, cy) by {
                if cy == py {
                    assert(self.tiles@[cy]@[cx] == gb.tiles@[cy]@.update(
                        px,
                        self.tile(px, py),
                    )[cx]);
                } else {
                    assert(self.tiles@[cy] == gb.tiles@[cy]);
                }
            }
            crate::tile::lemma_flag_spec(gb.tile(px, py));
            lemma_same_values_wf(gb, *self);
        }
    }

    /// Open the closed non-mine cell (x, y): its state becomes opened,
    /// everything else stays, and one fewer tile is closed.
    fn open_cell(&mut self, x: usize, y: usize)
        requires
            old(self).dims_ok(),
            x < old(self).width,
            y < old(self).height,
            old(self).tile(x as int, y as int).spec_state() == State::Closed,
            old(self).tile(x as int, y as int).spec_value() != Value::Mine,
        ensures
            final(self).width == old(self).width,
            final(self).height == old(self).height,
            final(self).mine_count == old(self).mine_count,
            final(self).dims_ok(),
            forall|cx: int, cy: int|
                old(self).in_bounds(cx, cy) && !(cx == x && cy == y)
                    ==> #[trigger] final(self).tile(cx, cy) == old(self).tile(cx, cy),
            final(self).tile(x as int, y as int).spec_state() == State::Opened,
            final(self).tile(x as int, y as int).spec_value() == old(self).tile(
                x as int,
                y as int,
            ).spec_value(),
            grid_closed(final(self).tiles@) == grid_closed(old(self).tiles@) - 1,
    {
        let ghost prev = *self;
        let p = Point::new(x, y);
        let t = self.tile_at(&p);
        let _ = t.open();
        proof {
            let ix = x as int;
            let iy = y as int;
            assert forall|cx: int, cy: int|
                prev.in_bounds(cx, cy) && !(cx == ix && cy == iy) implies #[trigger] self.tile(
                cx,
                cy,
            ) == prev.tile(cx, cy) by {
                if cy == iy {
                    assert(self.tiles@[cy]@[cx] == prev.tiles@[cy]@.update(
                        ix,
                        self.tile(ix, iy),
                    )[cx]);
                } else {
                    assert(self.tiles@[cy] == prev.tiles@[cy]);
                }
            }
            let r = self.tiles@[iy];
            assert(self.tiles@ =~= prev.tiles@.update(iy, r));
            lemma_grid_count_update(prev.tiles@, closed_pred(), iy, r);
            lemma_row_count_update(prev.tiles@[iy]@, closed_pred(), ix, self.tile(ix, iy));
            assert(r@ == prev.tiles@[iy]@.update(ix, self.tile(ix, iy)));
            assert(is_closed_tile(prev.tiles@[iy]@[ix]));
            assert(!is_closed_tile(self.tile(ix, iy)));
        }
    }

    /// One step of the cascade around the zero cell (qx, qy): open its
    /// neighbor (nx, ny) if that cell is in bounds and still closed, and
    /// queue the neighbor when it is itself a zero cell.
    fn cascade_neighbor(
        &mut self,
        nx: usize,
        ny: usize,
        stack: &mut Vec<Point>,
        Ghost(gb): Ghost<Board>,
        Ghost(px): Ghost<int>,
        Ghost(py): Ghost<int>,
        Ghost(qx): Ghost<int>,
        Ghost(qy): Ghost<int>,
    )
        requires
            gb.wf(),
            cascade_evolves(gb, *old(self), px, py),
            stack_ok(gb, *old(self), px, py, old(stack)@),
            gb.in_bounds(qx, qy),
            gb.tile(qx, qy).spec_value() == Value::Number(0),
            gb.cascade(px, py, qx, qy),
            spec_adjacent(qx, qy, nx as int, ny as int),
        ensures
            cascade_evolves(gb, *final(self), px, py),
            stack_ok(gb, *final(self), px, py, final(stack)@),
            forall|x: int, y: int|
                gb.in_bounds(x, y) && !(x == nx && y == ny) ==> #[trigger] final(self).tile(x, y)
                    == old(self).tile(x, y),
            gb.in_bounds(nx as int, ny as int) && old(self).tile(nx as int, ny as int).spec_state()
                == State::Closed ==> final(self).tile(nx as int, ny as int).spec_state()
                == State::Opened && grid_closed(final(self).tiles@) == grid_closed(
                old(self).tiles@,
            ) - 1 && final(stack)@.len() <= old(stack)@.len() + 1,
            !(gb.in_bounds(nx as int, ny as int) && old(self).tile(
                nx as int,
                ny as int,
            ).spec_state() == State::Closed) ==> *final(self) == *old(self) && final(stack)@ == old(
                stack,
            )@,
            gb.in_bounds(nx as int, ny as int) && gb.tile(nx as int, ny as int).spec_state()
                == State::Closed ==> final(self).tile(nx as int, ny as int).spec_state()
                == State::Opened,
            forall|k: int|
                0 <= k < old(stack)@.len() ==> #[trigger] final(stack)@[k] == old(stack)@[k],
            final(stack)@.len() >= old(stack)@.len(),
            forall|x: int, y: int|
                gb.in_bounds(x, y) && old(self).tile(x, y).spec_state() == State::Opened
                    ==> (#[trigger] final(self).tile(x, y)).spec_state() == State::Opened,
            forall|x: int, y: int|
                point_listed(old(stack)@, x, y) ==> #[trigger] point_listed(final(stack)@, x, y),
            gb.in_bounds(nx as int, ny as int) && old(self).tile(nx as int, ny as int).spec_state()
                == State::Closed && gb.tile(nx as int, ny as int).spec_value() == Value::Number(0)
                ==> point_listed(final(stack)@, nx as int, ny as int),
            grid_closed(final(self).tiles@) == grid_closed(old(self).tiles@) || grid_closed(
                final(self).tiles@,
            ) == grid_closed(old(self).tiles@) - 1,
    {
        let ghost inx = nx as int;
        let ghost iny = ny as int;
        proof {
            assert(!gb.is_mine(inx, iny)) by {
                reveal(Board::adj_mines);
                assert(!gb.is_mine(qx, qy));
                assert(gb.tile(qx, qy).spec_value() == Value::Number(gb.adj_mines(qx, qy) as i32));
                assert(0 <= gb.adj_mines(qx, qy) <= 8);
                assert(gb.adj_mines(qx, qy) == 0);
            };
        }
        if nx < self.width && ny < self.height {
            let ghost prev = *self;
            let p = Point::new(nx, ny);
            match self.tiles[ny][nx].state() {
                State::Closed => {
                    proof {
                        assert(gb.tile(inx, iny).spec_state() == State::Closed);
                        assert(prev.tile(inx, iny).spec_value() == gb.tile(inx, iny).spec_value());
                        assert(prev.tile(inx, iny).spec_value() != Value::Mine);
                    }
                    self.open_cell(nx, ny);
                    proof {
                        lemma_cascade_extend(gb, px, py, qx, qy, inx, iny);
                        assert(cascade_evolves(gb, *self, px, py)) by {
                            assert forall|x: int, y: int| gb.in_bounds(x, y) implies (
                            #[trigger] self.tile(x, y)).spec_value() == gb.tile(x, y).spec_value()
                                && ((#[trigger] self.tile(x, y)).spec_state() == gb.tile(
                                x,
                                y,
                            ).spec_state() || (gb.tile(x, y).spec_state() == State::Closed
                                && self.tile(x, y).spec_state() == State::Opened)) && (gb.tile(
                                x,
                                y,
                            ).spec_state() == State::Closed && self.tile(x, y).spec_state()
                                == State::Opened ==> gb.cascade(px, py, x, y)) by {
                                if !(x == inx && y == iny) {
                                    assert(self.tile(x, y) == prev.tile(x, y));
                                }
                            }
                        };
                        assert(stack_ok(gb, *self, px, py, stack@)) by {
                            assert forall|k: int| 0 <= k < stack@.len() implies {
                                let c = #[trigger] stack@[k];
                                gb.in_bounds(c.x as int, c.y as int) && gb.tile(
                                    c.x as int,
                                    c.y as int,
                                ).spec_state() == State::Closed && gb.tile(
                                    c.x as int,
                                    c.y as int,
                                ).spec_value() == Value::Number(0) && self.tile(
                                    c.x as int,
                                    c.y as int,
                                ).spec_state() == State::Opened && gb.cascade(
                                    px,
                                    py,
                                    c.x as int,
                                    c.y as int,
                                )
                            } by {
                                let c = stack@[k];
                                if !(c.x as int == inx && c.y as int == iny) {
                                    assert(self.tile(c.x as int, c.y as int) == prev.tile(
                                        c.x as int,
                                        c.y as int,
                                    ));
                                }
                            }
                        };
                    }
                    let is_zero = match self.tiles[ny][nx].value() {
                        Value::Number(n) => n == 0,
                        Value::Mine => false,
                    };
                    if is_zero {
                        stack.push(p);
                        proof {
                            assert(stack@[stack@.len() - 1] == p);
                            assert(point_listed(stack@, inx, iny));
                        }
                    }
                    proof {
                        assert forall|x: int, y: int|
                            point_listed(old(stack)@, x, y) implies #[trigger] point_listed(
                            stack@,
                            x,
                            y,
                        ) by {
                            let k = choose|k: int|
                                0 <= k < old(stack)@.len() && (#[trigger] old(stack)@[k]).x == x
                                    && old(stack)@[k].y == y;
                            assert(stack@[k] == old(stack)@[k]);
                        };
                    }
                },
                _ => {
                    proof {
                        assert(gb.tile(inx, iny).spec_state() == State::Closed ==> self.tile(
                            inx,
                            iny,
                        ).spec_state() == State::Opened);
                    }
                },
            }
        }
    }

    /// True exactly when every non-mine tile has been opened. Flagging
    /// mines is not required to win.
    pub fn has_won(&self) -> (r: bool)
        requires
            self.dims_ok(),
        ensures
            r == self.won(),
    {
        let mut y: usize = 0;
        while y < self.height
            invariant
                self.dims_ok(),
                y <= self.height,
                forall|xx: int, yy: int|
                    0 <= xx < self.width && 0 <= yy < y ==> self.is_mine(xx, yy) || (
                    #[trigger] self.tile(xx, yy)).spec_state() == State::Opened,
            decreases self.height - y,
        {
            let mut x: usize = 0;
            while x < self.width
                invariant
                    self.dims_ok(),
                    y < self.height,
                    x <= self.width,
                    forall|xx: int, yy: int|
                        0 <= xx < self.width && 0 <= yy < y ==> self.is_mine(xx, yy) || (
                        #[trigger] self.tile(xx, yy)).spec_state() == State::Opened,
                    forall|xx: int|
                        0 <= xx < x ==> self.is_mine(xx, y as int) || (#[trigger] self.tile(
                            xx,
                            y as int,
                        )).spec_state() == State::Opened,
                decreases self.width - x,
            {
                let t = &self.tiles[y][x];
                match t.value() {
                    Value::Number(_) => {
                        match t.state() {
                            State::Opened => {},
                            _ => {
                                proof {
                                    assert(!self.is_mine(x as int, y as int));
                                    assert(self.tile(x as int, y as int).spec_state()
                                        != State::Opened);
                                    assert(!self.won());
                                }
                                return false;
                            },
                        }
                    },
                    Value::Mine => {},
                }
                x += 1;
            }
            y += 1;
        }
        true
    }

    /// Build a board whose mines sit exactly at the given distinct in-bounds
    /// cells, with every tile closed and all adjacency numbers computed.
    /// This is the deterministic core of construction; `new` feeds it
    /// randomly drawn cells, and tests feed it chosen ones.
    pub fn with_mines(width: usize, height: usize, mines: &Vec<Point>) -> (b: Board)
        requires
            0 < width,
            0 < height,
            mines@.len() < width * height,
            forall|i: int|
                0 <= i < mines@.len() ==> (#[trigger] mines@[i]).x < width && mines@[i].y
                    < height,
            forall|i: int, j: int| 0 <= i < j < mines@.len() ==> mines@[i] != mines@[j],
        ensures
            b.wf(),
            b.width == width,
            b.height == height,
            b.mine_count == mines@.len(),
            forall|x: int, y: int|
                b.in_bounds(x, y) ==> (b.is_mine(x, y) <==> point_listed(mines@, x, y)),
            forall|x: int, y: int|
                b.in_bounds(x, y) ==> (#[trigger] b.tile(x, y)).spec_state() == State::Closed,
    {
        let mut tiles: Vec<Vec<Tile>> = Vec::new();
        let mut y: usize = 0;
        while y < height
            invariant
                y <= height,
                tiles@.len() == y,
                forall|yy: int| 0 <= yy < y ==> (#[trigger] tiles@[yy])@.len() == width,
                forall|yy: int, xx: int|
                    0 <= yy < y && 0 <= xx < width ==> (#[trigger] tiles@[yy]@[xx]).spec_value()
                        == Value::Number(0) && tiles@[yy]@[xx].spec_state() == State::Closed,
                grid_count(tiles@, mine_pred()) == 0,
            decreases height - y,
        {
            let mut row: Vec<Tile> = Vec::new();
            let mut x: usize = 0;
            while x < width
                invariant
                    x <= width,
                    row@.len() == x,
                    forall|xx: int|
                        0 <= xx < x ==> (#[trigger] row@[xx]).spec_value() == Value::Number(0)
                            && row@[xx].spec_state() == State::Closed,
                    row_count(row@, mine_pred()) == 0,
                decreases width - x,
            {
                let t = Tile::default();
                proof {
                    lemma_row_count_push(row@, mine_pred(), t);
                }
                row.push(t);
                x += 1;
            }
            proof {
                lemma_grid_count_push(tiles@, mine_pred(), row);
            }
            tiles.push(row);
            y += 1;
        }
        let mut b = Board { tiles, width, height, mine_count: mines.len() };

        let mut i: usize = 0;
        while i < mines.len()
            invariant
                i <= mines@.len(),
                forall|k: int|
                    0 <= k < mines@.len() ==> (#[trigger] mines@[k]).x < width && mines@[k].y
                        < height,
                forall|k: int, j: int| 0 <= k < j < mines@.len() ==> mines@[k] != mines@[j],
                b.width == width,
                b.height == height,
                b.mine_count == mines@.len(),
                b.dims_ok(),
                forall|x: int, y: int|
                    b.in_bounds(x, y) ==> (#[trigger] b.tile(x, y)).spec_state() == State::Closed,
                forall|x: int, y: int|
                    b.in_bounds(x, y) ==> (b.is_mine(x, y) <==> point_listed(
                        mines@.take(i as int),
                        x,
                        y,
                    )),
                grid_count(b.tiles@, mine_pred()) == i,
            decreases mines@.len() - i,
        {
            let p = mines[i];
            let ghost prev = b;
            proof {
                assert(!point_listed(mines@.take(i as int), p.x as int, p.y as int)) by {
                    if point_listed(mines@.take(i as int), p.x as int, p.y as int) {
                        let k = choose|k: int|
                            0 <= k < mines@.take(i as int).len() && (#[trigger] mines@.take(
                                i as int,
                            )[k]).x == p.x && mines@.take(i as int)[k].y == p.y;
                        assert(mines@[k] == mines@[i as int]);
                    }
                };
            }
            b.set_value(p.x, p.y, Value::Mine);
            proof {
                let px = p.x as int;
                let py = p.y as int;
                let r = b.tiles@[py];
                assert forall|cx: int, cy: int|
                    b.in_bounds(cx, cy) && !(cx == px && cy == py) implies b.tile(cx, cy)
                    == prev.tile(cx, cy) by {
                    if cy == py {
                        assert(b.tiles@[cy]@[cx] == prev.tiles@[cy]@.update(px, b.tile(px, py))[cx]);
                    } else {
                        assert(b.tiles@[cy] == prev.tiles@[cy]);
                    }
                }
                assert(b.tiles@ =~= prev.tiles@.update(py, r));
                lemma_grid_count_update(prev.tiles@, mine_pred(), py, r);
                lemma_row_count_update(prev.tiles@[py]@, mine_pred(), px, b.tile(px, py));
                assert(r@ == prev.tiles@[py]@.update(px, b.tile(px, py)));
                assert(!prev.is_mine(px, py));
                assert(!is_mine_tile(prev.tiles@[py]@[px]));
                assert(is_mine_tile(b.tile(px, py)));
                assert(count_one(mine_pred()(prev.tiles@[py]@[px])) == 0);
                assert(count_one(mine_pred()(b.tile(px, py))) == 1);
                assert(row_count(r@, mine_pred()) == row_count(prev.tiles@[py]@, mine_pred()) + 1);
                assert(grid_count(b.tiles@, mine_pred()) == i + 1);
                assert(mines@.take(i + 1) =~= mines@.take(i as int).push(mines@[i as int]));
                assert forall|x: int, y: int| b.in_bounds(x, y) implies (b.is_mine(x, y)
                    <==> point_listed(mines@.take(i + 1), x, y)) by {
                    if x == px && y == py {
                        assert(mines@.take(i + 1)[i as int] == mines@[i as int]);
                        assert(point_listed(mines@.take(i + 1), x, y));
                    } else {
                        assert(b.tile(x, y) == prev.tile(x, y));
                        assert(prev.is_mine(x, y) <==> point_listed(mines@.take(i as int), x, y));
                        assert(point_listed(mines@.take(i + 1), x, y) == point_listed(
                            mines@.take(i as int),
                            x,
                            y,
                        )) by {
                            if point_listed(mines@.take(i + 1), x, y) {
                                let k = choose|k: int|
                                    0 <= k < mines@.take(i + 1).len() && (#[trigger] mines@.take(
                                        i + 1,
                                    )[k]).x == x && mines@.take(i + 1)[k].y == y;
                                assert(k < i + 1);
                                assert(k != i as int);
                                assert(mines@.take(i as int)[k] == mines@[k]);
                            }
                            if point_listed(mines@.take(i as int), x, y) {
                                let k = choose|k: int|
                                    0 <= k < mines@.take(i as int).len() && (
                                    #[trigger] mines@.take(i as int)[k]).x == x && mines@.take(
                                        i as int,
                                    )[k].y == y;
                                assert(mines@.take(i + 1)[k] == mines@[k]);
                            }
                        };
                    }
                }
            }
            i += 1;
        }
        proof {
            assert(mines@.take(mines@.len() as int) =~= mines@);
        }

        let mut y: usize = 0;
        while y < height
            invariant
                y <= height,
                b.width == width,
                b.height == height,
                b.mine_count == mines@.len(),
                b.dims_ok(),
                forall|x: int, yy: int|
                    b.in_bounds(x, yy) ==> (#[trigger] b.tile(x, yy)).spec_state()
                        == State::Closed,
                forall|x: int, yy: int|
                    b.in_bounds(x, yy) ==> (b.is_mine(x, yy) <==> point_listed(mines@, x, yy)),
                grid_count(b.tiles@, mine_pred()) == mines@.len(),
                forall|xx: int, yy: int|
                    0 <= xx < width && 0 <= yy < y && !b.is_mine(xx, yy) ==> (#[trigger] b.tile(
                        xx,
                        yy,
                    )).spec_value() == Value::Number(b.adj_mines(xx, yy) as i32),
            decreases height - y,
        {
            let mut x: usize = 0;
            while x < width
                invariant
                    x <= width,
                    y < height,
                    b.width == width,
                    b.height == height,
                    b.mine_count == mines@.len(),
                    b.dims_ok(),
                    forall|xx: int, yy: int|
                        b.in_bounds(xx, yy) ==> (#[trigger] b.tile(xx, yy)).spec_state()
                            == State::Closed,
                    forall|xx: int, yy: int|
                        b.in_bounds(xx, yy) ==> (b.is_mine(xx, yy) <==> point_listed(
                            mines@,
                            xx,
                            yy,
                        )),
                    grid_count(b.tiles@, mine_pred()) == mines@.len(),
                    forall|xx: int, yy: int|
                        0 <= xx < width && 0 <= yy < y && !b.is_mine(xx, yy) ==> (
                        #[trigger] b.tile(xx, yy)).spec_value() == Value::Number(
                            b.adj_mines(xx, yy) as i32,
                        ),
                    forall|xx: int|
                        0 <= xx < x && !b.is_mine(xx, y as int) ==> (#[trigger] b.tile(
                            xx,
                            y as int,
                        )).spec_value() == Value::Number(b.adj_mines(xx, y as int) as i32),
                decreases width - x,
            {
                if !b.mine_at(x, y) {
                    let n = b.count_adjacent_mines(x, y);
                    let ghost prev = b;
                    b.set_value(x, y, Value::Number(n));
                    proof {
                        let px = x as int;
                        let py = y as int;
                        let r = b.tiles@[py];
                        assert forall|cx: int, cy: int|
                            b.in_bounds(cx, cy) && !(cx == px && cy == py) implies b.tile(cx, cy)
                            == prev.tile(cx, cy) by {
                            if cy == py {
                                assert(b.tiles@[cy]@[cx] == prev.tiles@[cy]@.update(
                                    px,
                                    b.tile(px, py),
                                )[cx]);
                            } else {
                                assert(b.tiles@[cy] == prev.tiles@[cy]);
                            }
                        }
                        assert(b.tiles@ =~= prev.tiles@.update(py, r));
                        lemma_grid_count_update(prev.tiles@, mine_pred(), py, r);
                        lemma_row_count_update(prev.tiles@[py]@, mine_pred(), px, b.tile(px, py));
                        assert(!is_mine_tile(prev.tiles@[py]@[px]));
                        assert(!is_mine_tile(b.tile(px, py)));
                        assert(grid_count(b.tiles@, mine_pred()) == mines@.len());
                        assert forall|cx: int, cy: int| b.is_mine(cx, cy) == prev.is_mine(
                            cx,
                            cy,
                        ) by {
                            if prev.in_bounds(cx, cy) && !(cx == px && cy == py) {
                                assert(b.tile(cx, cy) == prev.tile(cx, cy));
                            }
                        }
                        assert forall|cx: int, cy: int| b.adj_mines(cx, cy) == prev.adj_mines(
                            cx,
                            cy,
                        ) by {
                            reveal(Board::adj_mines);
                        }
                        assert forall|cx: int, cy: int|
                            b.in_bounds(cx, cy) implies (#[trigger] b.tile(cx, cy)).spec_state()
                            == State::Closed by {
                            if !(cx == px && cy == py) {
                                assert(b.tile(cx, cy) == prev.tile(cx, cy));
                            }
                        }
                        assert forall|cx: int, cy: int|
                            b.in_bounds(cx, cy) implies (b.is_mine(cx, cy) <==> point_listed(
                            mines@,
                            cx,
                            cy,
                        )) by {
                            assert(prev.is_mine(cx, cy) <==> point_listed(mines@, cx, cy));
                        }
                    }
                }
                x += 1;
            }
            y += 1;
        }
        b
    }

    /// Open the addressed tile. A mine fails with `Mine`, a flagged tile
    /// with `Flagged`, an opened one with `Opened`, each leaving every tile
    /// as it was. Opening a closed non-mine tile succeeds; if it shows zero
    /// adjacent mines the reveal cascades, opening exactly the cells its
    /// cascade reaches, while every other tile keeps its state. Values
    /// never change.
    pub fn open_tile(&mut self, point: &Point) -> (r: Result<(), OpenError>)
        requires
            old(self).wf(),
            point.x < old(self).width,
            point.y < old(self).height,
        ensures
            final(self).wf(),
            final(self).width == old(self).width,
            final(self).height == old(self).height,
            final(self).mine_count == old(self).mine_count,
            forall|x: int, y: int|
                old(self).in_bounds(x, y) ==> (#[trigger] final(self).tile(x, y)).spec_value()
                    == old(self).tile(x, y).spec_value(),
            r == old(self).spec_open_result(point.x as int, point.y as int),
            r != Ok::<(), OpenError>(()) ==> forall|x: int, y: int|
                old(self).in_bounds(x, y) ==> #[trigger] final(self).tile(x, y) == old(self).tile(
                    x,
                    y,
                ),
            r == Ok::<(), OpenError>(()) ==> forall|x: int, y: int|
                old(self).in_bounds(x, y) ==> (#[trigger] final(self).tile(x, y)).spec_state() == (
                if old(self).cascade(point.x as int, point.y as int, x, y) {
                    State::Opened
                } else {
                    old(self).tile(x, y).spec_state()
                }),
    {
        let ghost gb = *old(self);
        let px = point.x;
        let py = point.y;
        let ghost ipx = px as int;
        let ghost ipy = py as int;
        let t0 = self.tiles[py][px];
        match t0.value() {
            Value::Mine => {
                return Err(OpenError::Mine);
            },
            Value::Number(num) => {
                match t0.state() {
                    State::Flagged => {
                        return Err(OpenError::Flagged);
                    },
                    State::Opened => {
                        return Err(OpenError::Opened);
                    },
                    State::Closed => {
                        self.open_cell(px, py);
                        proof {
                            lemma_cascade_refl(gb, ipx, ipy);
                        }
                        if num != 0 {
                            proof {
                                assert forall|x: int, y: int|
                                    gb.in_bounds(x, y) implies (#[trigger] self.tile(
                                    x,
                                    y,
                                )).spec_state() == (if gb.cascade(ipx, ipy, x, y) {
                                    State::Opened
                                } else {
                                    gb.tile(x, y).spec_state()
                                }) by {
                                    if gb.cascade(ipx, ipy, x, y) {
                                        lemma_cascade_singleton(gb, ipx, ipy, x, y);
                                    } else {
                                        assert(!(x == ipx && y == ipy));
                                        assert(self.tile(x, y) == gb.tile(x, y));
                                    }
                                }
                                lemma_same_values_wf(gb, *self);
                            }
                            return Ok(());
                        }
                        let mut stack: Vec<Point> = Vec::new();
                        stack.push(Point::new(px, py));
                        proof {
                            assert(stack@[0] == (Point { x: px, y: py }));
                            assert(point_listed(stack@, ipx, ipy));
                            assert(cascade_evolves(gb, *self, ipx, ipy)) by {
                                assert forall|x: int, y: int|
                                    gb.in_bounds(x, y) && gb.tile(x, y).spec_state()
                                        == State::Closed && (#[trigger] self.tile(
                                        x,
                                        y,
                                    )).spec_state() == State::Opened implies gb.cascade(
                                    ipx,
                                    ipy,
                                    x,
                                    y,
                                ) by {
                                    if !(x == ipx && y == ipy) {
                                        assert(self.tile(x, y) == gb.tile(x, y));
                                    }
                                }
                            };
                            assert(frontier_ok(gb, *self, stack@)) by {
                                assert forall|cx: int, cy: int|
                                    gb.in_bounds(cx, cy) && gb.tile(cx, cy).spec_state()
                                        == State::Closed && (#[trigger] self.tile(
                                        cx,
                                        cy,
                                    )).spec_state() == State::Opened implies point_listed(
                                    stack@,
                                    cx,
                                    cy,
                                ) by {
                                    if !(cx == ipx && cy == ipy) {
                                        assert(self.tile(cx, cy) == gb.tile(cx, cy));
                                    }
                                }
                            };
                            lemma_grid_count_bounds(self.tiles@, closed_pred());
                        }
                        while stack.len() != 0
                            invariant
                                gb.wf(),
                                gb.in_bounds(ipx, ipy),
                                cascade_evolves(gb, *self, ipx, ipy),
                                stack_ok(gb, *self, ipx, ipy, stack@),
                                frontier_ok(gb, *self, stack@),
                                self.tile(ipx, ipy).spec_state() == State::Opened,
                                grid_closed(self.tiles@) >= 0,
                            decreases 9 * grid_closed(self.tiles@) + stack@.len(),
                        {
                            let ghost g0 = *self;
                            let ghost s0 = stack@;
                            let q = stack.pop().unwrap();
                            proof {
                                assert(s0[s0.len() - 1] == q);
                            }
                            let qx = q.x;
                            let qy = q.y;
                            let ghost iqx = qx as int;
                            let ghost iqy = qy as int;
                            if qx > 0 && qy > 0 {
                                self.cascade_neighbor(
                                    qx - 1,
                                    qy - 1,
                                    &mut stack,
                                    Ghost(gb),
                                    Ghost(ipx),
                                    Ghost(ipy),
                                    Ghost(iqx),
                                    Ghost(iqy),
                                );
                            }
                            if qy > 0 {
                                self.cascade_neighbor(
                                    qx,
                                    qy - 1,
                                    &mut stack,
                                    Ghost(gb),
                                    Ghost(ipx),
                                    Ghost(ipy),
                                    Ghost(iqx),
                                    Ghost(iqy),
                                );
                                self.cascade_neighbor(
                                    qx + 1,
                                    qy - 1,
                                    &mut stack,
                                    Ghost(gb),
                                    Ghost(ipx),
                                    Ghost(ipy),
                                    Ghost(iqx),
                                    Ghost(iqy),
                                );
                            }
                            if qx > 0 {
                                self.cascade_neighbor(
                                    qx - 1,
                                    qy,
                                    &mut stack,
                                    Ghost(gb),
                                    Ghost(ipx),
                                    Ghost(ipy),
                                    Ghost(iqx),
                                    Ghost(iqy),
                                );
                            }
                            self.cascade_neighbor(
                                qx + 1,
                                qy,
                                &mut stack,
                                Ghost(gb),
                                Ghost(ipx),
                                Ghost(ipy),
                                Ghost(iqx),
                                Ghost(iqy),
                            );
                            if qx > 0 {
                                self.cascade_neighbor(
                                    qx - 1,
                                    qy + 1,
                                    &mut stack,
                                    Ghost(gb),
                                    Ghost(ipx),
                                    Ghost(ipy),
                                    Ghost(iqx),
                                    Ghost(iqy),
                                );
                            }
                            self.cascade_neighbor(
                                qx,
                                qy + 1,
                                &mut stack,
                                Ghost(gb),
                                Ghost(ipx),
                                Ghost(ipy),
                                Ghost(iqx),
                                Ghost(iqy),
                            );
                            self.cascade_neighbor(
                                qx + 1,
                                qy + 1,
                                &mut stack,
                                Ghost(gb),
                                Ghost(ipx),
                                Ghost(ipy),
                                Ghost(iqx),
                                Ghost(iqy),
                            );
                            proof {
                                lemma_grid_count_bounds(self.tiles@, closed_pred());
                                assert forall|nx2: int, ny2: int|
                                    gb.in_bounds(nx2, ny2) && spec_adjacent(iqx, iqy, nx2, ny2)
                                        && gb.tile(nx2, ny2).spec_state()
                                        == State::Closed implies (#[trigger] self.tile(
                                    nx2,
                                    ny2,
                                )).spec_state() == State::Opened by {}
                                assert(frontier_ok(gb, *self, stack@)) by {
                                    assert forall|cx: int, cy: int, nx2: int, ny2: int|
                                        gb.in_bounds(cx, cy) && gb.tile(cx, cy).spec_state()
                                            == State::Closed && (#[trigger] self.tile(
                                            cx,
                                            cy,
                                        )).spec_state() == State::Opened && gb.tile(
                                            cx,
                                            cy,
                                        ).spec_value() == Value::Number(0) && gb.in_bounds(
                                            nx2,
                                            ny2,
                                        ) && spec_adjacent(cx, cy, nx2, ny2) && gb.tile(
                                            nx2,
                                            ny2,
                                        ).spec_state() == State::Closed implies point_listed(
                                        stack@,
                                        cx,
                                        cy,
                                    ) || (#[trigger] self.tile(nx2, ny2)).spec_state()
                                        == State::Opened by {
                                        if cx == iqx && cy == iqy {
                                        } else {
                                            if g0.tile(cx, cy).spec_state() == State::Opened {
                                                assert(point_listed(s0, cx, cy) || g0.tile(
                                                    nx2,
                                                    ny2,
                                                ).spec_state() == State::Opened);
                                                if point_listed(s0, cx, cy) {
                                                    let k = choose|k: int|
                                                        0 <= k < s0.len() && (#[trigger] s0[k]).x
                                                            == cx && s0[k].y == cy;
                                                    assert(k < s0.len() - 1);
                                                    assert(s0.subrange(0, s0.len() - 1)[k]
                                                        == s0[k]);
                                                    assert(point_listed(
                                                        s0.subrange(0, s0.len() - 1),
                                                        cx,
                                                        cy,
                                                    ));
                                                }
                                            } else {
                                                assert(point_listed(stack@, cx, cy));
                                            }
                                        }
                                    }
                                };
                            }
                        }
                        proof {
                            assert(frontier_ok(gb, *self, Seq::<Point>::empty())) by {
                                assert(forall|x: int, y: int|
                                    !point_listed(stack@, x, y) && !point_listed(
                                        Seq::<Point>::empty(),
                                        x,
                                        y,
                                    ));
                            };
                            assert forall|x: int, y: int|
                                gb.in_bounds(x, y) implies (#[trigger] self.tile(
                                x,
                                y,
                            )).spec_state() == (if gb.cascade(ipx, ipy, x, y) {
                                State::Opened
                            } else {
                                gb.tile(x, y).spec_state()
                            }) by {
                                if gb.cascade(ipx, ipy, x, y) {
                                    lemma_cascade_closed(gb, ipx, ipy, x, y);
                                    reveal(Board::cascade);
                                    let path = choose|path: Seq<Point>|
                                        #[trigger] gb.is_cascade_path(path) && path[0].x == ipx
                                            && path[0].y == ipy && path[path.len() - 1].x == x
                                            && path[path.len() - 1].y == y;
                                    lemma_cascade_opened(gb, *self, ipx, ipy, path);
                                }
                            }
                            lemma_same_values_wf(gb, *self);
                        }
                        return Ok(());
                    },
                }
            },
        }
    }

    /// A fresh board with `mine_count` mines at distinct randomly drawn
    /// cells, every tile closed and adjacency numbers computed. The caller
    /// guarantees fewer mines than cells.
    pub fn new(width: usize, height: usize, mine_count: usize) -> (b: Board)
        requires
            0 < width,
            0 < height,
            mine_count < width * height,
        ensures
            b.wf(),
            b.width == width,
            b.height == height,
            b.mine_count == mine_count,
            forall|x: int, y: int|
                b.in_bounds(x, y) ==> (#[trigger] b.tile(x, y)).spec_state() == State::Closed,
    {
        let mut cells: Vec<Point> = Vec::new();
        let mut y: usize = 0;
        while y < height
            invariant
                y <= height,
                cells@.len() == y * width,
                forall|k: int|
                    0 <= k < cells@.len() ==> (#[trigger] cells@[k]).x < width && cells@[k].y < y,
                forall|k: int, j: int| 0 <= k < j < cells@.len() ==> cells@[k] != cells@[j],
            decreases height - y,
        {
            let mut x: usize = 0;
            while x < width
                invariant
                    x <= width,
                    y < height,
                    cells@.len() == y * width + x,
                    forall|k: int|
                        0 <= k < cells@.len() ==> (#[trigger] cells@[k]).x < width && (cells@[k].y
                            < y || (cells@[k].y == y && cells@[k].x < x)),
                    forall|k: int, j: int| 0 <= k < j < cells@.len() ==> cells@[k] != cells@[j],
                decreases width - x,
            {
                cells.push(Point::new(x, y));
                x += 1;
            }
            proof {
                assert((y + 1) * width == y * width + width) by (nonlinear_arith);
            }
            y += 1;
        }

        proof {
            assert(height * width == width * height) by (nonlinear_arith);
        }
        let mut mines: Vec<Point> = Vec::new();
        let mut k: usize = 0;
        while k < mine_count
            invariant
                k <= mine_count,
                mine_count < width * height,
                cells@.len() == width * height - k,
                mines@.len() == k,
                forall|a: int|
                    0 <= a < cells@.len() ==> (#[trigger] cells@[a]).x < width && cells@[a].y
                        < height,
                forall|a: int, c: int| 0 <= a < c < cells@.len() ==> cells@[a] != cells@[c],
                forall|a: int|
                    0 <= a < mines@.len() ==> (#[trigger] mines@[a]).x < width && mines@[a].y
                        < height,
                forall|a: int, c: int| 0 <= a < c < mines@.len() ==> mines@[a] != mines@[c],
                forall|a: int, c: int|
                    0 <= a < mines@.len() && 0 <= c < cells@.len() ==> mines@[a] != cells@[c],
            decreases mine_count - k,
        {
            let ghost before = cells@;
            let j = rand_below(cells.len());
            let p = cells.swap_remove(j);
            mines.push(p);
            proof {
                assert forall|a: int, c: int|
                    0 <= a < c < cells@.len() implies cells@[a] != cells@[c] by {
                    assert(cells@[a] == before.update(j as int, before.last())[a]);
                    assert(cells@[c] == before.update(j as int, before.last())[c]);
                }
                assert forall|c: int| 0 <= c < cells@.len() implies p != cells@[c] by {
                    assert(cells@[c] == before.update(j as int, before.last())[c]);
                }
            }
            k += 1;
        }
        Board::with_mines(width, height, &mines)
    }

    /// Throw the layout away and lay out a fresh one with the same width,
    /// height and mine count; every tile is closed again.
    pub fn restart(&mut self)
        requires
            old(self).wf(),
        ensures
            final(self).wf(),
            final(self).width == old(self).width,
            final(self).height == old(self).height,
            final(self).mine_count == old(self).mine_count,
            forall|x: int, y: int|
                final(self).in_bounds(x, y) ==> (#[trigger] final(self).tile(x, y)).spec_state()
                    == State::Closed,
    {
        *self = Board::new(self.width, self.height, self.mine_count);
    }
}

/// Counts are never negative and never exceed the row's length.
pub proof fn lemma_row_count_bounds(row: Seq<Tile>, f: spec_fn(Tile) -> bool)
    ensures
        0 <= row_count(row, f) <= row.len(),
    decreases row.len(),
{
    if row.len() > 0 {
        lemma_row_count_bounds(row.drop_last(), f);
    }
}

/// Counts are never negative.
pub proof fn lemma_grid_count_bounds(g: Seq<Vec<Tile>>, f: spec_fn(Tile) -> bool)
    ensures
        0 <= grid_count(g, f),
    decreases g.len(),
{
    if g.len() > 0 {
        lemma_grid_count_bounds(g.drop_last(), f);
        lemma_row_count_bounds(g.last()@, f);
    }
}

/// Appending a tile adds its own contribution to the row's count.
pub proof fn lemma_row_count_push(row: Seq<Tile>, f: spec_fn(Tile) -> bool, t: Tile)
    ensures
        row_count(row.push(t), f) == row_count(row, f) + count_one(f(t)),
{
    assert(row.push(t).drop_last() =~= row);
}

/// Appending a row adds its own count to the grid's count.
pub proof fn lemma_grid_count_push(g: Seq<Vec<Tile>>, f: spec_fn(Tile) -> bool, r: Vec<Tile>)
    ensures
        grid_count(g.push(r), f) == grid_count(g, f) + row_count(r@, f),
{
    assert(g.push(r).drop_last() =~= g);
}

/// Replacing one tile moves the row's count by the difference of the two
/// tiles' contributions.
pub proof fn lemma_row_count_update(row: Seq<Tile>, f: spec_fn(Tile) -> bool, j: int, t: Tile)
    requires
        0 <= j < row.len(),
    ensures
        row_count(row.update(j, t), f) + count_one(f(row[j])) == row_count(row, f) + count_one(
            f(t),
        ),
    decreases row.len(),
{
    let r2 = row.update(j, t);
    if j == row.len() - 1 {
        assert(r2.drop_last() =~= row.drop_last());
        assert(r2.last() == t);
    } else {
        assert(r2.drop_last() =~= row.drop_last().update(j, t));
        assert(r2.last() == row.last());
        lemma_row_count_update(row.drop_last(), f, j, t);
    }
}

/// Replacing one row moves the grid's count by the difference of the two
/// rows' counts.
pub proof fn lemma_grid_count_update(g: Seq<Vec<Tile>>, f: spec_fn(Tile) -> bool, j: int, r: Vec<
    Tile,
>)
    requires
        0 <= j < g.len(),
    ensures
        grid_count(g.update(j, r), f) + row_count(g[j]@, f) == grid_count(g, f) + row_count(
            r@,
            f,
        ),
    decreases g.len(),
{
    let g2 = g.update(j, r);
    if j == g.len() - 1 {
        assert(g2.drop_last() =~= g.drop_last());
        assert(g2.last() == r);
    } else {
        assert(g2.drop_last() =~= g.drop_last().update(j, r));
        assert(g2.last() == g.last());
        lemma_grid_count_update(g.drop_last(), f, j, r);
    }
}

/// Two rows whose tiles agree under the predicate have the same count.
pub proof fn lemma_row_count_congruence(a: Seq<Tile>, b: Seq<Tile>, f: spec_fn(Tile) -> bool)
    requires
        a.len() == b.len(),
        forall|i: int| 0 <= i < a.len() ==> f(#[trigger] a[i]) == f(#[trigger] b[i]),
    ensures
        row_count(a, f) == row_count(b, f),
    decreases a.len(),
{
    if a.len() > 0 {
        lemma_row_count_congruence(a.drop_last(), b.drop_last(), f);
    }
}

/// Two grids of the same shape whose tiles agree under the predicate have
/// the same count.
pub proof fn lemma_grid_count_congruence(
    a: Seq<Vec<Tile>>,
    b: Seq<Vec<Tile>>,
    f: spec_fn(Tile) -> bool,
)
    requires
        a.len() == b.len(),
        forall|y: int| 0 <= y < a.len() ==> (#[trigger] a[y])@.len() == (#[trigger] b[y])@.len(),
        forall|y: int, x: int|
            0 <= y < a.len() && 0 <= x < a[y]@.len() ==> f(#[trigger] a[y]@[x]) == f(
                #[trigger] b[y]@[x],
            ),
    ensures
        grid_count(a, f) == grid_count(b, f),
    decreases a.len(),
{
    if a.len() > 0 {
        lemma_grid_count_congruence(a.drop_last(), b.drop_last(), f);
        lemma_row_count_congruence(a.last()@, b.last()@, f);
    }
}

/// Law: a well-formed board holds exactly `mine_count` mine tiles.
pub proof fn lemma_mine_count_exact(b: Board)
    requires
        b.wf(),
    ensures
        grid_mines(b.tiles@) == b.mine_count,
{
}

/// Law: on a well-formed board, every non-mine tile's number equals the
/// count of its in-bounds neighbors that hold a mine.
pub proof fn lemma_numbers_match_mines(b: Board, x: int, y: int)
    requires
        b.wf(),
        b.in_bounds(x, y),
        !b.is_mine(x, y),
    ensures
        b.tile(x, y).spec_value() == Value::Number(b.adj_mines(x, y) as i32),
{
}

/// A closed in-bounds cell is in its own cascade: the one-cell path.
pub proof fn lemma_cascade_refl(b: Board, px: int, py: int)
    requires
        b.in_bounds(px, py),
        b.tile(px, py).spec_state() == State::Closed,
    ensures
        b.cascade(px, py, px, py),
{
    reveal(Board::cascade);
    let path = seq![(Point { x: px as usize, y: py as usize })];
    assert(b.is_cascade_path(path));
}

/// Whatever a cascade reaches was a closed in-bounds cell.
pub proof fn lemma_cascade_closed(b: Board, px: int, py: int, cx: int, cy: int)
    requires
        b.cascade(px, py, cx, cy),
    ensures
        b.in_bounds(cx, cy),
        b.tile(cx, cy).spec_state() == State::Closed,
{
    reveal(Board::cascade);
    let path = choose|path: Seq<Point>|
        #[trigger] b.is_cascade_path(path) && path[0].x == px && path[0].y == py && path[path.len()
            - 1].x == cx && path[path.len() - 1].y == cy;
    assert(b.in_bounds(path[path.len() - 1].x as int, path[path.len() - 1].y as int));
    assert(b.tile(path[path.len() - 1].x as int, path[path.len() - 1].y as int).spec_state()
        == State::Closed);
}

/// A cascade that reaches a zero cell extends to each adjacent closed
/// in-bounds cell.
pub proof fn lemma_cascade_extend(b: Board, px: int, py: int, qx: int, qy: int, nx: int, ny: int)
    requires
        b.cascade(px, py, qx, qy),
        b.tile(qx, qy).spec_value() == Value::Number(0),
        b.in_bounds(nx, ny),
        b.tile(nx, ny).spec_state() == State::Closed,
        spec_adjacent(qx, qy, nx, ny),
    ensures
        b.cascade(px, py, nx, ny),
{
    reveal(Board::cascade);
    let path = choose|path: Seq<Point>|
        #[trigger] b.is_cascade_path(path) && path[0].x == px && path[0].y == py && path[path.len()
            - 1].x == qx && path[path.len() - 1].y == qy;
    let p2 = path.push(Point { x: nx as usize, y: ny as usize });
    assert forall|i: int| 0 <= i < p2.len() - 1 implies spec_adjacent(
        (#[trigger] p2[i]).x as int,
        p2[i].y as int,
        p2[i + 1].x as int,
        p2[i + 1].y as int,
    ) by {
        if i < path.len() - 1 {
            assert(p2[i] == path[i]);
            assert(p2[i + 1] == path[i + 1]);
        } else {
            assert(p2[i] == path[path.len() - 1]);
            assert(p2[i + 1] == p2[p2.len() - 1]);
        }
    }
    assert(b.is_cascade_path(p2));
    assert(p2[0].x == px && p2[0].y == py);
    assert(p2[p2.len() - 1].x == nx && p2[p2.len() - 1].y == ny);
}

/// When the opened cell is not a zero cell, its cascade holds that cell
/// alone.
pub proof fn lemma_cascade_singleton(b: Board, px: int, py: int, cx: int, cy: int)
    requires
        b.cascade(px, py, cx, cy),
        b.tile(px, py).spec_value() != Value::Number(0),
    ensures
        cx == px,
        cy == py,
{
    reveal(Board::cascade);
    let path = choose|path: Seq<Point>|
        #[trigger] b.is_cascade_path(path) && path[0].x == px && path[0].y == py && path[path.len()
            - 1].x == cx && path[path.len() - 1].y == cy;
    if path.len() > 1 {
        assert(b.tile(path[0].x as int, path[0].y as int).spec_value() == Value::Number(0));
    }
}

/// Once the queue is empty and the frontier is covered, everything a
/// cascade path reaches has been opened: by induction along the path.
proof fn lemma_cascade_opened(gb: Board, g: Board, px: int, py: int, path: Seq<Point>)
    requires
        g.width == gb.width,
        g.height == gb.height,
        g.tile(px, py).spec_state() == State::Opened,
        frontier_ok(gb, g, Seq::<Point>::empty()),
        gb.is_cascade_path(path),
        path[0].x == px,
        path[0].y == py,
    ensures
        g.tile(path[path.len() - 1].x as int, path[path.len() - 1].y as int).spec_state()
            == State::Opened,
    decreases path.len(),
{
    reveal(Board::cascade);
    if path.len() == 1 {
        assert(path[0].x as int == px && path[0].y as int == py);
    } else {
        let prefix = path.drop_last();
        assert forall|i: int| 0 <= i < prefix.len() implies gb.in_bounds(
            (#[trigger] prefix[i]).x as int,
            prefix[i].y as int,
        ) && gb.tile(prefix[i].x as int, prefix[i].y as int).spec_state() == State::Closed by {
            assert(prefix[i] == path[i]);
        }
        assert forall|i: int| 0 <= i < prefix.len() - 1 implies spec_adjacent(
            (#[trigger] prefix[i]).x as int,
            prefix[i].y as int,
            prefix[i + 1].x as int,
            prefix[i + 1].y as int,
        ) && gb.tile(prefix[i].x as int, prefix[i].y as int).spec_value() == Value::Number(0) by {
            assert(prefix[i] == path[i]);
            assert(prefix[i + 1] == path[i + 1]);
        }
        assert(gb.is_cascade_path(prefix));
        lemma_cascade_opened(gb, g, px, py, prefix);
        let c = path[path.len() - 2];
        let n = path[path.len() - 1];
        assert(prefix[prefix.len() - 1] == c);
        assert(g.tile(c.x as int, c.y as int).spec_state() == State::Opened);
        assert(gb.tile(c.x as int, c.y as int).spec_value() == Value::Number(0));
        assert(spec_adjacent(c.x as int, c.y as int, n.x as int, n.y as int));
        assert(!point_listed(Seq::<Point>::empty(), c.x as int, c.y as int));
        assert(g.tile(n.x as int, n.y as int).spec_state() == State::Opened);
    }
}

/// Two boards of the same shape that agree cell by cell on values keep the
/// same mines, the same counts and the same adjacency numbers; so one of
/// them well formed makes the other well formed.
proof fn lemma_same_values_wf(gb: Board, g: Board)
    requires
        gb.wf(),
        g.width == gb.width,
        g.height == gb.height,
        g.mine_count == gb.mine_count,
        g.dims_ok(),
        forall|x: int, y: int|
            gb.in_bounds(x, y) ==> (#[trigger] g.tile(x, y)).spec_value() == gb.tile(
                x,
                y,
            ).spec_value(),
    ensures
        g.wf(),
        forall|x: int, y: int| g.is_mine(x, y) == gb.is_mine(x, y),
        forall|x: int, y: int| g.adj_mines(x, y) == gb.adj_mines(x, y),
{
    assert forall|x: int, y: int| g.is_mine(x, y) == gb.is_mine(x, y) by {
        if gb.in_bounds(x, y) {
            assert(g.tile(x, y).spec_value() == gb.tile(x, y).spec_value());
        }
    }
    assert forall|x: int, y: int| g.adj_mines(x, y) == gb.adj_mines(x, y) by {
        reveal(Board::adj_mines);
    }
    assert forall|y: int, x: int|
        0 <= y < g.tiles@.len() && 0 <= x < g.tiles@[y]@.len() implies mine_pred()(
        #[trigger] g.tiles@[y]@[x],
    ) == mine_pred()(#[trigger] gb.tiles@[y]@[x]) by {
        assert(g.tile(x, y).spec_value() == gb.tile(x, y).spec_value());
    }
    lemma_grid_count_congruence(g.tiles@, gb.tiles@, mine_pred());
    assert forall|x: int, y: int|
        g.in_bounds(x, y) && !g.is_mine(x, y) implies (#[trigger] g.tile(x, y)).spec_value()
        == Value::Number(g.adj_mines(x, y) as i32) by {
        assert(gb.tile(x, y).spec_value() == Value::Number(gb.adj_mines(x, y) as i32));
    }
}

} // verus!
