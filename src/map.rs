use crate::args::ProgArgs;
use crate::random::random_u64;
use vstd::prelude::*;

verus! {

/// What a tile is, as plain values.
pub struct TileModel {
    /// The tile can grow food at all.
    pub food: bool,
    /// The food has been eaten and is regrowing.
    pub eaten: bool,
    /// Ticks left until the food is back.
    pub counter: nat,
    /// Ticks the food takes to regrow after it is eaten.
    pub rate: nat,
}

/// What a grid is, as plain values: tile `(r, c)` is `tiles[r * cols + c]`.
pub struct MapModel {
    pub rows: nat,
    pub cols: nat,
    pub tiles: Seq<TileModel>,
}

/// A tile's own consistency: only food tiles are eaten, and only eaten tiles count down.
pub open spec fn tile_wf(t: TileModel) -> bool {
    &&& t.eaten ==> t.food
    &&& !t.eaten ==> t.counter == 0
    &&& t.counter <= t.rate
}

/// The tile holds food that can be eaten now.
pub open spec fn food_now(t: TileModel) -> bool {
    t.food && !t.eaten
}

/// The tile just after its food was eaten.
pub open spec fn eaten_tile(t: TileModel) -> TileModel {
    TileModel { food: t.food, eaten: true, counter: t.rate, rate: t.rate }
}

/// The tile one tick later: an eaten tile counts down, and its food is back
/// on the tick that uses up its last unit.
pub open spec fn advanced_tile(t: TileModel) -> TileModel {
    if t.food && t.eaten {
        if t.counter <= 1 {
            TileModel { food: t.food, eaten: false, counter: 0, rate: t.rate }
        } else {
            TileModel { food: t.food, eaten: true, counter: (t.counter - 1) as nat, rate: t.rate }
        }
    } else {
        t
    }
}

/// The tile after `n` ticks.
pub open spec fn advanced_tile_n(t: TileModel, n: nat) -> TileModel
    decreases n,
{
    if n == 0 {
        t
    } else {
        advanced_tile(advanced_tile_n(t, (n - 1) as nat))
    }
}

impl MapModel {
    pub open spec fn wf(self) -> bool {
        &&& self.tiles.len() == self.rows * self.cols
        &&& self.rows <= u16::MAX
        &&& self.cols <= u16::MAX
        &&& forall|i: int| 0 <= i < self.tiles.len() ==> tile_wf(#[trigger] self.tiles[i])
    }

    pub open spec fn in_bounds(self, row: int, col: int) -> bool {
        0 <= row < self.rows && 0 <= col < self.cols
    }

    pub open spec fn index(self, row: int, col: int) -> int {
        row * self.cols + col
    }

    pub open spec fn tile(self, row: int, col: int) -> TileModel {
        self.tiles[self.index(row, col)]
    }

    /// Tile `(row, col)` is in the grid and holds food now.
    pub open spec fn food_at(self, row: int, col: int) -> bool {
        self.in_bounds(row, col) && food_now(self.tile(row, col))
    }

    /// The grid after the food of tile `(row, col)` was eaten.
    pub open spec fn consumed(self, row: int, col: int) -> MapModel {
        MapModel {
            rows: self.rows,
            cols: self.cols,
            tiles: self.tiles.update(self.index(row, col), eaten_tile(self.tile(row, col))),
        }
    }

    /// The grid one tick later.
    pub open spec fn advanced(self) -> MapModel {
        MapModel {
            rows: self.rows,
            cols: self.cols,
            tiles: self.tiles.map_values(|t: TileModel| advanced_tile(t)),
        }
    }

    /// The grid after `n` ticks.
    pub open spec fn advanced_n(self, n: nat) -> MapModel
        decreases n,
    {
        if n == 0 {
            self
        } else {
            self.advanced_n((n - 1) as nat).advanced()
        }
    }
}

/// One cell of the grid.
#[derive(Clone, Copy)]
pub struct NystopiaTile {
    has_food: bool,
    eaten: bool,
    regrowth_counter: u16,
    regrowth_rate: u16,
}

impl View for NystopiaTile {
    type V = TileModel;

    closed spec fn view(&self) -> TileModel {
        TileModel {
            food: self.has_food,
            eaten: self.eaten,
            counter: self.regrowth_counter as nat,
            rate: self.regrowth_rate as nat,
        }
    }
}

impl NystopiaTile {
    /// A fresh tile that grows food with probability `food_prob` percent.
    pub fn new(prog_args: &ProgArgs) -> (r: Self)
        ensures
            tile_wf(r@),
            !r@.eaten,
            r@.food ==> r@.rate == prog_args.regrow_time,
            !r@.food ==> r@.rate == 0,
            prog_args.food_prob >= 100 ==> r@.food,
            prog_args.food_prob == 0 ==> !r@.food,
    {
        let draw = random_u64();
        Self::from_draw(draw, prog_args)
    }

    /// The tile that a random `draw` gives: a food tile when `draw % 100` is
    /// under `food_prob`.
    pub fn from_draw(draw: u64, prog_args: &ProgArgs) -> (r: Self)
        ensures
            tile_wf(r@),
            !r@.eaten,
            r@.food == (draw % 100 < prog_args.food_prob),
            r@.food ==> r@.rate == prog_args.regrow_time,
            !r@.food ==> r@.rate == 0,
    {
        if draw % 100 < prog_args.food_prob as u64 {
            Self { has_food: true, eaten: false, regrowth_counter: 0, regrowth_rate: prog_args.regrow_time }
        } else {
            Self { has_food: false, eaten: false, regrowth_counter: 0, regrowth_rate: 0 }
        }
    }

    /// Whether the tile can grow food at all.
    pub fn has_food(&self) -> (r: bool)
        ensures
            r == self@.food,
    {
        self.has_food
    }

    /// Whether the tile's food is eaten and regrowing.
    pub fn eaten(&self) -> (r: bool)
        ensures
            r == self@.eaten,
    {
        self.eaten
    }

    /// Whether the tile holds food that can be eaten now.
    pub fn has_food_now(&self) -> (r: bool)
        ensures
            r == food_now(self@),
    {
        self.has_food && !self.eaten
    }

    fn advanced(&self) -> (r: Self)
        requires
            tile_wf(self@),
        ensures
            r@ == advanced_tile(self@),
            tile_wf(r@),
    {
        if self.has_food && self.eaten {
            if self.regrowth_counter <= 1 {
                Self { eaten: false, regrowth_counter: 0, ..*self }
            } else {
                Self { regrowth_counter: self.regrowth_counter - 1, ..*self }
            }
        } else {
            *self
        }
    }
}

/// The food grid: `rows` by `cols` tiles, stored row after row.
pub struct NystopiaMap {
    map: Vec<NystopiaTile>,
    cols: u16,
    rows: u16,
}

impl View for NystopiaMap {
    type V = MapModel;

    closed spec fn view(&self) -> MapModel {
        MapModel {
            rows: self.rows as nat,
            cols: self.cols as nat,
            tiles: self.map@.map_values(|t: NystopiaTile| t@),
        }
    }
}

proof fn lemma_index_in_range(rows: int, cols: int, row: int, col: int)
    requires
        0 <= row < rows,
        0 <= col < cols,
    ensures
        0 <= row * cols + col < rows * cols,
{
    assert(0 <= row * cols + col < rows * cols) by (nonlinear_arith)
        requires
            0 <= row < rows,
            0 <= col < cols,
    ;
}

proof fn lemma_advanced_n_tile(m: MapModel, n: nat, row: int, col: int)
    requires
        m.wf(),
        m.in_bounds(row, col),
    ensures
        m.advanced_n(n).rows == m.rows,
        m.advanced_n(n).cols == m.cols,
        m.advanced_n(n).tiles.len() == m.tiles.len(),
        m.advanced_n(n).tile(row, col) == advanced_tile_n(m.tile(row, col), n),
    decreases n,
{
    lemma_index_in_range(m.rows as int, m.cols as int, row, col);
    if n > 0 {
        lemma_advanced_n_tile(m, (n - 1) as nat, row, col);
    }
}

proof fn lemma_countdown(t: TileModel, k: nat)
    requires
        t.food,
        t.eaten,
        1 <= t.counter,
        k <= t.counter,
    ensures
        k < t.counter ==> advanced_tile_n(t, k) == (TileModel {
            food: t.food,
            eaten: true,
            counter: (t.counter - k) as nat,
            rate: t.rate,
        }),
        k == t.counter ==> food_now(advanced_tile_n(t, k)),
    decreases k,
{
    if k > 0 {
        lemma_countdown(t, (k - 1) as nat);
    }
}

proof fn lemma_consumed_wf(m: MapModel, row: int, col: int)
    requires
        m.wf(),
        m.food_at(row, col),
    ensures
        m.consumed(row, col).wf(),
        m.consumed(row, col).tile(row, col) == eaten_tile(m.tile(row, col)),
{
    lemma_index_in_range(m.rows as int, m.cols as int, row, col);
    let c = m.consumed(row, col);
    assert forall|i: int| 0 <= i < c.tiles.len() implies tile_wf(#[trigger] c.tiles[i]) by {
        assert(tile_wf(m.tiles[i]));
    }
}

/// Food cannot be eaten twice: after a successful `consume` of a tile, the
/// tile holds no food until `tick_map` has run as many times as its regrowth
/// time.
pub proof fn lemma_no_double_eat(m: MapModel, row: int, col: int, k: nat)
    requires
        m.wf(),
        m.food_at(row, col),
        k < m.tile(row, col).rate,
    ensures
        !m.consumed(row, col).advanced_n(k).food_at(row, col),
{
    lemma_consumed_wf(m, row, col);
    let c = m.consumed(row, col);
    lemma_advanced_n_tile(c, k, row, col);
    lemma_countdown(c.tile(row, col), k);
}

/// After a successful `consume`, a tile whose regrowth time is at least one
/// holds food again after exactly that many calls of `tick_map`.
pub proof fn lemma_regrows_on_time(m: MapModel, row: int, col: int)
    requires
        m.wf(),
        m.food_at(row, col),
        m.tile(row, col).rate >= 1,
    ensures
        m.consumed(row, col).advanced_n(m.tile(row, col).rate).food_at(row, col),
{
    let n = m.tile(row, col).rate;
    lemma_consumed_wf(m, row, col);
    let c = m.consumed(row, col);
    lemma_advanced_n_tile(c, n, row, col);
    lemma_countdown(c.tile(row, col), n);
}

/// One operation on the grid: a tick of regrowth, or an attempt to eat at a cell.
pub enum MapOp {
    Tick,
    Eat(int, int),
}

/// The grid after the operations `ops`, in order; an attempt to eat changes
/// the grid only where there is food, as `consume` does.
pub open spec fn apply_ops(m: MapModel, ops: Seq<MapOp>) -> MapModel
    decreases ops.len(),
{
    if ops.len() == 0 {
        m
    } else {
        let before = apply_ops(m, ops.drop_last());
        match ops.last() {
            MapOp::Tick => before.advanced(),
            MapOp::Eat(r, c) => if before.food_at(r, c) { before.consumed(r, c) } else { before },
        }
    }
}

/// The number of ticks among the operations.
pub open spec fn tick_count(ops: Seq<MapOp>) -> nat
    decreases ops.len(),
{
    if ops.len() == 0 {
        0
    } else {
        tick_count(ops.drop_last()) + if ops.last() is Tick { 1nat } else { 0nat }
    }
}

proof fn lemma_index_distinct(cols: int, r1: int, c1: int, r2: int, c2: int)
    requires
        0 <= c1 < cols,
        0 <= c2 < cols,
        r1 != r2 || c1 != c2,
    ensures
        r1 * cols + c1 != r2 * cols + c2,
{
    if r1 != r2 {
        assert(r1 * cols + c1 != r2 * cols + c2) by (nonlinear_arith)
            requires
                0 <= c1 < cols,
                0 <= c2 < cols,
                r1 != r2,
        ;
    }
}

proof fn lemma_advanced_wf(m: MapModel)
    requires
        m.wf(),
    ensures
        m.advanced().wf(),
{
    let a = m.advanced();
    assert forall|i: int| 0 <= i < a.tiles.len() implies tile_wf(#[trigger] a.tiles[i]) by {
        assert(tile_wf(m.tiles[i]));
    }
}

proof fn lemma_ops_keep_eaten(m: MapModel, row: int, col: int, ops: Seq<MapOp>)
    requires
        m.wf(),
        m.food_at(row, col),
        tick_count(ops) < m.tile(row, col).rate,
    ensures
        apply_ops(m.consumed(row, col), ops).wf(),
        apply_ops(m.consumed(row, col), ops).rows == m.rows,
        apply_ops(m.consumed(row, col), ops).cols == m.cols,
        apply_ops(m.consumed(row, col), ops).tile(row, col) == (TileModel {
            food: true,
            eaten: true,
            counter: (m.tile(row, col).rate - tick_count(ops)) as nat,
            rate: m.tile(row, col).rate,
        }),
    decreases ops.len(),
{
    lemma_index_in_range(m.rows as int, m.cols as int, row, col);
    if ops.len() == 0 {
        lemma_consumed_wf(m, row, col);
    } else {
        let prefix = ops.drop_last();
        lemma_ops_keep_eaten(m, row, col, prefix);
        let before = apply_ops(m.consumed(row, col), prefix);
        match ops.last() {
            MapOp::Tick => {
                lemma_advanced_wf(before);
                assert(tick_count(ops) == tick_count(prefix) + 1);
                assert(before.advanced().tile(row, col) == advanced_tile(before.tile(row, col)));
            },
            MapOp::Eat(r, c) => {
                assert(tick_count(ops) == tick_count(prefix));
                if before.food_at(r, c) {
                    lemma_consumed_wf(before, r, c);
                    assert(r != row || c != col);
                    lemma_index_distinct(m.cols as int, r, c, row, col);
                    let i = before.index(row, col);
                    assert(0 <= i < before.tiles.len());
                    assert(before.index(r, c) != i);
                    lemma_index_in_range(before.rows as int, before.cols as int, r, c);
                    assert(before.consumed(r, c).tiles[i] == before.tiles[i]);
                }
            },
        }
    }
}

/// Food cannot be eaten twice, whatever else happens in between: after a
/// successful `consume` of a tile, any run of ticks and attempts to eat (at
/// that tile or elsewhere) with fewer ticks than the tile's regrowth time
/// leaves the tile without food.
pub proof fn lemma_no_double_eat_between(m: MapModel, row: int, col: int, ops: Seq<MapOp>)
    requires
        m.wf(),
        m.food_at(row, col),
        tick_count(ops) < m.tile(row, col).rate,
    ensures
        !apply_ops(m.consumed(row, col), ops).food_at(row, col),
{
    lemma_ops_keep_eaten(m, row, col, ops);
}

impl NystopiaMap {
    /// A grid of `my_rows` by `my_cols` fresh tiles, each growing food with
    /// probability `food_prob` percent and regrowing in `regrow_time` ticks.
    pub fn new(prog_args: &ProgArgs, my_cols: u16, my_rows: u16) -> (r: Self)
        requires
            my_cols as nat * my_rows as nat <= usize::MAX,
        ensures
            r@.wf(),
            r@.rows == my_rows,
            r@.cols == my_cols,
            forall|i: int|
                0 <= i < r@.tiles.len() ==> {
                    let t = #[trigger] r@.tiles[i];
                    &&& !t.eaten
                    &&& t.food ==> t.rate == prog_args.regrow_time
                    &&& !t.food ==> t.rate == 0
                    &&& prog_args.food_prob >= 100 ==> t.food
                    &&& prog_args.food_prob == 0 ==> !t.food
                },
    {
        let n: usize = (my_cols as usize) * (my_rows as usize);
        let mut new_map: Vec<NystopiaTile> = Vec::new();
        let mut k: usize = 0;
        while k < n
            invariant
                k <= n,
                new_map@.len() == k,
                forall|i: int|
                    0 <= i < k ==> {
                        let t = #[trigger] new_map@[i]@;
                        &&& tile_wf(t)
                        &&& !t.eaten
                        &&& t.food ==> t.rate == prog_args.regrow_time
                        &&& !t.food ==> t.rate == 0
                        &&& prog_args.food_prob >= 100 ==> t.food
                        &&& prog_args.food_prob == 0 ==> !t.food
                    },
            decreases n - k,
        {
            new_map.push(NystopiaTile::new(prog_args));
            k = k + 1;
        }
        let r = Self { cols: my_cols, rows: my_rows, map: new_map };
        assert(r@.tiles.len() == r@.rows * r@.cols) by (nonlinear_arith)
            requires
                r@.tiles.len() == n,
                n == my_cols as nat * my_rows as nat,
                r@.rows == my_rows,
                r@.cols == my_cols,
        ;
        r
    }

    pub fn get_cols(&self) -> (r: u16)
        ensures
            r == self@.cols,
    {
        self.cols
    }

    pub fn get_rows(&self) -> (r: u16)
        ensures
            r == self@.rows,
    {
        self.rows
    }

    /// The tile at `(row, col)`, or `None` outside the grid.
    pub fn get_tile(&self, row: u16, col: u16) -> (r: Option<&NystopiaTile>)
        requires
            self@.wf(),
        ensures
            r.is_some() == self@.in_bounds(row as int, col as int),
            r matches Some(t) ==> t@ == self@.tile(row as int, col as int),
    {
        if row < self.rows && col < self.cols {
            proof {
                lemma_index_in_range(self.rows as int, self.cols as int, row as int, col as int);
            }
            let n = self.map.len();
            assert(n == self@.tiles.len());
            let index: usize = (row as usize) * (self.cols as usize) + (col as usize);
            Some(&self.map[index])
        } else {
            None
        }
    }

    /// Eats the food of tile `(row, col)`: true when there was food to eat, and
    /// the tile then regrows from scratch; false, with no change, otherwise.
    pub fn consume(&mut self, row: u16, col: u16) -> (r: bool)
        requires
            old(self)@.wf(),
        ensures
            r == old(self)@.food_at(row as int, col as int),
            r ==> final(self)@ == old(self)@.consumed(row as int, col as int),
            !r ==> final(self)@ == old(self)@,
            final(self)@.wf(),
    {
        if row < self.rows && col < self.cols {
            proof {
                lemma_index_in_range(self.rows as int, self.cols as int, row as int, col as int);
            }
            let n = self.map.len();
            assert(n == self@.tiles.len());
            let index: usize = (row as usize) * (self.cols as usize) + (col as usize);
            let tile = self.map[index];
            if tile.has_food && !tile.eaten {
                let eaten = NystopiaTile { eaten: true, regrowth_counter: tile.regrowth_rate, ..tile };
                self.map.set(index, eaten);
                proof {
                    assert(self@.tiles =~= old(self)@.consumed(row as int, col as int).tiles);
                }
                true
            } else {
                false
            }
        } else {
            false
        }
    }

    /// One tick of regrowth: every eaten tile counts down, and gets its food
    /// back on the tick that uses up its last unit.
    pub fn tick_map(&mut self)
        requires
            old(self)@.wf(),
        ensures
            final(self)@ == old(self)@.advanced(),
            final(self)@.wf(),
    {
        let n = self.map.len();
        let mut i: usize = 0;
        while i < n
            invariant
                0 <= i <= n,
                n == self.map@.len(),
                self.rows == old(self).rows,
                self.cols == old(self).cols,
                self.map@.len() == old(self).map@.len(),
                old(self)@.wf(),
                forall|j: int| 0 <= j < i ==> (#[trigger] self.map@[j])@ == advanced_tile(old(self).map@[j]@),
                forall|j: int| i <= j < n ==> (#[trigger] self.map@[j]) == old(self).map@[j],
            decreases n - i,
        {
            proof {
                assert(tile_wf(old(self)@.tiles[i as int]));
            }
            let t = self.map[i].advanced();
            self.map.set(i, t);
            i = i + 1;
        }
        proof {
            assert(self@.tiles =~= old(self)@.advanced().tiles);
            assert forall|j: int| 0 <= j < self@.tiles.len() implies tile_wf(#[trigger] self@.tiles[j]) by {
                assert(tile_wf(old(self)@.tiles[j]));
            }
        }
    }
}

} // verus!
