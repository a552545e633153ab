use crate::args::ProgArgs;
use crate::map::{MapModel, NystopiaMap};
use crate::random::random_u64;
use vstd::arithmetic::div_mod::{lemma_basic_div_specific_divisor, lemma_div_plus_one};
use vstd::prelude::*;

verus! {

/// Energy a bot gains from one meal.
pub const FOOD_ENERGY: u8 = 20;

/// Weight of a move toward food that sits right next to the bot.
pub const SEE_FOOD_MOVE_SCORE: u64 = 200000;

/// Weight of any move that food does not favour.
pub const MOVE_SCORE: u64 = 100;

/// Energy under which a bot is hungry.
pub const HUNGRY_THRESHOLD: u8 = 80;

/// What a bot is doing: fed and wandering, hungry and foraging, or dead.
#[derive(Clone, Copy, PartialEq, Eq, Structural, Debug)]
pub enum NekobotState {
    Wander,
    Forage,
    Dead,
}

/// The five moves a bot may make.
#[derive(Clone, Copy, PartialEq, Eq, Structural, Debug)]
pub enum NekoDirs {
    Here,
    Up,
    Down,
    Left,
    Right,
}

/// What a bot is, as plain values.
pub struct BotModel {
    pub label: Seq<char>,
    pub row: nat,
    pub col: nat,
    pub energy: nat,
    pub sight: nat,
    pub see_food_move_score: nat,
    pub move_score: nat,
    pub state: NekobotState,
    pub hungry_threshold: nat,
}

/// The state that goes with an energy level.
pub open spec fn state_for(energy: nat, hungry_threshold: nat) -> NekobotState {
    if energy == 0 {
        NekobotState::Dead
    } else if energy < hungry_threshold {
        NekobotState::Forage
    } else {
        NekobotState::Wander
    }
}

/// The order in which the weighted draw walks the moves.
pub open spec fn dir_at(i: int) -> NekoDirs {
    if i == 0 {
        NekoDirs::Left
    } else if i == 1 {
        NekoDirs::Down
    } else if i == 2 {
        NekoDirs::Right
    } else if i == 3 {
        NekoDirs::Up
    } else {
        NekoDirs::Here
    }
}

/// Squared Euclidean distance between two cells.
pub open spec fn dist2(row: int, col: int, r: int, c: int) -> int {
    (r - row) * (r - row) + (c - col) * (c - col)
}

/// `d` is the square root of `n`, rounded down.
pub open spec fn is_floor_sqrt(n: int, d: int) -> bool {
    0 <= d && d * d <= n < (d + 1) * (d + 1)
}

/// The one axis-aligned move that best closes in on food at `(fr, fc)`:
/// vertical when the column gap is strictly the smaller one, else horizontal.
pub open spec fn best_dir(row: int, col: int, fr: int, fc: int) -> NekoDirs {
    let dr = if fr < row { row - fr } else { fr - row };
    let dc = if fc < col { col - fc } else { fc - col };
    if dc < dr {
        if fr < row { NekoDirs::Up } else { NekoDirs::Down }
    } else {
        if fc < col { NekoDirs::Left } else { NekoDirs::Right }
    }
}

/// `k` is `see * (sight - min(sqrt(n), sight)) / sight` rounded half up, and
/// zero when sight is zero. Away from those cases this says
/// `k - 1/2 <= see * (sight - sqrt(n)) / sight < k + 1/2`, multiplied out
/// and squared so that it speaks of integers alone.
pub open spec fn rounds_bonus(see: int, sight: int, n: int, k: int) -> bool {
    if sight <= 0 || n >= sight * sight {
        k == 0
    } else {
        let hi = 2 * see * sight - (2 * k - 1) * sight;
        let lo = 2 * see * sight - (2 * k + 1) * sight;
        &&& 0 <= k
        &&& 0 <= hi && 4 * see * see * n <= hi * hi
        &&& (lo < 0 || lo * lo < 4 * see * see * n)
    }
}

/// The food part of a move's weight, for food at squared distance `n`: the
/// food weight scaled down linearly from the full weight at distance zero to
/// nothing at distance `sight` and beyond, rounded half up.
pub open spec fn food_bonus(see: int, sight: int, n: int) -> int {
    choose|k: int| rounds_bonus(see, sight, n, k)
}

/// The lower end `2 * see * sight - (2 * j - 1) * sight` lies at or beyond
/// `2 * see * sqrt(n)`.
pub open spec fn bonus_reaches(see: int, sight: int, n: int, j: int) -> bool {
    let hi = 2 * see * sight - (2 * j - 1) * sight;
    0 <= hi && 4 * see * see * n <= hi * hi
}

/// The index that a draw of `rem` picks from the weights `s`: walk the
/// weights, taking off each one that `rem` reaches, and stop at the first it
/// does not (or at the last).
pub open spec fn pick_index(s: Seq<u64>, rem: int) -> int
    decreases s.len(),
{
    if s.len() <= 1 || rem < s[0] {
        0
    } else {
        1 + pick_index(s.drop_first(), rem - s[0])
    }
}

/// The sum of the weights.
pub open spec fn weight_sum(s: Seq<u64>) -> int
    decreases s.len(),
{
    if s.len() == 0 {
        0
    } else {
        s[0] + weight_sum(s.drop_first())
    }
}

/// Where a move takes a bot on a `rows` by `cols` grid: one step, clamped to the grid.
pub open spec fn moved(row: nat, col: nat, dir: NekoDirs, rows: nat, cols: nat) -> (nat, nat) {
    match dir {
        NekoDirs::Here => (row, col),
        NekoDirs::Up => (if row == 0 { 0 } else { (row - 1) as nat }, col),
        NekoDirs::Down => (if row + 1 < rows { row + 1 } else { row }, col),
        NekoDirs::Left => (row, if col == 0 { 0 } else { (col - 1) as nat }),
        NekoDirs::Right => (row, if col + 1 < cols { col + 1 } else { col }),
    }
}

impl BotModel {
    pub open spec fn wf(self) -> bool {
        &&& self.state == state_for(self.energy, self.hungry_threshold)
        &&& self.energy <= u8::MAX
        &&& self.move_score > 0
        &&& 5 * (self.see_food_move_score + self.move_score) <= u64::MAX
        &&& self.see_food_move_score < 0x100_0000_0000
    }

    pub open spec fn hungry(self) -> bool {
        self.energy < self.hungry_threshold
    }

    pub open spec fn in_map(self, m: MapModel) -> bool {
        self.row < m.rows && self.col < m.cols
    }

    /// Tile `(r, c)` holds food and lies within sight: its distance, rounded
    /// down, is at most `sight`.
    pub open spec fn sees_food(self, m: MapModel, r: int, c: int) -> bool {
        &&& m.food_at(r, c)
        &&& dist2(self.row as int, self.col as int, r, c) < (self.sight + 1) * (self.sight + 1)
    }

    /// `found` is an outcome of the nearest-food search: a food tile in sight
    /// with its rounded-down distance, no farther than any other, or nothing
    /// when no food is in sight.
    pub open spec fn nearest_ok(self, m: MapModel, found: Option<(u16, u16, u16)>) -> bool {
        match found {
            None => forall|r: int, c: int| !#[trigger] self.sees_food(m, r, c),
            Some((fr, fc, d)) => {
                &&& self.sees_food(m, fr as int, fc as int)
                &&& is_floor_sqrt(dist2(self.row as int, self.col as int, fr as int, fc as int), d as int)
                &&& forall|r: int, c: int| #[trigger] self.sees_food(m, r, c)
                    ==> d * d <= dist2(self.row as int, self.col as int, r, c)
            },
        }
    }

    /// The weight of a move, given the outcome `found` of the nearest-food search.
    pub open spec fn dir_score(self, m: MapModel, dir: NekoDirs, found: Option<(u16, u16, u16)>) -> int {
        if !self.hungry() {
            self.move_score as int
        } else if dir == NekoDirs::Here {
            if m.food_at(self.row as int, self.col as int) {
                self.see_food_move_score as int
            } else {
                self.move_score as int
            }
        } else {
            match found {
                None => self.move_score as int,
                Some((fr, fc, d)) => if dir == best_dir(self.row as int, self.col as int, fr as int, fc as int) {
                    food_bonus(
                        self.see_food_move_score as int,
                        self.sight as int,
                        dist2(self.row as int, self.col as int, fr as int, fc as int),
                    )
                        + self.move_score
                } else {
                    self.move_score as int
                },
            }
        }
    }

    /// The five weights, in the order in which the draw walks the moves.
    pub open spec fn scores(self, m: MapModel, found: Option<(u16, u16, u16)>) -> Seq<u64> {
        Seq::new(5, |i: int| self.dir_score(m, dir_at(i), found) as u64)
    }

    /// The bot and the grid after one step, given the outcome `found` of the
    /// nearest-food search and a random `draw`: the bot moves to the place
    /// that the weighted draw picks, eats there if it is hungry and finds
    /// food, and spends one unit of energy. A dead bot does nothing.
    pub open spec fn stepped(self, m: MapModel, found: Option<(u16, u16, u16)>, draw: int) -> (BotModel, MapModel) {
        if self.energy == 0 {
            (self, m)
        } else {
            let s = self.scores(m, found);
            let dir = dir_at(pick_index(s, draw % weight_sum(s)));
            let (r, c) = moved(self.row, self.col, dir, m.rows, m.cols);
            let ate = self.hungry() && m.food_at(r as int, c as int);
            let fed = if ate {
                if self.energy + FOOD_ENERGY > u8::MAX { u8::MAX as nat } else { (self.energy + FOOD_ENERGY) as nat }
            } else {
                self.energy
            };
            let energy = (fed - 1) as nat;
            (
                BotModel {
                    row: r,
                    col: c,
                    energy,
                    state: state_for(energy, self.hungry_threshold),
                    ..self
                },
                if ate { m.consumed(r as int, c as int) } else { m },
            )
        }
    }
}

/// The square root of `n`, rounded down.
fn floor_sqrt(n: u128) -> (r: u128)
    requires
        n < 0x10_0000_0000_0000_0000_0000_0000_0000,
    ensures
        is_floor_sqrt(n as int, r as int),
        r < 0x400_0000_0000_0000,
{
    let mut lo: u128 = 0;
    let mut hi: u128 = 0x400_0000_0000_0000;
    assert(hi * hi == 0x10_0000_0000_0000_0000_0000_0000_0000) by (nonlinear_arith)
        requires
            hi == 0x400_0000_0000_0000,
    ;
    while hi - lo > 1
        invariant
            lo < hi <= 0x400_0000_0000_0000,
            lo * lo <= n < hi * hi,
        decreases hi - lo,
    {
        let mid = lo + (hi - lo) / 2;
        assert(mid * mid <= 0x10_0000_0000_0000_0000_0000_0000_0000) by (nonlinear_arith)
            requires
                mid <= 0x400_0000_0000_0000,
        ;
        if mid * mid <= n {
            lo = mid;
        } else {
            hi = mid;
        }
    }
    lo
}

/// The square root of `n`, rounded up.
fn ceil_sqrt(n: u128) -> (r: u128)
    requires
        n < 0x10_0000_0000_0000_0000_0000_0000_0000,
    ensures
        0 <= r,
        n <= r * r,
        r == 0 || (r - 1) * (r - 1) < n,
{
    let f = floor_sqrt(n);
    if f * f == n {
        assert(f == 0 || (f - 1) * (f - 1) < f * f) by (nonlinear_arith)
            requires
                f >= 0,
        ;
        f
    } else {
        f + 1
    }
}

proof fn lemma_square_le(a: int, b: int)
    requires
        0 <= a <= b,
    ensures
        a * a <= b * b,
{
    assert(a * a <= b * b) by (nonlinear_arith)
        requires
            0 <= a <= b,
    ;
}

/// At most one `k` rounds the bonus.
proof fn lemma_rounds_bonus_unique(see: int, sight: int, n: int, k1: int, k2: int)
    requires
        rounds_bonus(see, sight, n, k1),
        rounds_bonus(see, sight, n, k2),
    ensures
        k1 == k2,
{
    if !(sight <= 0 || n >= sight * sight) {
        if k1 < k2 {
            let lo1 = 2 * see * sight - (2 * k1 + 1) * sight;
            let hi2 = 2 * see * sight - (2 * k2 - 1) * sight;
            assert(hi2 <= lo1) by (nonlinear_arith)
                requires
                    k1 + 1 <= k2,
                    sight > 0,
                    lo1 == 2 * see * sight - (2 * k1 + 1) * sight,
                    hi2 == 2 * see * sight - (2 * k2 - 1) * sight,
            ;
            lemma_square_le(hi2, lo1);
        } else if k2 < k1 {
            let lo2 = 2 * see * sight - (2 * k2 + 1) * sight;
            let hi1 = 2 * see * sight - (2 * k1 - 1) * sight;
            assert(hi1 <= lo2) by (nonlinear_arith)
                requires
                    k2 + 1 <= k1,
                    sight > 0,
                    lo2 == 2 * see * sight - (2 * k2 + 1) * sight,
                    hi1 == 2 * see * sight - (2 * k1 - 1) * sight,
            ;
            lemma_square_le(hi1, lo2);
        }
    }
}

/// The largest `k` up to `see` whose lower end still reaches.
proof fn lemma_last_reach(see: int, sight: int, n: int, j: int) -> (k: int)
    requires
        0 <= j <= see,
        bonus_reaches(see, sight, n, 0),
        forall|i: int| j < i <= see ==> !#[trigger] bonus_reaches(see, sight, n, i),
    ensures
        0 <= k <= see,
        bonus_reaches(see, sight, n, k),
        k == see || !bonus_reaches(see, sight, n, k + 1),
    decreases j,
{
    if bonus_reaches(see, sight, n, j) {
        j
    } else {
        lemma_last_reach(see, sight, n, j - 1)
    }
}

/// The bonus is well defined, and lies between zero and the food weight.
proof fn lemma_food_bonus(see: int, sight: int, n: int)
    requires
        0 <= see,
        0 <= sight,
        0 <= n,
    ensures
        rounds_bonus(see, sight, n, food_bonus(see, sight, n)),
        0 <= food_bonus(see, sight, n) <= see,
{
    if sight <= 0 || n >= sight * sight {
        assert(rounds_bonus(see, sight, n, 0));
    } else {
        assert(4 * see * see * n <= (2 * see * sight + sight) * (2 * see * sight + sight)) by (nonlinear_arith)
            requires
                0 <= see,
                0 < sight,
                0 <= n < sight * sight,
        ;
        assert(2 * see * sight - (2 * 0 - 1) * sight == 2 * see * sight + sight) by (nonlinear_arith);
        assert(bonus_reaches(see, sight, n, 0));
        let k = lemma_last_reach(see, sight, n, see);
        if k < see {
            assert(2 * see * sight - (2 * k + 1) * sight > 0) by (nonlinear_arith)
                requires
                    k + 1 <= see,
                    0 < sight,
            ;
        } else {
            assert(2 * see * sight - (2 * k + 1) * sight < 0) by (nonlinear_arith)
                requires
                    k == see,
                    0 < sight,
            ;
        }
        assert(rounds_bonus(see, sight, n, k));
        lemma_rounds_bonus_unique(see, sight, n, k, food_bonus(see, sight, n));
    }
}

/// A rounded-down distance is at most `s` exactly when the squared distance
/// is under `(s + 1)^2`.
proof fn lemma_floor_sqrt_bound(n: int, d: int, s: int)
    requires
        is_floor_sqrt(n, d),
        0 <= s,
    ensures
        (d <= s) == (n < (s + 1) * (s + 1)),
{
    if d <= s {
        assert((d + 1) * (d + 1) <= (s + 1) * (s + 1)) by (nonlinear_arith)
            requires
                0 <= d <= s,
        ;
    } else {
        assert((s + 1) * (s + 1) <= d * d) by (nonlinear_arith)
            requires
                0 <= s,
                s + 1 <= d,
        ;
    }
}

/// Rounded-down distances order as the squared distances bound them.
proof fn lemma_floor_sqrt_le(d: int, e: int, n: int)
    requires
        0 <= d <= e,
        e * e <= n,
    ensures
        d * d <= n,
{
    assert(d * d <= e * e) by (nonlinear_arith)
        requires
            0 <= d <= e,
    ;
}

/// Food in sight lies in the square of side `2 * sight + 1` round the bot.
proof fn lemma_sight_window(row: int, col: int, r: int, c: int, s: int)
    requires
        0 <= s,
        dist2(row, col, r, c) < (s + 1) * (s + 1),
    ensures
        row - s <= r <= row + s,
        col - s <= c <= col + s,
{
    let a = r - row;
    let b = c - col;
    assert(a * a >= 0 && b * b >= 0) by (nonlinear_arith);
    if a > s || a < -s {
        assert(a * a >= (s + 1) * (s + 1)) by (nonlinear_arith)
            requires
                a > s || a < -s,
                s >= 0,
        ;
    }
    if b > s || b < -s {
        assert(b * b >= (s + 1) * (s + 1)) by (nonlinear_arith)
            requires
                b > s || b < -s,
                s >= 0,
        ;
    }

}

/// Picks an index from the weights `scores` with the draw `draw`: walks the
/// weights, taking each one off the draw while the draw reaches it, and stops
/// at the first weight that the rest of the draw falls under.
pub fn pick_weighted(scores: &Vec<u64>, draw: u64) -> (r: usize)
    requires
        scores@.len() >= 1,
    ensures
        r < scores@.len(),
        r == pick_index(scores@, draw as int),
{
    let n = scores.len();
    let mut i: usize = 0;
    let mut rem: u64 = draw;
    proof {
        assert(scores@.skip(0) =~= scores@);
    }
    while i + 1 < n && rem >= scores[i]
        invariant
            n == scores@.len(),
            n >= 1,
            i < n,
            pick_index(scores@, draw as int) == i + pick_index(scores@.skip(i as int), rem as int),
        decreases n - i,
    {
        proof {
            assert(scores@.skip(i as int).drop_first() =~= scores@.skip(i + 1));
        }
        rem = rem - scores[i];
        i = i + 1;
    }
    i
}

/// Equal weights share the draws evenly: with every weight equal to `w`,
/// the draw `x` picks index `x / w`, so each index gets exactly `w` of the
/// draws below the sum.
pub proof fn lemma_equal_weights_pick(s: Seq<u64>, w: int, x: int)
    requires
        s.len() >= 1,
        w > 0,
        forall|i: int| 0 <= i < s.len() ==> s[i] == w,
        0 <= x < s.len() * w,
    ensures
        pick_index(s, x) == x / w,
    decreases s.len(),
{
    lemma_basic_div_specific_divisor(w);
    if x >= w {
        if s.len() <= 1 {
            assert(s.len() * w == w) by (nonlinear_arith)
                requires
                    s.len() == 1,
            ;
        } else {
            let t = s.drop_first();
            assert(x - w < t.len() * w) by (nonlinear_arith)
                requires
                    x < s.len() * w,
                    t.len() == s.len() - 1,
            ;
            lemma_equal_weights_pick(t, w, x - w);
            lemma_div_plus_one(x - w, w);
        }
    }
}

/// A bot that is not hungry weighs all five moves alike, at its plain move
/// weight, so its walk is unbiased.
pub proof fn lemma_fed_bot_scores_equal(b: BotModel, m: MapModel, found: Option<(u16, u16, u16)>)
    requires
        b.wf(),
        !b.hungry(),
    ensures
        forall|i: int| 0 <= i < 5 ==> #[trigger] b.scores(m, found)[i] == b.move_score,
        forall|x: int| 0 <= x < weight_sum(b.scores(m, found)) ==>
            #[trigger] pick_index(b.scores(m, found), x) == x / (b.move_score as int),
{
    let s = b.scores(m, found);
    reveal_with_fuel(weight_sum, 6);
    assert(weight_sum(s) == s.len() * b.move_score) by (nonlinear_arith)
        requires
            weight_sum(s) == s[0] + s[1] + s[2] + s[3] + s[4],
            s.len() == 5,
            s[0] == b.move_score,
            s[1] == b.move_score,
            s[2] == b.move_score,
            s[3] == b.move_score,
            s[4] == b.move_score,
    ;
    assert forall|x: int| 0 <= x < weight_sum(s) implies #[trigger] pick_index(s, x) == x / (b.move_score as int) by {
        lemma_equal_weights_pick(s, b.move_score as int, x);
    }
}

/// A hungry bot that sees exactly one food tile, at `(fr, fc)`, finds that
/// tile, and gives the move that best closes in on it a weight at least that
/// of every other move; the weights tie only when the tile lies at distance
/// `sight` or more. This holds when the bot can see beyond its own tile and
/// the food weight is at least the square of the sight.
pub proof fn lemma_single_food_best(
    b: BotModel,
    m: MapModel,
    found: Option<(u16, u16, u16)>,
    fr: int,
    fc: int,
)
    requires
        b.wf(),
        m.wf(),
        b.in_map(m),
        b.hungry(),
        b.sight > 0,
        b.sight * b.sight <= b.see_food_move_score,
        b.sees_food(m, fr, fc),
        forall|r: int, c: int| #[trigger] b.sees_food(m, r, c) ==> r == fr && c == fc,
        b.nearest_ok(m, found),
    ensures
        found matches Some((r, c, d)) && r == fr && c == fc && {
            let best = best_dir(b.row as int, b.col as int, fr, fc);
            forall|dir: NekoDirs| dir != best ==> {
                &&& b.dir_score(m, best, found) >= #[trigger] b.dir_score(m, dir, found)
                &&& (b.dir_score(m, best, found) == b.dir_score(m, dir, found)
                    ==> dist2(b.row as int, b.col as int, fr, fc) >= b.sight * b.sight)
            }
        },
{
    let f = b.see_food_move_score as int;
    let s = b.sight as int;
    let n = dist2(b.row as int, b.col as int, fr, fc);
    assert(n >= 0) by (nonlinear_arith)
        requires
            n == dist2(b.row as int, b.col as int, fr, fc),
    ;
    lemma_food_bonus(f, s, n);
    let bonus = food_bonus(f, s, n);
    if n < s * s && bonus == 0 {
        let lo = 2 * f * s - s;
        assert(lo >= 0) by (nonlinear_arith)
            requires
                lo == 2 * f * s - s,
                s >= 1,
                f >= s * s,
        ;
        let lo0 = 2 * f * s - (2 * bonus + 1) * s;
        assert(lo0 < 0 || lo0 * lo0 < 4 * f * f * n);
        assert(lo0 == lo) by (nonlinear_arith)
            requires
                lo0 == 2 * f * s - (2 * bonus + 1) * s,
                lo == 2 * f * s - s,
                bonus == 0,
        ;
        assert(lo * lo < 4 * f * f * n);
        assert(4 * f * f * n <= 4 * f * f * (s * s - 1)) by (nonlinear_arith)
            requires
                0 <= n <= s * s - 1,
                f >= 0,
        ;
        assert(lo * lo == 4 * f * f * s * s - 4 * f * s * s + s * s) by (nonlinear_arith)
            requires
                lo == 2 * f * s - s,
        ;
        assert(4 * f * f >= 4 * f * s * s) by (nonlinear_arith)
            requires
                f >= s * s,
                f >= 0,
        ;
        assert(false) by (nonlinear_arith)
            requires
                4 * f * f * s * s - 4 * f * s * s + s * s < 4 * f * f * (s * s - 1),
                4 * f * f >= 4 * f * s * s,
                s >= 1,
        ;
    }
    if m.food_at(b.row as int, b.col as int) {
        assert(dist2(b.row as int, b.col as int, b.row as int, b.col as int) == 0);
        assert(b.sees_food(m, b.row as int, b.col as int));
        assert(n == 0);
        assert(s * s > 0) by (nonlinear_arith)
            requires
                s > 0,
        ;
        let lo = 2 * f * s - (2 * bonus + 1) * s;
        assert(lo * lo >= 0 && 4 * f * f * n == 0) by (nonlinear_arith)
            requires
                n == 0,
        ;
        assert(lo < 0);
        assert(bonus >= f) by (nonlinear_arith)
            requires
                lo == 2 * f * s - (2 * bonus + 1) * s,
                lo < 0,
                s > 0,
        ;
    }
}

/// With a sight of zero only staying put can be favoured: every other move
/// keeps the plain move weight, whatever the search found.
pub proof fn lemma_blind_bot_only_stays(b: BotModel, m: MapModel, found: Option<(u16, u16, u16)>, dir: NekoDirs)
    requires
        b.sight == 0,
        dir != NekoDirs::Here,
    ensures
        b.dir_score(m, dir, found) == b.move_score,
{
    if let Some((fr, fc, _)) = found {
        let n = dist2(b.row as int, b.col as int, fr as int, fc as int);
        assert(rounds_bonus(b.see_food_move_score as int, 0, n, 0));
        lemma_rounds_bonus_unique(b.see_food_move_score as int, 0, n, 0, food_bonus(b.see_food_move_score as int, 0, n));
    }
}

/// Energy decides the state at every step: a well-formed bot stays
/// well-formed, its state is `Dead` exactly when its energy is zero, and a
/// dead bot never changes.
pub proof fn lemma_step_state(b: BotModel, m: MapModel, found: Option<(u16, u16, u16)>, draw: int)
    requires
        b.wf(),
    ensures
        b.stepped(m, found, draw).0.wf(),
        b.stepped(m, found, draw).0.state == state_for(b.stepped(m, found, draw).0.energy, b.hungry_threshold),
        (b.stepped(m, found, draw).0.state == NekobotState::Dead) == (b.stepped(m, found, draw).0.energy == 0),
        b.state == NekobotState::Dead ==> b.stepped(m, found, draw) == (b, m),
{
}

pub struct Nekobot {
    label: String,
    row: u16,
    col: u16,
    energy: u8,
    sight: u16,
    see_food_move_score: u64,
    move_score: u64,
    state: NekobotState,
    hungry_threshold: u8,
}

impl View for Nekobot {
    type V = BotModel;

    closed spec fn view(&self) -> BotModel {
        BotModel {
            label: self.label@,
            row: self.row as nat,
            col: self.col as nat,
            energy: self.energy as nat,
            sight: self.sight as nat,
            see_food_move_score: self.see_food_move_score as nat,
            move_score: self.move_score as nat,
            state: self.state,
            hungry_threshold: self.hungry_threshold as nat,
        }
    }
}

fn state_for_energy(energy: u8, hungry_threshold: u8) -> (r: NekobotState)
    ensures
        r == state_for(energy as nat, hungry_threshold as nat),
{
    if energy == 0 {
        NekobotState::Dead
    } else if energy < hungry_threshold {
        NekobotState::Forage
    } else {
        NekobotState::Wander
    }
}

impl Nekobot {
    /// A bot at `(row, col)` with the given energy and sight, and the
    /// standard weights and hunger threshold.
    pub fn new(label: &str, row: u16, col: u16, energy: u8, sight: u16) -> (r: Self)
        ensures
            r@.wf(),
            r@.label == label@,
            r@.row == row,
            r@.col == col,
            r@.energy == energy,
            r@.sight == sight,
            r@.see_food_move_score == SEE_FOOD_MOVE_SCORE,
            r@.move_score == MOVE_SCORE,
            r@.hungry_threshold == HUNGRY_THRESHOLD,
    {
        Self {
            label: label.to_owned(),
            row,
            col,
            energy,
            sight,
            see_food_move_score: SEE_FOOD_MOVE_SCORE,
            move_score: MOVE_SCORE,
            state: state_for_energy(energy, HUNGRY_THRESHOLD),
            hungry_threshold: HUNGRY_THRESHOLD,
        }
    }

    /// A bot at a random place of a `rows` by `cols` grid, with random energy
    /// from 10 to 99.
    pub fn new_rand(label: &str, rows: u16, cols: u16, prog_args: &ProgArgs) -> (r: Self)
        requires
            rows > 0,
            cols > 0,
        ensures
            r@.wf(),
            r@.label == label@,
            r@.row < rows,
            r@.col < cols,
            10 <= r@.energy <= 99,
            r@.sight == prog_args.sight,
            r@.see_food_move_score == SEE_FOOD_MOVE_SCORE,
            r@.move_score == MOVE_SCORE,
            r@.hungry_threshold == HUNGRY_THRESHOLD,
    {
        let x = random_u64();
        let y = random_u64();
        let e = random_u64();
        Self::from_draws(label, rows, cols, x, y, e, prog_args)
    }

    /// The bot that the random draws `x`, `y` and `e` give: row `x % rows`,
    /// column `y % cols` and energy `e % 90 + 10`.
    pub fn from_draws(label: &str, rows: u16, cols: u16, x: u64, y: u64, e: u64, prog_args: &ProgArgs) -> (r: Self)
        requires
            rows > 0,
            cols > 0,
        ensures
            r@.wf(),
            r@.label == label@,
            r@.row == x % (rows as u64),
            r@.col == y % (cols as u64),
            r@.energy == e % 90 + 10,
            r@.sight == prog_args.sight,
            r@.see_food_move_score == SEE_FOOD_MOVE_SCORE,
            r@.move_score == MOVE_SCORE,
            r@.hungry_threshold == HUNGRY_THRESHOLD,
    {
        let row = (x % (rows as u64)) as u16;
        let col = (y % (cols as u64)) as u16;
        let energy = (e % 90 + 10) as u8;
        Self::new(label, row, col, energy, prog_args.sight)
    }

    pub fn get_state(&self) -> (r: NekobotState)
        ensures
            r == self@.state,
    {
        self.state
    }

    pub fn get_row(&self) -> (r: u16)
        ensures
            r == self@.row,
    {
        self.row
    }

    pub fn get_col(&self) -> (r: u16)
        ensures
            r == self@.col,
    {
        self.col
    }

    pub fn get_label(&self) -> (r: &String)
        ensures
            r@ == self@.label,
    {
        &self.label
    }

    pub fn get_energy(&self) -> (r: u8)
        ensures
            r == self@.energy,
    {
        self.energy
    }

    fn hungry(&self) -> (r: bool)
        ensures
            r == self@.hungry(),
    {
        self.energy < self.hungry_threshold
    }

    fn move_it(&mut self, dir: NekoDirs, map: &NystopiaMap)
        ensures
            (final(self)@.row, final(self)@.col)
                == moved(old(self)@.row, old(self)@.col, dir, map@.rows, map@.cols),
            final(self)@ == (BotModel { row: final(self)@.row, col: final(self)@.col, ..old(self)@ }),
    {
        match dir {
            NekoDirs::Here => {},
            NekoDirs::Up => self.row = if self.row == 0 { 0 } else { self.row - 1 },
            NekoDirs::Down => {
                if (self.row as u32) + 1 < map.get_rows() as u32 {
                    self.row = self.row + 1;
                }
            },
            NekoDirs::Left => self.col = if self.col == 0 { 0 } else { self.col - 1 },
            NekoDirs::Right => {
                if (self.col as u32) + 1 < map.get_cols() as u32 {
                    self.col = self.col + 1;
                }
            },
        }
    }

    /// The window of rows and columns in sight, clipped to the grid, with
    /// both ends included: `(left, right, top, bottom)`.
    pub fn sight_dims(&self, map: &NystopiaMap) -> (r: (u16, u16, u16, u16))
        requires
            self@.in_map(map@),
        ensures
            r.0 as int == if self@.col >= self@.sight { self@.col - self@.sight } else { 0 },
            r.1 as int == if self@.col + self@.sight < map@.cols { (self@.col + self@.sight) as int } else { map@.cols - 1 },
            r.2 as int == if self@.row >= self@.sight { self@.row - self@.sight } else { 0 },
            r.3 as int == if self@.row + self@.sight < map@.rows { (self@.row + self@.sight) as int } else { map@.rows - 1 },
    {
        let left = if self.col >= self.sight { self.col - self.sight } else { 0 };
        let right = if (self.col as u32) + (self.sight as u32) < map.get_cols() as u32 {
            self.col + self.sight
        } else {
            map.get_cols() - 1
        };
        let top = if self.row >= self.sight { self.row - self.sight } else { 0 };
        let bottom = if (self.row as u32) + (self.sight as u32) < map.get_rows() as u32 {
            self.row + self.sight
        } else {
            map.get_rows() - 1
        };
        (left, right, top, bottom)
    }

    /// Searches the bot's sight for the nearest food tile and returns it with
    /// its distance rounded down, or `None` when no food is in sight. Among
    /// tiles at the same distance, each later one in row order takes the place
    /// of the one found so far on a coin flip.
    pub fn nearest_food(&self, map: &NystopiaMap) -> (r: Option<(u16, u16, u16)>)
        requires
            map@.wf(),
            self@.in_map(map@),
        ensures
            self@.nearest_ok(map@, r),
    {
        let (left, right, top, bottom) = self.sight_dims(map);
        let ghost b = self@;
        let ghost m = map@;
        let mut best: Option<(u16, u16, u16)> = None;
        let mut row: u16 = top;
        proof {
            assert forall|r: int, c: int| #[trigger] b.sees_food(m, r, c) implies r >= top && left <= c <= right by {
                lemma_sight_window(b.row as int, b.col as int, r, c, b.sight as int);
            }
        }
        while row <= bottom
            invariant
                b == self@,
                m == map@,
                m.wf(),
                b.in_map(m),
                top <= row <= bottom + 1,
                bottom < m.rows,
                right < m.cols,
                left <= self.col <= right,
                top <= self.row <= bottom,
                left as int == if b.col >= b.sight { b.col - b.sight } else { 0 },
                right as int == if b.col + b.sight < m.cols { (b.col + b.sight) as int } else { m.cols - 1 },
                top as int == if b.row >= b.sight { b.row - b.sight } else { 0 },
                bottom as int == if b.row + b.sight < m.rows { (b.row + b.sight) as int } else { m.rows - 1 },
                best matches Some((fr, fc, d)) ==> b.sees_food(m, fr as int, fc as int)
                    && is_floor_sqrt(dist2(b.row as int, b.col as int, fr as int, fc as int), d as int),
                forall|r: int, c: int| #[trigger] b.sees_food(m, r, c) ==> r >= top && left <= c <= right,
                forall|r: int, c: int| #[trigger] b.sees_food(m, r, c) && r < row ==>
                    (best matches Some((fr, fc, d)) && d * d <= dist2(b.row as int, b.col as int, r, c)),
            decreases bottom + 1 - row,
        {
            let mut col: u16 = left;
            assert(m.cols <= u16::MAX);
            while col <= right
                invariant
                    b == self@,
                    m == map@,
                    m.wf(),
                    b.in_map(m),
                    top <= row <= bottom,
                    left <= col <= right + 1,
                    bottom < m.rows,
                    right < m.cols,
                    left as int == if b.col >= b.sight { b.col - b.sight } else { 0 },
                    right as int == if b.col + b.sight < m.cols { (b.col + b.sight) as int } else { m.cols - 1 },
                    top as int == if b.row >= b.sight { b.row - b.sight } else { 0 },
                    bottom as int == if b.row + b.sight < m.rows { (b.row + b.sight) as int } else { m.rows - 1 },
                    best matches Some((fr, fc, d)) ==> b.sees_food(m, fr as int, fc as int)
                        && is_floor_sqrt(dist2(b.row as int, b.col as int, fr as int, fc as int), d as int),
                    forall|r: int, c: int| #[trigger] b.sees_food(m, r, c) ==> r >= top && left <= c <= right,
                    forall|r: int, c: int| #[trigger] b.sees_food(m, r, c) && (r < row || (r == row && c < col)) ==>
                        (best matches Some((fr, fc, d)) && d * d <= dist2(b.row as int, b.col as int, r, c)),
                decreases right + 1 - col,
            {
                let tile = map.get_tile(row, col).unwrap();
                let n = self.dist2_to(row, col);
                let d = floor_sqrt(n as u128);
                proof {
                    lemma_floor_sqrt_bound(n as int, d as int, b.sight as int);
                }
                if d <= self.sight as u128 && tile.has_food_now() {
                    let d16 = d as u16;
                    let replace = match best {
                        None => true,
                        Some((_, _, bd)) => {
                            if d16 < bd {
                                true
                            } else if d16 == bd {
                                random_u64() % 2 == 1
                            } else {
                                false
                            }
                        },
                    };
                    proof {
                        if let Some((fr, fc, bd)) = best {
                            if !replace {
                                lemma_floor_sqrt_le(bd as int, d as int, n as int);
                            }
                        }
                    }
                    if replace {
                        proof {
                            assert forall|r: int, c: int| #[trigger] b.sees_food(m, r, c)
                                && (r < row || (r == row && c <= col)) implies
                                d * d <= dist2(b.row as int, b.col as int, r, c) by {
                                if r < row || (r == row && c < col) {
                                    let (fr, fc, bd) = best.unwrap();
                                    lemma_floor_sqrt_le(d as int, bd as int, dist2(b.row as int, b.col as int, r, c));
                                }
                            }
                        }
                        best = Some((row, col, d16));
                    }
                }
                col = col + 1;
            }
            proof {
                assert forall|r: int, c: int| #[trigger] b.sees_food(m, r, c) && r <= row implies
                    (best matches Some((fr, fc, d)) && d * d <= dist2(b.row as int, b.col as int, r, c)) by {
                    lemma_sight_window(b.row as int, b.col as int, r, c, b.sight as int);
                }
            }
            row = row + 1;
        }
        proof {
            assert forall|r: int, c: int| #[trigger] b.sees_food(m, r, c) implies
                (best matches Some((fr, fc, d)) && d * d <= dist2(b.row as int, b.col as int, r, c)) by {
                lemma_sight_window(b.row as int, b.col as int, r, c, b.sight as int);
            }
        }
        best
    }

    /// The direction that best closes in on food at `(fr, fc)`.
    fn best_dir_to(&self, fr: u16, fc: u16) -> (r: NekoDirs)
        ensures
            r == best_dir(self@.row as int, self@.col as int, fr as int, fc as int),
    {
        let dr = if fr < self.row { self.row - fr } else { fr - self.row };
        let dc = if fc < self.col { self.col - fc } else { fc - self.col };
        if dc < dr {
            if fr < self.row { NekoDirs::Up } else { NekoDirs::Down }
        } else {
            if fc < self.col { NekoDirs::Left } else { NekoDirs::Right }
        }
    }

    /// The squared distance from the bot to `(r, c)`.
    fn dist2_to(&self, r: u16, c: u16) -> (n: u64)
        ensures
            n == dist2(self@.row as int, self@.col as int, r as int, c as int),
            n <= 2 * 0xFFFF * 0xFFFF,
    {
        let dr: u64 = if r < self.row { (self.row - r) as u64 } else { (r - self.row) as u64 };
        let dc: u64 = if c < self.col { (self.col - c) as u64 } else { (c - self.col) as u64 };
        assert(dr * dr <= 0xFFFF * 0xFFFF && dc * dc <= 0xFFFF * 0xFFFF) by (nonlinear_arith)
            requires
                dr <= 0xFFFF,
                dc <= 0xFFFF,
        ;
        let n: u64 = dr * dr + dc * dc;
        assert(n == dist2(self@.row as int, self@.col as int, r as int, c as int)) by (nonlinear_arith)
            requires
                n == dr * dr + dc * dc,
                dr == if r < self@.row { self@.row - r } else { r - self@.row },
                dc == if c < self@.col { self@.col - c } else { c - self@.col },
        ;
        n
    }

    /// The weight of the move toward food at `(food_row, food_col)`: the food
    /// weight scaled by how far inside the sight the food lies, rounded half
    /// up, on top of the plain move weight.
    pub fn compute_food_move_score(&self, food_row: u16, food_col: u16) -> (r: u64)
        requires
            self@.wf(),
        ensures
            r == food_bonus(
                self@.see_food_move_score as int,
                self@.sight as int,
                dist2(self@.row as int, self@.col as int, food_row as int, food_col as int),
            ) + self@.move_score,
            self@.move_score <= r <= self@.see_food_move_score + self@.move_score,
    {
        let n = self.dist2_to(food_row, food_col);
        let ghost see_i = self@.see_food_move_score as int;
        let ghost s_i = self@.sight as int;
        proof {
            lemma_food_bonus(see_i, s_i, n as int);
        }
        let s = self.sight as u64;
        assert(s * s <= 0xFFFF * 0xFFFF) by (nonlinear_arith)
            requires
                s <= 0xFFFF,
        ;
        if self.sight == 0 || n >= s * s {
            proof {
                assert(rounds_bonus(see_i, s_i, n as int, 0));
                lemma_rounds_bonus_unique(see_i, s_i, n as int, 0, food_bonus(see_i, s_i, n as int));
            }
            return self.move_score;
        }
        let see = self.see_food_move_score as u128;
        let sight = self.sight as u128;
        assert(4 * see * see <= 4 * 0x100_0000_0000 * 0x100_0000_0000) by (nonlinear_arith)
            requires
                see < 0x100_0000_0000,
        ;
        assert(4 * see * see * (n as u128) < 0x10_0000_0000_0000_0000_0000_0000_0000) by (nonlinear_arith)
            requires
                4 * see * see <= 4 * 0x100_0000_0000 * 0x100_0000_0000,
                n <= 2 * 0xFFFF * 0xFFFF,
        ;
        let big = 4 * see * see * (n as u128);
        let c = ceil_sqrt(big);
        assert(big <= (2 * see * sight) * (2 * see * sight)) by (nonlinear_arith)
            requires
                big == 4 * see * see * n,
                n < sight * sight,
                see >= 0,
        ;
        assert(c <= 2 * see * sight) by (nonlinear_arith)
            requires
                big <= (2 * see * sight) * (2 * see * sight),
                c == 0 || (c - 1) * (c - 1) < big,
                c >= 0,
                see >= 0,
                sight > 0,
        {
            if c > 2 * see * sight {
                assert((2 * see * sight) * (2 * see * sight) <= (c - 1) * (c - 1));
            }
        }
        assert(2 * see * sight + sight <= 2 * 0x100_0000_0000 * 0x1_0000 + 0x1_0000) by (nonlinear_arith)
            requires
                see < 0x100_0000_0000,
                sight <= 0xFFFF,
        ;
        let top = 2 * see * sight + sight;
        let k = (top - c) / (2 * sight);
        proof {
            let r = (top - c) % (2 * sight);
            let hi = 2 * see_i * s_i - (2 * k - 1) * s_i;
            let lo = 2 * see_i * s_i - (2 * k + 1) * s_i;
            assert(top - c == 2 * sight * k + r && 0 <= r < 2 * sight) by (nonlinear_arith)
                requires
                    k == (top - c) / (2 * sight),
                    r == (top - c) % (2 * sight),
                    sight > 0,
            ;
            assert(hi == c + r && lo == c + r - 2 * sight) by (nonlinear_arith)
                requires
                    top == 2 * see * sight + sight,
                    top - c == 2 * sight * k + r,
                    hi == 2 * see_i * s_i - (2 * k - 1) * s_i,
                    lo == 2 * see_i * s_i - (2 * k + 1) * s_i,
                    see == see_i,
                    sight == s_i,
            ;
            lemma_square_le(c as int, hi);
            if lo >= 0 {
                lemma_square_le(lo, c - 1);
            }
            assert(big == 4 * see_i * see_i * n);
            assert(rounds_bonus(see_i, s_i, n as int, k as int));
            lemma_rounds_bonus_unique(see_i, s_i, n as int, k as int, food_bonus(see_i, s_i, n as int));
        }
        k as u64 + self.move_score
    }

    /// The weight of the move `dir`, given the outcome `found` of the
    /// nearest-food search.
    pub fn forage2(&self, map: &NystopiaMap, dir: NekoDirs, found: Option<(u16, u16, u16)>) -> (r: u64)
        requires
            self@.wf(),
            map@.wf(),
            self@.in_map(map@),
            self@.nearest_ok(map@, found),
        ensures
            r == self@.dir_score(map@, dir, found),
            r <= self@.see_food_move_score + self@.move_score,
            dir != NekoDirs::Here ==> self@.move_score <= r,
    {
        if !self.hungry() {
            return self.move_score;
        }
        if let NekoDirs::Here = dir {
            let tile = map.get_tile(self.row, self.col).unwrap();
            if tile.has_food_now() {
                return self.see_food_move_score;
            } else {
                return self.move_score;
            }
        }
        match found {
            None => self.move_score,
            Some((fr, fc, _)) => {
                if self.best_dir_to(fr, fc) == dir {
                    self.compute_food_move_score(fr, fc)
                } else {
                    self.move_score
                }
            },
        }
    }

    /// The five weights of the moves, in the order in which the draw walks
    /// them: Left, Down, Right, Up, Here.
    pub fn op_sense(&self, map: &NystopiaMap, found: Option<(u16, u16, u16)>) -> (r: Vec<u64>)
        requires
            self@.wf(),
            map@.wf(),
            self@.in_map(map@),
            self@.nearest_ok(map@, found),
        ensures
            r@ == self@.scores(map@, found),
            0 < weight_sum(r@) <= u64::MAX,
    {
        let mut membank: Vec<u64> = Vec::new();
        membank.push(self.forage2(map, NekoDirs::Left, found));
        membank.push(self.forage2(map, NekoDirs::Down, found));
        membank.push(self.forage2(map, NekoDirs::Right, found));
        membank.push(self.forage2(map, NekoDirs::Up, found));
        membank.push(self.forage2(map, NekoDirs::Here, found));
        proof {
            assert(membank@ =~= self@.scores(map@, found));
            reveal_with_fuel(weight_sum, 6);
        }
        membank
    }

    /// Eats at the bot's place if there is food there; energy grows by a
    /// meal's worth, up to the most that it can hold.
    fn eat(&mut self, map: &mut NystopiaMap) -> (r: bool)
        requires
            old(map)@.wf(),
        ensures
            r == old(map)@.food_at(old(self)@.row as int, old(self)@.col as int),
            r ==> final(map)@ == old(map)@.consumed(old(self)@.row as int, old(self)@.col as int),
            !r ==> final(map)@ == old(map)@,
            final(map)@.wf(),
            final(self)@ == (BotModel {
                energy: if r {
                    if old(self)@.energy + FOOD_ENERGY > u8::MAX { u8::MAX as nat } else { (old(self)@.energy + FOOD_ENERGY) as nat }
                } else {
                    old(self)@.energy
                },
                ..old(self)@
            }),
    {
        if map.consume(self.row, self.col) {
            self.energy = self.energy.saturating_add(FOOD_ENERGY);
            true
        } else {
            false
        }
    }

    /// One step with the outcomes of chance given: `found` from the
    /// nearest-food search and `draw` for the weighted choice of the move.
    pub fn step(&mut self, map: &mut NystopiaMap, found: Option<(u16, u16, u16)>, draw: u64)
        requires
            old(self)@.wf(),
            old(map)@.wf(),
            old(self)@.in_map(old(map)@),
            old(self)@.nearest_ok(old(map)@, found),
        ensures
            (final(self)@, final(map)@) == old(self)@.stepped(old(map)@, found, draw as int),
            final(self)@.wf(),
            final(map)@.wf(),
            final(self)@.in_map(final(map)@),
    {
        if self.energy == 0 {
            return;
        }
        let scores = self.op_sense(map, found);
        proof {
            reveal_with_fuel(weight_sum, 6);
        }
        let total: u64 = scores[0] + scores[1] + scores[2] + scores[3] + scores[4];
        let i = pick_weighted(&scores, draw % total);
        let dir = if i == 0 {
            NekoDirs::Left
        } else if i == 1 {
            NekoDirs::Down
        } else if i == 2 {
            NekoDirs::Right
        } else if i == 3 {
            NekoDirs::Up
        } else {
            NekoDirs::Here
        };
        let hungry = self.hungry();
        self.move_it(dir, map);
        if hungry {
            self.eat(map);
        }
        self.energy = self.energy - 1;
        self.state = state_for_energy(self.energy, self.hungry_threshold);
    }

    /// One simulation step: a dead bot does nothing; a live one searches its
    /// sight for food, weighs the five moves, draws one at random, moves, eats
    /// if hungry, and spends one unit of energy.
    pub fn tick(&mut self, map: &mut NystopiaMap)
        requires
            old(self)@.wf(),
            old(map)@.wf(),
            old(self)@.in_map(old(map)@),
        ensures
            old(self)@.energy == 0 ==> final(self)@ == old(self)@ && final(map)@ == old(map)@,
            old(self)@.energy > 0 ==> exists|found: Option<(u16, u16, u16)>, draw: u64|
                old(self)@.nearest_ok(old(map)@, found)
                    && (final(self)@, final(map)@) == #[trigger] old(self)@.stepped(old(map)@, found, draw as int),
            final(self)@.wf(),
            final(map)@.wf(),
            final(self)@.in_map(final(map)@),
    {
        if self.energy > 0 {
            let found = self.nearest_food(map);
            let draw = random_u64();
            self.step(map, found, draw);
        }
    }
}

} // verus!
