//! The board: a rectangle of cells that grows by one line on each side
//! where life touches its edge, and advances one generation at a time.
use vstd::prelude::*;
use crate::error::{LifeError, ShapeError};

verus! {

/// One side of the board.
#[derive(Debug, Clone, Copy, PartialEq, Eq, Structural)]
pub enum Direction {
    Top,
    Right,
    Bottom,
    Left,
}

/// A board of `h` rows of `w` cells each.
///
/// `actual_generation` holds the current generation; `next_generation` is a
/// buffer of the same shape that `generate_next` fills and then swaps in.
#[derive(Debug)]
pub struct CellMap {
    pub w: u32,
    pub h: u32,
    pub actual_generation: Vec<Vec<bool>>,
    pub next_generation: Vec<Vec<bool>>,
}

/// The rows of a matrix of vectors, as sequences.
pub open spec fn rows_view(v: Seq<Vec<bool>>) -> Seq<Seq<bool>> {
    v.map_values(|r: Vec<bool>| r@)
}

/// `g` has `h` rows of `w` cells each.
pub open spec fn is_rect(g: Seq<Seq<bool>>, w: int, h: int) -> bool {
    &&& g.len() == h
    &&& forall|i: int| 0 <= i < h ==> (#[trigger] g[i]).len() == w
}

/// A rectangle with at least one row and one column.
pub open spec fn is_board(g: Seq<Seq<bool>>) -> bool {
    g.len() >= 1 && g[0].len() >= 1 && is_rect(g, g[0].len() as int, g.len() as int)
}

/// The cell at row `i`, column `j`; cells outside the board are dead.
pub open spec fn cell_at(g: Seq<Seq<bool>>, i: int, j: int) -> bool {
    0 <= i < g.len() && 0 <= j < g[i].len() && g[i][j]
}

pub open spec fn row_alive(r: Seq<bool>) -> bool {
    exists|j: int| 0 <= j < r.len() && r[j]
}

pub open spec fn col_alive(g: Seq<Seq<bool>>, j: int) -> bool {
    exists|i: int| 0 <= i < g.len() && cell_at(g, i, j)
}

pub open spec fn b2i(b: bool) -> int {
    if b {
        1
    } else {
        0
    }
}

/// `g` with one dead line added outside each side that is asked for.
pub open spec fn grow(
    g: Seq<Seq<bool>>,
    w: int,
    h: int,
    top: bool,
    bottom: bool,
    left: bool,
    right: bool,
) -> Seq<Seq<bool>> {
    Seq::new(
        (h + b2i(top) + b2i(bottom)) as nat,
        |i: int|
            Seq::new((w + b2i(left) + b2i(right)) as nat, |j: int| cell_at(g, i - b2i(top), j - b2i(left))),
    )
}

/// The number of live cells among the eight around row `i`, column `j`.
pub open spec fn neighbors(g: Seq<Seq<bool>>, i: int, j: int) -> int {
    b2i(cell_at(g, i - 1, j - 1)) + b2i(cell_at(g, i - 1, j)) + b2i(cell_at(g, i - 1, j + 1))
        + b2i(cell_at(g, i, j - 1)) + b2i(cell_at(g, i, j + 1)) + b2i(cell_at(g, i + 1, j - 1))
        + b2i(cell_at(g, i + 1, j)) + b2i(cell_at(g, i + 1, j + 1))
}

/// Birth with three neighbours, survival with two or three.
pub open spec fn rule(alive: bool, n: int) -> bool {
    if alive {
        n == 2 || n == 3
    } else {
        n == 3
    }
}

/// One generation of every cell of `g`, computed in place.
pub open spec fn transition(g: Seq<Seq<bool>>) -> Seq<Seq<bool>> {
    Seq::new(
        g.len(),
        |i: int| Seq::new(g[i].len(), |j: int| rule(g[i][j], neighbors(g, i, j))),
    )
}

/// The board grown where life touches an edge.
pub open spec fn grown(g: Seq<Seq<bool>>) -> Seq<Seq<bool>> {
    let h = g.len() as int;
    let w = g[0].len() as int;
    grow(g, w, h, row_alive(g[0]), row_alive(g[h - 1]), col_alive(g, 0), col_alive(g, w - 1))
}

/// The next generation of the board `g`.
pub open spec fn life_step(g: Seq<Seq<bool>>) -> Seq<Seq<bool>> {
    transition(grown(g))
}

/// The index of the first `true` of `s`, or its length when there is none.
pub open spec fn first_true(s: Seq<bool>) -> nat
    decreases s.len(),
{
    if s.len() == 0 {
        0
    } else if s[0] {
        0
    } else {
        1 + first_true(s.drop_first())
    }
}

/// The index of the last `true` of `s`, or -1 when there is none.
pub open spec fn last_true(s: Seq<bool>) -> int
    decreases s.len(),
{
    if s.len() == 0 {
        -1
    } else if s.last() {
        s.len() - 1
    } else {
        last_true(s.drop_last())
    }
}

/// For each row of `g`, whether it holds a live cell.
pub open spec fn alive_rows(g: Seq<Seq<bool>>) -> Seq<bool> {
    Seq::new(g.len(), |i: int| row_alive(g[i]))
}

/// For each of the `w` columns of `g`, whether it holds a live cell.
pub open spec fn alive_cols(g: Seq<Seq<bool>>, w: nat) -> Seq<bool> {
    Seq::new(w, |j: int| col_alive(g, j))
}

/// The smallest rectangle of `g` that holds every live cell; a single dead
/// cell when no cell of `g` is alive.
pub open spec fn crop(g: Seq<Seq<bool>>) -> Seq<Seq<bool>> {
    let rows = alive_rows(g);
    let cols = alive_cols(g, g[0].len());
    let sy = first_true(rows) as int;
    let ey = last_true(rows);
    let sx = first_true(cols) as int;
    let ex = last_true(cols);
    if sy == g.len() {
        seq![seq![false]]
    } else {
        Seq::new((ey - sy + 1) as nat, |i: int| Seq::new((ex - sx + 1) as nat, |j: int| g[sy + i][sx + j]))
    }
}

pub proof fn lemma_first_true(s: Seq<bool>)
    ensures
        first_true(s) <= s.len(),
        first_true(s) < s.len() ==> s[first_true(s) as int],
        forall|k: int| 0 <= k < first_true(s) ==> !s[k],
        first_true(s) == s.len() <==> forall|k: int| 0 <= k < s.len() ==> !s[k],
    decreases s.len(),
{
    if s.len() > 0 && !s[0] {
        lemma_first_true(s.drop_first());
        assert forall|k: int| 0 <= k < first_true(s) implies !s[k] by {
            if k > 0 {
                assert(s[k] == s.drop_first()[k - 1]);
            }
        }
        if first_true(s) == s.len() {
            assert forall|k: int| 0 <= k < s.len() implies !s[k] by {
                if k > 0 {
                    assert(s[k] == s.drop_first()[k - 1]);
                }
            }
        }
        if forall|k: int| 0 <= k < s.len() ==> !s[k] {
            assert forall|k: int| 0 <= k < s.drop_first().len() implies !s.drop_first()[k] by {
                assert(s[k + 1] == s.drop_first()[k]);
            }
        }
    }
}

pub proof fn lemma_last_true(s: Seq<bool>)
    ensures
        -1 <= last_true(s) < s.len(),
        last_true(s) >= 0 ==> s[last_true(s)],
        forall|k: int| last_true(s) < k < s.len() ==> !s[k],
        last_true(s) >= first_true(s) || (last_true(s) == -1 && first_true(s) == s.len()),
    decreases s.len(),
{
    lemma_first_true(s);
    if s.len() > 0 && !s.last() {
        lemma_last_true(s.drop_last());
        lemma_first_true(s.drop_last());
        assert forall|k: int| 0 <= k < s.len() - 1 implies s[k] == s.drop_last()[k] by {}
        if last_true(s) == -1 {
            assert forall|k: int| 0 <= k < s.len() implies !s[k] by {
                if k < s.len() - 1 {
                    assert(s[k] == s.drop_last()[k]);
                }
            }
        }
    }
}

/// `first_true` is the first index that holds `true`.
proof fn lemma_first_true_at(s: Seq<bool>, r: int)
    requires
        0 <= r <= s.len(),
        r < s.len() ==> s[r],
        forall|k: int| 0 <= k < r ==> !s[k],
    ensures
        first_true(s) == r,
{
    lemma_first_true(s);
}

/// `last_true` is the last index that holds `true`.
proof fn lemma_last_true_at(s: Seq<bool>, r: int)
    requires
        -1 <= r < s.len(),
        r >= 0 ==> s[r],
        forall|k: int| r < k < s.len() ==> !s[k],
    ensures
        last_true(s) == r,
{
    lemma_last_true(s);
}

/// Cropping a board that has been cropped changes nothing: the result of
/// `crop` has a live cell on each of its four edges (or is one dead cell).
pub proof fn lemma_crop_idempotent(g: Seq<Seq<bool>>)
    requires
        is_board(g),
    ensures
        is_board(crop(g)),
        crop(g).len() <= g.len(),
        crop(g)[0].len() <= g[0].len(),
        crop(crop(g)) == crop(g),
{
    let rows = alive_rows(g);
    let w = g[0].len();
    let cols = alive_cols(g, w);
    lemma_first_true(rows);
    lemma_last_true(rows);
    lemma_first_true(cols);
    lemma_last_true(cols);
    let sy = first_true(rows) as int;
    let c = crop(g);
    if sy == g.len() {
        let one = seq![false];
        assert(alive_rows(c) =~= one);
        assert(first_true(one.drop_first()) == 0);
        assert(first_true(alive_rows(c)) == 1);
    } else {
        let ey = last_true(rows);
        let sx = first_true(cols) as int;
        let ex = last_true(cols);
        // every live cell lies inside the rectangle
        assert forall|i: int, j: int| 0 <= i < g.len() && 0 <= j < w && g[i][j] implies sy <= i
            <= ey && sx <= j <= ex by {
            assert(rows[i]);
            assert(cell_at(g, i, j));
            assert(cols[j]);
        }
        let j0 = choose|j: int| 0 <= j < g[sy].len() && g[sy][j];
        let j1 = choose|j: int| 0 <= j < g[ey].len() && g[ey][j];
        let i0 = choose|i: int| 0 <= i < g.len() && cell_at(g, i, sx);
        let i1 = choose|i: int| 0 <= i < g.len() && cell_at(g, i, ex);
        assert(c[0][j0 - sx]);
        assert(c[ey - sy][j1 - sx]);
        assert(c[i0 - sy][0]);
        assert(c[i1 - sy][ex - sx]);
        let cw = (ex - sx + 1) as nat;
        let crows = alive_rows(c);
        let ccols = alive_cols(c, cw);
        assert(is_board(c));
        assert(crows[0]);
        assert(crows[ey - sy]);
        assert(cell_at(c, i0 - sy, 0));
        assert(ccols[0]);
        assert(cell_at(c, i1 - sy, ex - sx));
        assert(ccols[ex - sx]);
        lemma_first_true_at(crows, 0);
        lemma_last_true_at(crows, ey - sy);
        lemma_first_true_at(ccols, 0);
        lemma_last_true_at(ccols, ex - sx);
        assert(c[0].len() == cw);
        assert(first_true(alive_rows(c)) == 0);
        assert(crop(c).len() == c.len());
        assert forall|i: int| 0 <= i < c.len() implies #[trigger] crop(c)[i] =~= c[i] by {}
        assert(crop(c) =~= c);
    }
}

/// Stepping depends on the current generation alone: two boards that hold
/// the same cells (whatever their spare buffers hold) step to the same cells.
pub proof fn lemma_step_deterministic(a: CellMap, b: CellMap)
    requires
        a.wf(),
        b.wf(),
        a@ == b@,
    ensures
        life_step(a@) == life_step(b@),
        a.w == b.w && a.h == b.h,
{
    assert(a@.len() == a.h && b@.len() == b.h);
    assert(a@[0].len() == a.w && b@[0].len() == b.w);
}

impl View for CellMap {
    type V = Seq<Seq<bool>>;

    open spec fn view(&self) -> Seq<Seq<bool>> {
        rows_view(self.actual_generation@)
    }
}

impl CellMap {
    /// Both buffers are `h` rows of `w` cells, and neither size is zero.
    pub open spec fn wf(&self) -> bool {
        &&& self.w >= 1
        &&& self.h >= 1
        &&& self.actual_generation@.len() == self.h
        &&& self.next_generation@.len() == self.h
        &&& forall|i: int|
            0 <= i < self.h ==> (#[trigger] self.actual_generation@[i])@.len() == self.w
                && self.next_generation@[i]@.len() == self.w
    }

    /// The spare buffer holds only dead cells.
    pub open spec fn spare_dead(&self) -> bool {
        forall|i: int|
            0 <= i < self.next_generation@.len() ==> (#[trigger] self.next_generation@[i])@ == Seq::new(
                self.w as nat,
                |j: int| false,
            )
    }

    /// A board whose current generation is `source`.
    ///
    /// Fails on a matrix without rows or cells, on rows of unequal length,
    /// and on sizes past `u32::MAX`.
    pub fn new(source: Vec<Vec<bool>>) -> (r: Result<CellMap, LifeError>)
        ensures
            r is Ok <==> is_board(rows_view(source@)) && source@.len() <= u32::MAX && source@[0]@.len()
                <= u32::MAX,
            r matches Ok(c) ==> c.wf() && c.spare_dead() && c@ == rows_view(source@),
            r matches Err(e) ==> e == LifeError::InvalidShape(
                if source@.len() == 0 || source@[0]@.len() == 0 {
                    ShapeError::Empty
                } else if !is_board(rows_view(source@)) {
                    ShapeError::Ragged
                } else {
                    ShapeError::TooLarge
                },
            ),
    {
        let col_size = source.len();
        if col_size == 0 {
            return Err(LifeError::InvalidShape(ShapeError::Empty));
        }
        let row_size = source[0].len();
        if row_size == 0 {
            return Err(LifeError::InvalidShape(ShapeError::Empty));
        }
        let mut k: usize = 0;
        while k < col_size
            invariant
                col_size == source@.len(),
                row_size == source@[0]@.len(),
                row_size > 0,
                0 <= k <= col_size,
                forall|i: int| 0 <= i < k ==> (#[trigger] source@[i])@.len() == row_size,
            decreases col_size - k,
        {
            if source[k].len() != row_size {
                let ghost g = rows_view(source@);
                assert(g[k as int] == source@[k as int]@);
                assert(g[0] == source@[0]@);
                assert(g[k as int].len() != g[0].len());
                return Err(LifeError::InvalidShape(ShapeError::Ragged));
            }
            k += 1;
        }
        assert(is_rect(rows_view(source@), row_size as int, col_size as int));
        if col_size > 0xffff_ffff || row_size > 0xffff_ffff {
            return Err(LifeError::InvalidShape(ShapeError::TooLarge));
        }
        let next_generation = dead_rows(row_size, col_size);
        let c = CellMap {
            w: row_size as u32,
            h: col_size as u32,
            actual_generation: source,
            next_generation,
        };
        Ok(c)
    }
}

impl CellMap {
    /// Adds one dead line outside each side that `all_d` names.
    pub fn expand(&mut self, all_d: &Vec<Direction>)
        requires
            old(self).wf(),
            old(self).w + 2 <= u32::MAX,
            old(self).h + 2 <= u32::MAX,
        ensures
            final(self).wf(),
            final(self)@ == grow(
                old(self)@,
                old(self).w as int,
                old(self).h as int,
                all_d@.contains(Direction::Top),
                all_d@.contains(Direction::Bottom),
                all_d@.contains(Direction::Left),
                all_d@.contains(Direction::Right),
            ),
            final(self).w == old(self).w + b2i(all_d@.contains(Direction::Left)) + b2i(
                all_d@.contains(Direction::Right),
            ),
            final(self).h == old(self).h + b2i(all_d@.contains(Direction::Top)) + b2i(
                all_d@.contains(Direction::Bottom),
            ),
    {
        let ghost g = self@;
        let top = has_direction(all_d, Direction::Top);
        let bottom = has_direction(all_d, Direction::Bottom);
        let left = has_direction(all_d, Direction::Left);
        let right = has_direction(all_d, Direction::Right);
        let w = self.w as usize;
        if top {
            self.actual_generation.insert(0, dead_row(w));
            self.next_generation.insert(0, dead_row(w));
            self.h = self.h + 1;
        }
        if bottom {
            self.actual_generation.push(dead_row(w));
            self.next_generation.push(dead_row(w));
            self.h = self.h + 1;
        }
        let ghost mid = self@;
        let ghost t = b2i(top);
        assert forall|k: int, j: int| 0 <= k < mid.len() && 0 <= j < w implies mid[k].len() == w
            && #[trigger] mid[k][j] == cell_at(g, k - t, j) by {
            if top && k == 0 {
            } else if bottom && k == mid.len() - 1 {
            } else {
                assert(mid[k] == g[k - t]);
            }
        }
        let ghost l = b2i(left);
        let ghost nw: int = w + l + b2i(right);
        let n = self.actual_generation.len();
        assert(n == mid.len());
        assert forall|k: int| 0 <= k < n implies (#[trigger] self.next_generation@[k])@.len() == w
            && mid[k].len() == w by {
            if top && k == 0 {
                assert(self.next_generation@[k]@.len() == w);
            } else if bottom && k == mid.len() - 1 {
                assert(self.next_generation@[k]@.len() == w);
            } else {
                assert(mid[k] == g[k - t]);
                assert(old(self).next_generation@[k - t]@.len() == w);
                assert(self.next_generation@[k] == old(self).next_generation@[k - t]);
            }
        }
        let mut i: usize = 0;
        while i < n
            invariant
                0 <= i <= n,
                self.w == w,
                w + 2 <= u32::MAX,
                n == mid.len(),
                n == self.h,
                self.h >= 1,
                self.actual_generation@.len() == n,
                self.next_generation@.len() == n,
                l == b2i(left),
                nw == w + l + b2i(right),
                forall|k: int, j: int|
                    0 <= k < n && 0 <= j < w ==> mid[k].len() == w && #[trigger] mid[k][j]
                        == cell_at(g, k - t, j),
                forall|k: int| 0 <= k < i ==> (#[trigger] self.actual_generation@[k])@ =~= Seq::new(
                    nw as nat,
                    |j: int| 0 <= j - l < w && mid[k][j - l],
                ),
                forall|k: int| 0 <= k < i ==> (#[trigger] self.next_generation@[k])@.len() == nw,
                forall|k: int| i <= k < n ==> (#[trigger] self.actual_generation@[k])@ == mid[k],
                forall|k: int|
                    i <= k < n ==> (#[trigger] self.next_generation@[k])@.len() == w && mid[k].len()
                        == w,
            decreases n - i,
        {
            assert(self.actual_generation@[i as int]@ == mid[i as int]);
            assert(self.next_generation@[i as int]@.len() == w);
            let ghost nx = self.next_generation@;
            if right {
                self.actual_generation[i].push(false);
                self.next_generation[i].push(false);
            }
            if left {
                self.actual_generation[i].insert(0, false);
                self.next_generation[i].insert(0, false);
            }
            assert(self.actual_generation@[i as int]@ =~= Seq::new(
                nw as nat,
                |j: int| 0 <= j - l < w && mid[i as int][j - l],
            ));
            assert forall|k: int| i < k < n implies (#[trigger] self.next_generation@[k])@.len() == w by {
                assert(nx[k]@.len() == w);
                assert(self.next_generation@[k] == nx[k]);
            }
            i += 1;
        }
        if left {
            self.w = self.w + 1;
        }
        if right {
            self.w = self.w + 1;
        }
        let ghost gr = grow(g, g[0].len() as int, g.len() as int, top, bottom, left, right);
        assert(self@ =~= gr) by {
            assert forall|k: int| 0 <= k < n implies #[trigger] self@[k] =~= gr[k] by {
                assert forall|j: int| 0 <= j < nw implies #[trigger] self@[k][j] == gr[k][j] by {
                    if 0 <= j - l < w {
                        assert(mid[k][j - l] == cell_at(g, k - t, j - l));
                    }
                }
            }
        }
    }

    /// Advances the board by one generation: first grows it where life
    /// touches an edge, then applies the rule to every cell into the spare
    /// buffer, and finally swaps the two buffers.
    pub fn generate_next(&mut self)
        requires
            old(self).wf(),
            old(self).w + 2 <= u32::MAX,
            old(self).h + 2 <= u32::MAX,
        ensures
            final(self).wf(),
            final(self)@ == life_step(old(self)@),
    {
        let ghost g = self@;
        let w0 = self.w as usize;
        let last = self.actual_generation.len() - 1;
        let top = row_has_alive(&self.actual_generation[0]);
        let bottom = row_has_alive(&self.actual_generation[last]);
        let left = column_has_alive(&self.actual_generation, 0);
        let right = column_has_alive(&self.actual_generation, w0 - 1);
        let mut all_directions: Vec<Direction> = Vec::new();
        push_if(&mut all_directions, top, Direction::Top);
        push_if(&mut all_directions, bottom, Direction::Bottom);
        push_if(&mut all_directions, left, Direction::Left);
        push_if(&mut all_directions, right, Direction::Right);
        self.expand(&all_directions);
        assert(self@ == grown(g));
        let ghost e = self@;
        let h = self.actual_generation.len();
        let w = self.w as usize;
        let mut i: usize = 0;
        while i < h
            invariant
                0 <= i <= h,
                self.wf(),
                self@ == e,
                h == self.h,
                w == self.w,
                forall|k: int| 0 <= k < i ==> (#[trigger] self.next_generation@[k])@ == transition(e)[k],
            decreases h - i,
        {
            let mut j: usize = 0;
            while j < w
                invariant
                    0 <= i < h,
                    0 <= j <= w,
                    self.wf(),
                    self@ == e,
                    h == self.h,
                    w == self.w,
                    forall|k: int| 0 <= k < i ==> (#[trigger] self.next_generation@[k])@ == transition(e)[k],
                    forall|jj: int|
                        0 <= jj < j ==> #[trigger] self.next_generation@[i as int]@[jj] == transition(
                            e,
                        )[i as int][jj],
                decreases w - j,
            {
                let n = count_neighbors(&self.actual_generation, i, j);
                let alive = self.actual_generation[i][j];
                let v = if alive {
                    n == 2 || n == 3
                } else {
                    n == 3
                };
                self.next_generation[i][j] = v;
                j += 1;
            }
            assert(self.next_generation@[i as int]@ =~= transition(e)[i as int]);
            i += 1;
        }
        std::mem::swap(&mut self.actual_generation, &mut self.next_generation);
        assert(self@ =~= transition(e));
    }
}

impl CellMap {
    /// A new board holding the smallest rectangle of this one that contains
    /// every live cell; a single dead cell when no cell is alive. This board
    /// is left as it is.
    #[verifier::rlimit(50)]
    pub fn auto_crop(&self) -> (r: CellMap)
        requires
            self.wf(),
        ensures
            r.wf(),
            r.spare_dead(),
            r@ == crop(self@),
    {
        let ghost g = self@;
        let h = self.actual_generation.len();
        let w = self.w as usize;
        assert(forall|i: int| 0 <= i < h ==> (#[trigger] self.actual_generation@[i])@ == g[i]);
        let mut rows: Vec<bool> = Vec::new();
        let mut cols: Vec<bool> = dead_row(w);
        let mut i: usize = 0;
        while i < h
            invariant
                0 <= i <= h,
                h == g.len(),
                self.wf(),
                w == self.w,
                g == self@,
                rows@ == alive_rows(g).subrange(0, i as int),
                cols@.len() == w,
                forall|j: int|
                    0 <= j < w ==> #[trigger] cols@[j] == exists|k: int| 0 <= k < i && g[k][j],
            decreases h - i,
        {
            assert(self.actual_generation@[i as int]@ == g[i as int]);
            rows.push(row_has_alive(&self.actual_generation[i]));
            let mut j: usize = 0;
            while j < w
                invariant
                    0 <= i < h,
                    0 <= j <= w,
                    h == g.len(),
                    self.wf(),
                    w == self.w,
                    g == self@,
                    cols@.len() == w,
                    forall|jj: int|
                        0 <= jj < j ==> #[trigger] cols@[jj] == exists|k: int| 0 <= k <= i && g[k][jj],
                    forall|jj: int|
                        j <= jj < w ==> #[trigger] cols@[jj] == exists|k: int| 0 <= k < i && g[k][jj],
                decreases w - j,
            {
                assert(self.actual_generation@[i as int]@ == g[i as int]);
                if self.actual_generation[i][j] {
                    cols.set(j, true);
                }
                assert(cols@[j as int] == exists|k: int| 0 <= k <= i && g[k][j as int]) by {
                    if cols@[j as int] && !self.actual_generation@[i as int]@[j as int] {
                        let k = choose|k: int| 0 <= k < i && g[k][j as int];
                        assert(0 <= k <= i && g[k][j as int]);
                    }
                }
                j += 1;
            }
            assert(rows@ =~= alive_rows(g).subrange(0, i + 1));
            i += 1;
        }
        assert(rows@ =~= alive_rows(g));
        assert forall|j: int| 0 <= j < w implies #[trigger] cols@[j] == alive_cols(g, w as nat)[j] by {
            if cols@[j] {
                let k = choose|k: int| 0 <= k < h && g[k][j];
                assert(cell_at(g, k, j));
            }
            if col_alive(g, j) {
                let k = choose|k: int| 0 <= k < g.len() && cell_at(g, k, j);
                assert(g[k][j]);
            }
        }
        assert(cols@ =~= alive_cols(g, w as nat));
        let sy = first_index(&rows);
        if sy == h {
            let mut line: Vec<bool> = Vec::new();
            line.push(false);
            let mut actual_generation: Vec<Vec<bool>> = Vec::new();
            actual_generation.push(line);
            let c = CellMap { w: 1, h: 1, actual_generation, next_generation: dead_rows(1, 1) };
            assert(c@ =~= seq![seq![false]]);
            return c;
        }
        proof {
            lemma_first_true(rows@);
            lemma_first_true(cols@);
            let y = sy as int;
            assert(rows@[y]);
            let j = choose|j: int| 0 <= j < g[y].len() && g[y][j];
            assert(cell_at(g, y, j));
            assert(cols@[j]);
        }
        let ey = last_index(&rows);
        let sx = first_index(&cols);
        let ex = last_index(&cols);
        proof {
            lemma_last_true(rows@);
            lemma_last_true(cols@);
        }
        assert(g[0].len() == w);
        let nw = ex - sx + 1;
        let nh = ey - sy + 1;
        let mut actual_generation: Vec<Vec<bool>> = Vec::new();
        let mut y: usize = sy;
        while y <= ey
            invariant
                sy <= y <= ey + 1,
                ey < h,
                sx <= ex < w,
                nw == ex - sx + 1,
                h == g.len(),
                self.wf(),
                w == self.w,
                g == self@,
                actual_generation@.len() == y - sy,
                g[0].len() == w,
                sy < h,
                sy == first_true(alive_rows(g)),
                ey == last_true(alive_rows(g)),
                sx == first_true(alive_cols(g, w as nat)),
                ex == last_true(alive_cols(g, w as nat)),
                forall|k: int|
                    0 <= k < y - sy ==> (#[trigger] actual_generation@[k])@ == crop(g)[k],
            decreases ey + 1 - y,
        {
            assert(self.actual_generation@[y as int]@ == g[y as int]);
            let mut line: Vec<bool> = Vec::new();
            let mut x: usize = sx;
            while x <= ex
                invariant
                    sy <= y <= ey,
                    ey < h,
                    sx <= x <= ex + 1,
                    ex < w,
                    h == g.len(),
                    self.wf(),
                    w == self.w,
                    g == self@,
                    line@ == g[y as int].subrange(sx as int, x as int),
                decreases ex + 1 - x,
            {
                assert(self.actual_generation@[y as int]@ == g[y as int]);
                line.push(self.actual_generation[y][x]);
                assert(line@ =~= g[y as int].subrange(sx as int, x + 1));
                x += 1;
            }
            assert(line@ =~= crop(g)[y - sy]);
            actual_generation.push(line);
            y += 1;
        }
        let c = CellMap {
            w: nw as u32,
            h: nh as u32,
            actual_generation,
            next_generation: dead_rows(nw, nh),
        };
        assert(c@ =~= crop(g));
        c
    }
}

/// The index of the first `true` of `s`, or its length.
fn first_index(s: &Vec<bool>) -> (r: usize)
    ensures
        r == first_true(s@),
{
    let mut i: usize = 0;
    while i < s.len()
        invariant
            0 <= i <= s@.len(),
            forall|k: int| 0 <= k < i ==> !s@[k],
        decreases s@.len() - i,
    {
        if s[i] {
            proof {
                lemma_first_true_at(s@, i as int);
            }
            return i;
        }
        i += 1;
    }
    proof {
        lemma_first_true_at(s@, i as int);
    }
    i
}

/// The index of the last `true` of `s`, which holds one.
fn last_index(s: &Vec<bool>) -> (r: usize)
    requires
        exists|k: int| 0 <= k < s@.len() && s@[k],
    ensures
        r == last_true(s@),
{
    let mut i: usize = s.len();
    while i > 0
        invariant
            0 <= i <= s@.len(),
            forall|k: int| i <= k < s@.len() ==> !s@[k],
            exists|k: int| 0 <= k < s@.len() && s@[k],
        decreases i,
    {
        if s[i - 1] {
            proof {
                lemma_last_true_at(s@, i - 1);
            }
            return i - 1;
        }
        i -= 1;
    }
    i
}

/// Adds `d` to the sides in `v` when `cond` holds.
fn push_if(v: &mut Vec<Direction>, cond: bool, d: Direction)
    ensures
        forall|x: Direction| #[trigger] final(v)@.contains(x) == (old(v)@.contains(x) || (cond && x == d)),
{
    if cond {
        v.push(d);
        assert forall|x: Direction| #[trigger] v@.contains(x) == (old(v)@.contains(x) || x == d) by {
            if old(v)@.contains(x) {
                let k = choose|k: int| 0 <= k < old(v)@.len() && old(v)@[k] == x;
                assert(v@[k] == x);
            }
            if x == d {
                assert(v@[old(v)@.len() as int] == d);
            }
            if v@.contains(x) {
                let k = choose|k: int| 0 <= k < v@.len() && v@[k] == x;
                if k < old(v)@.len() {
                    assert(old(v)@[k] == x);
                }
            }
        }
    }
}

/// Whether `all_d` names the side `d`.
fn has_direction(all_d: &Vec<Direction>, d: Direction) -> (r: bool)
    ensures
        r == all_d@.contains(d),
{
    let mut i: usize = 0;
    while i < all_d.len()
        invariant
            0 <= i <= all_d@.len(),
            forall|k: int| 0 <= k < i ==> all_d@[k] != d,
        decreases all_d@.len() - i,
    {
        if all_d[i] == d {
            return true;
        }
        i += 1;
    }
    false
}

fn row_has_alive(r: &Vec<bool>) -> (b: bool)
    ensures
        b == row_alive(r@),
{
    let mut j: usize = 0;
    while j < r.len()
        invariant
            0 <= j <= r@.len(),
            forall|k: int| 0 <= k < j ==> !r@[k],
        decreases r@.len() - j,
    {
        if r[j] {
            return true;
        }
        j += 1;
    }
    false
}

fn column_has_alive(g: &Vec<Vec<bool>>, j: usize) -> (b: bool)
    requires
        forall|i: int| 0 <= i < g@.len() ==> j < (#[trigger] g@[i])@.len(),
    ensures
        b == col_alive(rows_view(g@), j as int),
{
    let mut i: usize = 0;
    while i < g.len()
        invariant
            0 <= i <= g@.len(),
            forall|k: int| 0 <= k < g@.len() ==> j < (#[trigger] g@[k])@.len(),
            forall|k: int| 0 <= k < i ==> !cell_at(rows_view(g@), k, j as int),
        decreases g@.len() - i,
    {
        if g[i][j] {
            assert(cell_at(rows_view(g@), i as int, j as int));
            return true;
        }
        i += 1;
    }
    false
}

/// The number of live neighbours of row `i`, column `j`.
fn count_neighbors(g: &Vec<Vec<bool>>, i: usize, j: usize) -> (n: u8)
    requires
        is_board(rows_view(g@)),
        i < g@.len(),
        j < g@[0]@.len(),
    ensures
        n == neighbors(rows_view(g@), i as int, j as int),
{
    let ghost v = rows_view(g@);
    assert(forall|k: int| 0 <= k < g@.len() ==> (#[trigger] g@[k])@ == v[k]);
    let h = g.len();
    let w = g[0].len();
    let up = i > 0;
    let down = i + 1 < h;
    let lf = j > 0;
    let rt = j + 1 < w;
    let mut n: u8 = 0;
    if up && lf && g[i - 1][j - 1] {
        n += 1;
    }
    if up && g[i - 1][j] {
        n += 1;
    }
    if up && rt && g[i - 1][j + 1] {
        n += 1;
    }
    if lf && g[i][j - 1] {
        n += 1;
    }
    if rt && g[i][j + 1] {
        n += 1;
    }
    if down && lf && g[i + 1][j - 1] {
        n += 1;
    }
    if down && g[i + 1][j] {
        n += 1;
    }
    if down && rt && g[i + 1][j + 1] {
        n += 1;
    }
    n
}

/// `h` rows of `w` dead cells.
fn dead_rows(w: usize, h: usize) -> (r: Vec<Vec<bool>>)
    ensures
        r@.len() == h,
        forall|i: int| 0 <= i < h ==> (#[trigger] r@[i])@ == Seq::new(w as nat, |j: int| false),
{
    let mut r: Vec<Vec<bool>> = Vec::new();
    let mut k: usize = 0;
    while k < h
        invariant
            0 <= k <= h,
            r@.len() == k,
            forall|i: int| 0 <= i < k ==> (#[trigger] r@[i])@ == Seq::new(w as nat, |j: int| false),
        decreases h - k,
    {
        r.push(dead_row(w));
        k += 1;
    }
    r
}

/// A row of `w` dead cells.
fn dead_row(w: usize) -> (r: Vec<bool>)
    ensures
        r@ == Seq::new(w as nat, |j: int| false),
{
    let mut r: Vec<bool> = Vec::new();
    let mut k: usize = 0;
    while k < w
        invariant
            0 <= k <= w,
            r@ == Seq::new(k as nat, |j: int| false),
        decreases w - k,
    {
        r.push(false);
        k += 1;
        assert(r@ =~= Seq::new(k as nat, |j: int| false));
    }
    r
}

} // verus!
