use itertools::Itertools;
use vstd::prelude::*;
use vstd::string::StrSliceExecFns;

verus! {

/// Number of columns of the grid.
pub const WIDTH: usize = 7;

/// Number of rows of the grid.
pub const HEIGHT: usize = 9;

/// Number of cells of the grid.
pub const CELLS: usize = 63;

/// The content of one cell: one of four colors, or nothing.
#[derive(Debug, Clone, Copy, PartialEq, Eq, Structural)]
pub enum Point {
    Orange,
    Pink,
    Blue,
    Green,
    Empty,
}

/// A cell position: column `x`, row `y` (row 0 is the top).
#[derive(Debug, Clone, Copy, PartialEq, Eq, Hash, Structural)]
pub struct Coordinate {
    pub x: usize,
    pub y: usize,
}

impl Coordinate {
    pub open spec fn pos(self) -> (int, int) {
        (self.x as int, self.y as int)
    }
}

/// A grid state (column-major cells) and the moves applied to reach it.
#[derive(Clone)]
pub struct Board {
    pub data: Vec<Point>,
    pub moves: Vec<Coordinate>,
}

#[derive(Debug, Clone, Copy, PartialEq, Eq, Structural)]
pub enum BoardError {
    InvalidBoardStringLength,
    InvalidMove,
}

pub open spec fn in_bounds(c: (int, int)) -> bool {
    0 <= c.0 < WIDTH && 0 <= c.1 < HEIGHT
}

/// Position of a cell in the column-major cell sequence.
pub open spec fn cell_index(c: (int, int)) -> int {
    c.0 * HEIGHT + c.1
}

pub open spec fn cell_at(cells: Seq<Point>, c: (int, int)) -> Point {
    cells[cell_index(c)]
}

/// Two distinct cells that share a side.
pub open spec fn adjacent(a: (int, int), b: (int, int)) -> bool {
    &&& in_bounds(a)
    &&& in_bounds(b)
    &&& (a.0 == b.0 && (a.1 == b.1 + 1 || b.1 == a.1 + 1)) || (a.1 == b.1 && (a.0 == b.0
        + 1 || b.0 == a.0 + 1))
}

/// `p` is a path from `s` through adjacent cells of the color of `s`.
pub open spec fn is_path(cells: Seq<Point>, s: (int, int), p: Seq<(int, int)>) -> bool {
    &&& p.len() > 0
    &&& p[0] == s
    &&& in_bounds(s)
    &&& forall|i: int| 1 <= i < p.len() ==> adjacent(p[i - 1], #[trigger] p[i])
    &&& forall|i: int| 0 <= i < p.len() ==> cell_at(cells, #[trigger] p[i]) == cell_at(cells, s)
}

/// `t` belongs to the group of `s`: the cells connected to `s` through
/// adjacent cells of its color.
pub open spec fn in_group(cells: Seq<Point>, s: (int, int), t: (int, int)) -> bool {
    exists|p: Seq<(int, int)>| #[trigger] is_path(cells, s, p) && p.last() == t
}

/// `r` lists the group of `s`, each cell once, in storage order.
pub open spec fn lists_group(cells: Seq<Point>, s: (int, int), r: Seq<Coordinate>) -> bool {
    &&& forall|i: int| 0 <= i < r.len() ==> in_bounds(#[trigger] r[i].pos()) && in_group(
        cells,
        s,
        r[i].pos(),
    )
    &&& forall|t: (int, int)|
        in_bounds(t) && #[trigger] in_group(cells, s, t) ==> exists|i: int|
            0 <= i < r.len() && #[trigger] r[i].pos() == t
    &&& forall|i: int, j: int|
        0 <= i < j < r.len() ==> cell_index(#[trigger] r[i].pos()) < cell_index(
            #[trigger] r[j].pos(),
        )
}

/// Every same-colored neighbour of `a` is marked.
pub open spec fn closed(cells: Seq<Point>, color: Point, marks: Seq<bool>, a: (int, int)) -> bool {
    forall|b: (int, int)|
        adjacent(a, b) && cell_at(cells, b) == color ==> #[trigger] marks[cell_index(b)]
}

pub open spec fn marks_in_group(cells: Seq<Point>, s: (int, int), marks: Seq<bool>) -> bool {
    forall|a: (int, int)| in_bounds(a) && #[trigger] marks[cell_index(a)] ==> in_group(cells, s, a)
}

pub open spec fn grows(a: Seq<bool>, b: Seq<bool>) -> bool {
    &&& a.len() == b.len()
    &&& forall|i: int| 0 <= i < a.len() && #[trigger] a[i] ==> b[i]
}

pub open spec fn unmarked(s: Seq<bool>) -> nat
    decreases s.len(),
{
    if s.len() == 0 {
        0
    } else {
        unmarked(s.drop_last()) + if s.last() {
            0nat
        } else {
            1nat
        }
    }
}

proof fn lemma_unmarked_shrinks(a: Seq<bool>, b: Seq<bool>, k: int)
    requires
        grows(a, b),
        0 <= k < a.len(),
        b[k] && !a[k],
    ensures
        unmarked(b) < unmarked(a),
    decreases a.len(),
{
    lemma_unmarked_grows(a.drop_last(), b.drop_last());
    if k < a.len() - 1 {
        lemma_unmarked_shrinks(a.drop_last(), b.drop_last(), k);
    }
}

proof fn lemma_unmarked_grows(a: Seq<bool>, b: Seq<bool>)
    requires
        grows(a, b),
    ensures
        unmarked(b) <= unmarked(a),
    decreases a.len(),
{
    if a.len() > 0 {
        lemma_unmarked_grows(a.drop_last(), b.drop_last());
    }
}

proof fn lemma_path_in_bounds(cells: Seq<Point>, s: (int, int), p: Seq<(int, int)>, k: int)
    requires
        is_path(cells, s, p),
        0 <= k < p.len(),
    ensures
        in_bounds(p[k]),
{
    if k > 0 {
        assert(adjacent(p[k - 1], p[k]));
    }
}

/// A marked set that contains `s` and is closed under same-colored
/// adjacency holds every cell of a path from `s`.
proof fn lemma_closed_covers(cells: Seq<Point>, s: (int, int), marks: Seq<bool>, p: Seq<(int, int)>, k: int)
    requires
        marks.len() == CELLS,
        marks[cell_index(s)],
        forall|a: (int, int)|
            in_bounds(a) && #[trigger] marks[cell_index(a)] ==> closed(
                cells,
                cell_at(cells, s),
                marks,
                a,
            ),
        is_path(cells, s, p),
        0 <= k < p.len(),
    ensures
        marks[cell_index(p[k])],
    decreases k,
{
    if k > 0 {
        lemma_closed_covers(cells, s, marks, p, k - 1);
        lemma_path_in_bounds(cells, s, p, k - 1);
        assert(adjacent(p[k - 1], p[k]));
        assert(cell_at(cells, p[k]) == cell_at(cells, s));
        assert(closed(cells, cell_at(cells, s), marks, p[k - 1]));
    }
}

proof fn lemma_group_extends(cells: Seq<Point>, s: (int, int), a: (int, int), b: (int, int))
    requires
        in_group(cells, s, a),
        adjacent(a, b),
        cell_at(cells, b) == cell_at(cells, s),
    ensures
        in_group(cells, s, b),
{
    let p = choose|p: Seq<(int, int)>| #[trigger] is_path(cells, s, p) && p.last() == a;
    let q = p.push(b);
    assert forall|i: int| 1 <= i < q.len() implies adjacent(q[i - 1], #[trigger] q[i]) by {
        if i < p.len() {
            assert(q[i - 1] == p[i - 1] && q[i] == p[i]);
        }
    }
    assert forall|i: int| 0 <= i < q.len() implies cell_at(cells, #[trigger] q[i]) == cell_at(
        cells,
        s,
    ) by {
        if i < p.len() {
            assert(q[i] == p[i]);
        }
    }
    assert(is_path(cells, s, q));
    assert(q.last() == b);
}

proof fn lemma_closed_grows(cells: Seq<Point>, color: Point, m1: Seq<bool>, m2: Seq<bool>, a: (int, int))
    requires
        m1.len() == CELLS,
        closed(cells, color, m1, a),
        grows(m1, m2),
    ensures
        closed(cells, color, m2, a),
{
    assert forall|b: (int, int)|
        adjacent(a, b) && cell_at(cells, b) == color implies #[trigger] m2[cell_index(b)] by {
        assert(m1[cell_index(b)]);
    }
}

/// The non-empty cells of a column, top to bottom.
pub open spec fn kept(col: Seq<Point>) -> Seq<Point>
    decreases col.len(),
{
    if col.len() == 0 {
        Seq::empty()
    } else if col[0] == Point::Empty {
        kept(col.drop_first())
    } else {
        seq![col[0]] + kept(col.drop_first())
    }
}

/// A column after gravity: its non-empty cells at the bottom, in their
/// order, and empty cells above them.
pub open spec fn settle(col: Seq<Point>) -> Seq<Point> {
    Seq::new((col.len() - kept(col).len()) as nat, |i: int| Point::Empty) + kept(col)
}

pub open spec fn column(cells: Seq<Point>, x: int) -> Seq<Point> {
    cells.subrange(x * HEIGHT, x * HEIGHT + HEIGHT)
}

/// Column and row of the cell stored at position `i`.
pub open spec fn coord_of(i: int) -> (int, int) {
    (i / HEIGHT as int, i % HEIGHT as int)
}

/// The grid after every column has been settled by gravity.
pub open spec fn gravity(cells: Seq<Point>) -> Seq<Point> {
    Seq::new(CELLS as nat, |i: int| settle(column(cells, coord_of(i).0))[coord_of(i).1])
}

pub proof fn lemma_coord_of(t: (int, int))
    requires
        in_bounds(t),
    ensures
        coord_of(cell_index(t)) == t,
        0 <= cell_index(t) < CELLS,
{
    assert((t.0 * 9 + t.1) / 9 == t.0 && (t.0 * 9 + t.1) % 9 == t.1) by (nonlinear_arith)
        requires 0 <= t.1 < 9, 0 <= t.0;
}

proof fn lemma_index_of(i: int)
    requires
        0 <= i < CELLS,
    ensures
        in_bounds(coord_of(i)),
        cell_index(coord_of(i)) == i,
{
}

proof fn lemma_kept_len(col: Seq<Point>)
    ensures
        kept(col).len() <= col.len(),
    decreases col.len(),
{
    if col.len() > 0 {
        lemma_kept_len(col.drop_first());
    }
}

/// Number of cells among the first `n` storage positions that belong to
/// the group of `s`.
pub open spec fn group_count(cells: Seq<Point>, s: (int, int), n: nat) -> nat
    decreases n,
{
    if n == 0 {
        0
    } else {
        group_count(cells, s, (n - 1) as nat) + if in_group(cells, s, coord_of(n - 1)) {
            1nat
        } else {
            0nat
        }
    }
}

/// Number of cells in the group of `s`.
pub open spec fn group_size(cells: Seq<Point>, s: (int, int)) -> nat {
    group_count(cells, s, CELLS as nat)
}

/// The symbol table of the serialized grid: anything unknown is empty.
pub open spec fn point_of(c: char) -> Point {
    if c == 'o' {
        Point::Orange
    } else if c == 'p' {
        Point::Pink
    } else if c == 'g' {
        Point::Green
    } else if c == 'b' {
        Point::Blue
    } else {
        Point::Empty
    }
}

/// The byte that stands for a cell in a fingerprint.
pub open spec fn code_of(p: Point) -> u8 {
    match p {
        Point::Orange => 0,
        Point::Pink => 1,
        Point::Blue => 2,
        Point::Green => 3,
        Point::Empty => 4,
    }
}

pub open spec fn all_empty(cells: Seq<Point>) -> bool {
    forall|i: int| 0 <= i < cells.len() ==> cells[i] == Point::Empty
}

/// A move at `t` is allowed: it names a non-empty cell of the grid.
pub open spec fn valid_move(cells: Seq<Point>, t: (int, int)) -> bool {
    in_bounds(t) && cell_at(cells, t) != Point::Empty
}

/// The grid with the group of `s` emptied.
pub open spec fn cleared(cells: Seq<Point>, s: (int, int)) -> Seq<Point> {
    Seq::new(
        CELLS as nat,
        |i: int|
            if in_group(cells, s, coord_of(i)) {
                Point::Empty
            } else {
                cells[i]
            },
    )
}

/// The grid after popping the group of `s`: the group is emptied, then
/// gravity settles every column.
pub open spec fn after_move(cells: Seq<Point>, s: (int, int)) -> Seq<Point> {
    gravity(cleared(cells, s))
}

/// `t` is the first cell, in storage order, of its group: it is not empty
/// and lies in the group of no earlier non-empty cell.
pub open spec fn is_first_of_group(cells: Seq<Point>, t: (int, int)) -> bool {
    &&& in_bounds(t)
    &&& cell_at(cells, t) != Point::Empty
    &&& forall|s: (int, int)|
        in_bounds(s) && cell_index(s) < cell_index(t) && cell_at(cells, s) != Point::Empty
            ==> !#[trigger] in_group(cells, s, t)
}

/// One entry per group whose first cell lies among the first `n` storage
/// positions: that cell and the size of the group, in storage order.
pub open spec fn distinct_upto(cells: Seq<Point>, n: nat) -> Seq<((int, int), nat)>
    decreases n,
{
    if n == 0 {
        Seq::empty()
    } else {
        let t = coord_of(n - 1);
        distinct_upto(cells, (n - 1) as nat) + if is_first_of_group(cells, t) {
            seq![(t, group_size(cells, t))]
        } else {
            Seq::empty()
        }
    }
}

/// One entry per group of the grid: its first cell in storage order and
/// its size, in the order of those first cells.
pub open spec fn distinct_moves(cells: Seq<Point>) -> Seq<((int, int), nat)> {
    distinct_upto(cells, CELLS as nat)
}

pub open spec fn move_view(m: (Coordinate, usize)) -> ((int, int), nat) {
    (m.0.pos(), m.1 as nat)
}

proof fn lemma_group_transitive(cells: Seq<Point>, s: (int, int), t: (int, int), u: (int, int))
    requires
        in_group(cells, s, t),
        in_group(cells, t, u),
    ensures
        in_group(cells, s, u),
{
    let p = choose|p: Seq<(int, int)>| #[trigger] is_path(cells, s, p) && p.last() == t;
    let q = choose|q: Seq<(int, int)>| #[trigger] is_path(cells, t, q) && q.last() == u;
    assert(cell_at(cells, p[p.len() - 1]) == cell_at(cells, s));
    let r = p + q.drop_first();
    assert forall|i: int| 1 <= i < r.len() implies adjacent(r[i - 1], #[trigger] r[i]) by {
        if i < p.len() {
            assert(r[i - 1] == p[i - 1] && r[i] == p[i]);
        } else if i == p.len() {
            assert(r[i - 1] == q[0] && r[i] == q[1]);
        } else {
            assert(r[i - 1] == q[i - p.len()] && r[i] == q[i - p.len() + 1]);
        }
    }
    assert forall|i: int| 0 <= i < r.len() implies cell_at(cells, #[trigger] r[i]) == cell_at(
        cells,
        s,
    ) by {
        if i < p.len() {
            assert(r[i] == p[i]);
        } else {
            assert(r[i] == q[i - p.len() + 1]);
        }
    }
    assert(is_path(cells, s, r));
    if q.len() == 1 {
        assert(r =~= p);
    } else {
        assert(r.last() == q.last());
    }
}

/// The order in which moves are tried: fewer groups left after the move
/// first, then the larger group first, then the earlier group first.
pub open spec fn rank_le(a: (usize, usize, usize), b: (usize, usize, usize)) -> bool {
    a.0 < b.0 || (a.0 == b.0 && (a.1 < b.1 || (a.1 == b.1 && a.2 <= b.2)))
}

pub open spec fn ranks_sorted(s: Seq<(usize, usize, usize)>) -> bool {
    forall|i: int, j: int| 0 <= i < j < s.len() ==> rank_le(#[trigger] s[i], #[trigger] s[j])
}

/// The rank of the `k`-th distinct move: the number of groups left after
/// it, the number of cells outside its group, and `k`.
pub open spec fn rank_of(cells: Seq<Point>, k: int) -> (usize, usize, usize) {
    let m = distinct_moves(cells)[k];
    (
        distinct_moves(after_move(cells, m.0)).len() as usize,
        (CELLS - m.1) as usize,
        k as usize,
    )
}

pub open spec fn ranks(cells: Seq<Point>) -> Seq<(usize, usize, usize)> {
    Seq::new(distinct_moves(cells).len(), |k: int| rank_of(cells, k))
}

/// `r` lists the first cells of the groups, ordered by their ranks.
pub open spec fn prioritized(cells: Seq<Point>, r: Seq<(int, int)>) -> bool {
    exists|order: Seq<(usize, usize, usize)>|
        #[trigger] order.to_multiset() == ranks(cells).to_multiset() && ranks_sorted(order)
            && r == order.map_values(|e: (usize, usize, usize)| distinct_moves(cells)[e.2 as int].0)
}

pub open spec fn positions(r: Seq<Coordinate>) -> Seq<(int, int)> {
    r.map_values(|c: Coordinate| c.pos())
}

/// Every entry of `distinct_moves(cells)` has its cell in `r`.
pub open spec fn names_every_group(cells: Seq<Point>, r: Seq<Coordinate>) -> bool {
    forall|k: int|
        0 <= k < distinct_moves(cells).len() ==> #[trigger] positions(r).contains(
            distinct_moves(cells)[k].0,
        )
}

proof fn lemma_group_count_le(cells: Seq<Point>, s: (int, int), n: nat)
    ensures
        group_count(cells, s, n) <= n,
    decreases n,
{
    if n > 0 {
        lemma_group_count_le(cells, s, (n - 1) as nat);
    }
}

proof fn lemma_distinct_entries(cells: Seq<Point>, n: nat)
    ensures
        forall|k: int|
            0 <= k < distinct_upto(cells, n).len() ==> is_first_of_group(
                cells,
                (#[trigger] distinct_upto(cells, n)[k]).0,
            ) && distinct_upto(cells, n)[k].1 == group_size(cells, distinct_upto(cells, n)[k].0)
                && distinct_upto(cells, n)[k].1 <= CELLS,
        distinct_upto(cells, n).len() <= n,
    decreases n,
{
    if n > 0 {
        lemma_distinct_entries(cells, (n - 1) as nat);
        let t = coord_of(n - 1);
        lemma_group_count_le(cells, t, CELLS as nat);
        let prev = distinct_upto(cells, (n - 1) as nat);
        assert forall|k: int| 0 <= k < distinct_upto(cells, n).len() implies is_first_of_group(
            cells,
            (#[trigger] distinct_upto(cells, n)[k]).0,
        ) && distinct_upto(cells, n)[k].1 == group_size(cells, distinct_upto(cells, n)[k].0)
            && distinct_upto(cells, n)[k].1 <= CELLS by {
            if k < prev.len() {
                assert(distinct_upto(cells, n)[k] == prev[k]);
            }
        }
    }
}

pub open spec fn no_empty(s: Seq<Point>) -> bool {
    forall|i: int| 0 <= i < s.len() ==> s[i] != Point::Empty
}

proof fn lemma_kept_concat(a: Seq<Point>, b: Seq<Point>)
    ensures
        kept(a + b) == kept(a) + kept(b),
    decreases a.len(),
{
    if a.len() == 0 {
        assert(a + b =~= b);
        assert(kept(a) + kept(b) =~= kept(b));
    } else {
        assert((a + b).drop_first() =~= a.drop_first() + b);
        lemma_kept_concat(a.drop_first(), b);
        if a[0] != Point::Empty {
            assert(seq![a[0]] + (kept(a.drop_first()) + kept(b)) =~= (seq![a[0]] + kept(
                a.drop_first(),
            )) + kept(b));
        }
    }
}

proof fn lemma_kept_all_empty(s: Seq<Point>)
    requires
        forall|i: int| 0 <= i < s.len() ==> s[i] == Point::Empty,
    ensures
        kept(s) == Seq::<Point>::empty(),
    decreases s.len(),
{
    if s.len() > 0 {
        lemma_kept_all_empty(s.drop_first());
    }
}

proof fn lemma_kept_no_empty(s: Seq<Point>)
    requires
        no_empty(s),
    ensures
        kept(s) == s,
    decreases s.len(),
{
    if s.len() > 0 {
        lemma_kept_no_empty(s.drop_first());
        assert(seq![s[0]] + s.drop_first() =~= s);
    }
}

proof fn lemma_kept_has_no_empty(s: Seq<Point>)
    ensures
        no_empty(kept(s)),
    decreases s.len(),
{
    if s.len() > 0 {
        lemma_kept_has_no_empty(s.drop_first());
        if s[0] != Point::Empty {
            let k = seq![s[0]] + kept(s.drop_first());
            assert forall|i: int| 0 <= i < k.len() implies k[i] != Point::Empty by {
                if i > 0 {
                    assert(k[i] == kept(s.drop_first())[i - 1]);
                }
            }
        }
    }
}

/// Settling a settled column changes nothing.
proof fn lemma_settle_idempotent(col: Seq<Point>)
    ensures
        settle(settle(col)) == settle(col),
{
    let k = kept(col);
    let pad = Seq::new((col.len() - k.len()) as nat, |i: int| Point::Empty);
    lemma_kept_concat(pad, k);
    lemma_kept_all_empty(pad);
    lemma_kept_has_no_empty(col);
    lemma_kept_no_empty(k);
    assert(kept(settle(col)) =~= k);
}

proof fn lemma_column_of_gravity(cells: Seq<Point>, x: int)
    requires
        cells.len() == CELLS,
        0 <= x < WIDTH,
    ensures
        column(gravity(cells), x) == settle(column(cells, x)),
{
    let col = column(cells, x);
    lemma_kept_len(col);
    assert forall|j: int| 0 <= j < HEIGHT implies #[trigger] column(gravity(cells), x)[j] == settle(
        col,
    )[j] by {
        lemma_coord_of((x, j));
    }
    assert(column(gravity(cells), x) =~= settle(col));
}

/// Gravity is idempotent: once every column has settled, applying gravity
/// again leaves the grid as it is.
pub proof fn gravity_idempotent(cells: Seq<Point>)
    requires
        cells.len() == CELLS,
    ensures
        gravity(gravity(cells)) == gravity(cells),
{
    let g = gravity(cells);
    assert forall|i: int| 0 <= i < CELLS implies #[trigger] gravity(g)[i] == g[i] by {
        let c = coord_of(i);
        lemma_index_of(i);
        lemma_column_of_gravity(cells, c.0);
        lemma_column_of_gravity(g, c.0);
        lemma_settle_idempotent(column(cells, c.0));
    }
    assert(gravity(g) =~= g);
}

/// No empty cell lies beneath a non-empty one in any column.
pub open spec fn settled(cells: Seq<Point>) -> bool {
    forall|t: (int, int)|
        #![trigger cell_at(cells, t), cell_at(cells, (t.0, t.1 + 1))]
        in_bounds(t) && t.1 + 1 < HEIGHT && cell_at(cells, t) != Point::Empty ==> cell_at(
            cells,
            (t.0, t.1 + 1),
        ) != Point::Empty
}

pub open spec fn no_gap(c: Seq<Point>) -> bool {
    forall|i: int|
        #![trigger c[i], c[i + 1]]
        0 <= i < c.len() - 1 && c[i] != Point::Empty ==> c[i + 1] != Point::Empty
}

proof fn lemma_no_gap_full(c: Seq<Point>, i: int)
    requires
        no_gap(c),
        c.len() > 0,
        c[0] != Point::Empty,
        0 <= i < c.len(),
    ensures
        c[i] != Point::Empty,
    decreases i,
{
    if i > 0 {
        lemma_no_gap_full(c, i - 1);
        assert(c[i - 1] != Point::Empty && c[i] == c[(i - 1) + 1]);
    }
}

proof fn lemma_settle_no_gap(c: Seq<Point>)
    requires
        no_gap(c),
    ensures
        settle(c) == c,
    decreases c.len(),
{
    if c.len() > 0 {
        if c[0] == Point::Empty {
            let d = c.drop_first();
            assert forall|i: int|
                #![trigger d[i], d[i + 1]]
                0 <= i < d.len() - 1 && d[i] != Point::Empty implies d[i + 1] != Point::Empty by {
                assert(d[i] == c[i + 1] && d[i + 1] == c[i + 2]);
                assert(c[i + 2] != Point::Empty);
            }
            lemma_settle_no_gap(d);
            lemma_kept_len(d);
            assert(settle(c) =~= seq![Point::Empty] + settle(d));
            assert(seq![Point::Empty] + d =~= c);
        } else {
            assert forall|i: int| 0 <= i < c.len() implies c[i] != Point::Empty by {
                lemma_no_gap_full(c, i);
            }
            lemma_kept_no_empty(c);
            assert(settle(c) =~= c);
        }
    }
}

/// Applying gravity to a settled grid, one with no empty cell beneath a
/// non-empty one, changes nothing.
pub proof fn gravity_keeps_settled(cells: Seq<Point>)
    requires
        cells.len() == CELLS,
        settled(cells),
    ensures
        gravity(cells) == cells,
{
    assert forall|i: int| 0 <= i < CELLS implies #[trigger] gravity(cells)[i] == cells[i] by {
        let c = coord_of(i);
        lemma_index_of(i);
        let col = column(cells, c.0);
        assert forall|j: int|
            #![trigger col[j], col[j + 1]]
            0 <= j < col.len() - 1 && col[j] != Point::Empty implies col[j + 1] != Point::Empty by {
            assert(col[j] == cell_at(cells, (c.0, j)));
            assert(col[j + 1] == cell_at(cells, (c.0, j + 1)));
        }
        lemma_settle_no_gap(col);
        assert(col[c.1] == cells[i]);
    }
    assert(gravity(cells) =~= cells);
}

/// Column 0 holds color `a` and every other column color `b`.
pub open spec fn two_colored(cells: Seq<Point>, a: Point, b: Point) -> bool {
    &&& cells.len() == CELLS
    &&& a != b
    &&& forall|t: (int, int)|
        in_bounds(t) ==> #[trigger] cell_at(cells, t) == if t.0 == 0 {
            a
        } else {
            b
        }
}

proof fn lemma_group_self(cells: Seq<Point>, s: (int, int))
    requires
        in_bounds(s),
    ensures
        in_group(cells, s, s),
{
    let p = seq![s];
    assert(is_path(cells, s, p));
    assert(p.last() == s);
}

/// Walks from row `from` to row `to` of column `x`, which has the color of `s`.
proof fn lemma_reach_row(cells: Seq<Point>, s: (int, int), x: int, from: int, to: int)
    requires
        in_group(cells, s, (x, from)),
        in_bounds((x, from)),
        in_bounds((x, to)),
        forall|r: int| 0 <= r < HEIGHT ==> #[trigger] cell_at(cells, (x, r)) == cell_at(cells, s),
    ensures
        in_group(cells, s, (x, to)),
    decreases if to >= from {
        to - from
    } else {
        from - to
    },
{
    if to > from {
        lemma_reach_row(cells, s, x, from, to - 1);
        lemma_group_extends(cells, s, (x, to - 1), (x, to));
    } else if to < from {
        lemma_reach_row(cells, s, x, from, to + 1);
        lemma_group_extends(cells, s, (x, to + 1), (x, to));
    }
}

/// Walks along row `y` from column `from` to column `to`, through columns
/// 1 and up, which have the color of `s`.
proof fn lemma_reach_column(cells: Seq<Point>, s: (int, int), y: int, from: int, to: int)
    requires
        in_group(cells, s, (from, y)),
        in_bounds((from, y)),
        in_bounds((to, y)),
        1 <= from,
        1 <= to,
        forall|c: int| 1 <= c < WIDTH ==> #[trigger] cell_at(cells, (c, y)) == cell_at(cells, s),
    ensures
        in_group(cells, s, (to, y)),
    decreases if to >= from {
        to - from
    } else {
        from - to
    },
{
    if to > from {
        lemma_reach_column(cells, s, y, from, to - 1);
        lemma_group_extends(cells, s, (to - 1, y), (to, y));
    } else if to < from {
        lemma_reach_column(cells, s, y, from, to + 1);
        lemma_group_extends(cells, s, (to + 1, y), (to, y));
    }
}

/// On a grid whose column 0 has one color and whose other columns share a
/// second color, the group of a cell of column 0 is column 0, and the group
/// of any other cell is every other column.
pub proof fn two_color_groups(cells: Seq<Point>, a: Point, b: Point, s: (int, int), t: (int, int))
    requires
        two_colored(cells, a, b),
        in_bounds(s),
        in_bounds(t),
    ensures
        in_group(cells, s, t) <==> ((s.0 == 0) == (t.0 == 0)),
{
    if in_group(cells, s, t) {
        let p = choose|p: Seq<(int, int)>| #[trigger] is_path(cells, s, p) && p.last() == t;
        lemma_path_in_bounds(cells, s, p, p.len() - 1);
        assert(cell_at(cells, p[p.len() - 1]) == cell_at(cells, s));
    }
    if (s.0 == 0) == (t.0 == 0) {
        lemma_group_self(cells, s);
        assert forall|r: int| 0 <= r < HEIGHT implies #[trigger] cell_at(cells, (s.0, r))
            == cell_at(cells, s) by {
            assert(in_bounds((s.0, r)));
        }
        lemma_reach_row(cells, s, s.0, s.1, t.1);
        if s.0 != 0 {
            assert forall|c: int| 1 <= c < WIDTH implies #[trigger] cell_at(cells, (c, t.1))
                == cell_at(cells, s) by {
                assert(in_bounds((c, t.1)));
            }
            lemma_reach_column(cells, s, t.1, s.0, t.0);
        }
    }
}

/// On such a grid, with two colors that are not empty, popping a cell of
/// column 0 empties column 0 and leaves every other column as it was.
pub proof fn two_color_move(cells: Seq<Point>, a: Point, b: Point, y: int)
    requires
        two_colored(cells, a, b),
        a != Point::Empty,
        b != Point::Empty,
        0 <= y < HEIGHT,
    ensures
        valid_move(cells, (0, y)),
        forall|t: (int, int)|
            in_bounds(t) ==> #[trigger] cell_at(after_move(cells, (0, y)), t) == if t.0 == 0 {
                Point::Empty
            } else {
                cell_at(cells, t)
            },
{
    let s = (0, y);
    assert(cell_at(cells, s) == a);
    let cl = cleared(cells, s);
    assert forall|t: (int, int)| in_bounds(t) implies #[trigger] cell_at(after_move(cells, s), t)
        == if t.0 == 0 {
        Point::Empty
    } else {
        cell_at(cells, t)
    } by {
        let col = column(cl, t.0);
        assert forall|j: int| 0 <= j < HEIGHT implies #[trigger] col[j] == if t.0 == 0 {
            Point::Empty
        } else {
            cell_at(cells, (t.0, j))
        } by {
            lemma_coord_of((t.0, j));
            two_color_groups(cells, a, b, s, (t.0, j));
        }
        lemma_column_of_gravity(cl, t.0);
        lemma_coord_of(t);
        assert(cell_at(after_move(cells, s), t) == column(gravity(cl), t.0)[t.1]);
        if t.0 == 0 {
            lemma_kept_all_empty(col);
            assert(settle(col) =~= Seq::new(HEIGHT as nat, |i: int| Point::Empty));
        } else {
            assert forall|j: int| 0 <= j < col.len() implies col[j] != Point::Empty by {
                assert(in_bounds((t.0, j)));
            }
            lemma_kept_no_empty(col);
            assert(settle(col) =~= col);
        }
    }
}

/// Two grids have the same fingerprint exactly when they hold the same
/// cells, whatever moves led to them.
pub proof fn fingerprint_identifies_grid(a: Seq<Point>, b: Seq<Point>)
    ensures
        (a.map_values(|p: Point| code_of(p)) == b.map_values(|p: Point| code_of(p))) <==> (a
            == b),
{
    let ka = a.map_values(|p: Point| code_of(p));
    let kb = b.map_values(|p: Point| code_of(p));
    if ka == kb {
        assert(ka.len() == a.len() && kb.len() == b.len());
        assert forall|i: int| 0 <= i < a.len() implies a[i] == b[i] by {
            assert(ka[i] == kb[i]);
        }
        assert(a =~= b);
    }
}

pub proof fn lemma_group_symmetric(cells: Seq<Point>, s: (int, int), t: (int, int))
    requires
        in_group(cells, s, t),
    ensures
        in_group(cells, t, s),
{
    let p = choose|p: Seq<(int, int)>| #[trigger] is_path(cells, s, p) && p.last() == t;
    let n = p.len();
    assert(cell_at(cells, p[n - 1]) == cell_at(cells, s));
    lemma_path_in_bounds(cells, s, p, n - 1);
    let q = Seq::new(n, |i: int| p[n - 1 - i]);
    assert forall|i: int| 1 <= i < q.len() implies adjacent(q[i - 1], #[trigger] q[i]) by {
        assert(adjacent(p[n - 1 - i], p[n - 1 - i + 1]));
    }
    assert forall|i: int| 0 <= i < q.len() implies cell_at(cells, #[trigger] q[i]) == cell_at(
        cells,
        t,
    ) by {
        assert(cell_at(cells, p[n - 1 - i]) == cell_at(cells, s));
    }
    assert(is_path(cells, t, q));
    assert(q.last() == s);
}

proof fn lemma_first_listed(cells: Seq<Point>, t: (int, int), n: nat)
    requires
        is_first_of_group(cells, t),
        cell_index(t) < n,
    ensures
        exists|k: int|
            0 <= k < distinct_upto(cells, n).len() && (#[trigger] distinct_upto(cells, n)[k]).0
                == t,
    decreases n,
{
    let prev = distinct_upto(cells, (n - 1) as nat);
    if cell_index(t) < n - 1 {
        lemma_first_listed(cells, t, (n - 1) as nat);
        let k = choose|k: int| 0 <= k < prev.len() && (#[trigger] prev[k]).0 == t;
        assert(distinct_upto(cells, n)[k] == prev[k]);
    } else {
        lemma_coord_of(t);
        assert(distinct_upto(cells, n)[prev.len() as int].0 == t);
    }
}

/// Every non-empty cell lies in the group of one of the listed first cells.
pub proof fn lemma_in_listed_group(cells: Seq<Point>, m: (int, int))
    requires
        valid_move(cells, m),
    ensures
        exists|k: int|
            0 <= k < distinct_moves(cells).len() && in_group(
                cells,
                (#[trigger] distinct_moves(cells)[k]).0,
                m,
            ),
    decreases cell_index(m),
{
    lemma_coord_of(m);
    if is_first_of_group(cells, m) {
        lemma_first_listed(cells, m, CELLS as nat);
        let k = choose|k: int|
            0 <= k < distinct_moves(cells).len() && (#[trigger] distinct_moves(cells)[k]).0 == m;
        lemma_group_self(cells, m);
        assert(in_group(cells, distinct_moves(cells)[k].0, m));
    } else {
        let s = choose|s: (int, int)|
            in_bounds(s) && cell_index(s) < cell_index(m) && cell_at(cells, s) != Point::Empty
                && #[trigger] in_group(cells, s, m);
        lemma_coord_of(s);
        lemma_in_listed_group(cells, s);
        let k = choose|k: int|
            0 <= k < distinct_moves(cells).len() && in_group(
                cells,
                (#[trigger] distinct_moves(cells)[k]).0,
                s,
            );
        lemma_group_transitive(cells, distinct_moves(cells)[k].0, s, m);
    }
}

/// Two cells of one group are the same move.
pub proof fn lemma_same_group_same_move(cells: Seq<Point>, r: (int, int), m: (int, int))
    requires
        in_group(cells, r, m),
    ensures
        after_move(cells, r) == after_move(cells, m),
{
    lemma_group_symmetric(cells, r, m);
    assert forall|i: int| 0 <= i < CELLS implies in_group(cells, r, coord_of(i)) == in_group(
        cells,
        m,
        coord_of(i),
    ) by {
        if in_group(cells, r, coord_of(i)) {
            lemma_group_transitive(cells, m, r, coord_of(i));
        }
        if in_group(cells, m, coord_of(i)) {
            lemma_group_transitive(cells, r, m, coord_of(i));
        }
    }
    assert(cleared(cells, r) =~= cleared(cells, m));
}

/// Neighbour `d` of `(x, y)`, if it lies on the grid: left, right, up, down.
pub open spec fn neighbor_spec(x: int, y: int, d: int) -> Option<(int, int)> {
    let c = if d == 0 {
        (x - 1, y)
    } else if d == 1 {
        (x + 1, y)
    } else if d == 2 {
        (x, y - 1)
    } else {
        (x, y + 1)
    };
    if in_bounds(c) {
        Some(c)
    } else {
        None
    }
}

proof fn lemma_adjacent_is_neighbor(a: (int, int), b: (int, int))
    requires
        adjacent(a, b),
    ensures
        exists|d: int| 0 <= d < 4 && #[trigger] neighbor_spec(a.0, a.1, d) == Some(b),
{
    if b.0 + 1 == a.0 {
        assert(neighbor_spec(a.0, a.1, 0) == Some(b));
    } else if b.0 == a.0 + 1 {
        assert(neighbor_spec(a.0, a.1, 1) == Some(b));
    } else if b.1 + 1 == a.1 {
        assert(neighbor_spec(a.0, a.1, 2) == Some(b));
    } else {
        assert(neighbor_spec(a.0, a.1, 3) == Some(b));
    }
}

/// Relies on itertools' `Itertools::sorted`: the same items, in ascending
/// order, where std orders tuples lexicographically.
#[verifier::external_body]
fn sorted_ranks(v: Vec<(usize, usize, usize)>) -> (r: Vec<(usize, usize, usize)>)
    ensures
        r@.to_multiset() == v@.to_multiset(),
        ranks_sorted(r@),
{
    v.into_iter().sorted().collect()
}

impl Board {
    pub open spec fn wf(&self) -> bool {
        self.data@.len() == CELLS
    }

    fn get_index(x: usize, y: usize) -> (r: usize)
        requires
            x < WIDTH,
            y < HEIGHT,
        ensures
            r == cell_index((x as int, y as int)),
            r < CELLS,
    {
        x * HEIGHT + y
    }

    fn neighbor(x: usize, y: usize, d: usize) -> (r: Option<Coordinate>)
        requires
            x < WIDTH,
            y < HEIGHT,
        ensures
            r.is_some() == neighbor_spec(x as int, y as int, d as int).is_some(),
            r.is_some() ==> neighbor_spec(x as int, y as int, d as int) == Some(r.unwrap().pos()),
    {
        if d == 0 {
            if x > 0 { Some(Coordinate { x: x - 1, y }) } else { None }
        } else if d == 1 {
            if x < WIDTH - 1 { Some(Coordinate { x: x + 1, y }) } else { None }
        } else if d == 2 {
            if y > 0 { Some(Coordinate { x, y: y - 1 }) } else { None }
        } else {
            if y < HEIGHT - 1 { Some(Coordinate { x, y: y + 1 }) } else { None }
        }
    }


    /// Reads a grid of `WIDTH * HEIGHT` symbols in storage order.
    pub fn new(s: &str) -> (r: Result<Board, BoardError>)
        ensures
            r is Err <==> s@.len() != CELLS,
            r is Err ==> r == Err::<Board, BoardError>(BoardError::InvalidBoardStringLength),
            r is Ok ==> r->Ok_0.wf() && r->Ok_0.data@ == s@.map_values(|c: char| point_of(c))
                && r->Ok_0.moves@.len() == 0,
    {
        if s.unicode_len() != HEIGHT * WIDTH {
            return Err(BoardError::InvalidBoardStringLength);
        }
        let mut data: Vec<Point> = Vec::with_capacity(WIDTH * HEIGHT);
        let mut i: usize = 0;
        while i < CELLS
            invariant
                s@.len() == CELLS,
                i <= CELLS,
                data@ == s@.subrange(0, i as int).map_values(|c: char| point_of(c)),
            decreases CELLS - i,
        {
            let c = s.get_char(i);
            let point = if c == 'o' {
                Point::Orange
            } else if c == 'p' {
                Point::Pink
            } else if c == 'g' {
                Point::Green
            } else if c == 'b' {
                Point::Blue
            } else {
                Point::Empty
            };
            data.push(point);
            i = i + 1;
            assert(data@ =~= s@.subrange(0, i as int).map_values(|c: char| point_of(c)));
        }
        assert(s@.subrange(0, CELLS as int) =~= s@);
        Ok(Board { data, moves: Vec::new() })
    }

    /// The fingerprint of the grid: one byte per cell, in storage order. It
    /// does not depend on the moves made.
    pub fn get_memo_key(&self) -> (r: Vec<u8>)
        requires
            self.wf(),
        ensures
            r@ == self.data@.map_values(|p: Point| code_of(p)),
    {
        let mut key: Vec<u8> = Vec::with_capacity(CELLS);
        let mut i: usize = 0;
        while i < CELLS
            invariant
                self.wf(),
                i <= CELLS,
                key@ == self.data@.subrange(0, i as int).map_values(|p: Point| code_of(p)),
            decreases CELLS - i,
        {
            let b: u8 = match self.data[i] {
                Point::Orange => 0,
                Point::Pink => 1,
                Point::Blue => 2,
                Point::Green => 3,
                Point::Empty => 4,
            };
            key.push(b);
            i = i + 1;
            assert(key@ =~= self.data@.subrange(0, i as int).map_values(|p: Point| code_of(p)));
        }
        assert(self.data@.subrange(0, CELLS as int) =~= self.data@);
        key
    }

    pub fn is_solved(&self) -> (r: bool)
        requires
            self.wf(),
        ensures
            r == all_empty(self.data@),
    {
        let mut i: usize = 0;
        while i < CELLS
            invariant
                self.wf(),
                i <= CELLS,
                forall|j: int| 0 <= j < i ==> self.data@[j] == Point::Empty,
            decreases CELLS - i,
        {
            if self.data[i] != Point::Empty {
                return false;
            }
            i = i + 1;
        }
        true
    }

    /// An independent copy of the board.
    pub fn duplicate(&self) -> (r: Board)
        ensures
            r.data@ == self.data@,
            r.moves@ == self.moves@,
    {
        let mut data: Vec<Point> = Vec::with_capacity(self.data.len());
        let mut i: usize = 0;
        while i < self.data.len()
            invariant
                i <= self.data@.len(),
                data@ == self.data@.subrange(0, i as int),
            decreases self.data@.len() - i,
        {
            data.push(self.data[i]);
            i = i + 1;
            assert(data@ =~= self.data@.subrange(0, i as int));
        }
        let mut moves: Vec<Coordinate> = Vec::with_capacity(self.moves.len());
        let mut k: usize = 0;
        while k < self.moves.len()
            invariant
                k <= self.moves@.len(),
                moves@ == self.moves@.subrange(0, k as int),
            decreases self.moves@.len() - k,
        {
            moves.push(self.moves[k]);
            k = k + 1;
            assert(moves@ =~= self.moves@.subrange(0, k as int));
        }
        assert(data@ =~= self.data@);
        assert(moves@ =~= self.moves@);
        Board { data, moves }
    }

    /// Marks the group of `(x, y)`: one flag per cell, in storage order.
    fn group_marks(&self, x: usize, y: usize) -> (marks: Vec<bool>)
        requires
            self.wf(),
            x < WIDTH,
            y < HEIGHT,
        ensures
            marks@.len() == CELLS,
            forall|t: (int, int)|
                in_bounds(t) ==> (#[trigger] marks@[cell_index(t)] == in_group(
                    self.data@,
                    (x as int, y as int),
                    t,
                )),
    {
        let ghost seed = (x as int, y as int);
        let mut marks: Vec<bool> = Vec::with_capacity(CELLS);
        let mut i: usize = 0;
        while i < CELLS
            invariant
                i <= CELLS,
                marks@.len() == i,
                forall|j: int| 0 <= j < i ==> !marks@[j],
            decreases CELLS - i,
        {
            marks.push(false);
            i = i + 1;
        }
        let start = Board::get_index(x, y);
        marks.set(start, true);
        proof {
            let p = seq![seed];
            assert(is_path(self.data@, seed, p));
            assert(p.last() == seed);
            assert forall|a: (int, int)|
                in_bounds(a) && #[trigger] marks@[cell_index(a)] implies in_group(
                self.data@,
                seed,
                a,
            ) by {
                lemma_coord_of(a);
                lemma_coord_of(seed);
            }
        }
        let ghost initial = marks@;
        let color = self.data[start];
        self.recurse_neighbors(&mut marks, color, x, y, Ghost(seed));
        proof {
            assert forall|a: (int, int)|
                in_bounds(a) && #[trigger] marks@[cell_index(a)] implies closed(
                self.data@,
                cell_at(self.data@, seed),
                marks@,
                a,
            ) by {
                if initial[cell_index(a)] {
                    lemma_coord_of(a);
                    lemma_coord_of(seed);
                }
            }
            lemma_coord_of(seed);
            assert(initial[cell_index(seed)]);
            assert(marks@[cell_index(seed)]);
            assert forall|t: (int, int)| in_bounds(t) && in_group(self.data@, seed, t) implies #[trigger] marks@[cell_index(t)] by {
                let p = choose|p: Seq<(int, int)>| #[trigger] is_path(self.data@, seed, p) && p.last() == t;
                lemma_closed_covers(self.data@, seed, marks@, p, p.len() - 1);
            }
        }
        marks
    }

    /// The group of `(x, y)`, each cell once, in storage order.
    pub fn get_group(&self, x: usize, y: usize) -> (r: Vec<Coordinate>)
        requires
            self.wf(),
            x < WIDTH,
            y < HEIGHT,
        ensures
            lists_group(self.data@, (x as int, y as int), r@),
            r@.len() == group_size(self.data@, (x as int, y as int)),
    {
        let ghost seed = (x as int, y as int);
        let marks = self.group_marks(x, y);
        let mut group: Vec<Coordinate> = Vec::new();
        let mut i: usize = 0;
        while i < CELLS
            invariant
                self.wf(),
                i <= CELLS,
                marks@.len() == CELLS,
                forall|t: (int, int)|
                    in_bounds(t) ==> (#[trigger] marks@[cell_index(t)] == in_group(
                        self.data@,
                        seed,
                        t,
                    )),
                forall|k: int|
                    0 <= k < group@.len() ==> in_bounds(#[trigger] group@[k].pos()) && in_group(
                        self.data@,
                        seed,
                        group@[k].pos(),
                    ) && cell_index(group@[k].pos()) < i,
                forall|j: int|
                    0 <= j < i && #[trigger] marks@[j] ==> exists|k: int|
                        0 <= k < group@.len() && #[trigger] group@[k].pos() == coord_of(j),
                forall|k: int, l: int|
                    0 <= k < l < group@.len() ==> cell_index(#[trigger] group@[k].pos()) < cell_index(
                        #[trigger] group@[l].pos(),
                    ),
                group@.len() == group_count(self.data@, seed, i as nat),
            decreases CELLS - i,
        {
            proof {
                lemma_index_of(i as int);
            }
            let ghost prev = group@;
            if marks[i] {
                group.push(Coordinate { x: i / HEIGHT, y: i % HEIGHT });
                assert(group@.last().pos() == coord_of(i as int));
            }
            proof {
                assert forall|j: int|
                    0 <= j < i + 1 && #[trigger] marks@[j] implies exists|k: int|
                        0 <= k < group@.len() && #[trigger] group@[k].pos() == coord_of(j) by {
                    if j < i {
                        let k = choose|k: int|
                            0 <= k < prev.len() && #[trigger] prev[k].pos() == coord_of(j);
                        assert(group@[k] == prev[k]);
                    } else {
                        assert(group@[group@.len() - 1].pos() == coord_of(j));
                    }
                }
            }
            i = i + 1;
        }
        proof {
            assert forall|t: (int, int)|
                in_bounds(t) && #[trigger] in_group(self.data@, seed, t) implies exists|k: int|
                0 <= k < group@.len() && #[trigger] group@[k].pos() == t by {
                lemma_coord_of(t);
                assert(marks@[cell_index(t)]);
            }
        }
        group
    }

    /// Pops the group at `(x, y)`, lets the cells fall, and records the move.
    pub fn make_move(&mut self, x: usize, y: usize) -> (r: Result<(), BoardError>)
        requires
            old(self).wf(),
        ensures
            final(self).wf(),
            r is Ok <==> valid_move(old(self).data@, (x as int, y as int)),
            r is Ok ==> final(self).data@ == after_move(old(self).data@, (x as int, y as int))
                && final(self).moves@ == old(self).moves@.push((Coordinate { x, y })),
            r is Err ==> r == Err::<(), BoardError>(BoardError::InvalidMove) && final(self).data@
                == old(self).data@ && final(self).moves@ == old(self).moves@,
    {
        if x >= WIDTH || y >= HEIGHT {
            return Err(BoardError::InvalidMove);
        }
        if self.data[Board::get_index(x, y)] == Point::Empty {
            return Err(BoardError::InvalidMove);
        }
        let ghost orig = self.data@;
        let ghost seed = (x as int, y as int);
        let marks = self.group_marks(x, y);
        proof {
            assert forall|j: int|
                0 <= j < CELLS implies #[trigger] marks@[j] == in_group(orig, seed, coord_of(j)) by {
                lemma_index_of(j);
            }
        }
        let mut i: usize = 0;
        while i < CELLS
            invariant
                self.wf(),
                i <= CELLS,
                orig.len() == CELLS,
                marks@.len() == CELLS,
                forall|j: int|
                    0 <= j < CELLS ==> #[trigger] marks@[j] == in_group(orig, seed, coord_of(j)),
                forall|j: int|
                    0 <= j < CELLS ==> #[trigger] self.data@[j] == if j < i && marks@[j] {
                        Point::Empty
                    } else {
                        orig[j]
                    },
                self.moves == old(self).moves,
            decreases CELLS - i,
        {
            if marks[i] {
                self.data.set(i, Point::Empty);
            }
            i = i + 1;
        }
        assert(self.data@ =~= cleared(orig, seed));
        self.apply_gravity();
        self.moves.push(Coordinate { x, y });
        Ok(())
    }

    /// One entry per group: its first cell in storage order and its size.
    pub fn get_distinct_moves(&self) -> (r: Vec<(Coordinate, usize)>)
        requires
            self.wf(),
        ensures
            r@.map_values(|m: (Coordinate, usize)| move_view(m)) == distinct_moves(self.data@),
    {
        let ghost cells = self.data@;
        let mut distinct_moves: Vec<(Coordinate, usize)> = Vec::new();
        let mut visited: Vec<bool> = Vec::with_capacity(CELLS);
        let mut k: usize = 0;
        while k < CELLS
            invariant
                k <= CELLS,
                visited@.len() == k,
                forall|j: int| 0 <= j < k ==> !visited@[j],
            decreases CELLS - k,
        {
            visited.push(false);
            k = k + 1;
        }
        let mut i: usize = 0;
        while i < CELLS
            invariant
                self.wf(),
                cells == self.data@,
                i <= CELLS,
                visited@.len() == CELLS,
                forall|j: int|
                    0 <= j < CELLS ==> #[trigger] visited@[j] == exists|s: (int, int)|
                        in_bounds(s) && cell_index(s) < i && cell_at(cells, s) != Point::Empty
                            && #[trigger] in_group(cells, s, coord_of(j)),
                distinct_moves@.map_values(|m: (Coordinate, usize)| move_view(m))
                    == distinct_upto(cells, i as nat),
            decreases CELLS - i,
        {
            let x = i / HEIGHT;
            let y = i % HEIGHT;
            let ghost t = (x as int, y as int);
            proof {
                lemma_index_of(i as int);
                assert(t == coord_of(i as int));
            }
            let ghost prev_moves = distinct_moves@;
            let ghost prev_visited = visited@;
            if self.data[i] == Point::Empty {
                proof {
                    assert forall|j: int|
                        0 <= j < CELLS implies #[trigger] visited@[j] == exists|s: (int, int)|
                            in_bounds(s) && cell_index(s) < i + 1 && cell_at(cells, s)
                                != Point::Empty && #[trigger] in_group(cells, s, coord_of(j)) by {
                        if exists|s: (int, int)|
                            in_bounds(s) && cell_index(s) < i + 1 && cell_at(cells, s)
                                != Point::Empty && #[trigger] in_group(cells, s, coord_of(j)) {
                            let s = choose|s: (int, int)|
                                in_bounds(s) && cell_index(s) < i + 1 && cell_at(cells, s)
                                    != Point::Empty && #[trigger] in_group(cells, s, coord_of(j));
                            lemma_coord_of(s);
                        }
                    }
                    assert(!is_first_of_group(cells, t));
                    assert(distinct_moves@.map_values(|m: (Coordinate, usize)| move_view(m))
                        =~= distinct_upto(cells, (i + 1) as nat));
                }
            } else if visited[i] {
                proof {
                    let s0 = choose|s: (int, int)|
                        in_bounds(s) && cell_index(s) < i && cell_at(cells, s) != Point::Empty
                            && #[trigger] in_group(cells, s, coord_of(i as int));
                    assert forall|j: int|
                        0 <= j < CELLS implies #[trigger] visited@[j] == exists|s: (int, int)|
                            in_bounds(s) && cell_index(s) < i + 1 && cell_at(cells, s)
                                != Point::Empty && #[trigger] in_group(cells, s, coord_of(j)) by {
                        if exists|s: (int, int)|
                            in_bounds(s) && cell_index(s) < i + 1 && cell_at(cells, s)
                                != Point::Empty && #[trigger] in_group(cells, s, coord_of(j)) {
                            let s = choose|s: (int, int)|
                                in_bounds(s) && cell_index(s) < i + 1 && cell_at(cells, s)
                                    != Point::Empty && #[trigger] in_group(cells, s, coord_of(j));
                            lemma_coord_of(s);
                            if cell_index(s) == i {
                                assert(s == t);
                                lemma_group_transitive(cells, s0, t, coord_of(j));
                            }
                        }
                    }
                    assert(!is_first_of_group(cells, t));
                    assert(distinct_moves@.map_values(|m: (Coordinate, usize)| move_view(m))
                        =~= distinct_upto(cells, (i + 1) as nat));
                }
            } else {
                let marks = self.group_marks(x, y);
                let mut size: usize = 0;
                let mut j: usize = 0;
                while j < CELLS
                    invariant
                        self.wf(),
                        cells == self.data@,
                        j <= CELLS,
                        size <= j,
                        marks@.len() == CELLS,
                        visited@.len() == CELLS,
                        forall|u: (int, int)|
                            in_bounds(u) ==> (#[trigger] marks@[cell_index(u)] == in_group(
                                cells,
                                t,
                                u,
                            )),
                        forall|l: int|
                            0 <= l < CELLS ==> #[trigger] visited@[l] == (prev_visited[l] || (l
                                < j && marks@[l])),
                        size == group_count(cells, t, j as nat),
                    decreases CELLS - j,
                {
                    proof {
                        lemma_index_of(j as int);
                    }
                    if marks[j] {
                        size = size + 1;
                        visited.set(j, true);
                    }
                    j = j + 1;
                }
                distinct_moves.push((Coordinate { x, y }, size));
                proof {
                    assert(is_first_of_group(cells, t)) by {
                        assert forall|s: (int, int)|
                            in_bounds(s) && cell_index(s) < cell_index(t) && cell_at(cells, s)
                                != Point::Empty implies !#[trigger] in_group(cells, s, t) by {
                            assert(!prev_visited[i as int]);
                        }
                    }
                    assert forall|l: int|
                        0 <= l < CELLS implies #[trigger] visited@[l] == exists|s: (int, int)|
                            in_bounds(s) && cell_index(s) < i + 1 && cell_at(cells, s)
                                != Point::Empty && #[trigger] in_group(cells, s, coord_of(l)) by {
                        lemma_index_of(l);
                        if exists|s: (int, int)|
                            in_bounds(s) && cell_index(s) < i + 1 && cell_at(cells, s)
                                != Point::Empty && #[trigger] in_group(cells, s, coord_of(l)) {
                            let s = choose|s: (int, int)|
                                in_bounds(s) && cell_index(s) < i + 1 && cell_at(cells, s)
                                    != Point::Empty && #[trigger] in_group(cells, s, coord_of(l));
                            lemma_coord_of(s);
                            if cell_index(s) == i {
                                assert(s == t);
                                assert(marks@[cell_index(coord_of(l))]);
                            }
                        }
                        if marks@[l] {
                            assert(marks@[cell_index(coord_of(l))]);
                            assert(in_group(cells, t, coord_of(l)));
                        }
                    }
                    assert(distinct_moves@.map_values(|m: (Coordinate, usize)| move_view(m))
                        =~= distinct_upto(cells, (i + 1) as nat));
                }
            }
            i = i + 1;
        }
        distinct_moves
    }

    /// Number of groups left once the group at `(x, y)` is popped.
    fn get_distinct_moves_after_move(&self, x: usize, y: usize) -> (r: usize)
        requires
            self.wf(),
            valid_move(self.data@, (x as int, y as int)),
        ensures
            r == distinct_moves(after_move(self.data@, (x as int, y as int))).len(),
    {
        let mut clone = self.duplicate();
        let _ = clone.make_move(x, y);
        let groups_after_move = clone.get_distinct_moves().len();
        groups_after_move
    }

    /// The first cell of each group, ordered by rank: fewest groups left
    /// after the move first, then the largest group first, then storage
    /// order.
    pub fn get_prioritized_moves(&self) -> (r: Vec<Coordinate>)
        requires
            self.wf(),
        ensures
            prioritized(self.data@, r@.map_values(|c: Coordinate| c.pos())),
            r@.len() == distinct_moves(self.data@).len(),
            forall|i: int|
                0 <= i < r@.len() ==> is_first_of_group(self.data@, #[trigger] r@[i].pos()),
            names_every_group(self.data@, r@),
    {
        let ghost cells = self.data@;
        let candidates = self.get_distinct_moves();
        proof {
            lemma_distinct_entries(cells, CELLS as nat);
            assert(candidates@.len() == distinct_moves(cells).len());
        }
        let mut ranked: Vec<(usize, usize, usize)> = Vec::new();
        let mut k: usize = 0;
        while k < candidates.len()
            invariant
                self.wf(),
                cells == self.data@,
                k <= candidates@.len(),
                candidates@.len() == distinct_moves(cells).len(),
                candidates@.map_values(|m: (Coordinate, usize)| move_view(m))
                    == distinct_moves(cells),
                forall|l: int|
                    0 <= l < distinct_moves(cells).len() ==> is_first_of_group(
                        cells,
                        (#[trigger] distinct_moves(cells)[l]).0,
                    ) && distinct_moves(cells)[l].1 <= CELLS,
                ranked@ == ranks(cells).subrange(0, k as int),
            decreases candidates@.len() - k,
        {
            let (c, size) = candidates[k];
            assert(move_view(candidates@[k as int]) == distinct_moves(cells)[k as int]);
            let after = self.get_distinct_moves_after_move(c.x, c.y);
            ranked.push((after, CELLS - size, k));
            k = k + 1;
            assert(ranked@ =~= ranks(cells).subrange(0, k as int));
        }
        assert(ranked@ =~= ranks(cells));
        let order = sorted_ranks(ranked);
        let mut moves: Vec<Coordinate> = Vec::new();
        let mut i: usize = 0;
        while i < order.len()
            invariant
                cells == self.data@,
                i <= order@.len(),
                candidates@.len() == distinct_moves(cells).len(),
                candidates@.map_values(|m: (Coordinate, usize)| move_view(m))
                    == distinct_moves(cells),
                order@.to_multiset() == ranks(cells).to_multiset(),
                distinct_moves(cells).len() <= CELLS,
                moves@.len() == i,
                forall|l: int|
                    0 <= l < distinct_moves(cells).len() ==> is_first_of_group(
                        cells,
                        (#[trigger] distinct_moves(cells)[l]).0,
                    ),
                forall|j: int|
                    0 <= j < moves@.len() ==> is_first_of_group(cells, #[trigger] moves@[j].pos()),
                moves@.map_values(|c: Coordinate| c.pos()) == order@.subrange(
                    0,
                    i as int,
                ).map_values(|e: (usize, usize, usize)| distinct_moves(cells)[e.2 as int].0),
            decreases order@.len() - i,
        {
            let e = order[i];
            proof {
                broadcast use vstd::seq_lib::group_to_multiset_ensures;

                assert(order@.contains(e));
                assert(order@.to_multiset().count(e) > 0);
                assert(ranks(cells).to_multiset().count(e) > 0);
                assert(ranks(cells).contains(e));
                let l = choose|l: int| 0 <= l < ranks(cells).len() && ranks(cells)[l] == e;
                assert(e.2 as int == l);
            }
            let c = candidates[e.2].0;
            assert(move_view(candidates@[e.2 as int]) == distinct_moves(cells)[e.2 as int]);
            let ghost prev = moves@;
            moves.push(c);
            proof {
                assert(c.pos() == distinct_moves(cells)[e.2 as int].0);
                assert(order@.subrange(0, i + 1) =~= order@.subrange(0, i as int).push(e));
                assert(moves@.map_values(|c: Coordinate| c.pos()) =~= prev.map_values(
                    |c: Coordinate| c.pos(),
                ).push(c.pos()));
            }
            i = i + 1;
            assert(moves@.map_values(|c: Coordinate| c.pos()) =~= order@.subrange(
                0,
                i as int,
            ).map_values(|e: (usize, usize, usize)| distinct_moves(cells)[e.2 as int].0));
        }
        proof {
            broadcast use vstd::seq_lib::group_to_multiset_ensures;

            assert(order@.subrange(0, order@.len() as int) =~= order@);
            assert(order@.to_multiset().len() == ranks(cells).to_multiset().len());
            assert(order@.len() == ranks(cells).len());
            let dm = distinct_moves(cells);
            assert forall|k: int| 0 <= k < dm.len() implies #[trigger] positions(moves@).contains(
                distinct_moves(cells)[k].0,
            ) by {
                let e = ranks(cells)[k];
                assert(e.2 as int == k);
                assert(ranks(cells)[k] == e);
                assert(ranks(cells).contains(e));
                assert(ranks(cells).to_multiset().count(e) > 0);
                assert(order@.to_multiset().count(e) > 0);
                assert(order@.contains(e));
                let i = choose|i: int| 0 <= i < order@.len() && order@[i] == e;
                assert(moves@.map_values(|c: Coordinate| c.pos())[i] == moves@[i].pos());
                assert(moves@[i].pos() == dm[k].0);
                assert(positions(moves@)[i] == dm[k].0);
            }
            assert(names_every_group(cells, moves@));
        }
        moves
    }

    /// Settles column `x` of `data` by gravity and leaves the other cells
    /// as they are.
    fn settle_column(data: &mut Vec<Point>, x: usize)
        requires
            old(data)@.len() == CELLS,
            x < WIDTH,
        ensures
            final(data)@.len() == CELLS,
            column(final(data)@, x as int) == settle(column(old(data)@, x as int)),
            forall|i: int|
                0 <= i < CELLS && !(x * HEIGHT <= i < x * HEIGHT + HEIGHT) ==> final(data)@[i]
                    == old(data)@[i],
    {
        let ghost orig = data@;
        let ghost col = column(orig, x as int);
        let base: usize = x * HEIGHT;
        let mut fill: usize = 0;
        let mut i: usize = HEIGHT;
        while i > 0
            invariant
                data@.len() == CELLS,
                base == x * HEIGHT,
                x < WIDTH,
                col == column(orig, x as int),
                orig.len() == CELLS,
                col.len() == HEIGHT,
                i <= HEIGHT,
                fill == kept(col.subrange(i as int, HEIGHT as int)).len(),
                fill <= HEIGHT - i,
                forall|k: int| base <= k < base + i ==> data@[k] == orig[k],
                data@.subrange(base + HEIGHT - fill, base + HEIGHT) == kept(
                    col.subrange(i as int, HEIGHT as int),
                ),
                forall|k: int|
                    0 <= k < CELLS && !(base <= k < base + HEIGHT) ==> data@[k] == orig[k],
            decreases i,
        {
            i = i - 1;
            let ghost before = data@;
            let ghost rest = col.subrange(i as int + 1, HEIGHT as int);
            proof {
                assert(col.subrange(i as int, HEIGHT as int).drop_first() =~= rest);
                lemma_kept_len(rest);
            }
            let p = data[base + i];
            assert(p == col[i as int]);
            if p != Point::Empty {
                data.set(base + (HEIGHT - 1 - fill), p);
                fill = fill + 1;
                assert(data@.subrange(base + HEIGHT - fill, base + HEIGHT) =~= seq![p]
                    + before.subrange(base + HEIGHT - (fill - 1), base + HEIGHT));
            }
        }
        let ghost filled = data@;
        proof {
            assert(col.subrange(0, HEIGHT as int) =~= col);
            lemma_kept_len(col);
        }
        let top: usize = HEIGHT - fill;
        let mut j: usize = 0;
        while j < top
            invariant
                data@.len() == CELLS,
                base == x * HEIGHT,
                x < WIDTH,
                top == HEIGHT - fill,
                filled.len() == CELLS,
                fill <= HEIGHT,
                j <= top,
                forall|k: int| base <= k < base + j ==> data@[k] == Point::Empty,
                forall|k: int| 0 <= k < CELLS && !(base <= k < base + j) ==> data@[k] == filled[k],
            decreases top - j,
        {
            data.set(base + j, Point::Empty);
            j = j + 1;
        }
        assert(data@.subrange(base + top, base + HEIGHT) =~= filled.subrange(
            base + top,
            base + HEIGHT,
        ));
        assert(column(data@, x as int) =~= settle(col));
    }

    fn apply_gravity(&mut self)
        requires
            old(self).wf(),
        ensures
            final(self).wf(),
            final(self).data@ == gravity(old(self).data@),
            final(self).moves == old(self).moves,
    {
        let ghost orig = self.data@;
        let mut x: usize = 0;
        while x < WIDTH
            invariant
                self.wf(),
                x <= WIDTH,
                self.moves == old(self).moves,
                orig.len() == CELLS,
                forall|k: int| 0 <= k < x ==> column(self.data@, k) == settle(column(orig, k)),
                forall|i: int| x * HEIGHT <= i < CELLS ==> self.data@[i] == orig[i],
            decreases WIDTH - x,
        {
            let ghost before = self.data@;
            Board::settle_column(&mut self.data, x);
            proof {
                assert forall|k: int| 0 <= k < x implies column(self.data@, k) == settle(
                    column(orig, k),
                ) by {
                    assert(column(self.data@, k) =~= column(before, k));
                }
                assert(column(before, x as int) =~= column(orig, x as int));
            }
            x = x + 1;
        }
        proof {
            assert forall|i: int| 0 <= i < CELLS implies self.data@[i] == gravity(orig)[i] by {
                let c = coord_of(i);
                lemma_index_of(i);
                assert(column(self.data@, c.0)[c.1] == self.data@[i]);
            }
            assert(self.data@ =~= gravity(orig));
        }
    }

    /// Marks, from `(x, y)` outward, every unmarked cell of `color` that is
    /// connected to it.
    fn recurse_neighbors(
        &self,
        marks: &mut Vec<bool>,
        color: Point,
        x: usize,
        y: usize,
        Ghost(seed): Ghost<(int, int)>,
    )
        requires
            self.wf(),
            x < WIDTH,
            y < HEIGHT,
            in_bounds(seed),
            old(marks)@.len() == CELLS,
            color == cell_at(self.data@, seed),
            old(marks)@[cell_index((x as int, y as int))],
            marks_in_group(self.data@, seed, old(marks)@),
        ensures
            grows(old(marks)@, final(marks)@),
            marks_in_group(self.data@, seed, final(marks)@),
            closed(self.data@, color, final(marks)@, (x as int, y as int)),
            forall|a: (int, int)|
                in_bounds(a) && #[trigger] final(marks)@[cell_index(a)] && !old(
                    marks,
                )@[cell_index(a)] ==> closed(self.data@, color, final(marks)@, a),
        decreases unmarked(old(marks)@), 1nat,
    {
        let ghost start = marks@;
        let ghost here = (x as int, y as int);
        let mut d: usize = 0;
        while d < 4
            invariant
                self.wf(),
                x < WIDTH,
                y < HEIGHT,
                here == (x as int, y as int),
                in_bounds(seed),
                color == cell_at(self.data@, seed),
                start == old(marks)@,
                start.len() == CELLS,
                start[cell_index(here)],
                grows(start, marks@),
                marks_in_group(self.data@, seed, marks@),
                forall|a: (int, int)|
                    in_bounds(a) && #[trigger] marks@[cell_index(a)] && !start[cell_index(a)]
                        ==> closed(self.data@, color, marks@, a),
                forall|e: int|
                    0 <= e < d && (#[trigger] neighbor_spec(x as int, y as int, e)).is_some()
                        && cell_at(self.data@, neighbor_spec(x as int, y as int, e).unwrap())
                        == color ==> marks@[cell_index(
                        neighbor_spec(x as int, y as int, e).unwrap(),
                    )],
            decreases 4 - d,
        {
            let ghost before = marks@;
            if let Some(nb) = Board::neighbor(x, y, d) {
                proof {
                    assert(adjacent(here, nb.pos()));
                    assert(in_group(self.data@, seed, here));
                    if cell_at(self.data@, nb.pos()) == color {
                        lemma_group_extends(self.data@, seed, here, nb.pos());
                    }
                }
                self.visit(marks, color, nb.x, nb.y, Ghost(seed), Ghost(start));
                proof {
                    assert forall|a: (int, int)|
                        in_bounds(a) && #[trigger] marks@[cell_index(a)] && !start[cell_index(
                            a,
                        )] implies closed(self.data@, color, marks@, a) by {
                        if before[cell_index(a)] {
                            lemma_closed_grows(self.data@, color, before, marks@, a);
                        }
                    }
                }
            }
            proof {
                assert(grows(before, marks@));
                assert forall|e: int|
                    0 <= e < d + 1 && (#[trigger] neighbor_spec(x as int, y as int, e)).is_some()
                        && cell_at(self.data@, neighbor_spec(x as int, y as int, e).unwrap())
                        == color implies marks@[cell_index(
                        neighbor_spec(x as int, y as int, e).unwrap(),
                    )] by {
                    if e < d {
                        assert(before[cell_index(neighbor_spec(x as int, y as int, e).unwrap())]);
                    }
                }
            }
            d = d + 1;
        }
        proof {
            assert forall|b: (int, int)|
                adjacent(here, b) && cell_at(self.data@, b) == color implies #[trigger] marks@[cell_index(b)] by {
                lemma_adjacent_is_neighbor(here, b);
            }
        }
    }

    /// Marks `(x, y)` and floods on from it, if it has `color` and is not
    /// marked yet.
    fn visit(
        &self,
        marks: &mut Vec<bool>,
        color: Point,
        x: usize,
        y: usize,
        Ghost(seed): Ghost<(int, int)>,
        Ghost(start): Ghost<Seq<bool>>,
    )
        requires
            self.wf(),
            x < WIDTH,
            y < HEIGHT,
            in_bounds(seed),
            old(marks)@.len() == CELLS,
            color == cell_at(self.data@, seed),
            cell_at(self.data@, (x as int, y as int)) == color ==> in_group(
                self.data@,
                seed,
                (x as int, y as int),
            ),
            marks_in_group(self.data@, seed, old(marks)@),
            grows(start, old(marks)@),
        ensures
            grows(old(marks)@, final(marks)@),
            marks_in_group(self.data@, seed, final(marks)@),
            cell_at(self.data@, (x as int, y as int)) == color ==> final(marks)@[cell_index(
                (x as int, y as int),
            )],
            forall|a: (int, int)|
                in_bounds(a) && #[trigger] final(marks)@[cell_index(a)] && !old(
                    marks,
                )@[cell_index(a)] ==> closed(self.data@, color, final(marks)@, a),
            unmarked(final(marks)@) <= unmarked(old(marks)@),
        decreases unmarked(start), 0nat,
    {
        let i = Board::get_index(x, y);
        if self.data[i] == color && !marks[i] {
            let ghost before = marks@;
            marks.set(i, true);
            proof {
                lemma_unmarked_grows(start, before);
                lemma_unmarked_shrinks(before, marks@, i as int);
                assert forall|a: (int, int)|
                    in_bounds(a) && #[trigger] marks@[cell_index(a)] implies in_group(
                    self.data@,
                    seed,
                    a,
                ) by {
                    if cell_index(a) != i as int {
                        assert(before[cell_index(a)]);
                    } else {
                        assert(a == (x as int, y as int));
                    }
                }
            }
            let ghost mid = marks@;
            self.recurse_neighbors(marks, color, x, y, Ghost(seed));
            proof {
                lemma_unmarked_grows(mid, marks@);
                assert(grows(before, mid));
                assert(mid[i as int]);
                assert(marks@[i as int]);
                assert forall|j: int| 0 <= j < before.len() && #[trigger] before[j] implies marks@[j] by {
                    assert(mid[j]);
                }
                assert forall|a: (int, int)|
                    in_bounds(a) && #[trigger] marks@[cell_index(a)] && !before[cell_index(
                        a,
                    )] implies closed(self.data@, color, marks@, a) by {
                    if mid[cell_index(a)] {
                        assert(a == (x as int, y as int));
                    }
                }
            }
        }
    }
}

} // verus!
