use crate::board::{
    after_move, all_empty, coord_of, distinct_moves, distinct_upto, in_bounds, in_group,
    is_first_of_group, lemma_coord_of, lemma_in_listed_group, lemma_same_group_same_move,
    names_every_group, positions, prioritized, valid_move, Board, Coordinate, Point, CELLS,
};
use rayon::iter::{IntoParallelRefIterator, ParallelIterator};
use std::collections::HashMap;
use std::sync::atomic::{AtomicUsize, Ordering};
use vstd::prelude::*;
use vstd::rwlock::{RwLock, RwLockPredicate};

verus! {

/// No solution longer than this many moves is looked for.
pub const MAX_DEPTH: usize = 13;

/// The bound on solution length before any solution is known; larger than
/// any length the search can reach.
pub const INITIAL_BEST: usize = 100;

/// The grid reached by playing `ms` in order from `cells`, if every move
/// names a non-empty cell when it is played.
pub open spec fn play(cells: Seq<Point>, ms: Seq<Coordinate>) -> Option<Seq<Point>>
    decreases ms.len(),
{
    if ms.len() == 0 {
        Some(cells)
    } else if valid_move(cells, ms[0].pos()) {
        play(after_move(cells, ms[0].pos()), ms.drop_first())
    } else {
        None
    }
}

/// `s` starts with the moves already made on `b`, and the moves after those,
/// played from the grid of `b`, empty it.
pub open spec fn solves(b: Board, s: Seq<Coordinate>) -> bool {
    let n = b.moves@.len();
    &&& n <= s.len()
    &&& s.subrange(0, n as int) == b.moves@
    &&& match play(b.data@, s.skip(n as int)) {
        Some(c) => all_empty(c),
        None => false,
    }
}

proof fn lemma_solves_step(b: Board, child: Board, m: Coordinate, s: Seq<Coordinate>)
    requires
        valid_move(b.data@, m.pos()),
        child.data@ == after_move(b.data@, m.pos()),
        child.moves@ == b.moves@.push(m),
        solves(child, s),
    ensures
        solves(b, s),
{
    let n = b.moves@.len() as int;
    assert(s.subrange(0, n) =~= s.subrange(0, n + 1).subrange(0, n));
    assert(s.subrange(0, n + 1) == b.moves@.push(m));
    assert(b.moves@.push(m).subrange(0, n) =~= b.moves@);
    assert(s.subrange(0, n) == b.moves@);
    assert(s[n] == s.subrange(0, n + 1)[n]);
    assert(s[n] == m);
    let rest = s.skip(n);
    assert(rest[0] == m);
    assert(rest.drop_first() =~= s.skip(n + 1));
    assert(play(b.data@, rest) == play(after_move(b.data@, m.pos()), rest.drop_first()));
}

/// What is known of the result `r` of exploring move `m` from `b`, whatever
/// the other branches have done meanwhile: nothing for a move that is not
/// allowed, the history plus `m` for a move that empties the grid, and
/// otherwise, if anything, a solution of at least one more move within the
/// depth bound.
pub open spec fn explored(b: Board, m: Coordinate, r: Option<Vec<Coordinate>>) -> bool {
    &&& !valid_move(b.data@, m.pos()) ==> r is None
    &&& valid_move(b.data@, m.pos()) && all_empty(after_move(b.data@, m.pos())) ==> r is Some
        && r->Some_0@ == b.moves@.push(m)
    &&& r is Some ==> solves(b, r->Some_0@) && r->Some_0@.len() > b.moves@.len()
    &&& r is Some && b.moves@.len() < MAX_DEPTH ==> r->Some_0@.len() <= MAX_DEPTH
}

proof fn lemma_no_groups(cells: Seq<Point>, n: nat)
    requires
        all_empty(cells),
        cells.len() == CELLS,
    ensures
        distinct_upto(cells, n).len() == 0,
    decreases n,
{
    if n > 0 {
        lemma_no_groups(cells, (n - 1) as nat);
        let t = coord_of(n - 1);
        if in_bounds(t) {
            lemma_coord_of(t);
        }
    }
}

/// A grid reached after `move_count` moves is explored unless the memo
/// table already records it at a count as low.
pub open spec fn admitted(existing: Option<usize>, move_count: int) -> bool {
    match existing {
        Some(c) => move_count < c,
        None => true,
    }
}

/// `r` is the first of the shortest solutions among `results`, and `None`
/// exactly when none of them is a solution.
pub open spec fn first_shortest(results: Seq<Option<Vec<Coordinate>>>, r: Option<Vec<Coordinate>>) -> bool {
    &&& r is None <==> forall|i: int| 0 <= i < results.len() ==> results[i] is None
    &&& r is Some ==> exists|i: int|
        0 <= i < results.len() && results[i] == r && (forall|j: int|
            0 <= j < results.len() && #[trigger] results[j] is Some ==> r->Some_0@.len()
                <= results[j]->Some_0@.len()) && (forall|j: int|
            0 <= j < i && #[trigger] results[j] is Some ==> r->Some_0@.len()
                < results[j]->Some_0@.len())
}

/// `moves` are the prioritized moves of `b`, and `results[i]` is what
/// exploring `moves[i]` gave.
pub open spec fn branch_results(b: Board, moves: Seq<Coordinate>, results: Seq<Option<Vec<Coordinate>>>) -> bool {
    &&& prioritized(b.data@, positions(moves))
    &&& moves.len() == distinct_moves(b.data@).len()
    &&& forall|i: int| 0 <= i < moves.len() ==> is_first_of_group(b.data@, #[trigger] moves[i].pos())
    &&& names_every_group(b.data@, moves)
    &&& results.len() == moves.len()
    &&& forall|i: int| 0 <= i < results.len() ==> explored(b, moves[i], #[trigger] results[i])
}

/// Some single move empties the grid.
pub open spec fn one_move_clears(cells: Seq<Point>) -> bool {
    exists|m: (int, int)| valid_move(cells, m) && all_empty(#[trigger] after_move(cells, m))
}

/// What a node of the search returns once it has read the shared state:
/// `bound`, the best length known then, and `seen`, the count the memo
/// table held for its grid (not read when the bound already prunes). If
/// neither prunes, the first shortest result among its moves.
pub open spec fn node_outcome(
    b: Board,
    bound: usize,
    seen: Option<usize>,
    moves: Seq<Coordinate>,
    kids: Seq<Option<Vec<Coordinate>>>,
    r: Option<Vec<Coordinate>>,
) -> bool {
    let n = b.moves@.len() as int;
    if n >= bound {
        r is None
    } else if !admitted(seen, n) {
        r is None
    } else {
        branch_results(b, moves, kids) && first_shortest(kids, r)
    }
}

/// Picking the first shortest result among the moves of a board gives a
/// solution with at least one more move, and exactly one more when one
/// move empties the grid.
proof fn lemma_pick(b: Board, moves: Seq<Coordinate>, results: Seq<Option<Vec<Coordinate>>>, r: Option<Vec<Coordinate>>)
    requires
        b.wf(),
        branch_results(b, moves, results),
        first_shortest(results, r),
    ensures
        r is Some ==> solves(b, r->Some_0@) && r->Some_0@.len() > b.moves@.len(),
        r is Some && b.moves@.len() < MAX_DEPTH ==> r->Some_0@.len() <= MAX_DEPTH,
        one_move_clears(b.data@) ==> r is Some && r->Some_0@.len() == b.moves@.len() + 1,
        all_empty(b.data@) ==> r is None,
{
    let cells = b.data@;
    if all_empty(cells) {
        lemma_no_groups(cells, CELLS as nat);
    }
    if one_move_clears(cells) {
        let m = choose|m: (int, int)| valid_move(cells, m) && all_empty(#[trigger] after_move(cells, m));
        lemma_in_listed_group(cells, m);
        let k = choose|k: int|
            0 <= k < distinct_moves(cells).len() && in_group(
                cells,
                (#[trigger] distinct_moves(cells)[k]).0,
                m,
            );
        let rep = distinct_moves(cells)[k].0;
        lemma_same_group_same_move(cells, rep, m);
        assert(positions(moves).contains(rep));
        let i = choose|i: int| 0 <= i < positions(moves).len() && positions(moves)[i] == rep;
        assert(moves[i].pos() == rep);
        assert(is_first_of_group(cells, moves[i].pos()));
        assert(explored(b, moves[i], results[i]));
        assert(results[i] is Some);
    }
    if r is Some {
        let i = choose|i: int|
            0 <= i < results.len() && results[i] == r && (forall|j: int|
                0 <= j < results.len() && #[trigger] results[j] is Some ==> r->Some_0@.len()
                    <= results[j]->Some_0@.len()) && (forall|j: int|
                0 <= j < i && #[trigger] results[j] is Some ==> r->Some_0@.len()
                    < results[j]->Some_0@.len());
        assert(results[i] is Some);
        assert(explored(b, moves[i], results[i]));
    }
}

/// The memo table admits any contents.
pub struct AnyTable;

impl RwLockPredicate<HashMap<Vec<u8>, usize>> for AnyTable {
    open spec fn inv(self, v: HashMap<Vec<u8>, usize>) -> bool {
        true
    }
}

/// A branch-and-bound search for a shortest sequence of moves that empties
/// a board. One solver shares its memo table and its best length among all
/// the branches it explores.
pub struct Solver {
    processed: RwLock<HashMap<Vec<u8>, usize>, AnyTable>,
    best_so_far: AtomicUsize,
}

/// Whether a board reached after `move_count` moves is worth exploring, given
/// the move count recorded for the same grid, if any.
pub fn admits(existing: Option<usize>, move_count: usize) -> (r: bool)
    ensures
        r == admitted(existing, move_count as int),
{
    match existing {
        Some(c) => move_count < c,
        None => true,
    }
}

/// After a failed attempt to lower the bound from `current` to `new`, where
/// another thread left `actual`: the value to try again from, if `new` still
/// improves on it. Every writer only lowers the bound, so `actual` is below
/// `current`; a value that is not gives up, as there is then nothing to win.
pub fn retry_with(current: usize, actual: usize, new: usize) -> (r: Option<usize>)
    ensures
        r == if new < actual && actual < current {
            Some(actual)
        } else {
            None::<usize>
        },
{
    if new < actual && actual < current {
        Some(actual)
    } else {
        None
    }
}

/// The first of the shortest solutions among `results`, if any is a solution.
pub fn shortest_solution(results: Vec<Option<Vec<Coordinate>>>) -> (r: Option<Vec<Coordinate>>)
    ensures
        first_shortest(results@, r),
{
    let mut best: Option<Vec<Coordinate>> = None;
    let ghost mut at: int = 0;
    let mut results = results;
    let ghost all = results@;
    assert(results@ =~= all.skip(0));
    let mut i: usize = 0;
    let n = results.len();
    while i < n
        invariant
            n == all.len(),
            i <= n,
            results@ == all.skip(i as int),
            best is None <==> forall|j: int| 0 <= j < i ==> all[j] is None,
            best is Some ==> 0 <= at < i && all[at] == best && (forall|j: int|
                0 <= j < i && #[trigger] all[j] is Some ==> best->Some_0@.len()
                    <= all[j]->Some_0@.len()) && (forall|j: int|
                0 <= j < at && #[trigger] all[j] is Some ==> best->Some_0@.len()
                    < all[j]->Some_0@.len()),
        decreases n - i,
    {
        let candidate = results.remove(0);
        assert(candidate == all[i as int]);
        assert(results@ =~= all.skip(i + 1));
        if let Some(sol) = candidate {
            let better = match &best {
                Some(b) => sol.len() < b.len(),
                None => true,
            };
            if better {
                best = Some(sol);
                proof {
                    at = i as int;
                }
            }
        }
        i = i + 1;
    }
    best
}

impl Solver {
    pub fn new() -> (r: Solver) {
        Solver {
            best_so_far: AtomicUsize::new(INITIAL_BEST),
            processed: RwLock::new(HashMap::new(), Ghost(AnyTable)),
        }
    }

    /// A shortest solution found for `board` within the depth bound: its
    /// moves, those already made on `board` first.
    pub fn solve(&self, board: Board) -> (r: Option<Vec<Coordinate>>)
        requires
            board.wf(),
        ensures
            all_empty(board.data@) ==> r is None,
            r is Some ==> solves(board, r->Some_0@),
            r is Some ==> r->Some_0@.len() > board.moves@.len(),
            r is Some && board.moves@.len() < MAX_DEPTH ==> r->Some_0@.len() <= MAX_DEPTH,
            one_move_clears(board.data@) ==> r is Some && r->Some_0@.len() == board.moves@.len()
                + 1,
    {
        let all_moves = board.get_prioritized_moves();
        let results = self.explore_in_parallel(&board, &all_moves);
        let r = shortest_solution(results);
        proof {
            lemma_pick(board, all_moves@, results@, r);
        }
        r
    }

    /// Relies on rayon's `par_iter().map(..).collect()` over a slice: one
    /// result per move, in the order of the moves, each the value that
    /// `explore_root_move` returned for it on rayon's worker pool.
    #[verifier::external_body]
    fn explore_in_parallel(&self, board: &Board, moves: &Vec<Coordinate>) -> (r: Vec<
        Option<Vec<Coordinate>>,
    >)
        requires
            board.wf(),
        ensures
            r@.len() == moves@.len(),
            forall|i: int|
                0 <= i < r@.len() ==> explored(*board, moves@[i], #[trigger] r@[i]),
    {
        moves.par_iter().map(|m| self.explore_root_move(board, m)).collect()
    }

    /// Plays `m` on a copy of `board` and searches on from there.
    fn explore_root_move(&self, board: &Board, m: &Coordinate) -> (r: Option<Vec<Coordinate>>)
        requires
            board.wf(),
        ensures
            explored(*board, *m, r),
    {
        let mut clone = board.duplicate();
        match clone.make_move(m.x, m.y) {
            Ok(()) => {},
            Err(_) => {
                return None;
            },
        }
        let (r, _) = self.solve_recursive(&clone);
        proof {
            if r is Some {
                lemma_solves_step(*board, clone, *m, r->Some_0@);
            }
        }
        r
    }

    /// Searches on from `board`. Beside the result it gives, as a ghost
    /// value, what it read of the shared state and what its moves gave:
    /// nothing when it stopped before reading (an empty grid, or the depth
    /// bound reached).
    fn solve_recursive(&self, board: &Board) -> (res: (
        Option<Vec<Coordinate>>,
        Ghost<Option<(usize, Option<usize>, Seq<Coordinate>, Seq<Option<Vec<Coordinate>>>)>>,
    ))
        requires
            board.wf(),
        ensures
            all_empty(board.data@) ==> res.0 is Some && res.0->Some_0@ == board.moves@,
            !all_empty(board.data@) && board.moves@.len() >= MAX_DEPTH ==> res.0 is None,
            res.1@ is None <==> (all_empty(board.data@) || board.moves@.len() >= MAX_DEPTH),
            res.1@ is Some ==> ({
                let (bound, seen, moves, kids) = res.1@->Some_0;
                node_outcome(*board, bound, seen, moves, kids, res.0)
            }),
            res.1@ is Some && one_move_clears(board.data@) ==> ({
                let (bound, seen, moves, kids) = res.1@->Some_0;
                board.moves@.len() < bound && admitted(seen, board.moves@.len() as int)
                    ==> res.0 is Some && res.0->Some_0@.len() == board.moves@.len() + 1
            }),
            res.0 is Some ==> solves(*board, res.0->Some_0@),
            res.0 is Some && board.moves@.len() <= MAX_DEPTH ==> res.0->Some_0@.len()
                <= MAX_DEPTH,
        decreases MAX_DEPTH - board.moves@.len(),
    {
        if board.is_solved() {
            let moves = board.duplicate().moves;
            proof {
                let n = board.moves@.len();
                assert(moves@.subrange(0, n as int) =~= board.moves@);
                assert(moves@.skip(n as int) =~= Seq::<Coordinate>::empty());
            }
            return (Some(moves), Ghost(None));
        }
        let move_count = board.moves.len();
        if move_count >= MAX_DEPTH {
            return (None, Ghost(None));
        }
        let bound = self.best_so_far.load(Ordering::SeqCst);
        if move_count >= bound {
            return (None, Ghost(Some((bound, None, Seq::empty(), Seq::empty()))));
        }
        let board_key = board.get_memo_key();
        let (go, Ghost(seen)) = self.should_process(&board_key, move_count);
        if !go {
            return (None, Ghost(Some((bound, seen, Seq::empty(), Seq::empty()))));
        }
        let prioritized_moves = board.get_prioritized_moves();
        let mut results: Vec<Option<Vec<Coordinate>>> = Vec::new();
        let mut k: usize = 0;
        while k < prioritized_moves.len()
            invariant
                board.wf(),
                board.moves@.len() < MAX_DEPTH,
                k <= prioritized_moves@.len(),
                results@.len() == k,
                forall|i: int|
                    0 <= i < prioritized_moves@.len() ==> is_first_of_group(
                        board.data@,
                        #[trigger] prioritized_moves@[i].pos(),
                    ),
                forall|i: int|
                    0 <= i < results@.len() ==> explored(
                        *board,
                        prioritized_moves@[i],
                        #[trigger] results@[i],
                    ),
            decreases prioritized_moves@.len() - k,
        {
            let m = prioritized_moves[k];
            assert(is_first_of_group(board.data@, prioritized_moves@[k as int].pos()));
            let mut clone = board.duplicate();
            let moved = clone.make_move(m.x, m.y);
            assert(moved is Ok);
            let (result, _) = self.solve_recursive(&clone);
            proof {
                if result is Some {
                    lemma_solves_step(*board, clone, m, result->Some_0@);
                }
            }
            results.push(result);
            k = k + 1;
        }
        let ghost kids = results@;
        let local_best_moves = shortest_solution(results);
        proof {
            lemma_pick(*board, prioritized_moves@, kids, local_best_moves);
        }
        if let Some(best) = &local_best_moves {
            self.update_best_so_far(best);
        }
        (local_best_moves, Ghost(Some((bound, seen, prioritized_moves@, kids))))
    }

    /// Lowers the shared best length to that of `local_best_moves`, unless it
    /// is already as low: read, install the lower value if the bound still
    /// holds what was read, and retry on what another thread put there.
    fn update_best_so_far(&self, local_best_moves: &Vec<Coordinate>) {
        let new = local_best_moves.len();
        let mut current = self.best_so_far.load(Ordering::SeqCst);
        while new < current
            decreases current,
        {
            match self.best_so_far.compare_exchange(current, new, Ordering::SeqCst, Ordering::SeqCst) {
                Ok(_) => {
                    return;
                },
                Err(actual) => {
                    match retry_with(current, actual, new) {
                        Some(next) => {
                            current = next;
                        },
                        None => {
                            return;
                        },
                    }
                },
            }
        }
    }

    /// Records that the grid with fingerprint `board_key` was reached after
    /// `move_count` moves, and says whether to explore it: not if the table
    /// already holds as low a count for it. Beside the decision it gives, as
    /// a ghost value, the count it decided on: the one seen under the shared
    /// lock when that already prunes, else the one seen under the exclusive
    /// lock.
    fn should_process(&self, board_key: &Vec<u8>, move_count: usize) -> (r: (bool, Ghost<Option<usize>>))
        ensures
            r.0 == admitted(r.1@, move_count as int),
    {
        let read_handle = self.processed.acquire_read();
        let seen = match read_handle.borrow().get(board_key) {
            Some(c) => Some(*c),
            None => None,
        };
        read_handle.release_read();
        if !admits(seen, move_count) {
            return (false, Ghost(seen));
        }
        let (mut map, write_handle) = self.processed.acquire_write();
        let (decision, Ghost(existing)) = record(&mut map, board_key, move_count);
        write_handle.release_write(map);
        (decision, Ghost(existing))
    }
}

/// The step taken under the exclusive lock: looks up `key`, and records
/// `move_count` for it when the count found admits the grid. Gives the
/// decision and, as a ghost value, the count found.
fn record(map: &mut HashMap<Vec<u8>, usize>, key: &Vec<u8>, move_count: usize) -> (r: (
    bool,
    Ghost<Option<usize>>,
))
    ensures
        r.0 == admitted(r.1@, move_count as int),
{
    let existing = match map.get(key) {
        Some(c) => Some(*c),
        None => None,
    };
    let decision = admits(existing, move_count);
    if decision {
        map.insert(key.clone(), move_count);
    }
    (decision, Ghost(existing))
}

} // verus!
