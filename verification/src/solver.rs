//! The search engine: iterative-deepening depth-first search, plain
//! (IDDFS) or pruned by an admissible heuristic (IDA*), with cycle
//! avoidance along the current path and a per-iteration memo of states
//! proven dead at a depth.

use vstd::prelude::*;
use vstd::string::StringExecFns;
use crate::board::{
    Board, BoardV, Directions, Heuristics, apply_move, dir_legal, legal_dirs, size_ok,
    spec_heuristic, spec_manhattan, target_board_v, target_cells, lemma_target_wf,
    lemma_heuristic_zero_at_target, lemma_legal_dirs_are_legal, lemma_apply_move_wf,
    lemma_manhattan_zero_iff_target, lemma_manhattan_move_bound, lemma_same_cells_same_board,
};
use crate::grid_ext::grid_from_vec;

verus! {

/// Which search to run.
#[derive(PartialEq)]
pub enum Algo {
    /// Out of scope: running it is a no-op that leaves the engine as it
    /// was.
    ASTAR,
    /// Iterative deepening bounded by `depth + heuristic(state)`.
    IDASTAR,
    /// IDA* with the heuristic forced to NONE.
    IDDFS,
}

/// Every move in `ms` is legal when played from `v` in order.
pub open spec fn path_ok(v: BoardV, ms: Seq<Directions>) -> bool
    decreases ms.len(),
{
    ms.len() == 0 || (dir_legal(v, ms[0]) && path_ok(apply_move(v, ms[0]), ms.skip(1)))
}

/// The board after playing `ms` from `v` in order.
pub open spec fn apply_path(v: BoardV, ms: Seq<Directions>) -> BoardV
    decreases ms.len(),
{
    if ms.len() == 0 {
        v
    } else {
        apply_path(apply_move(v, ms[0]), ms.skip(1))
    }
}

/// Playing one more move extends a path.
pub proof fn lemma_path_push(v: BoardV, ms: Seq<Directions>, d: Directions)
    ensures
        path_ok(v, ms.push(d)) == (path_ok(v, ms) && dir_legal(apply_path(v, ms), d)),
        path_ok(v, ms) ==> apply_path(v, ms.push(d)) == apply_move(apply_path(v, ms), d),
    decreases ms.len(),
{
    reveal_with_fuel(path_ok, 3);
    reveal_with_fuel(apply_path, 3);
    if ms.len() == 0 {
        assert(ms.push(d).skip(1) =~= Seq::<Directions>::empty());
        assert(ms.push(d)[0] == d);
    } else {
        assert(ms.push(d).skip(1) =~= ms.skip(1).push(d));
        assert(ms.push(d)[0] == ms[0]);
        lemma_path_push(apply_move(v, ms[0]), ms.skip(1), d);
        assert(path_ok(v, ms.push(d)) == (dir_legal(v, ms[0]) && path_ok(
            apply_move(v, ms[0]),
            ms.skip(1).push(d),
        )));
        assert(path_ok(v, ms) == (dir_legal(v, ms[0]) && path_ok(
            apply_move(v, ms[0]),
            ms.skip(1),
        )));
        if path_ok(v, ms) {
            assert(apply_path(v, ms.push(d)) == apply_path(apply_move(v, ms[0]), ms.skip(1).push(d)));
            assert(apply_path(v, ms) == apply_path(apply_move(v, ms[0]), ms.skip(1)));
        }
    }
}

/// What `solution_path_to_string` renders for one move.
pub open spec fn dir_text(d: Directions) -> Seq<char> {
    match d {
        Directions::DOWN => "DOWN "@,
        Directions::UP => "UP "@,
        Directions::LEFT => "LEFT "@,
        Directions::RIGHT => "RIGHT "@,
    }
}

/// The rendering of the first `i` moves, in order.
pub open spec fn path_text_prefix(ms: Seq<Directions>, i: int) -> Seq<char>
    decreases i,
{
    if i <= 0 {
        Seq::<char>::empty()
    } else {
        path_text_prefix(ms, i - 1) + dir_text(ms[i - 1])
    }
}

/// The rendering of a move path: the moves' names, upper case, each
/// followed by one space.
pub open spec fn path_text(ms: Seq<Directions>) -> Seq<char> {
    path_text_prefix(ms, ms.len() as int)
}

/// The search engine for one board size: the solved board it aims for,
/// whether a search has succeeded, the recorded solution path, and the
/// per-iteration memo of (state, depth) pairs proven dead.
pub struct Solver {
    target: Board,
    /// Whether a solve call has found a solution.
    pub is_over: bool,
    /// The solution the last successful search recorded.
    pub solution_path: Vec<Directions>,
    visited_cache: Vec<(Board, usize)>,
}

impl Solver {
    /// The model of the engine's solved board.
    pub closed spec fn target_v(&self) -> BoardV {
        self.target@
    }

    /// Whether a solve call has succeeded, as the contracts see it.
    pub closed spec fn solved(&self) -> bool {
        self.is_over
    }

    /// The recorded solution path, as the contracts see it.
    pub closed spec fn solution(&self) -> Seq<Directions> {
        self.solution_path@
    }

    /// The engine's representation invariant: its target is the
    /// well-formed solved board of its side, and every cached board is a
    /// valid, well-formed board.
    pub closed spec fn inv(&self) -> bool {
        &&& self.target.inv()
        &&& self.target@.wf()
        &&& self.target@ == target_board_v(self.target@.n)
        &&& forall|i: int|
            0 <= i < self.visited_cache@.len() ==> (#[trigger] self.visited_cache@[i].0).inv()
                && self.visited_cache@[i].0@.wf()
    }

    /// How many (state, depth) pairs the per-iteration memo holds.
    pub closed spec fn cache_len(&self) -> nat {
        self.visited_cache@.len()
    }

    /// Builds an engine for side `n`: the target holds `1, 2, ...,
    /// n*n - 1, 0`, no search has run, and the caches are empty.
    pub fn new(n: usize) -> (r: Solver)
        requires
            1 <= n,
            n * n <= usize::MAX,
        ensures
            r.inv(),
            r.target_v() == target_board_v(n as nat),
            !r.solved(),
            r.solution().len() == 0,
            r.cache_len() == 0,
    {
        let mut target_vec: Vec<usize> = Vec::new();
        let end = n * n;
        proof {
            assert(1 * 1 <= n * n) by (nonlinear_arith)
                requires
                    1 <= n,
            ;
        }
        let mut v: usize = 1;
        while v < end
            invariant
                1 <= v <= end,
                end == n * n,
                target_vec@.len() == v - 1,
                forall|i: int| 0 <= i < v - 1 ==> #[trigger] target_vec@[i] == i + 1,
            decreases end - v,
        {
            target_vec.push(v);
            v = v + 1;
        }
        target_vec.push(0);
        proof {
            lemma_target_wf(n as nat);
            assert(target_vec@ =~= target_cells(n as nat));
            vstd::arithmetic::div_mod::lemma_mod_multiples_basic(n as int, n as int);
        }
        let target_grid = grid_from_vec(target_vec, n);
        let target = Board::new(target_grid, n, (n - 1, n - 1));
        Solver { target, is_over: false, solution_path: Vec::new(), visited_cache: Vec::new() }
    }

    /// The engine's solved board.
    pub fn target(&self) -> (r: &Board)
        ensures
            r@ == self.target_v(),
            self.inv() ==> r.inv(),
    {
        &self.target
    }

    /// Whether `board` already is the solved board.
    pub fn is_target(&self, board: &Board) -> (r: bool)
        requires
            self.inv(),
            board.inv(),
        ensures
            r == (board@.cells == self.target_v().cells && board@.n == self.target_v().n),
    {
        self.target.equals(board)
    }

    /// Renders the last search's outcome: a fixed sentence when no
    /// solution was found or when the board was already solved, else the
    /// moves in order.
    pub fn solution_path_to_string(&self) -> (r: String)
        ensures
            !self.solved() ==> r@ == "No solution!"@,
            self.solved() && self.solution().len() == 0 ==> r@ == "Puzzle is already won!"@,
            self.solved() && self.solution().len() > 0 ==> r@ == path_text(self.solution()),
    {
        if !self.is_over {
            return "No solution!".to_owned();
        }
        if self.solution_path.is_empty() {
            return "Puzzle is already won!".to_owned();
        }
        let mut solution = String::new();
        let count = self.solution_path.len();
        for i in 0..count
            invariant
                count == self.solution_path@.len(),
                solution@ == path_text_prefix(self.solution_path@, i as int),
        {
            match self.solution_path[i] {
                Directions::DOWN => solution.append("DOWN "),
                Directions::UP => solution.append("UP "),
                Directions::LEFT => solution.append("LEFT "),
                Directions::RIGHT => solution.append("RIGHT "),
            }
        }
        solution
    }
}

} // verus!
// Solutions, admissible heuristics, and what the memo means.
verus! {

/// `ms` solves `v`: every move is legal in order and the final cells are
/// the solved arrangement for `v`'s side.
pub open spec fn solves(v: BoardV, ms: Seq<Directions>) -> bool {
    path_ok(v, ms) && apply_path(v, ms).cells == target_cells(v.n)
}

/// A heuristic is admissible: it never exceeds the length of any solution
/// of any well-formed board.
pub open spec fn admissible(h: Heuristics) -> bool {
    forall|v: BoardV, ms: Seq<Directions>|
        v.wf() && #[trigger] solves(v, ms) ==> spec_heuristic(v, h) <= ms.len()
}

/// No solution of `v` is shorter than `bound`.
pub open spec fn no_solution_below(v: BoardV, bound: int) -> bool {
    forall|ms: Seq<Directions>| #[trigger] solves(v, ms) ==> ms.len() >= bound
}

/// The boards visited while playing `ms` from `v` are pairwise distinct:
/// the path is free of cycles.
pub open spec fn states_distinct(v: BoardV, ms: Seq<Directions>) -> bool {
    forall|a: int, b: int|
        0 <= a < b <= ms.len() ==> (#[trigger] apply_path(v, ms.take(a))).cells != (
        #[trigger] apply_path(v, ms.take(b))).cells
}

/// Splitting a path at a prefix.
pub proof fn lemma_path_concat(v: BoardV, a: Seq<Directions>, b: Seq<Directions>)
    ensures
        path_ok(v, a + b) == (path_ok(v, a) && path_ok(apply_path(v, a), b)),
        path_ok(v, a) ==> apply_path(v, a + b) == apply_path(apply_path(v, a), b),
    decreases a.len(),
{
    reveal_with_fuel(path_ok, 3);
    reveal_with_fuel(apply_path, 3);
    if a.len() == 0 {
        assert(a + b =~= b);
    } else {
        assert((a + b)[0] == a[0]);
        assert((a + b).skip(1) =~= a.skip(1) + b);
        lemma_path_concat(apply_move(v, a[0]), a.skip(1), b);
    }
}

/// A prefix of a legal path is legal.
pub proof fn lemma_path_take(v: BoardV, ms: Seq<Directions>, i: int)
    requires
        path_ok(v, ms),
        0 <= i <= ms.len(),
    ensures
        path_ok(v, ms.take(i)),
    decreases i,
{
    reveal_with_fuel(path_ok, 2);
    if i > 0 {
        assert(ms.take(i)[0] == ms[0]);
        assert(ms.take(i).skip(1) =~= ms.skip(1).take(i - 1));
        lemma_path_take(apply_move(v, ms[0]), ms.skip(1), i - 1);
    } else {
        assert(ms.take(0) =~= Seq::<Directions>::empty());
    }
}

/// A legal path out of a well-formed board keeps every board along it
/// well formed, with the same side.
pub proof fn lemma_path_wf(v: BoardV, ms: Seq<Directions>)
    requires
        v.wf(),
        path_ok(v, ms),
    ensures
        apply_path(v, ms).wf(),
        apply_path(v, ms).n == v.n,
    decreases ms.len(),
{
    if ms.len() > 0 {
        lemma_apply_move_wf(v, ms[0]);
        lemma_path_wf(apply_move(v, ms[0]), ms.skip(1));
    }
}

/// The constant-zero heuristic is admissible.
pub proof fn lemma_none_admissible()
    ensures
        admissible(Heuristics::NONE),
{
}

/// A board's Manhattan distance bounds every solution's length: one move
/// changes it by at most one, and it is zero on the solved board.
proof fn lemma_manhattan_solution_bound(v: BoardV, ms: Seq<Directions>)
    requires
        v.wf(),
        solves(v, ms),
    ensures
        spec_manhattan(v) <= ms.len(),
    decreases ms.len(),
{
    if ms.len() == 0 {
        lemma_manhattan_zero_iff_target(v);
    } else {
        let w = apply_move(v, ms[0]);
        lemma_apply_move_wf(v, ms[0]);
        assert(solves(w, ms.skip(1)));
        lemma_manhattan_solution_bound(w, ms.skip(1));
        lemma_manhattan_move_bound(v, ms[0]);
    }
}

/// The Manhattan heuristic is admissible.
pub proof fn lemma_manhattan_admissible()
    ensures
        admissible(Heuristics::MANHATTAN),
{
    assert forall|v: BoardV, ms: Seq<Directions>|
        v.wf() && #[trigger] solves(v, ms) implies spec_heuristic(v, Heuristics::MANHATTAN)
        <= ms.len() by {
        lemma_manhattan_solution_bound(v, ms);
    }
}

/// Every memoized (state, depth) pair truly is dead at the given bound: no
/// solution of the state fits the remaining budget.
spec fn cache_dead_ok(cache: Seq<(Board, usize)>, bound: int) -> bool {
    forall|i: int, ms: Seq<Directions>|
        0 <= i < cache.len() && #[trigger] solves(cache[i].0@, ms) ==> ms.len() + cache[i].1
            > bound
}

/// Some memoized pair matches the given state and depth by cells and side.
spec fn cache_has(cache: Seq<(Board, usize)>, v: BoardV, d: usize) -> bool {
    exists|j: int|
        0 <= j < cache.len() && (#[trigger] cache[j]).1 == d && cache[j].0@.cells == v.cells
            && cache[j].0@.n == v.n
}

} // verus!
// The bounded depth-first search.
verus! {

/// Copies a move path.
fn copy_path(path: &Vec<Directions>) -> (r: Vec<Directions>)
    ensures
        r@ == path@,
{
    let mut r: Vec<Directions> = Vec::new();
    let len = path.len();
    for i in 0..len
        invariant
            len == path@.len(),
            r@ == path@.take(i as int),
    {
        r.push(path[i]);
        proof {
            assert(r@ =~= path@.take(i as int + 1));
        }
    }
    proof {
        assert(path@.take(len as int) =~= path@);
    }
    r
}

impl Solver {
    /// Depth-bounded depth-first search from `current_board`, reached from
    /// the ghost start `init` by the moves in `path`. `path_states` holds
    /// exactly the boards along that path for cycle avoidance; both are
    /// returned as they came. A recorded solution extends the given path
    /// with a legal move sequence from `current_board` into the target,
    /// all within the bound. A pruned call (bound exceeded, or the state
    /// already memoized at this depth) changes nothing. Under an
    /// admissible heuristic, at a bound that no solution of the start
    /// undercuts, and with a memo of truly dead entries, the search
    /// succeeds whenever some solution of `current_board` fits the
    /// remaining budget, and a failed search leaves only truly dead memo
    /// entries behind.
    #[verifier::rlimit(100)]
    fn dfs(
        &mut self,
        Ghost(init): Ghost<BoardV>,
        current_board: Board,
        path: &mut Vec<Directions>,
        path_states: &mut Vec<Board>,
        depth: usize,
        max_depth: usize,
        heuristic: &Heuristics,
    )
        requires
            old(self).inv(),
            current_board.inv(),
            current_board@.wf(),
            current_board@.n == old(self).target_v().n,
            size_ok(current_board@.n),
            init.wf(),
            old(path)@.len() == depth,
            depth <= max_depth + 1,
            max_depth < usize::MAX,
            path_ok(init, old(path)@),
            apply_path(init, old(path)@) == current_board@,
            old(path_states)@.len() == depth + 1,
            forall|i: int|
                0 <= i <= depth ==> (#[trigger] old(path_states)@[i])@ == apply_path(
                    init,
                    old(path)@.take(i),
                ),
            forall|i: int|
                0 <= i < old(path_states)@.len() ==> (#[trigger] old(path_states)@[i]).inv(),
            forall|a: int, b: int|
                0 <= a < b <= depth ==> (#[trigger] old(path_states)@[a])@.cells != (
                #[trigger] old(path_states)@[b])@.cells,
        ensures
            final(self).inv(),
            final(self).target_v() == old(self).target_v(),
            final(path)@ == old(path)@,
            final(path_states)@ == old(path_states)@,
            old(self).solved() ==> *final(self) == *old(self),
            !final(self).solved() ==> final(self).solution() == old(self).solution(),
            final(self).solved() && !old(self).solved() ==> {
                &&& path_ok(init, final(self).solution())
                &&& apply_path(init, final(self).solution()).cells == final(self).target_v().cells
                &&& final(self).solution().len() <= max_depth
            },
            final(self).solved() && !old(self).solved() ==> (exists|tail: Seq<Directions>|
                final(self).solution() == old(path)@ + tail && #[trigger] solves(
                    current_board@,
                    tail,
                ) && tail.len() + depth <= max_depth),
            final(self).solved() && !old(self).solved() ==> states_distinct(
                init,
                final(self).solution(),
            ),
            (!final(self).solved() && !old(self).solved() && depth + spec_heuristic(
                current_board@,
                *heuristic,
            ) <= max_depth && !cache_has(old(self).visited_cache@, current_board@, depth)
                && current_board@.cells != old(self).target_v().cells) ==> cache_has(
                final(self).visited_cache@,
                current_board@,
                depth,
            ),
            (!old(self).solved() && depth + spec_heuristic(current_board@, *heuristic)
                > max_depth) ==> *final(self) == *old(self),
            (!old(self).solved() && depth + spec_heuristic(current_board@, *heuristic)
                <= max_depth && cache_has(old(self).visited_cache@, current_board@, depth))
                ==> *final(self) == *old(self),
            (!old(self).solved() && !cache_has(old(self).visited_cache@, current_board@, depth)
                && current_board@.cells == old(self).target_v().cells && depth + spec_heuristic(
                current_board@,
                *heuristic,
            ) <= max_depth) ==> final(self).solved() && final(self).solution() == old(path)@,
            (admissible(*heuristic) && no_solution_below(init, max_depth as int)
                && cache_dead_ok(old(self).visited_cache@, max_depth as int) && !final(self).solved()) ==> cache_dead_ok(final(self).visited_cache@, max_depth as int),
            (admissible(*heuristic) && no_solution_below(init, max_depth as int)
                && cache_dead_ok(old(self).visited_cache@, max_depth as int) && !old(self).solved()
                && (exists|ms: Seq<Directions>|
                #[trigger] solves(current_board@, ms) && ms.len() + depth <= max_depth)) ==> final(self).solved(),
        decreases max_depth + 1 - depth,
    {
        if self.is_over {
            return ;
        }
        if depth > max_depth {
            return ;
        }
        let h = current_board.heuristic(*heuristic);
        if h > max_depth - depth {
            proof {
                if admissible(*heuristic) && (exists|ms: Seq<Directions>|
                    #[trigger] solves(current_board@, ms) && ms.len() + depth <= max_depth) {
                    let ms = choose|ms: Seq<Directions>|
                        #[trigger] solves(current_board@, ms) && ms.len() + depth <= max_depth;
                    assert(spec_heuristic(current_board@, *heuristic) <= ms.len());
                    assert(false);
                }
            }
            return ;
        }
        // Has this state already been memoized at this depth?
        let clen = self.visited_cache.len();
        let mut ci: usize = 0;
        while ci < clen
            invariant
                *self == *old(self),
                self.inv(),
                clen == self.visited_cache@.len(),
                ci <= clen,
                current_board.inv(),
                current_board@.wf(),
                depth + spec_heuristic(current_board@, *heuristic) <= max_depth,
                forall|j: int|
                    0 <= j < ci ==> !((#[trigger] self.visited_cache@[j]).1 == depth
                        && self.visited_cache@[j].0@.cells == current_board@.cells
                        && self.visited_cache@[j].0@.n == current_board@.n),
            decreases clen - ci,
        {
            let entry = &self.visited_cache[ci];
            if entry.1 == depth && entry.0.equals(&current_board) {
                proof {
                    assert(cache_has(self.visited_cache@, current_board@, depth));
                    if cache_dead_ok(self.visited_cache@, max_depth as int) && (exists|
                        ms: Seq<Directions>,
                    |
                        #[trigger] solves(current_board@, ms) && ms.len() + depth <= max_depth) {
                        let ms = choose|ms: Seq<Directions>|
                            #[trigger] solves(current_board@, ms) && ms.len() + depth <= max_depth;
                        lemma_same_cells_same_board(
                            self.visited_cache@[ci as int].0@,
                            current_board@,
                        );
                        assert(solves(self.visited_cache@[ci as int].0@, ms));
                        assert(false);
                    }
                }
                return ;
            }
            ci = ci + 1;
        }
        proof {
            assert(!cache_has(self.visited_cache@, current_board@, depth));
        }
        if self.is_target(&current_board) {
            self.is_over = true;
            self.solution_path = copy_path(path);
            proof {
                assert(old(path)@ + Seq::<Directions>::empty() =~= old(path)@);
                assert(solves(current_board@, Seq::<Directions>::empty()));
                assert forall|a: int, b: int| 0 <= a < b <= path@.len() implies (
                #[trigger] apply_path(init, path@.take(a))).cells != (#[trigger] apply_path(
                    init,
                    path@.take(b),
                )).cells by {
                    assert(path_states@[a]@ == apply_path(init, path@.take(a)));
                    assert(path_states@[b]@ == apply_path(init, path@.take(b)));
                }
            }
            return ;
        }
        let dirs = current_board.next_directions();
        proof {
            lemma_legal_dirs_are_legal(current_board@);
        }
        let dcount = dirs.len();
        let mut di: usize = 0;
        while di < dcount
            invariant
                self.inv(),
                self.target_v() == old(self).target_v(),
                !old(self).solved(),
                init.wf(),
                dcount == dirs@.len(),
                di <= dcount,
                dirs@ == legal_dirs(current_board@),
                current_board.inv(),
                current_board@.wf(),
                current_board@.n == old(self).target_v().n,
                current_board@.cells != old(self).target_v().cells,
                size_ok(current_board@.n),
                depth <= max_depth,
                max_depth < usize::MAX,
                depth + spec_heuristic(current_board@, *heuristic) <= max_depth,
                !cache_has(old(self).visited_cache@, current_board@, depth),
                path@ == old(path)@,
                path@.len() == depth,
                path_states@ == old(path_states)@,
                path_ok(init, path@),
                apply_path(init, path@) == current_board@,
                path_states@.len() == depth + 1,
                forall|i: int|
                    0 <= i <= depth ==> (#[trigger] path_states@[i])@ == apply_path(
                        init,
                        path@.take(i),
                    ),
                forall|i: int| 0 <= i < path_states@.len() ==> (#[trigger] path_states@[i]).inv(),
                forall|a: int, b: int|
                    0 <= a < b <= depth ==> (#[trigger] path_states@[a])@.cells != (
                    #[trigger] path_states@[b])@.cells,
                self.solved() ==> states_distinct(init, self.solution()),
                self.solved() ==> {
                    &&& path_ok(init, self.solution())
                    &&& apply_path(init, self.solution()).cells == self.target_v().cells
                    &&& self.solution().len() <= max_depth
                },
                self.solved() ==> (exists|tail: Seq<Directions>|
                    self.solution() == old(path)@ + tail && #[trigger] solves(
                        current_board@,
                        tail,
                    ) && tail.len() + depth <= max_depth),
                !self.solved() ==> self.solution() == old(self).solution(),
                (admissible(*heuristic) && no_solution_below(init, max_depth as int)
                    && cache_dead_ok(old(self).visited_cache@, max_depth as int) && !self.solved())
                    ==> cache_dead_ok(self.visited_cache@, max_depth as int),
                (admissible(*heuristic) && no_solution_below(init, max_depth as int)
                    && cache_dead_ok(old(self).visited_cache@, max_depth as int) && !self.solved())
                    ==> (forall|ms: Seq<Directions>, j: int|
                    #[trigger] solves(current_board@, ms) && 1 <= ms.len() && ms.len() + depth
                        <= max_depth && 0 <= j < di ==> ms[0] != #[trigger] dirs@[j]),
            decreases dcount - di,
        {
            let dir = dirs[di];
            proof {
                assert(dir_legal(current_board@, dir));
            }
            let ghost solved0 = self.solved();
            let mut new_board = current_board.clone();
            new_board.make_move(dir);
            let ghost nb_v = new_board@;
            // Skip a state already on the current path.
            let pslen = path_states.len();
            let mut pi: usize = 0;
            let mut on_path = false;
            while pi < pslen
                invariant
                    pslen == path_states@.len(),
                    pi <= pslen,
                    new_board.inv(),
                    nb_v == new_board@,
                    forall|i: int|
                        0 <= i < path_states@.len() ==> (#[trigger] path_states@[i]).inv(),
                    on_path ==> (exists|i: int|
                        0 <= i < path_states@.len() && (#[trigger] path_states@[i])@.cells
                            == nb_v.cells && path_states@[i]@.n == nb_v.n),
                    !on_path ==> (forall|i: int|
                        0 <= i < pi ==> !((#[trigger] path_states@[i])@.cells == nb_v.cells
                            && path_states@[i]@.n == nb_v.n)),
                decreases pslen - pi,
            {
                if path_states[pi].equals(&new_board) {
                    on_path = true;
                }
                pi = pi + 1;
            }
            let ghost states0 = path_states@;
            if !on_path {
                let ghost path0 = path@;
                path.push(dir);
                path_states.push(new_board.clone());
                proof {
                    lemma_path_push(init, path0, dir);
                    assert forall|i: int| 0 <= i <= depth + 1 implies (#[trigger] path_states@[i])@
                        == apply_path(init, path@.take(i)) by {
                        if i <= depth {
                            assert(path@.take(i) =~= path0.take(i));
                            assert(path_states@[i] == states0[i]);
                        } else {
                            assert(path@.take(i) =~= path@);
                        }
                    }
                    assert forall|a: int| 0 <= a <= depth implies (#[trigger] states0[a])@.cells
                        != nb_v.cells by {
                        if states0[a]@.cells == nb_v.cells {
                            lemma_path_take(init, path0, a);
                            lemma_path_wf(init, path0.take(a));
                            lemma_path_wf(init, path0);
                            lemma_apply_move_wf(current_board@, dir);
                        }
                    }
                }
                self.dfs(
                    Ghost(init),
                    new_board,
                    path,
                    path_states,
                    depth + 1,
                    max_depth,
                    heuristic,
                );
                let _ = path.pop();
                let _ = path_states.pop();
                proof {
                    assert(path@ =~= path0);
                    assert(path_states@ =~= states0);
                }
            }
            proof {
                // A solution this move found extends the shorter path too.
                if self.solved() && !solved0 {
                    let tail1 = choose|tail: Seq<Directions>|
                        self.solution() == path@.push(dir) + tail && #[trigger] solves(nb_v, tail)
                            && tail.len() + depth + 1 <= max_depth;
                    let tail = seq![dir] + tail1;
                    assert(path@.push(dir) + tail1 =~= path@ + tail);
                    assert(tail[0] == dir);
                    assert(tail.skip(1) =~= tail1);
                    assert(solves(current_board@, tail));
                }
                // Under the search context, once this branch has failed, no
                // within-budget solution starts with this move.
                if admissible(*heuristic) && no_solution_below(init, max_depth as int)
                    && cache_dead_ok(old(self).visited_cache@, max_depth as int)
                    && !self.solved() {
                    assert forall|ms: Seq<Directions>|
                        #[trigger] solves(current_board@, ms) && 1 <= ms.len() && ms.len() + depth
                            <= max_depth implies ms[0] != dir by {
                        if ms[0] == dir {
                            assert(solves(nb_v, ms.skip(1)));
                            if on_path {
                                // the state one move in already lies on the
                                // current path: splicing the rest of the
                                // solution there undercuts the bound
                                let i0 = choose|i: int|
                                    0 <= i < states0.len() && (#[trigger] states0[i])@.cells
                                        == nb_v.cells && states0[i]@.n == nb_v.n;
                                lemma_path_take(init, path@, i0);
                                lemma_path_wf(init, path@.take(i0));
                                lemma_path_wf(init, path@);
                                lemma_apply_move_wf(current_board@, dir);
                                lemma_same_cells_same_board(states0[i0]@, nb_v);
                                let full = path@.take(i0) + ms.skip(1);
                                lemma_path_concat(init, path@.take(i0), ms.skip(1));
                                assert(solves(init, full));
                                assert(full.len() < max_depth);
                                assert(false);
                            } else {
                                // the recursive call owed success and failed
                                assert(false);
                            }
                        }
                    }
                }
            }
            di = di + 1;
        }
        // Every move from here failed within the bound: remember the state
        // as dead at this depth.
        let ghost cur_v = current_board@;
        proof {
            if admissible(*heuristic) && no_solution_below(init, max_depth as int)
                && cache_dead_ok(old(self).visited_cache@, max_depth as int) && !self.solved() {
                assert forall|ms: Seq<Directions>| #[trigger] solves(cur_v, ms) implies ms.len()
                    + depth > max_depth by {
                    if ms.len() + depth <= max_depth {
                        if ms.len() == 0 {
                            assert(apply_path(cur_v, ms) == cur_v);
                            assert(false);
                        } else {
                            assert(dir_legal(cur_v, ms[0]));
                            lemma_legal_dirs_are_legal(cur_v);
                            assert(legal_dirs(cur_v).contains(ms[0]));
                            let j0 = choose|j: int|
                                0 <= j < legal_dirs(cur_v).len() && legal_dirs(cur_v)[j] == ms[0];
                            assert(dirs@[j0] == ms[0]);
                            assert(false);
                        }
                    }
                }
            }
        }
        let ghost pre_push = self.visited_cache@;
        self.visited_cache.push((current_board, depth));
        proof {
            assert(self.visited_cache@[pre_push.len() as int].1 == depth
                && self.visited_cache@[pre_push.len() as int].0@ == cur_v);
            assert(cache_has(self.visited_cache@, cur_v, depth));
            if admissible(*heuristic) && no_solution_below(init, max_depth as int)
                && cache_dead_ok(old(self).visited_cache@, max_depth as int) && !self.solved() {
                assert forall|i: int, ms: Seq<Directions>|
                    0 <= i < self.visited_cache@.len() && #[trigger] solves(
                        self.visited_cache@[i].0@,
                        ms,
                    ) implies ms.len() + self.visited_cache@[i].1 > max_depth as int by {
                    if i < pre_push.len() {
                        assert(self.visited_cache@[i] == pre_push[i]);
                    } else {
                        assert(self.visited_cache@[i].0@ == cur_v);
                    }
                }
            }
        }
    }
}

} // verus!
// The iterative-deepening driver.
verus! {

impl Solver {
    /// Iterative deepening: tries depth bounds from the heuristic's value
    /// on the start board up to the fixed ceiling of 99, with a fresh memo
    /// per bound. A recorded solution is a legal move sequence from the
    /// start into the target of at most 99 moves; a start that already
    /// equals the target succeeds in the very first iteration with an
    /// empty path. Under an admissible heuristic the search succeeds
    /// whenever any solution of at most 99 moves exists, and the recorded
    /// solution is then a shortest one.
    fn id_a_star(&mut self, init_board: Board, heuristic: &Heuristics)
        requires
            old(self).inv(),
            init_board.inv(),
            init_board@.wf(),
            init_board@.n == old(self).target_v().n,
            size_ok(init_board@.n),
        ensures
            final(self).inv(),
            final(self).target_v() == old(self).target_v(),
            old(self).solved() ==> final(self).solved() && final(self).solution() == old(self).solution(),
            !final(self).solved() ==> final(self).solution() == old(self).solution(),
            final(self).solved() && !old(self).solved() ==> {
                &&& path_ok(init_board@, final(self).solution())
                &&& apply_path(init_board@, final(self).solution()).cells == final(self).target_v().cells
                &&& final(self).solution().len() <= 99
            },
            (!old(self).solved() && init_board@.cells == old(self).target_v().cells) ==> final(self).solved() && final(self).solution().len() == 0,
            (!old(self).solved() && admissible(*heuristic) && (exists|ms: Seq<Directions>|
                #[trigger] solves(init_board@, ms) && ms.len() <= 99)) ==> final(self).solved(),
            (final(self).solved() && !old(self).solved() && admissible(*heuristic)) ==> (forall|
                ms: Seq<Directions>,
            |
                #[trigger] solves(init_board@, ms) ==> final(self).solution().len() <= ms.len()),
            final(self).solved() && !old(self).solved() ==> states_distinct(
                init_board@,
                final(self).solution(),
            ),
    {
        if self.is_over {
            return ;
        }
        let h0 = init_board.heuristic(*heuristic);
        proof {
            if init_board@.cells == self.target_v().cells {
                lemma_heuristic_zero_at_target(init_board@, *heuristic);
            }
            if admissible(*heuristic) {
                assert forall|ms: Seq<Directions>| #[trigger] solves(init_board@, ms) implies
                    ms.len() >= h0 as int by {
                    assert(spec_heuristic(init_board@, *heuristic) <= ms.len());
                }
            }
        }
        let mut i = h0;
        while i < 100
            invariant_except_break
                self.inv(),
                self.target_v() == old(self).target_v(),
                !self.solved(),
                self.solution() == old(self).solution(),
                init_board.inv(),
                init_board@.wf(),
                init_board@.n == self.target_v().n,
                size_ok(init_board@.n),
                h0 as nat == spec_heuristic(init_board@, *heuristic),
                h0 <= i,
                init_board@.cells == old(self).target_v().cells ==> h0 == 0 && i == 0,
                admissible(*heuristic) ==> no_solution_below(init_board@, i as int),
            ensures
                self.inv(),
                self.target_v() == old(self).target_v(),
                !self.solved() ==> self.solution() == old(self).solution(),
                self.solved() ==> {
                    &&& path_ok(init_board@, self.solution())
                    &&& apply_path(init_board@, self.solution()).cells == self.target_v().cells
                    &&& self.solution().len() <= 99
                },
                init_board@.cells == old(self).target_v().cells ==> self.solved()
                    && self.solution().len() == 0,
                !self.solved() && admissible(*heuristic) ==> no_solution_below(init_board@, 100),
                self.solved() && admissible(*heuristic) ==> (forall|ms: Seq<Directions>|
                    #[trigger] solves(init_board@, ms) ==> self.solution().len() <= ms.len()),
                self.solved() ==> states_distinct(init_board@, self.solution()),
            decreases 100 - i,
        {
            self.visited_cache.clear();
            let mut path_states: Vec<Board> = Vec::new();
            path_states.push(init_board.clone());
            let mut path: Vec<Directions> = Vec::new();
            let b = init_board.clone();
            proof {
                assert(path@.take(0) =~= Seq::<Directions>::empty());
                assert(!cache_has(self.visited_cache@, b@, 0));
                assert(cache_dead_ok(self.visited_cache@, i as int));
            }
            self.dfs(Ghost(init_board@), b, &mut path, &mut path_states, 0, i, heuristic);
            if self.is_over {
                proof {
                    if admissible(*heuristic) {
                        assert forall|ms: Seq<Directions>| #[trigger] solves(init_board@, ms)
                            implies self.solution().len() <= ms.len() by {
                            assert(ms.len() >= i as int);
                        }
                    }
                }
                break ;
            }
            proof {
                if admissible(*heuristic) {
                    assert forall|ms: Seq<Directions>| #[trigger] solves(init_board@, ms) implies
                        ms.len() >= i + 1 by {
                        if ms.len() <= i as int {
                            assert(false);
                        }
                    }
                }
            }
            i = i + 1;
        }
    }

    /// Runs the chosen search on `init_board`. ASTAR is out of scope and
    /// leaves the engine as it was; IDDFS is IDA* with the heuristic
    /// forced to NONE. For IDDFS, and for IDASTAR under an admissible
    /// heuristic, the search succeeds whenever a solution of at most 99
    /// moves exists, and the recorded solution is then a shortest one.
    pub fn solve(&mut self, init_board: Board, algo: Algo, heuristic: Heuristics)
        requires
            old(self).inv(),
            init_board.inv(),
            init_board@.wf(),
            init_board@.n == old(self).target_v().n,
            size_ok(init_board@.n),
        ensures
            final(self).inv(),
            final(self).target_v() == old(self).target_v(),
            algo == Algo::ASTAR ==> *final(self) == *old(self),
            old(self).solved() ==> final(self).solved() && final(self).solution() == old(self).solution(),
            !final(self).solved() ==> final(self).solution() == old(self).solution(),
            final(self).solved() && !old(self).solved() ==> {
                &&& path_ok(init_board@, final(self).solution())
                &&& apply_path(init_board@, final(self).solution()).cells == final(self).target_v().cells
                &&& final(self).solution().len() <= 99
            },
            ((algo == Algo::IDASTAR || algo == Algo::IDDFS) && !old(self).solved()
                && init_board@.cells == old(self).target_v().cells) ==> final(self).solved()
                && final(self).solution().len() == 0,
            (algo == Algo::IDASTAR && !old(self).solved() && admissible(heuristic) && (exists|
                ms: Seq<Directions>,
            |
                #[trigger] solves(init_board@, ms) && ms.len() <= 99)) ==> final(self).solved(),
            (algo == Algo::IDDFS && !old(self).solved() && (exists|ms: Seq<Directions>|
                #[trigger] solves(init_board@, ms) && ms.len() <= 99)) ==> final(self).solved(),
            (final(self).solved() && !old(self).solved() && (algo == Algo::IDDFS || (algo
                == Algo::IDASTAR && admissible(heuristic)))) ==> (forall|ms: Seq<Directions>|
                #[trigger] solves(init_board@, ms) ==> final(self).solution().len() <= ms.len()),
            final(self).solved() && !old(self).solved() ==> states_distinct(
                init_board@,
                final(self).solution(),
            ),
    {
        match algo {
            Algo::ASTAR => {},
            Algo::IDASTAR => self.id_a_star(init_board, &heuristic),
            Algo::IDDFS => {
                proof {
                    lemma_none_admissible();
                }
                self.id_a_star(init_board, &Heuristics::NONE);
            },
        }
    }
}

} // verus!
