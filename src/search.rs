//! Depth-first and best-first search for a placement of a given number of
//! queens that extends a starting board.
use vstd::prelude::*;
use std::cmp::Ordering;
use crate::board::{
    all_on_board, attacks, lemma_children_prefix, lemma_full_board_has_no_children, non_attacking,
    placeable, valid, Board, BoardView, ConfigError,
};
use crate::key::{board_key, key_le};

verus! {

/// The result of a search, with the number of steps taken (saturating at
/// `u64::MAX`).
#[derive(Debug)]
pub enum SearchOutcome {
    /// A board with the target number of queens.
    Solved(Board, u64),
    /// Every extension was explored and none reached the target.
    Exhausted(u64),
}

/// `s` is a placement of `target` mutually non-attacking queens on `b`'s
/// board that begins with `b`'s queens.
pub open spec fn is_completion(b: BoardView, target: nat, s: Seq<(int, int)>) -> bool {
    &&& s.len() == target
    &&& b.queens.is_prefix_of(s)
    &&& all_on_board(b.n, s)
    &&& non_attacking(s)
}

/// Some placement of `target` queens extends `b`.
pub open spec fn has_completion(b: BoardView, target: nat) -> bool {
    exists|s: Seq<(int, int)>| is_completion(b, target, s)
}

/// What a search from `b` for `target` queens owes: a completion of `b`, or
/// a proof by exhaustion that there is none.
pub open spec fn outcome_correct(b: BoardView, target: nat, o: SearchOutcome) -> bool {
    match o {
        SearchOutcome::Solved(r, _) => r.wf() && r@.n == b.n && is_completion(b, target, r@.queens),
        SearchOutcome::Exhausted(_) => !has_completion(b, target),
    }
}

/// An upper bound on the size of a search tree of height `k` whose nodes have
/// at most `m` children.
pub open spec fn tree_bound(m: nat, k: nat) -> nat
    decreases k,
{
    if k == 0 {
        1
    } else {
        1 + m * tree_bound(m, (k - 1) as nat)
    }
}

/// An upper bound on the number of boards that a search below `b` visits.
pub open spec fn weight(b: BoardView) -> nat {
    tree_bound(b.n * b.n, (b.n - b.depth()) as nat)
}

/// The summed weight of a frontier.
pub open spec fn total_weight(s: Seq<BoardView>) -> nat
    decreases s.len(),
{
    if s.len() == 0 {
        0
    } else {
        total_weight(s.drop_last()) + weight(s.last())
    }
}

/// The values of a frontier of boards.
pub open spec fn views(v: Seq<Board>) -> Seq<BoardView> {
    v.map_values(|b: Board| b@)
}

proof fn lemma_total_weight_concat(a: Seq<BoardView>, b: Seq<BoardView>)
    ensures
        total_weight(a + b) == total_weight(a) + total_weight(b),
    decreases b.len(),
{
    if b.len() > 0 {
        lemma_total_weight_concat(a, b.drop_last());
        assert((a + b).drop_last() =~= a + b.drop_last());
    } else {
        assert(a + b =~= a);
    }
}

proof fn lemma_total_weight_remove(s: Seq<BoardView>, i: int)
    requires
        0 <= i < s.len(),
    ensures
        total_weight(s) == total_weight(s.remove(i)) + weight(s[i]),
{
    let a = s.subrange(0, i);
    let c = s.subrange(i + 1, s.len() as int);
    assert(s =~= (a + seq![s[i]]) + c);
    assert(s.remove(i) =~= a + c);
    lemma_total_weight_concat(a + seq![s[i]], c);
    lemma_total_weight_concat(a, seq![s[i]]);
    lemma_total_weight_concat(a, c);
    assert(seq![s[i]].drop_last() =~= Seq::<BoardView>::empty());
    assert(total_weight(Seq::<BoardView>::empty()) == 0);
    assert(total_weight(seq![s[i]]) == weight(s[i]));
}

proof fn lemma_total_weight_uniform(s: Seq<BoardView>, w: nat)
    requires
        forall|k: int| 0 <= k < s.len() ==> weight(#[trigger] s[k]) == w,
    ensures
        total_weight(s) == s.len() * w,
    decreases s.len(),
{
    if s.len() > 0 {
        lemma_total_weight_uniform(s.drop_last(), w);
        assert((s.len() - 1) * w + w == s.len() * w) by (nonlinear_arith);
    }
}

/// The successors of a valid board weigh less than the board.
proof fn lemma_children_lighter(b: BoardView)
    requires
        valid(b),
    ensures
        total_weight(b.children()) < weight(b),
{
    let s = b.children();
    lemma_children_prefix(b, b.n as int, 0);
    if b.depth() == b.n {
        lemma_full_board_has_no_children(b);
    } else {
        let m = b.n * b.n;
        let w = tree_bound(m, (b.n - b.depth() - 1) as nat);
        assert forall|k: int| 0 <= k < s.len() implies weight(#[trigger] s[k]) == w by {
            assert(s[k] == b.extend(s[k].queens.last()));
        }
        lemma_total_weight_uniform(s, w);
        assert(s.len() <= m);
        assert(s.len() * w <= m * w) by (nonlinear_arith)
            requires s.len() <= m;
    }
}

/// A completion of `b` that does not stop at `b` passes through one of its
/// successors.
proof fn lemma_completion_through_child(b: BoardView, target: nat, s: Seq<(int, int)>)
    requires
        is_completion(b, target, s),
        b.depth() != target,
    ensures
        exists|k: int| 0 <= k < b.children().len() && is_completion(#[trigger] b.children()[k], target, s),
{
    let d = b.depth() as int;
    let p = s[d];
    assert forall|i: int| 0 <= i < b.queens.len() implies !attacks(#[trigger] b.queens[i], p) by {
        assert(b.queens[i] == s[i]);
        assert(!attacks(s[i], s[d]));
    }
    assert(placeable(b.n, b.queens, p));
    lemma_children_prefix(b, b.n as int, 0);
    let k = choose|k: int| 0 <= k < b.children().len() && #[trigger] b.children()[k] == b.extend(p);
    assert(b.queens.push(p) =~= s.subrange(0, d + 1));
    assert(is_completion(b.children()[k], target, s));
}

/// The value of a search outcome.
pub ghost enum OutcomeView {
    Solved(BoardView, nat),
    Exhausted(nat),
}

impl View for SearchOutcome {
    type V = OutcomeView;

    open spec fn view(&self) -> OutcomeView {
        match self {
            SearchOutcome::Solved(b, steps) => OutcomeView::Solved(b@, *steps as nat),
            SearchOutcome::Exhausted(steps) => OutcomeView::Exhausted(*steps as nat),
        }
    }
}

/// A step count advanced by one, saturating at `u64::MAX`.
pub open spec fn step_count_after(checks: nat) -> nat {
    if checks < u64::MAX {
        checks + 1
    } else {
        checks
    }
}

/// Depth-first search over the stack `stack` (top last), having taken
/// `checks` steps so far. It is defined for stacks of valid boards: an
/// invalid board ends it.
pub open spec fn dfs_run(stack: Seq<BoardView>, checks: nat, target: nat) -> OutcomeView
    decreases total_weight(stack),
    via dfs_run_decreases
{
    if stack.len() == 0 {
        OutcomeView::Exhausted(checks)
    } else {
        let next = stack.last();
        let c = step_count_after(checks);
        if next.depth() == target {
            OutcomeView::Solved(next, c)
        } else if !valid(next) {
            OutcomeView::Exhausted(c)
        } else {
            dfs_run(stack.drop_last() + next.children(), c, target)
        }
    }
}

#[via_fn]
proof fn dfs_run_decreases(stack: Seq<BoardView>, checks: nat, target: nat) {
    if stack.len() > 0 && stack.last().depth() != target && valid(stack.last()) {
        lemma_children_lighter(stack.last());
        lemma_total_weight_concat(stack.drop_last(), stack.last().children());
    }
}

/// Depth-first search is a function of its starting board and target: two
/// searches from equal boards for the same target give the same board and
/// the same step count.
pub proof fn lemma_dfs_deterministic(a: BoardView, b: BoardView, target: nat)
    requires
        a == b,
    ensures
        dfs_run(seq![a], 0, target) == dfs_run(seq![b], 0, target),
{
}

/// Any two distinct queens differ in column, row, `column - row` and
/// `column + row`.
pub open spec fn no_shared_line(qs: Seq<(int, int)>) -> bool {
    forall|i: int, j: int| 0 <= i < qs.len() && 0 <= j < qs.len() && i != j ==> {
        &&& (#[trigger] qs[i]).0 != (#[trigger] qs[j]).0
        &&& qs[i].1 != qs[j].1
        &&& qs[i].0 - qs[i].1 != qs[j].0 - qs[j].1
        &&& qs[i].0 + qs[i].1 != qs[j].0 + qs[j].1
    }
}

/// A board returned as a solution holds queens that pairwise share no
/// column, row, diagonal or anti-diagonal.
pub proof fn lemma_solution_non_attacking(b: BoardView, target: nat, o: SearchOutcome)
    requires
        outcome_correct(b, target, o),
        o is Solved,
    ensures
        no_shared_line(o->Solved_0@.queens),
{
    let qs = o->Solved_0@.queens;
    assert forall|i: int, j: int| 0 <= i < qs.len() && 0 <= j < qs.len() && i != j implies {
        &&& qs[i].0 != qs[j].0
        &&& qs[i].1 != qs[j].1
        &&& qs[i].0 - qs[i].1 != qs[j].0 - qs[j].1
        &&& qs[i].0 + qs[i].1 != qs[j].0 + qs[j].1
    } by {
        if i < j {
            assert(!attacks(qs[i], qs[j]));
        } else {
            assert(!attacks(qs[j], qs[i]));
        }
    }
}

/// The position of the highest-keyed board among the first `k` of `s`; the
/// latest among equals.
pub open spec fn best_pos(s: Seq<BoardView>, k: int) -> int
    decreases k,
{
    if k <= 1 {
        0
    } else {
        let p = best_pos(s, k - 1);
        if key_le(board_key(s[p]), board_key(s[k - 1])) {
            k - 1
        } else {
            p
        }
    }
}

proof fn lemma_best_pos_range(s: Seq<BoardView>, k: int)
    requires
        1 <= k,
    ensures
        0 <= best_pos(s, k) < k,
    decreases k,
{
    if k > 1 {
        lemma_best_pos_range(s, k - 1);
    }
}

/// Best-first search over the frontier `frontier`, having taken `checks`
/// steps so far. It is defined for frontiers of valid boards: an invalid
/// board ends it.
pub open spec fn bestfs_run(frontier: Seq<BoardView>, checks: nat, target: nat) -> OutcomeView
    decreases total_weight(frontier),
    via bestfs_run_decreases
{
    if frontier.len() == 0 {
        OutcomeView::Exhausted(checks)
    } else {
        let i = best_pos(frontier, frontier.len() as int);
        let next = frontier[i];
        if next.depth() == target {
            OutcomeView::Solved(next, checks)
        } else if !valid(next) {
            OutcomeView::Exhausted(checks)
        } else {
            bestfs_run(frontier.remove(i) + next.children(), step_count_after(checks), target)
        }
    }
}

#[via_fn]
proof fn bestfs_run_decreases(frontier: Seq<BoardView>, checks: nat, target: nat) {
    if frontier.len() > 0 {
        let i = best_pos(frontier, frontier.len() as int);
        lemma_best_pos_range(frontier, frontier.len() as int);
        let next = frontier[i];
        if next.depth() != target && valid(next) {
            lemma_children_lighter(next);
            lemma_total_weight_remove(frontier, i);
            lemma_total_weight_concat(frontier.remove(i), next.children());
        }
    }
}

/// The index of the highest-ranked board of a non-empty frontier; among
/// boards of equal rank, the one added last.
fn best_index(frontier: &Vec<Board>) -> (r: usize)
    requires
        frontier@.len() > 0,
        forall|k: int| 0 <= k < frontier@.len() ==> (#[trigger] frontier@[k]).wf(),
    ensures
        r < frontier@.len(),
        r == best_pos(views(frontier@), frontier@.len() as int),
        forall|k: int| 0 <= k < frontier@.len() ==>
            key_le(board_key((#[trigger] frontier@[k])@), board_key(frontier@[r as int]@)),
        forall|k: int| r < k < frontier@.len() ==>
            !key_le(board_key(frontier@[r as int]@), board_key((#[trigger] frontier@[k])@)),
{
    let mut best: usize = 0;
    let mut best_key = frontier[0].eval();
    let mut k: usize = 1;
    while k < frontier.len()
        invariant
            1 <= k <= frontier@.len(),
            best < k,
            best == best_pos(views(frontier@), k as int),
            best_key == board_key(frontier@[best as int]@),
            forall|j: int| 0 <= j < frontier@.len() ==> (#[trigger] frontier@[j]).wf(),
            forall|j: int| 0 <= j < k ==>
                key_le(board_key((#[trigger] frontier@[j])@), board_key(frontier@[best as int]@)),
            forall|j: int| best < j < k ==>
                !key_le(board_key(frontier@[best as int]@), board_key((#[trigger] frontier@[j])@)),
        decreases frontier@.len() - k,
    {
        let key = frontier[k].eval();
        assert(views(frontier@)[k as int] == frontier@[k as int]@);
        assert(views(frontier@)[best as int] == frontier@[best as int]@);
        match key.compare(&best_key) {
            Ordering::Less => {},
            _ => {
                best = k;
                best_key = key;
            },
        }
        k = k + 1;
    }
    best
}

/// Steps between two throughput reports of a running search.
pub const REPORT_INTERVAL: u64 = 500000;

/// Whether a search that has taken `checks` steps is due a throughput report.
pub fn progress_due(checks: u64) -> (r: bool)
    ensures
        r == (checks > 0 && checks % REPORT_INTERVAL == 0),
{
    checks > 0 && checks % REPORT_INTERVAL == 0
}

/// A depth-first search in progress: a stack of boards still to be taken,
/// topmost last, and the number of steps taken so far.
pub struct DfsSearch {
    stack: Vec<Board>,
    checks: u64,
    target: usize,
    start: Ghost<BoardView>,
}

impl DfsSearch {
    /// The board the search started from.
    pub closed spec fn start_board(&self) -> BoardView {
        self.start@
    }

    /// The number of queens sought.
    pub closed spec fn target_depth(&self) -> nat {
        self.target as nat
    }

    /// The number of steps taken so far.
    pub closed spec fn steps(&self) -> nat {
        self.checks as nat
    }

    /// A bound on the steps still to come.
    pub closed spec fn remaining(&self) -> nat {
        total_weight(views(self.stack@))
    }

    /// The stack holds valid extensions of the start board, every completion
    /// of the start board extends one of them, and running on from here ends
    /// as a search from the start board does.
    pub closed spec fn inv(&self) -> bool {
        let b = self.start@;
        let t = self.target as nat;
        &&& self.target <= b.n
        &&& dfs_run(views(self.stack@), self.checks as nat, t) == dfs_run(seq![b], 0, t)
        &&& forall|k: int| 0 <= k < self.stack@.len() ==> {
            &&& (#[trigger] self.stack@[k]).wf()
            &&& self.stack@[k]@.n == b.n
            &&& b.queens.is_prefix_of(self.stack@[k]@.queens)
        }
        &&& forall|s: Seq<(int, int)>| #[trigger] is_completion(b, t, s) ==>
            exists|k: int| 0 <= k < self.stack@.len() && is_completion((#[trigger] self.stack@[k])@, t, s)
    }

    /// A search from `board` for `target` queens, before its first step.
    pub fn new(board: &Board, target: usize) -> (r: Result<DfsSearch, ConfigError>)
        requires
            board.wf(),
        ensures
            target > board@.n <==> r == Err::<DfsSearch, ConfigError>(ConfigError::TargetTooDeep),
            target <= board@.n ==> r is Ok && r->Ok_0.inv() && r->Ok_0.start_board() == board@
                && r->Ok_0.target_depth() == target && r->Ok_0.steps() == 0,
    {
        if target > board.n() {
            return Err(ConfigError::TargetTooDeep);
        }
        let ghost b = board@;
        let ghost t = target as nat;
        let mut stack: Vec<Board> = Vec::new();
        stack.push(board.duplicate());
        let search = DfsSearch { stack, checks: 0, target, start: Ghost(b) };
        proof {
            assert(b.queens.is_prefix_of(b.queens));
            assert forall|s: Seq<(int, int)>| #[trigger] is_completion(b, t, s) implies
                exists|k: int| 0 <= k < search.stack@.len() && is_completion((#[trigger] search.stack@[k])@, t, s) by {
                assert(search.stack@[0]@ == b);
            }
            assert(views(search.stack@) =~= seq![b]);
        }
        Ok(search)
    }

    /// The number of steps taken so far.
    pub fn checks(&self) -> (r: u64)
        ensures
            r == self.steps(),
    {
        self.checks
    }

    /// Takes the topmost board. If the stack was empty the search is
    /// exhausted; if the board has the target number of queens it is the
    /// solution; otherwise its successors are pushed in generation order and
    /// the search goes on.
    pub fn step(&mut self) -> (r: Option<SearchOutcome>)
        requires
            old(self).inv(),
        ensures
            final(self).start_board() == old(self).start_board(),
            final(self).target_depth() == old(self).target_depth(),
            r is None ==> final(self).inv() && final(self).remaining() < old(self).remaining()
                && final(self).steps() == step_count_after(old(self).steps()),
            r is Some ==> r->Some_0@ == dfs_run(seq![old(self).start_board()], 0, old(self).target_depth())
                && outcome_correct(old(self).start_board(), old(self).target_depth(), r->Some_0),
    {
        let ghost b = self.start@;
        let ghost t = self.target as nat;
        let ghost before = self.stack@;
        let next = match self.stack.pop() {
            None => {
                return Some(SearchOutcome::Exhausted(self.checks));
            },
            Some(next) => next,
        };
        let ghost last = before.len() - 1;
        assert(next == before[last]);
        proof {
            next.lemma_valid();
            assert(views(before).last() == next@);
        }
        if self.checks < u64::MAX {
            self.checks = self.checks + 1;
        }
        if next.queens() == self.target {
            return Some(SearchOutcome::Solved(next, self.checks));
        }
        let mut kids = next.children();
        let ghost kv = kids@;
        self.stack.append(&mut kids);
        proof {
            let list = self.stack@;
            lemma_children_lighter(next@);
            assert(views(before) =~= views(before.drop_last()).push(next@));
            assert(views(before.drop_last()).push(next@).drop_last() =~= views(before.drop_last()));
            assert(views(list) =~= views(before.drop_last()) + next@.children());
            lemma_total_weight_concat(views(before.drop_last()), next@.children());
            assert(kv.map_values(|c: Board| c@) == next@.children());
            assert forall|k: int| 0 <= k < list.len() implies {
                &&& (#[trigger] list[k]).wf()
                &&& list[k]@.n == b.n
                &&& b.queens.is_prefix_of(list[k]@.queens)
            } by {
                if k < last {
                    assert(list[k] == before[k]);
                } else {
                    let j = k - last;
                    assert(list[k] == kv[j]);
                    assert(kv[j]@ == next@.children()[j]);
                    lemma_children_prefix(next@, next@.n as int, 0);
                    assert(next@.children()[j] == next@.extend(next@.children()[j].queens.last()));
                    assert(b.queens.is_prefix_of(next@.queens));
                    assert(b.queens =~= next@.queens.push(next@.children()[j].queens.last()).subrange(0, b.queens.len() as int));
                }
            }
            assert forall|s: Seq<(int, int)>| #[trigger] is_completion(b, t, s) implies
                exists|k: int| 0 <= k < list.len() && is_completion((#[trigger] list[k])@, t, s) by {
                let k0 = choose|k: int| 0 <= k < before.len() && is_completion((#[trigger] before[k])@, t, s);
                if k0 < last {
                    assert(list[k0] == before[k0]);
                } else {
                    lemma_completion_through_child(next@, t, s);
                    let j = choose|j: int| 0 <= j < next@.children().len() && is_completion(#[trigger] next@.children()[j], t, s);
                    assert(list[last + j] == kv[j]);
                    assert(kv[j]@ == next@.children()[j]);
                }
            }
        }
        None
    }
}

impl Board {
    /// Depth-first search from this board for `target` queens: the most
    /// recently generated board is expanded first. Every board taken from
    /// the stack counts as one step.
    pub fn n_queens_dfs(&self, target: usize) -> (r: Result<SearchOutcome, ConfigError>)
        requires
            self.wf(),
        ensures
            target > self@.n <==> r == Err::<SearchOutcome, ConfigError>(ConfigError::TargetTooDeep),
            target <= self@.n ==> r is Ok && outcome_correct(self@, target as nat, r->Ok_0),
            target <= self@.n ==> r->Ok_0@ == dfs_run(seq![self@], 0, target as nat),
    {
        let mut search = match DfsSearch::new(self, target) {
            Err(e) => {
                return Err(e);
            },
            Ok(search) => search,
        };
        loop
            invariant
                search.inv(),
                search.start_board() == self@,
                search.target_depth() == target,
            decreases search.remaining(),
        {
            match search.step() {
                Some(outcome) => {
                    return Ok(outcome);
                },
                None => {},
            }
        }
    }
    /// Best-first search from this board for `target` queens: the frontier
    /// board with the highest key is expanded first, the latest added among
    /// equals. Every board expanded without reaching the target counts as one
    /// step.
    pub fn n_queens_bestfs(&self, target: usize) -> (r: Result<SearchOutcome, ConfigError>)
        requires
            self.wf(),
        ensures
            target > self@.n <==> r == Err::<SearchOutcome, ConfigError>(ConfigError::TargetTooDeep),
            target <= self@.n ==> r is Ok && outcome_correct(self@, target as nat, r->Ok_0),
            target <= self@.n ==> r->Ok_0@ == bestfs_run(seq![self@], 0, target as nat),
    {
        if target > self.n() {
            return Err(ConfigError::TargetTooDeep);
        }
        let ghost b = self@;
        let ghost t = target as nat;
        let mut list: Vec<Board> = Vec::new();
        let mut checks: u64 = 0;
        list.push(self.duplicate());
        proof {
            assert(b.queens.is_prefix_of(b.queens));
            assert forall|s: Seq<(int, int)>| #[trigger] is_completion(b, t, s) implies
                exists|k: int| 0 <= k < list@.len() && is_completion((#[trigger] list@[k])@, t, s) by {
                assert(list@[0]@ == b);
            }
            assert(views(list@) =~= seq![b]);
        }
        loop
            invariant
                self@ == b,
                bestfs_run(views(list@), checks as nat, t) == bestfs_run(seq![b], 0, t),
                t == target,
                target <= b.n,
                forall|k: int| 0 <= k < list@.len() ==> {
                    &&& (#[trigger] list@[k]).wf()
                    &&& list@[k]@.n == b.n
                    &&& b.queens.is_prefix_of(list@[k]@.queens)
                },
                forall|s: Seq<(int, int)>| #[trigger] is_completion(b, t, s) ==>
                    exists|k: int| 0 <= k < list@.len() && is_completion((#[trigger] list@[k])@, t, s),
            decreases total_weight(views(list@)),
        {
            let ghost before = list@;
            if list.len() == 0 {
                return Ok(SearchOutcome::Exhausted(checks));
            }
            let idx = best_index(&list);
            let next = list.remove(idx);
            let ghost last = idx as int;
            let ghost rest = before.remove(last);
            assert(next == before[last]);
            proof {
                next.lemma_valid();
                assert(views(before)[last] == next@);
            }
            if next.queens() == target {
                proof {
                    next.lemma_valid();
                }
                return Ok(SearchOutcome::Solved(next, checks));
            }
            if checks < u64::MAX {
                checks = checks + 1;
            }
            let mut kids = next.children();
            let ghost kv = kids@;
            list.append(&mut kids);
            proof {
                next.lemma_valid();
                lemma_children_lighter(next@);
                lemma_total_weight_remove(views(before), last);
                assert(views(rest) =~= views(before).remove(last));
                assert(views(list@) =~= views(rest) + next@.children());
                lemma_total_weight_concat(views(rest), next@.children());
                assert(kv.map_values(|c: Board| c@) == next@.children());
                assert forall|k: int| 0 <= k < list@.len() implies {
                    &&& (#[trigger] list@[k]).wf()
                    &&& list@[k]@.n == b.n
                    &&& b.queens.is_prefix_of(list@[k]@.queens)
                } by {
                    if k < rest.len() {
                        assert(list@[k] == rest[k]);
                        if k < last {
                            assert(rest[k] == before[k]);
                        } else {
                            assert(rest[k] == before[k + 1]);
                        }
                    } else {
                        let j = k - rest.len();
                        assert(list@[k] == kv[j]);
                        assert(kv[j]@ == next@.children()[j]);
                        lemma_children_prefix(next@, next@.n as int, 0);
                        assert(next@.children()[j] == next@.extend(next@.children()[j].queens.last()));
                        assert(b.queens.is_prefix_of(next@.queens));
                        assert(b.queens =~= next@.queens.push(next@.children()[j].queens.last()).subrange(0, b.queens.len() as int));
                    }
                }
                assert forall|s: Seq<(int, int)>| #[trigger] is_completion(b, t, s) implies
                    exists|k: int| 0 <= k < list@.len() && is_completion((#[trigger] list@[k])@, t, s) by {
                    let k0 = choose|k: int| 0 <= k < before.len() && is_completion((#[trigger] before[k])@, t, s);
                    if k0 < last {
                        assert(list@[k0] == before[k0]);
                    } else if k0 > last {
                        assert(list@[k0 - 1] == before[k0]);
                    } else {
                        lemma_completion_through_child(next@, t, s);
                        let j = choose|j: int| 0 <= j < next@.children().len() && is_completion(#[trigger] next@.children()[j], t, s);
                        assert(list@[rest.len() + j] == kv[j]);
                        assert(kv[j]@ == next@.children()[j]);
                    }
                }
            }
        }
    }
}

} // verus!
