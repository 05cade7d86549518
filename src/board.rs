//! Board states: an ordered list of placed queens together with occupancy
//! tables for columns, rows, diagonals and anti-diagonals.
use vstd::prelude::*;
use vstd::set_lib::{lemma_int_range, lemma_len_subset, set_int_range};

verus! {

/// The largest board size accepted: diagonal indices, up to `2 * n - 2`, then
/// fit in `usize` on every target.
pub const MAX_SIZE: usize = 0x7fff_ffff;

/// Two squares, as (column, row), lie on a common line for a queen.
pub open spec fn attacks(p: (int, int), q: (int, int)) -> bool {
    p.0 == q.0 || p.1 == q.1 || p.0 - p.1 == q.0 - q.1 || p.0 + p.1 == q.0 + q.1
}

/// No two of the queens attack each other.
pub open spec fn non_attacking(qs: Seq<(int, int)>) -> bool {
    forall|i: int, j: int| 0 <= i < j < qs.len() ==> !attacks(#[trigger] qs[i], #[trigger] qs[j])
}

/// The square lies on an `n` by `n` board.
pub open spec fn on_board(n: nat, p: (int, int)) -> bool {
    0 <= p.0 < n && 0 <= p.1 < n
}

/// Every queen lies on an `n` by `n` board.
pub open spec fn all_on_board(n: nat, qs: Seq<(int, int)>) -> bool {
    forall|i: int| 0 <= i < qs.len() ==> on_board(n, #[trigger] qs[i])
}

/// A queen may be added at `p`: it is on the board and attacks none of `qs`.
pub open spec fn placeable(n: nat, qs: Seq<(int, int)>, p: (int, int)) -> bool {
    on_board(n, p) && forall|i: int| 0 <= i < qs.len() ==> !attacks(#[trigger] qs[i], p)
}

/// The mathematical value of a board: its size and the queens in placement order.
pub ghost struct BoardView {
    pub n: nat,
    pub queens: Seq<(int, int)>,
}

impl BoardView {
    pub open spec fn depth(self) -> nat {
        self.queens.len()
    }

    /// The board with one more queen at `p`.
    pub open spec fn extend(self, p: (int, int)) -> BoardView {
        BoardView { n: self.n, queens: self.queens.push(p) }
    }

    /// The successors of a board, in column-major order of the added square,
    /// over the columns before `c` and, in column `c`, the rows before `r`.
    pub open spec fn children_prefix(self, c: int, r: int) -> Seq<BoardView>
        decreases c, r,
    {
        if r > 0 {
            let prev = self.children_prefix(c, r - 1);
            if placeable(self.n, self.queens, (c, r - 1)) {
                prev.push(self.extend((c, r - 1)))
            } else {
                prev
            }
        } else if c > 0 {
            self.children_prefix(c - 1, self.n as int)
        } else {
            Seq::empty()
        }
    }

    /// All successors of a board, in column-major order of the added square.
    pub open spec fn children(self) -> Seq<BoardView> {
        self.children_prefix(self.n as int, 0)
    }
}


/// A board value with at least one row, at most `n` queens, all on the board
/// and none attacking another.
pub open spec fn valid(b: BoardView) -> bool {
    &&& 1 <= b.n <= MAX_SIZE
    &&& b.depth() <= b.n
    &&& all_on_board(b.n, b.queens)
    &&& non_attacking(b.queens)
}

/// Why a board or a search could not be set up.
#[derive(Debug, Clone, Copy, PartialEq, Eq, Structural)]
pub enum ConfigError {
    /// A board must have at least one row and one column.
    EmptyBoard,
    /// The board is larger than `MAX_SIZE`.
    BoardTooLarge,
    /// The requested number of queens exceeds the board size.
    TargetTooDeep,
}

/// A partial placement of queens. Boards are never changed after they are
/// built: adding a queen yields a new board.
#[derive(Debug)]
pub struct Board {
    n: usize,
    queen_locs: Vec<(usize, usize)>,
    col_filled: Vec<bool>,
    row_filled: Vec<bool>,
    diag_filled: Vec<bool>,
    neg_diag_filled: Vec<bool>,
}

impl View for Board {
    type V = BoardView;

    closed spec fn view(&self) -> BoardView {
        BoardView {
            n: self.n as nat,
            queens: self.queen_locs@.map_values(|p: (usize, usize)| (p.0 as int, p.1 as int)),
        }
    }
}

/// A vector of `len` copies of `false`.
fn falses(len: usize) -> (v: Vec<bool>)
    ensures
        v@.len() == len,
        forall|i: int| 0 <= i < len ==> !#[trigger] v@[i],
{
    let mut v: Vec<bool> = Vec::new();
    let mut k: usize = 0;
    while k < len
        invariant
            k <= len,
            v@.len() == k,
            forall|i: int| 0 <= i < k ==> !#[trigger] v@[i],
        decreases len - k,
    {
        v.push(false);
        k = k + 1;
    }
    v
}


/// A copy of a flag table.
fn copy_flags(v: &Vec<bool>) -> (r: Vec<bool>)
    ensures
        r@ == v@,
{
    let mut r: Vec<bool> = Vec::new();
    let mut k: usize = 0;
    while k < v.len()
        invariant
            k <= v@.len(),
            r@ == v@.subrange(0, k as int),
        decreases v@.len() - k,
    {
        r.push(v[k]);
        k = k + 1;
    }
    assert(r@ =~= v@);
    r
}

/// A copy of a list of squares.
fn copy_squares(v: &Vec<(usize, usize)>) -> (r: Vec<(usize, usize)>)
    ensures
        r@ == v@,
{
    let mut r: Vec<(usize, usize)> = Vec::new();
    let mut k: usize = 0;
    while k < v.len()
        invariant
            k <= v@.len(),
            r@ == v@.subrange(0, k as int),
        decreases v@.len() - k,
    {
        r.push(v[k]);
        k = k + 1;
    }
    assert(r@ =~= v@);
    r
}

/// Queens in distinct columns of an `n` by `n` board that leave column `c`
/// free number fewer than `n`.
pub proof fn lemma_free_column_bounds_depth(n: nat, qs: Seq<(int, int)>, c: int)
    requires
        all_on_board(n, qs),
        non_attacking(qs),
        0 <= c < n,
        forall|i: int| 0 <= i < qs.len() ==> (#[trigger] qs[i]).0 != c,
    ensures
        qs.len() < n,
{
    let cols = qs.map_values(|p: (int, int)| p.0);
    assert forall|i: int, j: int| 0 <= i < cols.len() && 0 <= j < cols.len() && i != j implies
        cols[i] != cols[j] by {
        if i < j {
            assert(!attacks(qs[i], qs[j]));
        } else {
            assert(!attacks(qs[j], qs[i]));
        }
    }
    assert(cols.no_duplicates());
    cols.unique_seq_to_set();
    lemma_int_range(0, n as int);
    let free = set_int_range(0, n as int).remove(c);
    assert forall|x: int| cols.to_set().contains(x) implies free.contains(x) by {
        let i = choose|i: int| 0 <= i < cols.len() && cols[i] == x;
        assert(on_board(n, qs[i]));
    }
    lemma_len_subset(cols.to_set(), free);
}

/// The successors of `b` over a prefix of the squares: at most one per square
/// scanned, each is `b` with one placeable queen added, and every placeable
/// square scanned gives one.
pub proof fn lemma_children_prefix(b: BoardView, c: int, r: int)
    requires
        0 <= c,
        0 <= r <= b.n,
    ensures
        b.children_prefix(c, r).len() <= c * b.n + r,
        forall|k: int| 0 <= k < b.children_prefix(c, r).len() ==> {
            let e = #[trigger] b.children_prefix(c, r)[k];
            placeable(b.n, b.queens, e.queens.last()) && e == b.extend(e.queens.last())
        },
        forall|p: (int, int)| #[trigger] placeable(b.n, b.queens, p) && (p.0 < c || (p.0 == c && p.1 < r))
            ==> exists|k: int| 0 <= k < b.children_prefix(c, r).len()
                && #[trigger] b.children_prefix(c, r)[k] == b.extend(p),
    decreases c, r,
{
    let s = b.children_prefix(c, r);
    if r > 0 {
        lemma_children_prefix(b, c, r - 1);
        let prev = b.children_prefix(c, r - 1);
        let q = (c, r - 1);
        if placeable(b.n, b.queens, q) {
            assert(s == prev.push(b.extend(q)));
            assert(b.extend(q).queens.last() == q);
            assert forall|k: int| 0 <= k < s.len() implies {
                let e = #[trigger] s[k];
                placeable(b.n, b.queens, e.queens.last()) && e == b.extend(e.queens.last())
            } by {
                if k < prev.len() {
                    assert(s[k] == prev[k]);
                }
            }
            assert forall|p: (int, int)| #[trigger] placeable(b.n, b.queens, p) && (p.0 < c || (p.0 == c && p.1 < r))
                implies exists|k: int| 0 <= k < s.len() && #[trigger] s[k] == b.extend(p) by {
                if p == q {
                    assert(s[prev.len() as int] == b.extend(p));
                } else {
                    let k = choose|k: int| 0 <= k < prev.len() && #[trigger] prev[k] == b.extend(p);
                    assert(s[k] == prev[k]);
                }
            }
        } else {
            assert forall|p: (int, int)| #[trigger] placeable(b.n, b.queens, p) && (p.0 < c || (p.0 == c && p.1 < r))
                implies exists|k: int| 0 <= k < s.len() && #[trigger] s[k] == b.extend(p) by {
                assert(p != q);
            }
        }
    } else if c > 0 {
        lemma_children_prefix(b, c - 1, b.n as int);
        assert((c - 1) * b.n + b.n == c * b.n) by (nonlinear_arith);
    }
}

/// A board whose queens already fill every column has no successor.
pub proof fn lemma_full_board_has_no_children(b: BoardView)
    requires
        all_on_board(b.n, b.queens),
        non_attacking(b.queens),
        b.depth() == b.n,
    ensures
        b.children() == Seq::<BoardView>::empty(),
{
    lemma_children_prefix(b, b.n as int, 0);
    let s = b.children();
    if s.len() > 0 {
        let p = s[0].queens.last();
        assert(placeable(b.n, b.queens, p));
        assert forall|i: int| 0 <= i < b.queens.len() implies (#[trigger] b.queens[i]).0 != p.0 by {
            assert(!attacks(b.queens[i], p));
        }
        lemma_free_column_bounds_depth(b.n, b.queens, p.0);
    }
    assert(s =~= Seq::<BoardView>::empty());
}

impl Board {
    /// The occupancy tables agree with the queen list, and the queens are on
    /// the board and attack no one.
    pub closed spec fn wf(&self) -> bool {
        let qs = self@.queens;
        let n = self.n as int;
        &&& 1 <= self.n <= MAX_SIZE
        &&& self.col_filled@.len() == n
        &&& self.row_filled@.len() == n
        &&& self.diag_filled@.len() == 2 * n - 1
        &&& self.neg_diag_filled@.len() == 2 * n - 1
        &&& qs.len() <= n
        &&& all_on_board(self@.n, qs)
        &&& non_attacking(qs)
        &&& forall|c: int| 0 <= c < n ==> (#[trigger] self.col_filled@[c] <==>
            exists|i: int| 0 <= i < qs.len() && (#[trigger] qs[i]).0 == c)
        &&& forall|r: int| 0 <= r < n ==> (#[trigger] self.row_filled@[r] <==>
            exists|i: int| 0 <= i < qs.len() && (#[trigger] qs[i]).1 == r)
        &&& forall|k: int| 0 <= k < 2 * n - 1 ==> (#[trigger] self.diag_filled@[k] <==>
            exists|i: int| 0 <= i < qs.len() && (#[trigger] qs[i]).0 - qs[i].1 + n - 1 == k)
        &&& forall|k: int| 0 <= k < 2 * n - 1 ==> (#[trigger] self.neg_diag_filled@[k] <==>
            exists|i: int| 0 <= i < qs.len() && (#[trigger] qs[i]).0 + qs[i].1 == k)
    }

    /// The empty board of size `n`.
    pub fn new(n: usize) -> (r: Result<Board, ConfigError>)
        ensures
            n == 0 <==> r == Err::<Board, ConfigError>(ConfigError::EmptyBoard),
            n > MAX_SIZE <==> r == Err::<Board, ConfigError>(ConfigError::BoardTooLarge),
            1 <= n <= MAX_SIZE ==> r is Ok && r->Ok_0.wf() && r->Ok_0@ == (BoardView {
                n: n as nat,
                queens: Seq::empty(),
            }),
    {
        if n == 0 {
            return Err(ConfigError::EmptyBoard);
        }
        if n > MAX_SIZE {
            return Err(ConfigError::BoardTooLarge);
        }
        let b = Board {
            n,
            queen_locs: Vec::new(),
            col_filled: falses(n),
            row_filled: falses(n),
            diag_filled: falses(2 * n - 1),
            neg_diag_filled: falses(2 * n - 1),
        };
        assert(b@.queens =~= Seq::<(int, int)>::empty());
        Ok(b)
    }

    /// The board size.
    pub fn n(&self) -> (r: usize)
        ensures
            r == self@.n,
    {
        self.n
    }

    /// The number of queens placed.
    pub fn queens(&self) -> (r: usize)
        ensures
            r == self@.depth(),
    {
        self.queen_locs.len()
    }

    /// The queens placed, as (column, row), in placement order.
    pub fn placements(&self) -> (r: Vec<(usize, usize)>)
        ensures
            r@.len() == self@.queens.len(),
            forall|i: int| 0 <= i < r@.len() ==> (r@[i].0 as int, r@[i].1 as int) == #[trigger] self@.queens[i],
    {
        let mut r: Vec<(usize, usize)> = Vec::new();
        let mut k: usize = 0;
        while k < self.queen_locs.len()
            invariant
                k <= self.queen_locs@.len(),
                r@.len() == k,
                forall|i: int| 0 <= i < k ==> (r@[i].0 as int, r@[i].1 as int) == #[trigger] self@.queens[i],
            decreases self.queen_locs@.len() - k,
        {
            r.push(self.queen_locs[k]);
            k = k + 1;
        }
        r
    }

    /// Whether a queen may be placed in column `x`, row `y`.
    pub fn can_add_queen(&self, x: usize, y: usize) -> (r: bool)
        requires
            self.wf(),
            x < self@.n,
            y < self@.n,
        ensures
            r == placeable(self@.n, self@.queens, (x as int, y as int)),
    {
        let ghost qs = self@.queens;
        let ghost p = (x as int, y as int);
        if self.col_filled[x] {
            let ghost i = choose|i: int| 0 <= i < qs.len() && (#[trigger] qs[i]).0 == x;
            assert(attacks(qs[i], p));
            return false;
        }
        if self.row_filled[y] {
            let ghost i = choose|i: int| 0 <= i < qs.len() && (#[trigger] qs[i]).1 == y;
            assert(attacks(qs[i], p));
            return false;
        }
        if self.diag_filled[x + (self.n - 1) - y] {
            let ghost i = choose|i: int| 0 <= i < qs.len() && (#[trigger] qs[i]).0 - qs[i].1 + self.n - 1 == x + (self.n - 1) - y;
            assert(attacks(qs[i], p));
            return false;
        }
        if self.neg_diag_filled[x + y] {
            let ghost i = choose|i: int| 0 <= i < qs.len() && (#[trigger] qs[i]).0 + qs[i].1 == x + y;
            assert(attacks(qs[i], p));
            return false;
        }
        assert(!self.col_filled@[x as int]);
        assert(!self.row_filled@[y as int]);
        assert(!self.diag_filled@[x + self.n - 1 - y]);
        assert(!self.neg_diag_filled@[x + y]);
        assert forall|i: int| 0 <= i < qs.len() implies !attacks(#[trigger] qs[i], p) by {
            assert(qs[i].0 != x);
            assert(qs[i].1 != y);
            assert(qs[i].0 - qs[i].1 + self.n - 1 != x + self.n - 1 - y);
            assert(qs[i].0 + qs[i].1 != x + y);
        }
        true
    }
    /// A new board with one more queen, in column `x`, row `y`; `self` is unchanged.
    pub fn add_queen(&self, x: usize, y: usize) -> (r: Board)
        requires
            self.wf(),
            placeable(self@.n, self@.queens, (x as int, y as int)),
        ensures
            r.wf(),
            r@ == self@.extend((x as int, y as int)),
    {
        let ghost qs = self@.queens;
        let ghost p = (x as int, y as int);
        let ghost n = self.n as int;
        proof {
            lemma_free_column_bounds_depth(self@.n, qs, x as int);
        }
        let mut newlocs = copy_squares(&self.queen_locs);
        let mut newcolfilled = copy_flags(&self.col_filled);
        let mut newrowfilled = copy_flags(&self.row_filled);
        let mut newdiagfilled = copy_flags(&self.diag_filled);
        let mut newnegdiagfilled = copy_flags(&self.neg_diag_filled);

        newlocs.push((x, y));
        newcolfilled.set(x, true);
        newrowfilled.set(y, true);
        newdiagfilled.set(x + (self.n - 1) - y, true);
        newnegdiagfilled.set(x + y, true);

        let r = Board {
            n: self.n,
            queen_locs: newlocs,
            col_filled: newcolfilled,
            row_filled: newrowfilled,
            diag_filled: newdiagfilled,
            neg_diag_filled: newnegdiagfilled,
        };
        let ghost nq = r@.queens;
        assert(nq =~= qs.push(p));
        assert(nq[qs.len() as int] == p);
        assert forall|c: int| 0 <= c < n implies (#[trigger] r.col_filled@[c] <==>
            exists|i: int| 0 <= i < nq.len() && (#[trigger] nq[i]).0 == c) by {
            if exists|i: int| 0 <= i < nq.len() && (#[trigger] nq[i]).0 == c {
                let i = choose|i: int| 0 <= i < nq.len() && (#[trigger] nq[i]).0 == c;
                if i < qs.len() {
                    assert(qs[i] == nq[i]);
                }
            }
            if self.col_filled@[c] {
                let i = choose|i: int| 0 <= i < qs.len() && (#[trigger] qs[i]).0 == c;
                assert(nq[i] == qs[i]);
            }
        }
        assert forall|c: int| 0 <= c < n implies (#[trigger] r.row_filled@[c] <==>
            exists|i: int| 0 <= i < nq.len() && (#[trigger] nq[i]).1 == c) by {
            if exists|i: int| 0 <= i < nq.len() && (#[trigger] nq[i]).1 == c {
                let i = choose|i: int| 0 <= i < nq.len() && (#[trigger] nq[i]).1 == c;
                if i < qs.len() {
                    assert(qs[i] == nq[i]);
                }
            }
            if self.row_filled@[c] {
                let i = choose|i: int| 0 <= i < qs.len() && (#[trigger] qs[i]).1 == c;
                assert(nq[i] == qs[i]);
            }
        }
        assert forall|k: int| 0 <= k < 2 * n - 1 implies (#[trigger] r.diag_filled@[k] <==>
            exists|i: int| 0 <= i < nq.len() && (#[trigger] nq[i]).0 - nq[i].1 + n - 1 == k) by {
            if exists|i: int| 0 <= i < nq.len() && (#[trigger] nq[i]).0 - nq[i].1 + n - 1 == k {
                let i = choose|i: int| 0 <= i < nq.len() && (#[trigger] nq[i]).0 - nq[i].1 + n - 1 == k;
                if i < qs.len() {
                    assert(qs[i] == nq[i]);
                }
            }
            if self.diag_filled@[k] {
                let i = choose|i: int| 0 <= i < qs.len() && (#[trigger] qs[i]).0 - qs[i].1 + n - 1 == k;
                assert(nq[i] == qs[i]);
            }
        }
        assert forall|k: int| 0 <= k < 2 * n - 1 implies (#[trigger] r.neg_diag_filled@[k] <==>
            exists|i: int| 0 <= i < nq.len() && (#[trigger] nq[i]).0 + nq[i].1 == k) by {
            if exists|i: int| 0 <= i < nq.len() && (#[trigger] nq[i]).0 + nq[i].1 == k {
                let i = choose|i: int| 0 <= i < nq.len() && (#[trigger] nq[i]).0 + nq[i].1 == k;
                if i < qs.len() {
                    assert(qs[i] == nq[i]);
                }
            }
            if self.neg_diag_filled@[k] {
                let i = choose|i: int| 0 <= i < qs.len() && (#[trigger] qs[i]).0 + qs[i].1 == k;
                assert(nq[i] == qs[i]);
            }
        }
        assert forall|i: int, j: int| 0 <= i < j < nq.len() implies
            !attacks(#[trigger] nq[i], #[trigger] nq[j]) by {
            if j < qs.len() {
                assert(nq[i] == qs[i] && nq[j] == qs[j]);
            } else {
                assert(nq[i] == qs[i]);
            }
        }
        assert forall|i: int| 0 <= i < nq.len() implies on_board(self@.n, #[trigger] nq[i]) by {
            if i < qs.len() {
                assert(nq[i] == qs[i]);
            }
        }
        r
    }
    /// Every board with one more queen than `self`, in column-major order of
    /// the added square (outer loop over columns, inner over rows).
    pub fn children(&self) -> (r: Vec<Board>)
        requires
            self.wf(),
        ensures
            r@.map_values(|c: Board| c@) == self@.children(),
            forall|k: int| 0 <= k < r@.len() ==> (#[trigger] r@[k]).wf(),
    {
        let mut retval: Vec<Board> = Vec::new();
        let mut i: usize = 0;
        while i < self.n
            invariant
                self.wf(),
                i <= self.n,
                retval@.map_values(|c: Board| c@) == self@.children_prefix(i as int, 0),
                forall|k: int| 0 <= k < retval@.len() ==> (#[trigger] retval@[k]).wf(),
            decreases self.n - i,
        {
            let mut j: usize = 0;
            while j < self.n
                invariant
                    self.wf(),
                    i < self.n,
                    j <= self.n,
                    retval@.map_values(|c: Board| c@) == self@.children_prefix(i as int, j as int),
                    forall|k: int| 0 <= k < retval@.len() ==> (#[trigger] retval@[k]).wf(),
                decreases self.n - j,
            {
                let ghost before = retval@;
                if self.can_add_queen(i, j) {
                    let c = self.add_queen(i, j);
                    retval.push(c);
                    assert(retval@.map_values(|c: Board| c@) =~= before.map_values(|c: Board| c@).push(c@));
                }
                j = j + 1;
            }
            i = i + 1;
        }
        retval
    }
    /// The facts of well-formedness that the queen list carries by itself.
    pub proof fn lemma_valid(&self)
        requires
            self.wf(),
        ensures
            valid(self@),
    {
    }

    /// An independent copy of the board.
    pub fn duplicate(&self) -> (r: Board)
        requires
            self.wf(),
        ensures
            r.wf(),
            r@ == self@,
    {
        Board {
            n: self.n,
            queen_locs: copy_squares(&self.queen_locs),
            col_filled: copy_flags(&self.col_filled),
            row_filled: copy_flags(&self.row_filled),
            diag_filled: copy_flags(&self.diag_filled),
            neg_diag_filled: copy_flags(&self.neg_diag_filled),
        }
    }
}

} // verus!
