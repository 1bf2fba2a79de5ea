//! The board engine: owns the grid, the union-find of stone groups, the
//! per-group liberty ledger, and the bounded history of past positions
//! used for the positional-repetition rule.

use vstd::prelude::*;
use vstd::arithmetic::div_mod::{
    lemma_fundamental_div_mod, lemma_fundamental_div_mod_converse, lemma_mod_bound,
};
use vstd::set_lib::lemma_len_subset;

use crate::coord::Coord;
use crate::disjoint_set::{sorted_strict, DisjointSet};
use crate::group_info::{GroupInfo, GroupInfoArray};
use crate::stone::{char_of, Stone};

verus! {

/// How many past positions the repetition rule remembers.
pub const MAX_STATES_RECORD: usize = 30;

/// Why a move was rejected.
#[derive(Clone, Copy, PartialEq, Eq, Structural, Debug)]
pub enum ErrorKind {
    /// The target cell already holds a stone.
    AlreadyOccupied,
    /// The move would leave the mover's own group without liberties and
    /// captures nothing.
    SelfCapture,
    /// The resulting position equals a remembered earlier position.
    PositionRepeated,
}

/// What a successful move reports: the coordinates of every captured
/// stone.
#[derive(Debug)]
pub struct PlaceStoneResult {
    pub eaten_stones: Vec<Coord>,
}

/// Orthogonal adjacency of two flat cell indices on a `size`-sided board.
pub open spec fn adj(size: usize, i: usize, j: usize) -> bool {
    &&& i < size * size
    &&& j < size * size
    &&& {
        let xi = i as int % size as int;
        let yi = i as int / size as int;
        let xj = j as int % size as int;
        let yj = j as int / size as int;
        ||| (yi == yj && (xi == xj + 1 || xj == xi + 1))
        ||| (xi == xj && (yi == yj + 1 || yj == yi + 1))
    }
}

/// The distinct empty cells orthogonally adjacent to any cell of
/// `cells`: the liberties of that set of stones on `board`.
pub open spec fn libs(board: Seq<Stone>, size: usize, cells: Set<usize>) -> Set<usize> {
    Set::new(
        |j: usize|
            j < board.len() && board[j as int].is_void() && exists|m: usize|
                #[trigger] cells.contains(m) && adj(size, m, j),
    )
}

/// Every set of cell indices below `n` is finite, with at most `n`
/// elements.
pub proof fn lemma_bounded_cells_finite(s: Set<usize>, n: usize)
    requires
        forall|x: usize| s.contains(x) ==> x < n,
    ensures
        s.finite(),
        s.len() <= n,
{
    let r = Set::<usize>::range(0usize, n);
    <usize as vstd::set_lib::FiniteRange>::range_properties(0usize, n);
    assert(s.subset_of(r));
    lemma_len_subset(s, r);
}

/// Liberty sets are finite and no larger than the board.
pub proof fn lemma_libs_finite(board: Seq<Stone>, size: usize, cells: Set<usize>)
    requires
        board.len() <= usize::MAX,
    ensures
        libs(board, size, cells).finite(),
        libs(board, size, cells).len() <= board.len(),
{
    lemma_bounded_cells_finite(libs(board, size, cells), board.len() as usize);
}

/// Relies on String::push: appends exactly the one character at the end
/// of the string.
pub assume_specification [ String::push ](s: &mut String, ch: char)
    ensures
        final(s)@ == old(s)@.push(ch),
;

/// The glyphs of row `y`: one glyph per cell, then a newline.
pub open spec fn render_row(board: Seq<Stone>, size: usize, y: int) -> Seq<char> {
    Seq::new(size as nat, |x: int| char_of(board[y * size + x])).push('\n')
}

/// The glyphs of the first `y` rows.
pub open spec fn render_upto(board: Seq<Stone>, size: usize, y: int) -> Seq<char>
    decreases y,
{
    if y <= 0 {
        Seq::empty()
    } else {
        render_upto(board, size, y - 1) + render_row(board, size, y - 1)
    }
}

/// The flat cells a list of coordinates denotes on a `size`-sided board.
pub open spec fn cells_of(size: usize, cs: Seq<Coord>) -> Seq<usize> {
    cs.map_values(|c: Coord| (c.y * size + c.x) as usize)
}

/// `c` is orthogonally adjacent to at least one cell of `cells`.
pub open spec fn touches(size: usize, cells: Set<usize>, c: usize) -> bool {
    exists|m: usize| #[trigger] cells.contains(m) && adj(size, m, c)
}

/// Clearing a set of occupied cells hands each of them, where adjacent,
/// to the liberties of a surviving group; no other liberty changes.
pub proof fn lemma_libs_after_clear(
    board_a: Seq<Stone>,
    board_f: Seq<Stone>,
    size: usize,
    cells: Set<usize>,
    freed: Set<usize>,
)
    requires
        board_f.len() == board_a.len(),
        board_a.len() <= usize::MAX,
        forall|j: int|
            0 <= j < board_f.len() ==> board_f[j] == (if freed.contains(j as usize) {
                Stone(0u8)
            } else {
                board_a[j]
            }),
        forall|c: usize| #[trigger] freed.contains(c) ==> c < board_a.len() && board_a[
            c as int
        ].is_color(),
        forall|m: usize| #[trigger] cells.contains(m) ==> !freed.contains(m),
        freed.finite(),
    ensures
        libs(board_f, size, cells) =~= libs(board_a, size, cells) + freed.filter(
            |c: usize| touches(size, cells, c),
        ),
        libs(board_f, size, cells).len() == libs(board_a, size, cells).len() + freed.filter(
            |c: usize| touches(size, cells, c),
        ).len(),
{
    let la = libs(board_a, size, cells);
    let lf = libs(board_f, size, cells);
    let gained = freed.filter(|c: usize| touches(size, cells, c));
    assert forall|j: usize| lf.contains(j) implies (la + gained).contains(j) by {
        if !freed.contains(j) {
            assert(board_a[j as int] == board_f[j as int]);
        }
    }
    assert forall|j: usize| (la + gained).contains(j) implies lf.contains(j) by {
        if la.contains(j) {
            assert(!freed.contains(j)) by {
                if freed.contains(j) {
                    assert(board_a[j as int].is_color());
                }
            }
            assert(board_f[j as int] == board_a[j as int]);
        } else {
            assert(gained.contains(j));
            assert(board_f[j as int] == Stone(0u8));
        }
    }
    assert(la.disjoint(gained)) by {
        assert forall|j: usize| la.contains(j) implies !gained.contains(j) by {
            if freed.contains(j) {
                assert(board_a[j as int].is_color());
            }
        }
    }
    assert(lf =~= la + gained);
    lemma_bounded_cells_finite(la, board_a.len() as usize);
    lemma_len_subset(gained, freed);
    vstd::set_lib::lemma_set_disjoint_lens(la, gained);
    assert(lf.len() == (la + gained).len());
}

/// Occupying one formerly empty cell removes exactly that cell from a
/// group's liberties (when adjacent) and changes nothing else.
pub proof fn lemma_libs_after_place(
    board_0: Seq<Stone>,
    board_1: Seq<Stone>,
    size: usize,
    cells: Set<usize>,
    idx: usize,
    stone: Stone,
)
    requires
        idx < board_0.len(),
        board_0.len() <= usize::MAX,
        board_0[idx as int].is_void(),
        stone.is_color(),
        board_1 == board_0.update(idx as int, stone),
    ensures
        libs(board_1, size, cells) =~= libs(board_0, size, cells).remove(idx),
        touches(size, cells, idx) ==> libs(board_1, size, cells).len() == libs(
            board_0,
            size,
            cells,
        ).len() - 1,
        !touches(size, cells, idx) ==> libs(board_1, size, cells).len() == libs(
            board_0,
            size,
            cells,
        ).len(),
{
    let l0 = libs(board_0, size, cells);
    let l1 = libs(board_1, size, cells);
    assert forall|j: usize| l1.contains(j) implies l0.remove(idx).contains(j) by {
        assert(j != idx);
        assert(board_0[j as int] == board_1[j as int]);
    }
    assert forall|j: usize| l0.remove(idx).contains(j) implies l1.contains(j) by {
        assert(board_1[j as int] == board_0[j as int]);
    }
    assert(l1 =~= l0.remove(idx));
    lemma_bounded_cells_finite(l0, board_0.len() as usize);
    if touches(size, cells, idx) {
        assert(l0.contains(idx));
        assert(l0.remove(idx).len() == l0.len() - 1);
        assert(l1.len() == l0.len() - 1);
    } else {
        assert(!l0.contains(idx));
        assert(l0.remove(idx) =~= l0);
        assert(l1.len() == l0.len());
    }
}

/// Number of entries of `s` adjacent to some cell of `cells`.
pub open spec fn count_touching(s: Seq<usize>, size: usize, cells: Set<usize>) -> int
    decreases s.len(),
{
    if s.len() == 0 {
        0
    } else {
        count_touching(s.drop_last(), size, cells) + if touches(size, cells, s.last()) {
            1int
        } else {
            0int
        }
    }
}

/// On a duplicate-free sequence, `count_touching` is the cardinality of
/// the touching subset.
pub proof fn lemma_count_touching_card(s: Seq<usize>, size: usize, cells: Set<usize>)
    requires
        s.no_duplicates(),
    ensures
        count_touching(s, size, cells) == s.to_set().filter(
            |c: usize| touches(size, cells, c),
        ).len(),
    decreases s.len(),
{
    vstd::set_lib::lemma_set_empty_equivalency_len(
        s.to_set().filter(|c: usize| touches(size, cells, c)),
    );
    if s.len() == 0 {
        assert(s.to_set() =~= Set::<usize>::empty());
        assert(s.to_set().filter(|c: usize| touches(size, cells, c)) =~= Set::<usize>::empty());
    } else {
        let rest = s.drop_last();
        let e = s.last();
        assert(rest.no_duplicates()) by {
            assert forall|k1: int, k2: int|
                0 <= k1 < k2 < rest.len() implies rest[k1] != rest[k2] by {
                assert(s[k1] == rest[k1] && s[k2] == rest[k2]);
            }
        }
        lemma_count_touching_card(rest, size, cells);
        assert(!rest.contains(e)) by {
            if rest.contains(e) {
                let k = choose|k: int| 0 <= k < rest.len() && rest[k] == e;
                assert(s[k] == e && s[s.len() - 1] == e);
            }
        }
        assert(s.to_set() =~= rest.to_set().insert(e)) by {
            rest.lemma_push_to_set_commute(e);
            assert(s =~= rest.push(e));
        }
        let f = |c: usize| touches(size, cells, c);
        rest.unique_seq_to_set();
        assert(!rest.to_set().contains(e));
        if touches(size, cells, e) {
            assert(s.to_set().filter(f) =~= rest.to_set().filter(f).insert(e));
            assert(rest.to_set().filter(f).finite()) by {
                vstd::set_lib::lemma_len_subset(rest.to_set().filter(f), rest.to_set());
            }
            assert(!rest.to_set().filter(f).contains(e));
            assert(s.to_set().filter(f).len() == rest.to_set().filter(f).len() + 1);
        } else {
            assert(s.to_set().filter(f) =~= rest.to_set().filter(f));
        }
    }
}

/// Concatenating duplicate-free sequences over disjoint value sets gives
/// a duplicate-free sequence over the union.
pub proof fn lemma_concat_no_dup(a: Seq<usize>, b: Seq<usize>)
    requires
        a.no_duplicates(),
        b.no_duplicates(),
        a.to_set().disjoint(b.to_set()),
    ensures
        (a + b).no_duplicates(),
        (a + b).to_set() =~= a.to_set() + b.to_set(),
{
    assert forall|k1: int, k2: int|
        0 <= k1 < k2 < (a + b).len() implies (a + b)[k1] != (a + b)[k2] by {
        if k1 < a.len() && k2 >= a.len() {
            assert((a + b)[k1] == a[k1] && (a + b)[k2] == b[k2 - a.len()]);
            assert(a.to_set().contains(a[k1]));
            assert(b.to_set().contains(b[k2 - a.len()]));
        }
    }
    assert forall|x: usize| (a + b).to_set().contains(x) implies (a.to_set()
        + b.to_set()).contains(x) by {
        let k = choose|k: int| 0 <= k < (a + b).len() && (a + b)[k] == x;
        if k < a.len() {
            assert(a[k] == x);
        } else {
            assert(b[k - a.len()] == x);
        }
    }
    assert forall|x: usize| (a.to_set() + b.to_set()).contains(x) implies (a
        + b).to_set().contains(x) by {
        if a.to_set().contains(x) {
            let k = choose|k: int| 0 <= k < a.len() && a[k] == x;
            assert((a + b)[k] == x);
        } else {
            let k = choose|k: int| 0 <= k < b.len() && b[k] == x;
            assert((a + b)[a.len() + k] == x);
        }
    }
}

/// Touch counts are never negative.
pub proof fn lemma_count_touching_nonneg(s: Seq<usize>, size: usize, cells: Set<usize>)
    ensures
        count_touching(s, size, cells) >= 0,
    decreases s.len(),
{
    if s.len() > 0 {
        lemma_count_touching_nonneg(s.drop_last(), size, cells);
    }
}

/// A prefix never counts more touching entries than the whole sequence.
pub proof fn lemma_count_touching_take_le(s: Seq<usize>, size: usize, cells: Set<usize>, k: int)
    requires
        0 <= k <= s.len(),
    ensures
        count_touching(s.take(k), size, cells) <= count_touching(s, size, cells),
    decreases s.len(),
{
    if k == s.len() {
        assert(s.take(k) =~= s);
    } else {
        assert(s.take(k) =~= s.drop_last().take(k));
        lemma_count_touching_take_le(s.drop_last(), size, cells, k);
    }
}

/// Counting one more entry adds one exactly when that entry touches the
/// cell set.
pub proof fn lemma_count_touching_step(s: Seq<usize>, size: usize, cells: Set<usize>, k: int)
    requires
        0 <= k < s.len(),
    ensures
        count_touching(s.take(k + 1), size, cells) == count_touching(s.take(k), size, cells) + (
        if touches(size, cells, s[k]) {
            1int
        } else {
            0int
        }),
{
    assert(s.take(k + 1).drop_last() =~= s.take(k));
    assert(s.take(k + 1).last() == s[k]);
}

/// Pushing onto a sequence extends its set of values by the new element.
pub proof fn lemma_push_contains<A>(s: Seq<A>, e: A, x: A)
    ensures
        s.push(e).contains(x) <==> (s.contains(x) || x == e),
{
    if s.contains(x) {
        let k = choose|k: int| 0 <= k < s.len() && s[k] == x;
        assert(s.push(e)[k] == x);
    }
    if x == e {
        assert(s.push(e)[s.len() as int] == x);
    }
    if s.push(e).contains(x) {
        let k = choose|k: int| 0 <= k < s.push(e).len() && s.push(e)[k] == x;
        if k < s.len() {
            assert(s[k] == x);
        }
    }
}

/// Pushing a fresh element keeps a sequence duplicate-free.
pub proof fn lemma_push_no_dup<A>(s: Seq<A>, e: A)
    requires
        s.no_duplicates(),
        !s.contains(e),
    ensures
        s.push(e).no_duplicates(),
{
    assert forall|k1: int, k2: int|
        0 <= k1 < k2 < s.push(e).len() implies s.push(e)[k1] != s.push(e)[k2] by {
        if k2 == s.len() {
            assert(s.push(e)[k1] == s[k1]);
            assert(!s.contains(e));
            assert(s[k1] != e) by {
                if s[k1] == e {
                    assert(s.contains(e));
                }
            }
        }
    }
}

/// Appends `x` unless the vector already holds it, so the vector stays
/// duplicate-free.
pub fn push_if_not_exist(v: &mut Vec<usize>, x: usize)
    ensures
        final(v)@.to_set() == old(v)@.to_set().insert(x),
        old(v)@.no_duplicates() ==> final(v)@.no_duplicates(),
        forall|e: usize| final(v)@.contains(e) <==> (old(v)@.contains(e) || e == x),
{
    let n = v.len();
    let mut i: usize = 0;
    while i < n
        invariant
            i <= n,
            n == v@.len(),
            *v == *old(v),
            forall|k: int| 0 <= k < i ==> v@[k] != x,
        decreases n - i,
    {
        if v[i] == x {
            proof {
                assert(v@.contains(x));
                assert(v@.to_set() =~= v@.to_set().insert(x));
            }
            return ;
        }
        i = i + 1;
    }
    proof {
        assert(!v@.contains(x)) by {
            if v@.contains(x) {
                let k = choose|k: int| 0 <= k < v@.len() && v@[k] == x;
            }
        }
        let prev = v@;
        if prev.no_duplicates() {
            lemma_push_no_dup(prev, x);
        }
        prev.lemma_push_to_set_commute(x);
        assert forall|e: usize| #[trigger] prev.push(x).contains(e) <==> (prev.contains(e) || e
            == x) by {
            lemma_push_contains(prev, x, e);
        }
    }
    v.push(x);
}

/// The rules engine for one game board.
///
/// Beyond the sizes matching, well-formedness (`wf`) states the facts
/// the move logic relies on: an index is tracked by the union-find
/// exactly when its cell holds a stone; a ledger entry exists exactly at
/// group roots; each entry lists exactly the group's members, all of
/// one color, with `qi` equal to the group's true liberty count on the
/// current board; and two same-colored stones that touch always belong
/// to one group.
pub struct Engine {
    pub size: usize,
    pub board: Vec<Stone>,
    pub group_ds: DisjointSet,
    pub group_info_array: GroupInfoArray,
    pub history_states: Vec<Vec<Stone>>,
}

impl Engine {
    /// Number of board cells.
    pub open spec fn n2(&self) -> int {
        self.size * self.size
    }

    /// Flat index of a coordinate.
    pub open spec fn cell_of(&self, c: Coord) -> int {
        c.y * self.size + c.x
    }

    /// The cell a coordinate denotes.
    pub open spec fn target(&self, c: Coord) -> usize {
        (c.y * self.size + c.x) as usize
    }

    /// The cell holds a stone.
    pub open spec fn occupied(&self, i: usize) -> bool {
        i < self.board@.len() && self.board@[i as int].is_color()
    }

    /// Ledger liberty count at root `r`.
    pub open spec fn qi_at(&self, r: usize) -> int {
        self.group_info_array.0@[r as int]->Some_0.qi as int
    }

    /// Ledger member list at root `r`.
    pub open spec fn members_at(&self, r: usize) -> Seq<usize> {
        self.group_info_array.0@[r as int]->Some_0.members@
    }

    /// Root of an adjacent enemy group that is down to its last liberty:
    /// placing `stone` on `idx` captures it.
    pub open spec fn eaten_root(&self, idx: usize, stone: Stone, r: usize) -> bool {
        exists|n: usize|
            #[trigger] adj(self.size, idx, n) && self.occupied(n) && self.board@[n as int]
                != stone && self.group_ds.root_of(n) == r && self.qi_at(r) == 1
    }

    /// All cells of all groups that placing `stone` on `idx` captures.
    pub open spec fn eaten_cells(&self, idx: usize, stone: Stone) -> Set<usize> {
        Set::new(
            |c: usize|
                self.group_ds.has(c) && self.eaten_root(idx, stone, self.group_ds.root_of(c)),
        )
    }

    /// Placing `stone` on `idx` captures at least one group.
    pub open spec fn any_capture(&self, idx: usize, stone: Stone) -> bool {
        exists|r: usize| self.eaten_root(idx, stone, r)
    }

    /// Some cell next to `idx` is empty.
    pub open spec fn has_empty_neighbor(&self, idx: usize) -> bool {
        exists|j: usize| #[trigger] adj(self.size, idx, j) && self.board@[j as int].is_void()
    }

    /// The move is suicidal: it captures nothing, the cell itself has no
    /// empty neighbor, and every friendly neighbor group is down to its
    /// last liberty, which the move itself would fill.
    pub open spec fn suicide(&self, idx: usize, stone: Stone) -> bool {
        &&& !self.any_capture(idx, stone)
        &&& !self.has_empty_neighbor(idx)
        &&& forall|n: usize|
            #[trigger] adj(self.size, idx, n) && self.occupied(n) && self.board@[n as int]
                == stone ==> self.qi_at(self.group_ds.root_of(n)) == 1
    }

    /// The position that placing `stone` on `idx` would produce: the
    /// stone put down and every captured cell cleared.
    pub open spec fn board_after(&self, idx: usize, stone: Stone) -> Seq<Stone> {
        Seq::new(
            self.board@.len(),
            |j: int|
                if j == idx {
                    stone
                } else if self.eaten_cells(idx, stone).contains(j as usize) {
                    Stone(0u8)
                } else {
                    self.board@[j]
                },
        )
    }

    /// The position that the move would produce equals one of the
    /// remembered past positions.
    pub open spec fn repeated(&self, idx: usize, stone: Stone) -> bool {
        exists|h: int|
            0 <= h < self.history_states@.len() && (#[trigger] self.history_states@[h])@
                == self.board_after(idx, stone)
    }

    /// Every group keeps at least one liberty between moves. A board
    /// handed to `new_with_board` may break this by containing a group
    /// with no liberties; every completed move re-establishes it.
    pub open spec fn groups_alive(&self) -> bool {
        forall|r: usize| #[trigger] self.group_ds.is_root_at(r) ==> self.qi_at(r) >= 1
    }

    /// The ledger entry at root `r` is exact: it lists the group's
    /// members (each holding the same color as the root) without
    /// duplicates, and `qi` is the group's liberty count on the board.
    pub open spec fn ledger_ok(&self, r: usize) -> bool {
        &&& self.members_at(r).no_duplicates()
        &&& self.members_at(r).to_set() == self.group_ds.group(r)
        &&& forall|e: usize|
            #[trigger] self.members_at(r).to_set().contains(e) ==> e < self.board@.len()
                && self.board@[e as int] == self.board@[r as int]
        &&& self.qi_at(r) == libs(self.board@, self.size, self.group_ds.group(r)).len()
    }

    /// Two same-colored stones that touch always belong to one tracked
    /// group: the union-find never splits a chain.
    pub open spec fn maximal(&self) -> bool {
        forall|i: usize, j: usize|
            #[trigger] adj(self.size, i, j) && self.board@[i as int].is_color() && self.board@[
                j as int] == self.board@[i as int] ==> self.group_ds.in_same(i, j)
    }

    /// Structure invariant of the whole engine.
    pub open spec fn wf(&self) -> bool {
        &&& 1 <= self.size
        &&& self.n2() < usize::MAX
        &&& self.board@.len() == self.n2()
        &&& forall|i: int| 0 <= i < self.board@.len() ==> (#[trigger] self.board@[i]).valid()
        &&& self.group_ds.wf()
        &&& self.group_ds.cap() == self.n2()
        &&& self.group_info_array.0@.len() == self.n2()
        &&& self.history_states@.len() <= MAX_STATES_RECORD
        &&& forall|h: int|
            0 <= h < self.history_states@.len() ==> (#[trigger] self.history_states@[h])@.len()
                == self.n2()
        &&& forall|i: usize| #[trigger] self.group_ds.has(i) <==> self.occupied(i)
        &&& forall|r: usize|
            r < self.n2() ==> ((#[trigger] self.group_info_array.0@[r as int]) is Some
                <==> self.group_ds.is_root_at(r))
        &&& forall|r: usize| #[trigger] self.group_ds.is_root_at(r) ==> self.ledger_ok(r)
        &&& self.maximal()
    }

    /// Creates an engine with an empty `size` by `size` board.
    pub fn new(size: usize) -> (e: Engine)
        requires
            1 <= size,
            size * size < usize::MAX,
        ensures
            e.wf(),
            e.groups_alive(),
            e.size == size,
            e.board@.len() == size * size,
            forall|i: int| 0 <= i < e.board@.len() ==> (#[trigger] e.board@[i]).is_void(),
            e.history_states@.len() == 0,
    {
        let n2 = size * size;
        let mut board: Vec<Stone> = Vec::new();
        let mut i: usize = 0;
        while i < n2
            invariant
                i <= n2,
                board@.len() == i,
                forall|j: int| 0 <= j < i ==> (#[trigger] board@[j]) == Stone(0u8),
            decreases n2 - i,
        {
            board.push(Stone(0));
            i = i + 1;
        }
        let e = Engine {
            size,
            board,
            group_ds: DisjointSet::new(n2),
            group_info_array: GroupInfoArray::new(n2),
            history_states: Vec::new(),
        };
        proof {
            assert forall|r: usize| #[trigger] e.group_ds.is_root_at(r) implies e.ledger_ok(
                r,
            ) by {}
            assert(e.maximal()) by {
                assert forall|i: usize, j: usize|
                    #[trigger] adj(e.size, i, j) && e.board@[i as int].is_color() && e.board@[
                        j as int] == e.board@[i as int] implies e.group_ds.in_same(i, j) by {}
            }
        }
        e
    }

    /// Creates an engine over a pre-filled board, re-deriving the group
    /// structure and the liberty ledger from the cells alone. The
    /// history starts empty. A handed-in board may contain groups that
    /// already have no liberty, so `groups_alive` is not promised here.
    pub fn new_with_board(size: usize, board: Vec<Stone>) -> (e: Engine)
        requires
            1 <= size,
            size * size < usize::MAX,
            board@.len() == size * size,
            forall|i: int| 0 <= i < board@.len() ==> (#[trigger] board@[i]).valid(),
        ensures
            e.wf(),
            e.size == size,
            e.board@ == board@,
            e.history_states@.len() == 0,
    {
        let n2 = size * size;
        let mut e = Engine {
            size,
            board,
            group_ds: DisjointSet::new(n2),
            group_info_array: GroupInfoArray::new(n2),
            history_states: Vec::new(),
        };
        let ghost b0 = e.board@;
        let mut idx: usize = 0;
        while idx < n2
            invariant
                idx <= n2,
                1 <= e.size,
                e.size == size,
                n2 == e.n2(),
                e.n2() < usize::MAX,
                e.board@ == b0,
                e.board@.len() == e.n2(),
                forall|i: int| 0 <= i < e.board@.len() ==> (#[trigger] e.board@[i]).valid(),
                e.group_ds.wf(),
                e.group_ds.cap() == e.n2(),
                e.group_info_array.0@.len() == e.n2(),
                forall|s2: int| 0 <= s2 < e.n2() ==> e.group_info_array.0@[s2] is None,
                e.history_states@.len() == 0,
                forall|j: usize| #[trigger] e.group_ds.has(j) <==> (j < idx && e.occupied(j)),
                forall|a: usize, b: usize|
                    #[trigger] e.group_ds.in_same(a, b) ==> e.board@[a as int] == e.board@[
                        b as int],
                forall|a: usize, b: usize|
                    #[trigger] adj(e.size, a, b) && a < idx && b < idx && e.board@[
                        a as int].is_color() && e.board@[b as int] == e.board@[a as int]
                        ==> e.group_ds.in_same(a, b),
            decreases n2 - idx,
        {
            let ghost dstop = e.group_ds;
            if e.have_stone(idx) {
                let ghost pre0 = e.group_ds;
                e.group_ds.insert(idx);
                proof {
                    let post = e.group_ds;
                    assert forall|a: usize, b: usize|
                        #[trigger] dstop.in_same(a, b) implies post.in_same(a, b) by {
                        if dstop.in_same(a, b) {
                            assert(post.root_of(a) == dstop.root_of(a));
                            assert(post.root_of(b) == dstop.root_of(b));
                        }
                    }
                    assert forall|a: usize, b: usize|
                        #[trigger] post.in_same(a, b) implies e.board@[a as int] == e.board@[
                        b as int] by {
                        if a != idx || b != idx {
                            if pre0.has(a) && pre0.has(b) {
                                assert(post.root_of(a) == pre0.root_of(a));
                                assert(post.root_of(b) == pre0.root_of(b));
                                assert(pre0.in_same(a, b));
                            } else {
                                if !pre0.has(a) && post.has(a) {
                                    assert(a == idx);
                                    assert(post.group(idx).contains(b));
                                    assert(b == idx);
                                } else {
                                    if !pre0.has(b) && post.has(b) {
                                        assert(b == idx);
                                        assert(post.group(idx).contains(a));
                                        assert(a == idx);
                                    }
                                }
                            }
                        }
                    }
                }
                let x = idx % size;
                let y = idx / size;
                proof {
                    lemma_fundamental_div_mod(idx as int, size as int);
                    lemma_mod_bound(idx as int, size as int);
                }
                if x > 0 {
                    let left = idx - 1;
                    if e.board[left].0 == e.board[idx].0 {
                        proof {
                            assert(e.board@[left as int] == e.board@[idx as int]);
                            assert(e.occupied(left));
                            assert(e.group_ds.has(left));
                        }
                        let ghost pre = e.group_ds;
                        e.group_ds.connect(idx, left);
                        proof {
                            let post = e.group_ds;
                            assert forall|a: usize, b: usize|
                                #[trigger] pre.in_same(a, b) implies post.in_same(a, b) by {
                                if pre.in_same(a, b) {
                                    if pre.in_same(a, idx) || pre.in_same(a, left) {
                                        assert(pre.group_or_single(idx).union(
                                            pre.group_or_single(left),
                                        ).contains(a));
                                        assert(pre.group_or_single(idx).union(
                                            pre.group_or_single(left),
                                        ).contains(b)) by {
                                            if pre.in_same(a, idx) {
                                                assert(pre.in_same(b, idx));
                                            } else {
                                                assert(pre.in_same(b, left));
                                            }
                                        }
                                        assert(post.group(idx).contains(a));
                                        assert(post.group(idx).contains(b));
                                    } else {
                                        assert(!pre.in_same(b, idx) && !pre.in_same(b, left));
                                        assert(post.root_of(a) == pre.root_of(a));
                                        assert(post.root_of(b) == pre.root_of(b));
                                        assert(post.has(a) && post.has(b));
                                    }
                                }
                            }
                            assert forall|a: usize, b: usize|
                                #[trigger] dstop.in_same(a, b) implies post.in_same(a, b) by {}
                            assert(post.in_same(idx, left));
                            assert forall|a: usize, b: usize|
                                #[trigger] post.in_same(a, b) implies e.board@[a as int]
                                == e.board@[b as int] by {
                                if post.in_same(a, b) {
                                    assert(post.group(a).contains(b));
                                    if pre.in_same(a, b) {
                                    } else {
                                        if post.group(idx).contains(a) && post.group(
                                            idx,
                                        ).contains(b) {
                                            assert(pre.group_or_single(idx).union(
                                                pre.group_or_single(left),
                                            ).contains(a));
                                            assert(pre.group_or_single(idx).union(
                                                pre.group_or_single(left),
                                            ).contains(b));
                                            assert(e.board@[a as int] == e.board@[idx as int]) by {
                                                if pre.group_or_single(idx).contains(a) {
                                                    if pre.has(idx) {
                                                        assert(pre.in_same(a, idx));
                                                    }
                                                } else {
                                                    assert(pre.group_or_single(left).contains(a));
                                                    if pre.has(left) {
                                                        assert(pre.in_same(a, left));
                                                    }
                                                }
                                            }
                                            assert(e.board@[b as int] == e.board@[idx as int]) by {
                                                if pre.group_or_single(idx).contains(b) {
                                                    if pre.has(idx) {
                                                        assert(pre.in_same(b, idx));
                                                    }
                                                } else {
                                                    assert(pre.group_or_single(left).contains(b));
                                                    if pre.has(left) {
                                                        assert(pre.in_same(b, left));
                                                    }
                                                }
                                            }
                                        } else {
                                            assert(post.group(a) =~= pre.group(a)) by {
                                                assert(pre.has(a));
                                                assert(!pre.in_same(a, idx) && !pre.in_same(
                                                    a,
                                                    left,
                                                )) by {
                                                    if pre.in_same(a, idx) || pre.in_same(
                                                        a,
                                                        left,
                                                    ) {
                                                        assert(post.group(idx).contains(a));
                                                        assert(post.in_same(a, idx));
                                                        assert(post.in_same(idx, b));
                                                        assert(post.group(idx).contains(b));
                                                    }
                                                }
                                            }
                                            assert(pre.group(a).contains(b));
                                            assert(pre.in_same(a, b));
                                        }
                                    }
                                }
                            }
                        }
                    }
                }
                if y > 0 {
                    proof {
                        assert((y as int - 1) * size == y * size - size) by (nonlinear_arith);
                        assert(idx >= size) by (nonlinear_arith)
                            requires
                                size >= 1,
                                y >= 1,
                                x >= 0,
                                idx as int == size * y + x,
                        ;
                    }
                    let up = idx - size;
                    if e.board[up].0 == e.board[idx].0 {
                        proof {
                            assert(e.board@[up as int] == e.board@[idx as int]);
                            assert(e.occupied(up));
                            assert(e.group_ds.has(up));
                        }
                        let ghost pre = e.group_ds;
                        e.group_ds.connect(idx, up);
                        proof {
                            let post = e.group_ds;
                            assert forall|a: usize, b: usize|
                                #[trigger] pre.in_same(a, b) implies post.in_same(a, b) by {
                                if pre.in_same(a, b) {
                                    if pre.in_same(a, idx) || pre.in_same(a, up) {
                                        assert(pre.group_or_single(idx).union(
                                            pre.group_or_single(up),
                                        ).contains(a));
                                        assert(pre.group_or_single(idx).union(
                                            pre.group_or_single(up),
                                        ).contains(b)) by {
                                            if pre.in_same(a, idx) {
                                                assert(pre.in_same(b, idx));
                                            } else {
                                                assert(pre.in_same(b, up));
                                            }
                                        }
                                        assert(post.group(idx).contains(a));
                                        assert(post.group(idx).contains(b));
                                    } else {
                                        assert(!pre.in_same(b, idx) && !pre.in_same(b, up));
                                        assert(post.root_of(a) == pre.root_of(a));
                                        assert(post.root_of(b) == pre.root_of(b));
                                        assert(post.has(a) && post.has(b));
                                    }
                                }
                            }
                            assert forall|a: usize, b: usize|
                                #[trigger] dstop.in_same(a, b) implies post.in_same(a, b) by {}
                            assert(post.in_same(idx, up));
                            assert forall|a: usize, b: usize|
                                #[trigger] post.in_same(a, b) implies e.board@[a as int]
                                == e.board@[b as int] by {
                                if post.in_same(a, b) {
                                    assert(post.group(a).contains(b));
                                    if pre.in_same(a, b) {
                                    } else {
                                        if post.group(idx).contains(a) && post.group(
                                            idx,
                                        ).contains(b) {
                                            assert(pre.group_or_single(idx).union(
                                                pre.group_or_single(up),
                                            ).contains(a));
                                            assert(pre.group_or_single(idx).union(
                                                pre.group_or_single(up),
                                            ).contains(b));
                                            assert(e.board@[a as int] == e.board@[idx as int]) by {
                                                if pre.group_or_single(idx).contains(a) {
                                                    if pre.has(idx) {
                                                        assert(pre.in_same(a, idx));
                                                    }
                                                } else {
                                                    assert(pre.group_or_single(up).contains(a));
                                                    if pre.has(up) {
                                                        assert(pre.in_same(a, up));
                                                    }
                                                }
                                            }
                                            assert(e.board@[b as int] == e.board@[idx as int]) by {
                                                if pre.group_or_single(idx).contains(b) {
                                                    if pre.has(idx) {
                                                        assert(pre.in_same(b, idx));
                                                    }
                                                } else {
                                                    assert(pre.group_or_single(up).contains(b));
                                                    if pre.has(up) {
                                                        assert(pre.in_same(b, up));
                                                    }
                                                }
                                            }
                                        } else {
                                            assert(post.group(a) =~= pre.group(a)) by {
                                                assert(pre.has(a));
                                                assert(!pre.in_same(a, idx) && !pre.in_same(
                                                    a,
                                                    up,
                                                )) by {
                                                    if pre.in_same(a, idx) || pre.in_same(
                                                        a,
                                                        up,
                                                    ) {
                                                        assert(post.group(idx).contains(a));
                                                        assert(post.in_same(a, idx));
                                                        assert(post.in_same(idx, b));
                                                        assert(post.group(idx).contains(b));
                                                    }
                                                }
                                            }
                                            assert(pre.group(a).contains(b));
                                            assert(pre.in_same(a, b));
                                        }
                                    }
                                }
                            }
                        }
                    }
                }
            }
            proof {
                assert forall|a: usize, b: usize|
                    #[trigger] adj(e.size, a, b) && a < idx + 1 && b < idx + 1 && e.board@[
                        a as int].is_color() && e.board@[b as int] == e.board@[
                        a as int] implies e.group_ds.in_same(a, b) by {
                    if a < idx && b < idx {
                        assert(dstop.in_same(a, b));
                    } else {
                        // One cell of the pair is the one just processed;
                        // the other is its left or upper neighbor.
                        let p: usize = if a == idx {
                            b
                        } else {
                            a
                        };
                        assert(p < idx && adj(e.size, p, idx));
                        assert(e.board@[idx as int].is_color() && e.board@[p as int] == e.board@[
                            idx as int]);
                        assert(e.occupied(idx));
                        lemma_fundamental_div_mod(idx as int, e.size as int);
                        lemma_mod_bound(idx as int, e.size as int);
                        lemma_fundamental_div_mod(p as int, e.size as int);
                        lemma_mod_bound(p as int, e.size as int);
                        let xp = p as int % e.size as int;
                        let yp = p as int / e.size as int;
                        let xi = idx as int % e.size as int;
                        let yi = idx as int / e.size as int;
                        if yp == yi {
                            assert(xp == xi - 1) by {
                                if xp == xi + 1 {
                                    assert(p as int == idx + 1);
                                }
                            }
                            assert(p as int == idx - 1);
                            assert(xi > 0);
                            assert(e.group_ds.in_same(idx, p));
                        } else {
                            assert(yp == yi - 1) by {
                                if yp == yi + 1 {
                                    assert(e.size as int * yp == e.size as int * yi + e.size)
                                        by (nonlinear_arith)
                                        requires
                                            yp == yi + 1,
                                    ;
                                    assert(p as int == idx + e.size);
                                }
                            }
                            assert(e.size as int * yp == e.size as int * yi - e.size)
                                by (nonlinear_arith)
                                requires
                                    yp == yi - 1,
                            ;
                            assert(p as int == idx - e.size);
                            assert(yi > 0);
                            assert(e.group_ds.in_same(idx, p));
                        }
                        assert(e.group_ds.in_same(a, b)) by {
                            assert(e.group_ds.in_same(idx, p));
                        }
                    }
                }
            }
            idx = idx + 1;
        }
        // Second pass: one exact ledger entry per derived group.
        let roots = e.group_ds.group_roots();
        let rn = roots.len();
        let mut k: usize = 0;
        while k < rn
            invariant
                k <= rn,
                rn == roots@.len(),
                1 <= e.size,
                e.size == size,
                e.n2() < usize::MAX,
                e.board@ == b0,
                e.board@.len() == e.n2(),
                forall|i: int| 0 <= i < e.board@.len() ==> (#[trigger] e.board@[i]).valid(),
                e.group_ds.wf(),
                e.group_ds.cap() == e.n2(),
                e.group_info_array.0@.len() == e.n2(),
                e.history_states@.len() == 0,
                sorted_strict(roots@),
                forall|r: usize| roots@.to_set().contains(r) <==> e.group_ds.is_root_at(r),
                forall|j: usize| #[trigger] e.group_ds.has(j) <==> e.occupied(j),
                forall|a: usize, b: usize|
                    #[trigger] e.group_ds.in_same(a, b) ==> e.board@[a as int] == e.board@[
                        b as int],
                e.maximal(),
                forall|s2: usize|
                    s2 < e.n2() ==> ((#[trigger] e.group_info_array.0@[s2 as int]) is Some
                        <==> roots@.subrange(0, k as int).contains(s2)),
                forall|s2: usize|
                    #[trigger] roots@.subrange(0, k as int).contains(s2) ==> e.group_ds.is_root_at(
                        s2,
                    ) && e.ledger_ok(s2),
            decreases rn - k,
        {
            proof {
                assert(roots@.contains(roots@[k as int]));
                assert(roots@.to_set().contains(roots@[k as int]));
            }
            let r = roots[k];
            proof {
                assert(e.group_ds.is_root_at(r));
                assert(e.group_ds.has(r)) by {
                    assert(e.group_ds.cell_ok(r as int));
                }
            }
            let members = match e.group_ds.group_members(r) {
                Some(m) => m,
                None => unreached(),
            };
            proof {
                assert(e.group_ds.root_of(r) == r) by {
                    assert(e.group_ds.cell_ok(r as int));
                }
                assert(members@.to_set() == e.group_ds.group(r));
                assert forall|kk: int|
                    0 <= kk < members@.len() implies (#[trigger] members@[kk]) < e.n2() by {
                    assert(members@.to_set().contains(members@[kk]));
                    assert(e.group_ds.group(r).contains(members@[kk]));
                }
            }
            let qi = e.calc_qi(&members);
            let ghost mv = members@;
            let ghost preg = e.group_info_array.0@;
            e.group_info_array.set_entry(r, Some(GroupInfo::new(qi, members)));
            proof {
                assert forall|s2: usize|
                    s2 < e.n2() implies ((#[trigger] e.group_info_array.0@[s2 as int]) is Some
                    <==> roots@.subrange(0, k + 1 as int).contains(s2)) by {
                    if s2 == r {
                        assert(roots@.subrange(0, k + 1 as int)[k as int] == r);
                        assert(roots@.subrange(0, k + 1 as int).contains(s2));
                    } else {
                        assert(e.group_info_array.0@[s2 as int] == preg[s2 as int]);
                        if roots@.subrange(0, k + 1 as int).contains(s2) {
                            let kk = choose|kk: int|
                                0 <= kk < k + 1 && #[trigger] roots@.subrange(0, k + 1 as int)[kk]
                                    == s2;
                            assert(kk < k) by {
                                if kk == k {
                                    assert(roots@.subrange(0, k + 1 as int)[k as int] == r);
                                }
                            }
                            assert(roots@.subrange(0, k as int)[kk] == s2);
                            assert(roots@.subrange(0, k as int).contains(s2));
                        } else {
                            assert(!roots@.subrange(0, k as int).contains(s2)) by {
                                if roots@.subrange(0, k as int).contains(s2) {
                                    let kk = choose|kk: int|
                                        0 <= kk < k && #[trigger] roots@.subrange(0, k as int)[kk]
                                            == s2;
                                    assert(roots@.subrange(0, k + 1 as int)[kk] == s2);
                                }
                            }
                        }
                    }
                }
                assert forall|s2: usize|
                    #[trigger] roots@.subrange(0, k + 1 as int).contains(
                        s2,
                    ) implies e.group_ds.is_root_at(s2) && e.ledger_ok(s2) by {
                    if s2 == r {
                        assert(e.members_at(r) == mv);
                        assert(e.qi_at(r) == qi);
                        assert(mv.to_set() =~= e.group_ds.group(r));
                        assert forall|e2: usize|
                            #[trigger] e.members_at(r).to_set().contains(e2) implies e2
                            < e.board@.len() && e.board@[e2 as int] == e.board@[r as int] by {
                            assert(e.group_ds.group(r).contains(e2));
                            assert(e.group_ds.in_same(e2, r)) by {
                                assert(e.group_ds.group(r).contains(r)) by {
                                    assert(e.group_ds.has(r));
                                }
                            }
                        }
                    } else {
                        let kk = choose|kk: int|
                            0 <= kk < k + 1 && #[trigger] roots@.subrange(0, k + 1 as int)[kk]
                                == s2;
                        assert(kk < k) by {
                            if kk == k {
                                assert(roots@.subrange(0, k + 1 as int)[k as int] == r);
                            }
                        }
                        assert(roots@.subrange(0, k as int)[kk] == s2);
                        assert(roots@.subrange(0, k as int).contains(s2));
                        assert(e.group_info_array.0@[s2 as int] == preg[s2 as int]);
                    }
                }
            }
            k = k + 1;
        }
        proof {
            assert(roots@.subrange(0, rn as int) == roots@);
            assert forall|r: usize| #[trigger] e.group_ds.is_root_at(r) implies e.ledger_ok(
                r,
            ) by {
                assert(roots@.to_set().contains(r));
                let kk = choose|kk: int| 0 <= kk < roots@.len() && roots@[kk] == r;
                assert(roots@.subrange(0, rn as int)[kk] == r);
                assert(roots@.subrange(0, rn as int).contains(r));
            }
            assert forall|s2: usize|
                s2 < e.n2() implies ((#[trigger] e.group_info_array.0@[s2 as int]) is Some
                <==> e.group_ds.is_root_at(s2)) by {
                if e.group_info_array.0@[s2 as int] is Some {
                    assert(roots@.subrange(0, rn as int).contains(s2));
                    assert(roots@.to_set().contains(s2));
                }
                if e.group_ds.is_root_at(s2) {
                    assert(roots@.to_set().contains(s2));
                    let kk = choose|kk: int| 0 <= kk < roots@.len() && roots@[kk] == s2;
                    assert(roots@.subrange(0, rn as int)[kk] == s2);
                    assert(roots@.subrange(0, rn as int).contains(s2));
                }
            }
        }
        e
    }

    /// Board side length.
    pub fn size(&self) -> (n: usize)
        ensures
            n == self.size,
    {
        self.size
    }

    /// Read-only view of the flat cell sequence.
    pub fn board(&self) -> (b: &[Stone])
        ensures
            b@ == self.board@,
    {
        self.board.as_slice()
    }

    /// The cell at flat index `idx` holds a stone.
    fn have_stone(&self, idx: usize) -> (r: bool)
        requires
            idx < self.board@.len(),
            self.board@[idx as int].valid(),
        ensures
            r == self.occupied(idx),
    {
        self.board[idx].0 != 0
    }

    /// The flat index of `coord`.
    fn idx(&self, coord: Coord) -> (i: usize)
        requires
            coord.x < self.size,
            coord.y < self.size,
            self.n2() <= usize::MAX,
        ensures
            i == self.cell_of(coord),
            i < self.n2(),
    {
        proof {
            assert(coord.y * self.size + coord.x < self.size * self.size) by (nonlinear_arith)
                requires
                    coord.x < self.size,
                    coord.y < self.size,
            ;
        }
        coord.y * self.size + coord.x
    }

    /// The up-to-four orthogonal neighbors of `idx`, each exactly once.
    fn neighbors(&self, idx: usize) -> (v: Vec<usize>)
        requires
            1 <= self.size,
            self.n2() <= usize::MAX,
            idx < self.n2(),
        ensures
            v@.no_duplicates(),
            forall|j: usize| #[trigger] v@.contains(j) <==> adj(self.size, idx, j),
    {
        let size = self.size;
        let y = idx / size;
        let x = idx % size;
        proof {
            lemma_fundamental_div_mod(idx as int, size as int);
            lemma_mod_bound(idx as int, size as int);
            assert(y < size) by (nonlinear_arith)
                requires
                    size >= 1,
                    idx < size * size,
                    y == idx as int / size as int,
                    idx as int == size * y + x,
                    0 <= x < size,
            ;
        }
        let mut v: Vec<usize> = Vec::with_capacity(4);
        if x > 0 {
            proof {
                lemma_fundamental_div_mod_converse(idx - 1, size as int, y as int, x - 1);
                assert(adj(self.size, idx, (idx - 1) as usize));
                lemma_push_contains(v@, (idx - 1) as usize, (idx - 1) as usize);
                lemma_push_no_dup(v@, (idx - 1) as usize);
            }
            v.push(idx - 1);
        }
        proof {
            assert forall|e: usize| v@.contains(e) implies (x > 0 && e == idx - 1) by {}
            assert(x > 0 ==> v@.contains((idx - 1) as usize));
        }
        if x < size - 1 {
            proof {
                assert(idx + 1 < size * size) by (nonlinear_arith)
                    requires
                        size >= 1,
                        idx as int == size * y + x,
                        0 <= x < size - 1,
                        0 <= y < size,
                ;
                lemma_fundamental_div_mod_converse(idx + 1, size as int, y as int, x + 1);
                assert(adj(self.size, idx, (idx + 1) as usize));
                assert(!v@.contains((idx + 1) as usize));
                lemma_push_no_dup(v@, (idx + 1) as usize);
                assert forall|e: usize| #[trigger] v@.push((idx + 1) as usize).contains(
                    e,
                ) <==> (v@.contains(e) || e == idx + 1) by {
                    lemma_push_contains(v@, (idx + 1) as usize, e);
                }
            }
            v.push(idx + 1);
        }
        proof {
            assert forall|e: usize|
                v@.contains(e) implies ((x > 0 && e == idx - 1) || (x < size - 1 && e == idx
                    + 1)) by {}
            assert(x > 0 ==> v@.contains((idx - 1) as usize));
            assert(x < size - 1 ==> v@.contains((idx + 1) as usize));
        }
        if y > 0 {
            proof {
                assert((y as int - 1) * size == y * size - size) by (nonlinear_arith);
                assert(idx >= size);
                lemma_fundamental_div_mod_converse(
                    idx - size,
                    size as int,
                    y as int - 1,
                    x as int,
                );
                assert(adj(self.size, idx, (idx - size) as usize));
                assert(!v@.contains((idx - size) as usize));
                lemma_push_no_dup(v@, (idx - size) as usize);
                assert forall|e: usize| #[trigger] v@.push((idx - size) as usize).contains(
                    e,
                ) <==> (v@.contains(e) || e == idx - size) by {
                    lemma_push_contains(v@, (idx - size) as usize, e);
                }
            }
            v.push(idx - size);
        }
        proof {
            assert forall|e: usize|
                v@.contains(e) implies ((x > 0 && e == idx - 1) || (x < size - 1 && e == idx + 1)
                    || (y > 0 && e == idx - size)) by {}
            assert(x > 0 ==> v@.contains((idx - 1) as usize));
            assert(x < size - 1 ==> v@.contains((idx + 1) as usize));
            assert(y > 0 ==> v@.contains((idx - size) as usize));
        }
        if y < size - 1 {
            proof {
                assert(idx + size < size * size) by (nonlinear_arith)
                    requires
                        size >= 1,
                        idx as int == size * y + x,
                        0 <= x < size,
                        0 <= y < size - 1,
                ;
                assert((y as int + 1) * size == y * size + size) by (nonlinear_arith);
                lemma_fundamental_div_mod_converse(
                    idx + size,
                    size as int,
                    y as int + 1,
                    x as int,
                );
                assert(adj(self.size, idx, (idx + size) as usize));
                assert(!v@.contains((idx + size) as usize));
                lemma_push_no_dup(v@, (idx + size) as usize);
                assert forall|e: usize| #[trigger] v@.push((idx + size) as usize).contains(
                    e,
                ) <==> (v@.contains(e) || e == idx + size) by {
                    lemma_push_contains(v@, (idx + size) as usize, e);
                }
            }
            v.push(idx + size);
        }
        proof {
            assert forall|e: usize|
                v@.contains(e) implies ((x > 0 && e == idx - 1) || (x < size - 1 && e == idx + 1)
                    || (y > 0 && e == idx - size) || (y < size - 1 && e == idx + size)) by {}
            assert(x > 0 ==> v@.contains((idx - 1) as usize));
            assert(x < size - 1 ==> v@.contains((idx + 1) as usize));
            assert(y > 0 ==> v@.contains((idx - size) as usize));
            assert(y < size - 1 ==> v@.contains((idx + size) as usize));
            assert forall|j: usize| v@.contains(j) implies adj(self.size, idx, j) by {}
            assert forall|j: usize| adj(self.size, idx, j) implies v@.contains(j) by {
                lemma_fundamental_div_mod(j as int, size as int);
                lemma_mod_bound(j as int, size as int);
                let xj = j as int % size as int;
                let yj = j as int / size as int;
                assert(yj < size) by (nonlinear_arith)
                    requires
                        size >= 1,
                        j < size * size,
                        j as int == size * yj + xj,
                        0 <= xj < size,
                ;
                if yj == y {
                    if xj == x - 1 {
                        assert(j == idx - 1);
                    } else {
                        assert(xj == x + 1);
                        assert(j == idx + 1);
                    }
                } else {
                    if yj == y as int - 1 {
                        assert(size as int * yj == size as int * (y as int) - size)
                            by (nonlinear_arith)
                            requires
                                yj == y as int - 1,
                        ;
                        assert(j as int == idx - size);
                    } else {
                        assert(yj == y as int + 1);
                        assert(size as int * yj == size as int * (y as int) + size)
                            by (nonlinear_arith)
                            requires
                                yj == y as int + 1,
                        ;
                        assert(j as int == idx + size);
                    }
                }
            }
        }
        v
    }

    /// The distinct group roots among the stones orthogonally adjacent
    /// to `idx`.
    fn neighbor_groups(&mut self, idx: usize) -> (v: Vec<usize>)
        requires
            1 <= old(self).size,
            old(self).n2() <= usize::MAX,
            old(self).board@.len() == old(self).n2(),
            forall|i: int|
                0 <= i < old(self).board@.len() ==> (#[trigger] old(self).board@[i]).valid(),
            old(self).group_ds.wf(),
            old(self).group_ds.cap() == old(self).n2(),
            forall|i: usize| #[trigger] old(self).group_ds.has(i) <==> old(self).occupied(i),
            idx < old(self).n2(),
        ensures
            *final(self) == *old(self),
            v@.no_duplicates(),
            forall|r: usize|
                #[trigger] v@.contains(r) <==> exists|nn: usize|
                    #[trigger] adj(old(self).size, idx, nn) && old(self).occupied(nn) && old(self).group_ds.root_of(nn) == r,
    {
        let nb = self.neighbors(idx);
        let mut v: Vec<usize> = Vec::new();
        let n = nb.len();
        let mut t: usize = 0;
        while t < n
            invariant
                t <= n,
                n == nb@.len(),
                *self == *old(self),
                1 <= self.size,
                self.n2() <= usize::MAX,
                self.board@.len() == self.n2(),
                forall|i: int|
                    0 <= i < self.board@.len() ==> (#[trigger] self.board@[i]).valid(),
                self.group_ds.wf(),
                self.group_ds.cap() == self.n2(),
                forall|i: usize| #[trigger] self.group_ds.has(i) <==> self.occupied(i),
                idx < self.n2(),
                nb@.no_duplicates(),
                forall|j: usize| #[trigger] nb@.contains(j) <==> adj(self.size, idx, j),
                v@.no_duplicates(),
                forall|r: usize|
                    #[trigger] v@.contains(r) <==> exists|tt: int|
                        0 <= tt < t && (self.occupied(#[trigger] nb@[tt]) && self.group_ds.root_of(nb@[tt]) == r),
            decreases n - t,
        {
            proof {
                assert(nb@.contains(nb@[t as int]));
            }
            let nn = nb[t];
            if self.have_stone(nn) {
                proof {
                    assert(self.group_ds.has(nn));
                }
                let root = match self.group_ds.find_root(nn) {
                    Some(r) => r,
                    None => unreached(),
                };
                let ghost prev = v@;
                push_if_not_exist(&mut v, root);
                proof {
                    assert forall|r: usize| v@.contains(r) implies exists|tt: int|
                        0 <= tt < t + 1 && (self.occupied(#[trigger] nb@[tt]) && self.group_ds.root_of(nb@[tt]) == r) by {
                        if prev.contains(r) {
                            let tt = choose|tt: int|
                                0 <= tt < t && (self.occupied(#[trigger] nb@[tt]) && self.group_ds.root_of(nb@[tt]) == r);
                            assert(0 <= tt < t + 1 && (self.occupied(#[trigger] nb@[tt]) && self.group_ds.root_of(nb@[tt]) == r));
                        } else {
                            assert(r == root);
                            assert(0 <= t < t + 1 && (self.occupied(nb@[t as int]) && self.group_ds.root_of(nb@[t as int]) == r));
                        }
                    }
                }
            } else {
                proof {
                    assert forall|r: usize| v@.contains(r) implies exists|tt: int|
                        0 <= tt < t + 1 && (self.occupied(#[trigger] nb@[tt]) && self.group_ds.root_of(nb@[tt]) == r) by {
                        let tt = choose|tt: int|
                            0 <= tt < t && (self.occupied(#[trigger] nb@[tt]) && self.group_ds.root_of(nb@[tt]) == r);
                        assert(0 <= tt < t + 1 && (self.occupied(#[trigger] nb@[tt]) && self.group_ds.root_of(nb@[tt]) == r));
                    }
                }
            }
            t = t + 1;
        }
        proof {
            assert forall|r: usize| #[trigger] v@.contains(r) <==> exists|nn: usize|
                #[trigger] adj(self.size, idx, nn) && self.occupied(nn) && self.group_ds.root_of(
                    nn,
                ) == r by {
                if v@.contains(r) {
                    let tt = choose|tt: int|
                        0 <= tt < n && (self.occupied(#[trigger] nb@[tt]) && self.group_ds.root_of(nb@[tt]) == r);
                    assert(nb@.contains(nb@[tt]));
                    assert(adj(self.size, idx, nb@[tt]));
                }
                if exists|nn: usize|
                    #[trigger] adj(self.size, idx, nn) && self.occupied(nn)
                        && self.group_ds.root_of(nn) == r {
                    let nn = choose|nn: usize|
                        adj(self.size, idx, nn) && self.occupied(nn) && self.group_ds.root_of(nn)
                            == r;
                    assert(nb@.contains(nn));
                    let tt = choose|tt: int| 0 <= tt < nb@.len() && nb@[tt] == nn;
                    assert(0 <= tt < n && (self.occupied(#[trigger] nb@[tt]) && self.group_ds.root_of(nb@[tt]) == r));
                }
            }
        }
        v
    }

    /// Recomputes from scratch the liberty count of the stones listed in
    /// `members`: the number of distinct empty cells orthogonally
    /// adjacent to any of them.
    fn calc_qi(&self, members: &Vec<usize>) -> (n: usize)
        requires
            1 <= self.size,
            self.n2() <= usize::MAX,
            self.board@.len() == self.n2(),
            forall|i: int| 0 <= i < self.board@.len() ==> (#[trigger] self.board@[i]).valid(),
            forall|k: int| 0 <= k < members@.len() ==> (#[trigger] members@[k]) < self.n2(),
        ensures
            n == libs(self.board@, self.size, members@.to_set()).len(),
    {
        let mut voids: Vec<usize> = Vec::new();
        let mm = members.len();
        let mut k: usize = 0;
        while k < mm
            invariant
                k <= mm,
                mm == members@.len(),
                1 <= self.size,
                self.n2() <= usize::MAX,
                self.board@.len() == self.n2(),
                forall|i: int| 0 <= i < self.board@.len() ==> (#[trigger] self.board@[i]).valid(),
                forall|kk: int| 0 <= kk < members@.len() ==> (#[trigger] members@[kk]) < self.n2(),
                voids@.no_duplicates(),
                voids@.to_set() == libs(
                    self.board@,
                    self.size,
                    members@.take(k as int).to_set(),
                ),
            decreases mm - k,
        {
            let m = members[k];
            let nb = self.neighbors(m);
            let ghost pre_set = members@.take(k as int).to_set();
            let nn = nb.len();
            let mut t: usize = 0;
            while t < nn
                invariant
                    t <= nn,
                    nn == nb@.len(),
                    k < members@.len(),
                    m == members@[k as int],
                    m < self.n2(),
                    1 <= self.size,
                    self.n2() <= usize::MAX,
                    self.board@.len() == self.n2(),
                    forall|i: int|
                        0 <= i < self.board@.len() ==> (#[trigger] self.board@[i]).valid(),
                    pre_set == members@.take(k as int).to_set(),
                    nb@.no_duplicates(),
                    forall|j: usize| #[trigger] nb@.contains(j) <==> adj(self.size, m, j),
                    voids@.no_duplicates(),
                    forall|e: usize|
                        #[trigger] voids@.to_set().contains(e) <==> (libs(
                            self.board@,
                            self.size,
                            pre_set,
                        ).contains(e) || (exists|tt: int|
                            0 <= tt < t && nb@[tt] == e) && self.board@[e as int].is_void()),
                decreases nn - t,
            {
                proof {
                    assert(nb@.contains(nb@[t as int]));
                    assert(adj(self.size, m, nb@[t as int]));
                }
                let j = nb[t];
                let ghost prev = voids@;
                if !self.have_stone(j) {
                    push_if_not_exist(&mut voids, j);
                }
                proof {
                    assert forall|e: usize| #[trigger] voids@.to_set().contains(e) <==> (libs(
                        self.board@,
                        self.size,
                        pre_set,
                    ).contains(e) || (exists|tt: int|
                        0 <= tt < t + 1 && nb@[tt] == e) && self.board@[e as int].is_void()) by {
                        if voids@.to_set().contains(e) {
                            if !prev.to_set().contains(e) {
                                assert(e == nb@[t as int]);
                                assert(0 <= t < t + 1 && nb@[t as int] == e);
                            } else {
                                if !libs(self.board@, self.size, pre_set).contains(e) {
                                    let tt = choose|tt: int| 0 <= tt < t && nb@[tt] == e;
                                }
                            }
                        }
                        if (exists|tt: int| 0 <= tt < t + 1 && nb@[tt] == e)
                            && self.board@[e as int].is_void() {
                            let tt = choose|tt: int| 0 <= tt < t + 1 && nb@[tt] == e;
                            if tt == t {
                                assert(e == nb@[t as int]);
                                assert(!self.occupied(nb@[t as int]));
                                assert(voids@.to_set().contains(e));
                            } else {
                                assert(prev.to_set().contains(e));
                            }
                        }
                    }
                }
                t = t + 1;
            }
            proof {
                assert(members@.take(k + 1 as int).to_set() =~= pre_set.insert(m)) by {
                    assert(members@.take(k + 1 as int) == members@.take(k as int).push(m));
                    members@.take(k as int).lemma_push_to_set_commute(m);
                }
                assert(voids@.to_set() =~= libs(
                    self.board@,
                    self.size,
                    members@.take(k + 1 as int).to_set(),
                )) by {
                    assert forall|e: usize| voids@.to_set().contains(e) implies libs(
                        self.board@,
                        self.size,
                        pre_set.insert(m),
                    ).contains(e) by {
                        if !libs(self.board@, self.size, pre_set).contains(e) {
                            let tt = choose|tt: int| 0 <= tt < nn && nb@[tt] == e;
                            assert(nb@.contains(nb@[tt]));
                            assert(adj(self.size, m, e));
                            assert(pre_set.insert(m).contains(m));
                        } else {
                            let w = choose|w: usize|
                                #[trigger] pre_set.contains(w) && adj(self.size, w, e);
                            assert(pre_set.insert(m).contains(w));
                        }
                    }
                    assert forall|e: usize| libs(
                        self.board@,
                        self.size,
                        pre_set.insert(m),
                    ).contains(e) implies voids@.to_set().contains(e) by {
                        let w = choose|w: usize|
                            #[trigger] pre_set.insert(m).contains(w) && adj(self.size, w, e);
                        if w == m {
                            assert(nb@.contains(e));
                            let tt = choose|tt: int| 0 <= tt < nb@.len() && nb@[tt] == e;
                        } else {
                            assert(pre_set.contains(w));
                            assert(libs(self.board@, self.size, pre_set).contains(e));
                        }
                    }
                }
            }
            k = k + 1;
        }
        proof {
            assert(members@.take(mm as int) == members@);
            voids@.unique_seq_to_set();
        }
        voids.len()
    }

    /// Element-wise comparison of two board snapshots.
    fn boards_equal(a: &Vec<Stone>, b: &Vec<Stone>) -> (r: bool)
        ensures
            r == (a@ == b@),
    {
        if a.len() != b.len() {
            return false;
        }
        let n = a.len();
        let mut i: usize = 0;
        while i < n
            invariant
                i <= n,
                n == a@.len(),
                n == b@.len(),
                forall|k: int| 0 <= k < i ==> a@[k] == b@[k],
            decreases n - i,
        {
            if a[i].0 != b[i].0 {
                return false;
            }
            i = i + 1;
        }
        proof {
            assert(a@ =~= b@);
        }
        true
    }

    /// Renders the board row by row, one glyph per cell, each row ended
    /// by a newline.
    pub fn board_string(&self) -> (out: String)
        requires
            self.wf(),
        ensures
            out@ == render_upto(self.board@, self.size, self.size as int),
    {
        let size = self.size;
        let mut out = String::new();
        let mut idx: usize = 0;
        let mut y: usize = 0;
        while y < size
            invariant
                y <= size,
                size == self.size,
                self.wf(),
                idx == y * size,
                out@ == render_upto(self.board@, self.size, y as int),
            decreases size - y,
        {
            let ghost row_start = out@;
            let mut x: usize = 0;
            while x < size
                invariant
                    x <= size,
                    y < size,
                    size == self.size,
                    self.wf(),
                    idx == y * size + x,
                    out@ == row_start + Seq::new(
                        x as nat,
                        |xx: int| char_of(self.board@[y * size + xx]),
                    ),
                decreases size - x,
            {
                proof {
                    assert(y * size + x < size * size) by (nonlinear_arith)
                        requires
                            x < size,
                            y < size,
                    ;
                }
                let ch = self.board[idx].as_char();
                out.push(ch);
                proof {
                    assert(out@ =~= row_start + Seq::new(
                        (x + 1) as nat,
                        |xx: int| char_of(self.board@[y * size + xx]),
                    ));
                }
                idx = idx + 1;
                x = x + 1;
            }
            out.push('\n');
            proof {
                assert(out@ =~= render_upto(self.board@, self.size, y + 1 as int)) by {
                    assert(render_upto(self.board@, self.size, y + 1 as int) == render_upto(
                        self.board@,
                        self.size,
                        y as int,
                    ) + render_row(self.board@, self.size, y as int));
                    assert(out@ =~= row_start + render_row(self.board@, self.size, y as int));
                }
                assert((y + 1) * size == y * size + size) by (nonlinear_arith);
            }
            y = y + 1;
        }
        out
    }

    /// Membership part of `ledger_ok`: the entry lists exactly the
    /// group's members, without duplicates.
    pub open spec fn ledger_groups_ok(&self, r: usize) -> bool {
        &&& self.members_at(r).no_duplicates()
        &&& self.members_at(r).to_set() == self.group_ds.group(r)
    }

    /// Commit step for a move with friendly neighbors: joins the placed
    /// stone with every adjacent friendly group, discards their ledger
    /// entries, and stores one fresh entry for the merged group with its
    /// liberty count recomputed from scratch on the current board.
    #[verifier::spinoff_prover]
    #[verifier::rlimit(60)]
    fn merge_allies(&mut self, cur_idx: usize, stone: Stone, allies: &Vec<usize>) -> (root: usize)
        requires
            old(self).group_ds.wf(),
            old(self).group_ds.cap() == old(self).n2(),
            1 <= old(self).size,
            old(self).n2() < usize::MAX,
            old(self).board@.len() == old(self).n2(),
            forall|i: int|
                0 <= i < old(self).board@.len() ==> (#[trigger] old(self).board@[i]).valid(),
            old(self).group_info_array.0@.len() == old(self).n2(),
            cur_idx < old(self).n2(),
            !old(self).group_ds.has(cur_idx),
            old(self).board@[cur_idx as int] == stone,
            stone.is_color(),
            allies@.no_duplicates(),
            allies@.len() >= 1,
            forall|k: int|
                0 <= k < allies@.len() ==> old(self).group_ds.is_root_at(#[trigger] allies@[k]),
            forall|r: usize|
                r < old(self).n2() ==> ((#[trigger] old(self).group_info_array.0@[r as int])
                    is Some <==> old(self).group_ds.is_root_at(r)),
            forall|r: usize|
                #[trigger] old(self).group_ds.is_root_at(r) ==> old(self).ledger_groups_ok(r),
            forall|k: int, c: usize|
                0 <= k < allies@.len() && #[trigger] old(self).group_ds.group(
                    allies@[k],
                ).contains(c) ==> old(self).board@[c as int] == stone,
        ensures
            final(self).size == old(self).size,
            final(self).board == old(self).board,
            final(self).history_states == old(self).history_states,
            final(self).group_info_array.0@.len() == old(self).group_info_array.0@.len(),
            final(self).group_ds.wf(),
            final(self).group_ds.cap() == old(self).group_ds.cap(),
            forall|j: usize|
                final(self).group_ds.has(j) <==> (old(self).group_ds.has(j) || j == cur_idx),
            root < old(self).n2(),
            final(self).group_ds.is_root_at(root),
            final(self).group_ds.root_of(cur_idx) == root,
            forall|c: usize|
                final(self).group_ds.group(cur_idx).contains(c) <==> (c == cur_idx || exists|k: int|
                    0 <= k < allies@.len() && old(self).group_ds.group(
                        #[trigger] allies@[k],
                    ).contains(c)),
            final(self).group_ds.group(root) == final(self).group_ds.group(cur_idx),
            forall|j: usize|
                old(self).group_ds.has(j) && !(exists|k: int|
                    0 <= k < allies@.len() && old(self).group_ds.group(
                        #[trigger] allies@[k],
                    ).contains(j)) ==> final(self).group_ds.root_of(j) == old(self).group_ds.root_of(j) && final(self).group_ds.group(j) =~= old(self).group_ds.group(
                    j,
                ),
            forall|s: usize|
                s < old(self).n2() && s != root ==> final(self).group_info_array.0@[s as int] == (
                if allies@.contains(s) {
                    None
                } else {
                    old(self).group_info_array.0@[s as int]
                }),
            final(self).group_info_array.0@[root as int] is Some,
            final(self).ledger_groups_ok(root),
            final(self).qi_at(root) == libs(
                final(self).board@,
                final(self).size,
                final(self).group_ds.group(cur_idx),
            ).len(),
            forall|e: usize|
                final(self).members_at(root).to_set().contains(e) ==> e < old(self).n2() && old(self).board@[e as int] == stone,
            forall|s: usize|
                s < old(self).n2() ==> ((#[trigger] final(self).group_info_array.0@[s as int])
                    is Some <==> final(self).group_ds.is_root_at(s)),
    {
        let ghost st = *old(self);
        let mut members: Vec<usize> = Vec::new();
        members.push(cur_idx);
        proof {
            assert forall|c: usize| members@.to_set().contains(c) implies c == cur_idx by {}
            assert(members@[0] == cur_idx);
            assert(members@.to_set().contains(cur_idx));
        }
        let an = allies.len();
        let mut k: usize = 0;
        while k < an
            invariant
                k <= an,
                an == allies@.len(),
                1 <= k || *self == st,
                self.size == st.size,
                self.board == st.board,
                self.history_states == st.history_states,
                self.group_info_array.0@.len() == st.group_info_array.0@.len(),
                st.group_ds.wf(),
                st.group_ds.cap() == st.n2(),
                1 <= st.size,
                st.n2() < usize::MAX,
                st.board@.len() == st.n2(),
                st.group_info_array.0@.len() == st.n2(),
                cur_idx < st.n2(),
                !st.group_ds.has(cur_idx),
                stone.is_color(),
                allies@.no_duplicates(),
                forall|kk: int|
                    0 <= kk < allies@.len() ==> st.group_ds.is_root_at(#[trigger] allies@[kk]),
                forall|r: usize|
                    r < st.n2() ==> ((#[trigger] st.group_info_array.0@[r as int]) is Some
                        <==> st.group_ds.is_root_at(r)),
                forall|r: usize| #[trigger] st.group_ds.is_root_at(r) ==> st.ledger_groups_ok(r),
                forall|kk: int, c: usize|
                    0 <= kk < allies@.len() && #[trigger] st.group_ds.group(allies@[kk]).contains(
                        c,
                    ) ==> st.board@[c as int] == stone,
                self.group_ds.wf(),
                self.group_ds.cap() == st.group_ds.cap(),
                forall|j: usize|
                    self.group_ds.has(j) <==> (st.group_ds.has(j) || (k >= 1 && j == cur_idx)),
                k >= 1 ==> self.group_ds.has(cur_idx),
                forall|c: usize|
                    k >= 1 ==> (self.group_ds.group(cur_idx).contains(c) <==> (c == cur_idx
                        || exists|kk: int|
                        0 <= kk < k && st.group_ds.group(#[trigger] allies@[kk]).contains(c))),
                forall|j: usize|
                    st.group_ds.has(j) && !(exists|kk: int|
                        0 <= kk < k && st.group_ds.group(#[trigger] allies@[kk]).contains(j))
                        ==> self.group_ds.root_of(j) == st.group_ds.root_of(j)
                        && self.group_ds.group(j) =~= st.group_ds.group(j) && (
                    st.group_ds.is_root_at(st.group_ds.root_of(j))
                        ==> self.group_ds.is_root_at(st.group_ds.root_of(j))
                        && self.group_ds.member_seq(st.group_ds.root_of(j))
                        == st.group_ds.member_seq(st.group_ds.root_of(j))),
                forall|s: usize|
                    s < st.n2() ==> self.group_info_array.0@[s as int] == (
                    if allies@.subrange(0, k as int).contains(s) {
                        None
                    } else {
                        st.group_info_array.0@[s as int]
                    }),
                members@.no_duplicates(),
                forall|c: usize|
                    members@.to_set().contains(c) <==> (c == cur_idx || exists|kk: int|
                        0 <= kk < k && st.group_ds.group(#[trigger] allies@[kk]).contains(c)),
                forall|e: usize|
                    members@.to_set().contains(e) ==> e < st.n2() && st.board@[e as int] == stone,
            decreases an - k,
        {
            proof {
                assert(allies@.contains(allies@[k as int]));
            }
            let r = allies[k];
            proof {
                // `r` has not been merged yet, so it is still a root.
                assert(st.group_ds.is_root_at(r));
                assert(st.group_ds.has(r)) by {
                    assert(st.group_ds.cell_ok(r as int));
                }
                assert(st.group_ds.root_of(r) == r) by {
                    assert(st.group_ds.cell_ok(r as int));
                }
                assert(!(exists|kk: int|
                    0 <= kk < k && st.group_ds.group(#[trigger] allies@[kk]).contains(r))) by {
                    if exists|kk: int|
                        0 <= kk < k && st.group_ds.group(#[trigger] allies@[kk]).contains(r) {
                        let kk = choose|kk: int|
                            0 <= kk < k && st.group_ds.group(#[trigger] allies@[kk]).contains(r);
                        assert(st.group_ds.root_of(allies@[kk]) == allies@[kk]) by {
                            assert(st.group_ds.cell_ok(allies@[kk] as int));
                        }
                        assert(st.group_ds.root_of(r) == allies@[kk]);
                    }
                }
                assert(self.group_ds.is_root_at(r) && self.group_ds.member_seq(r)
                    == st.group_ds.member_seq(r));
                assert(self.group_ds.group(r) =~= st.group_ds.group(r));
            }
            let ghost pre = *self;
            self.group_ds.connect(cur_idx, r);
            let prev_gi = self.group_info_array.swap_entry(r, None);
            let mut gim = match prev_gi {
                Some(g) => g.members,
                None => unreached(),
            };
            proof {
                assert(gim@ == st.members_at(r));
                assert(st.ledger_groups_ok(r));
                assert(gim@.to_set() == st.group_ds.group(r));
                assert(members@.to_set().disjoint(gim@.to_set())) by {
                    assert forall|c: usize|
                        members@.to_set().contains(c) implies !gim@.to_set().contains(c) by {
                        if gim@.to_set().contains(c) {
                            assert(st.group_ds.group(r).contains(c));
                            assert(st.group_ds.root_of(c) == r);
                            if c == cur_idx {
                                assert(st.group_ds.has(c));
                            } else {
                                let kk = choose|kk: int|
                                    0 <= kk < k && st.group_ds.group(
                                        #[trigger] allies@[kk],
                                    ).contains(c);
                                assert(st.group_ds.root_of(c) == allies@[kk]) by {
                                    assert(st.group_ds.cell_ok(allies@[kk] as int));
                                }
                                assert(allies@[kk] != r) by {
                                    if allies@[kk] == r {
                                        assert(allies@[kk as int] == allies@[k as int]);
                                    }
                                }
                            }
                        }
                    }
                }
                lemma_concat_no_dup(members@, gim@);
            }
            members.append(&mut gim);
            proof {
                let post = *self;
                assert forall|c: usize|
                    post.group_ds.group(cur_idx).contains(c) <==> (c == cur_idx || exists|kk: int|
                        0 <= kk < k + 1 && st.group_ds.group(#[trigger] allies@[kk]).contains(
                            c,
                        )) by {
                    assert(post.group_ds.group(cur_idx) =~= pre.group_ds.group_or_single(
                        cur_idx,
                    ).union(pre.group_ds.group_or_single(r)));
                    if post.group_ds.group(cur_idx).contains(c) {
                        if pre.group_ds.group_or_single(cur_idx).contains(c) {
                            if k == 0 {
                                assert(c == cur_idx);
                            }
                        } else {
                            assert(pre.group_ds.group_or_single(r).contains(c));
                            assert(pre.group_ds.group(r).contains(c));
                            assert(st.group_ds.group(r).contains(c));
                            assert(0 <= k < k + 1 && st.group_ds.group(allies@[k as int]).contains(
                                c,
                            ));
                        }
                    } else {
                        if c == cur_idx {
                            assert(pre.group_ds.group_or_single(cur_idx).contains(c));
                        }
                        if exists|kk: int|
                            0 <= kk < k + 1 && st.group_ds.group(#[trigger] allies@[kk]).contains(
                                c,
                            ) {
                            let kk = choose|kk: int|
                                0 <= kk < k + 1 && st.group_ds.group(
                                    #[trigger] allies@[kk],
                                ).contains(c);
                            if kk == k {
                                assert(pre.group_ds.group_or_single(r).contains(c));
                            } else {
                                assert(pre.group_ds.group_or_single(cur_idx).contains(c));
                            }
                        }
                    }
                }
                assert forall|s: usize|
                    s < st.n2() implies self.group_info_array.0@[s as int] == (
                    if allies@.subrange(0, k + 1 as int).contains(s) {
                        None
                    } else {
                        st.group_info_array.0@[s as int]
                    }) by {
                    if allies@.subrange(0, k + 1 as int).contains(s) {
                        let kk = choose|kk: int|
                            0 <= kk < k + 1 && #[trigger] allies@.subrange(0, k + 1 as int)[kk]
                                == s;
                        if kk < k {
                            assert(allies@.subrange(0, k as int)[kk] == s);
                            assert(allies@.subrange(0, k as int).contains(s));
                        }
                    } else {
                        assert(!allies@.subrange(0, k as int).contains(s)) by {
                            if allies@.subrange(0, k as int).contains(s) {
                                let kk = choose|kk: int|
                                    0 <= kk < k && #[trigger] allies@.subrange(0, k as int)[kk]
                                        == s;
                                assert(allies@.subrange(0, k + 1 as int)[kk] == s);
                            }
                        }
                        assert(s != r) by {
                            if s == r {
                                assert(allies@.subrange(0, k + 1 as int)[k as int] == s);
                            }
                        }
                    }
                }
                assert forall|j: usize|
                    st.group_ds.has(j) && !(exists|kk: int|
                        0 <= kk < k + 1 && st.group_ds.group(#[trigger] allies@[kk]).contains(j))
                        implies self.group_ds.root_of(j) == st.group_ds.root_of(j)
                    && self.group_ds.group(j) =~= st.group_ds.group(j) && (st.group_ds.is_root_at(
                    st.group_ds.root_of(j),
                ) ==> self.group_ds.is_root_at(st.group_ds.root_of(j)) && self.group_ds.member_seq(
                    st.group_ds.root_of(j),
                ) == st.group_ds.member_seq(st.group_ds.root_of(j))) by {
                    assert(pre.group_ds.root_of(j) == st.group_ds.root_of(j)
                        && pre.group_ds.group(j) =~= st.group_ds.group(j));
                    assert(!pre.group_ds.in_same(j, cur_idx)) by {
                        if pre.group_ds.in_same(j, cur_idx) {
                            assert(pre.group_ds.group(cur_idx).contains(j));
                            if k == 0 {
                                assert(pre.group_ds.has(cur_idx));
                            }
                        }
                    }
                    assert(!pre.group_ds.in_same(j, r)) by {
                        if pre.group_ds.in_same(j, r) {
                            assert(pre.group_ds.group(r).contains(j));
                            assert(st.group_ds.group(r).contains(j));
                            assert(0 <= k < k + 1 && st.group_ds.group(allies@[k as int]).contains(
                                j,
                            ));
                        }
                    }
                    st.group_ds.lemma_root_props(j);
                    assert(!(exists|kk: int|
                        0 <= kk < k && st.group_ds.group(#[trigger] allies@[kk]).contains(
                            st.group_ds.root_of(j),
                        ))) by {
                        if exists|kk: int|
                            0 <= kk < k && st.group_ds.group(#[trigger] allies@[kk]).contains(
                                st.group_ds.root_of(j),
                            ) {
                            let kk = choose|kk: int|
                                0 <= kk < k && st.group_ds.group(#[trigger] allies@[kk]).contains(
                                    st.group_ds.root_of(j),
                                );
                            assert(st.group_ds.group(allies@[kk]).contains(j));
                        }
                    }
                    assert(!pre.group_ds.in_same(st.group_ds.root_of(j), cur_idx));
                    assert(!pre.group_ds.in_same(st.group_ds.root_of(j), r)) by {
                        if pre.group_ds.in_same(st.group_ds.root_of(j), r) {
                            assert(pre.group_ds.group(r).contains(st.group_ds.root_of(j)));
                            assert(st.group_ds.group(r).contains(st.group_ds.root_of(j)));
                            assert(st.group_ds.group(allies@[k as int]).contains(j)) by {
                                assert(st.group_ds.root_of(st.group_ds.root_of(j)) == allies@[
                                    k as int]);
                            }
                        }
                    }
                }
            }
            k = k + 1;
        }
        proof {
            assert(allies@.subrange(0, an as int) == allies@);
        }
        let root = match self.group_ds.find_root(cur_idx) {
            Some(r) => r,
            None => unreached(),
        };
        proof {
            assert(root == self.group_ds.root_of(cur_idx));
            self.group_ds.lemma_root_props(cur_idx);
            assert(forall|kk: int|
                0 <= kk < members@.len() ==> (#[trigger] members@[kk]) < st.n2()) by {
                assert(forall|kk: int|
                    0 <= kk < members@.len() ==> members@.to_set().contains(
                        #[trigger] members@[kk],
                    ));
            }
        }
        let qi = self.calc_qi(&members);
        proof {
            assert(members@.to_set() =~= self.group_ds.group(cur_idx));
            assert(root < st.n2());
        }
        let ghost before_set = *self;
        self.group_info_array.set_entry(root, Some(GroupInfo::new(qi, members)));
        proof {
            let post = *self;
            assert(post.members_at(root).to_set() =~= post.group_ds.group(cur_idx));
            assert(post.group_ds.group(root) =~= post.group_ds.group(cur_idx)) by {
                post.group_ds.lemma_root_props(cur_idx);
            }
            assert forall|s: usize|
                s < st.n2() implies ((#[trigger] post.group_info_array.0@[s as int]) is Some
                <==> post.group_ds.is_root_at(s)) by {
                if s != root {
                    if allies@.contains(s) {
                        assert(post.group_info_array.0@[s as int] is None);
                        assert(st.group_ds.is_root_at(s));
                        assert(post.group_ds.group(cur_idx).contains(s)) by {
                            let kk = choose|kk: int| 0 <= kk < allies@.len() && allies@[kk] == s;
                            assert(st.group_ds.group(allies@[kk]).contains(s)) by {
                                assert(st.group_ds.cell_ok(s as int));
                                st.group_ds.lemma_root_props(s);
                            }
                        }
                        assert(post.group_ds.has(s) && post.group_ds.root_of(s)
                            == post.group_ds.root_of(cur_idx));
                        assert(post.group_ds.root_of(cur_idx) == root);
                        assert(post.group_ds.root_of(s) == root);
                        assert(!post.group_ds.is_root_at(s)) by {
                            if post.group_ds.is_root_at(s) {
                                assert(post.group_ds.cell_ok(s as int));
                                assert(post.group_ds.root_of(s) == s);
                            }
                        }
                    } else {
                        assert(post.group_info_array.0@[s as int] == st.group_info_array.0@[
                            s as int]);
                        if st.group_ds.is_root_at(s) {
                            // an untouched root stays a root
                            assert(st.group_ds.has(s)) by {
                                assert(st.group_ds.cell_ok(s as int));
                            }
                            assert(st.group_ds.root_of(s) == s) by {
                                assert(st.group_ds.cell_ok(s as int));
                            }
                            assert(!(exists|kk: int|
                                0 <= kk < allies@.len() && st.group_ds.group(
                                    #[trigger] allies@[kk],
                                ).contains(s))) by {
                                if exists|kk: int|
                                    0 <= kk < allies@.len() && st.group_ds.group(
                                        #[trigger] allies@[kk],
                                    ).contains(s) {
                                    let kk = choose|kk: int|
                                        0 <= kk < allies@.len() && st.group_ds.group(
                                            #[trigger] allies@[kk],
                                        ).contains(s);
                                    assert(st.group_ds.root_of(s) == allies@[kk]) by {
                                        assert(st.group_ds.cell_ok(allies@[kk] as int));
                                    }
                                    assert(st.group_ds.is_root_at(allies@[kk]));
                                    assert(allies@[kk] == s);
                                    assert(st.group_ds.group(s).contains(s));
                                }
                            }
                            assert(post.group_ds.is_root_at(s));
                        } else {
                            assert(!post.group_ds.is_root_at(s)) by {
                                if post.group_ds.is_root_at(s) {
                                    assert(post.group_ds.has(s));
                                    assert(post.group_ds.cell_ok(s as int));
                                    assert(post.group_ds.root_of(s) == s);
                                    if st.group_ds.has(s) {
                                        st.group_ds.lemma_root_props(s);
                                        if exists|kk: int|
                                            0 <= kk < allies@.len() && st.group_ds.group(
                                                #[trigger] allies@[kk],
                                            ).contains(s) {
                                            assert(post.group_ds.group(cur_idx).contains(s));
                                            assert(post.group_ds.root_of(s)
                                                == post.group_ds.root_of(cur_idx));
                                            assert(post.group_ds.root_of(cur_idx) == root);
                                            assert(post.group_ds.root_of(s) == root);
                                            assert(s == root);
                                        } else {
                                            assert(post.group_ds.root_of(s) == st.group_ds.root_of(
                                                s,
                                            ));
                                            assert(st.group_ds.is_root_at(st.group_ds.root_of(s)));
                                        }
                                    } else {
                                        assert(s == cur_idx);
                                        assert(post.group_ds.root_of(cur_idx) == root);
                                    }
                                }
                            }
                        }
                    }
                }
            }
        }
        root
    }

    /// Commit step for captures: removes every group whose root is
    /// listed in `eaten` from the union-find and the ledger, clears
    /// their cells, and credits each freed cell as one new liberty to
    /// every distinct surviving group next to it. Returns the freed
    /// cells.
    #[verifier::spinoff_prover]
    #[verifier::rlimit(60)]
    fn apply_captures(&mut self, eaten: &Vec<usize>) -> (freed: Vec<usize>)
        requires
            old(self).group_ds.wf(),
            old(self).group_ds.cap() == old(self).n2(),
            1 <= old(self).size,
            old(self).n2() < usize::MAX,
            old(self).board@.len() == old(self).n2(),
            forall|i: int|
                0 <= i < old(self).board@.len() ==> (#[trigger] old(self).board@[i]).valid(),
            old(self).group_info_array.0@.len() == old(self).n2(),
            forall|i: usize| #[trigger] old(self).group_ds.has(i) <==> old(self).occupied(i),
            forall|r: usize|
                r < old(self).n2() ==> ((#[trigger] old(self).group_info_array.0@[r as int])
                    is Some <==> old(self).group_ds.is_root_at(r)),
            forall|r: usize|
                #[trigger] old(self).group_ds.is_root_at(r) ==> old(self).ledger_groups_ok(r),
            eaten@.no_duplicates(),
            forall|k: int|
                0 <= k < eaten@.len() ==> old(self).group_ds.is_root_at(#[trigger] eaten@[k]),
            forall|r: usize|
                #[trigger] old(self).group_ds.is_root_at(r) && !eaten@.contains(r) ==> old(self).qi_at(r) == libs(old(self).board@, old(self).size, old(self).group_ds.group(r)).len(),
        ensures
            final(self).size == old(self).size,
            final(self).history_states == old(self).history_states,
            final(self).board@.len() == old(self).board@.len(),
            final(self).group_info_array.0@.len() == old(self).group_info_array.0@.len(),
            freed@.no_duplicates(),
            forall|c: usize|
                #[trigger] freed@.to_set().contains(c) <==> (old(self).group_ds.has(c)
                    && eaten@.contains(old(self).group_ds.root_of(c))),
            forall|c: usize|
                #[trigger] freed@.to_set().contains(c) ==> c < old(self).n2() && old(self).board@[c as int].is_color(),
            forall|j: int|
                0 <= j < old(self).board@.len() ==> final(self).board@[j] == (
                if freed@.to_set().contains(j as usize) {
                    Stone(0u8)
                } else {
                    old(self).board@[j]
                }),
            final(self).group_ds.wf(),
            final(self).group_ds.cap() == old(self).group_ds.cap(),
            forall|j: usize|
                final(self).group_ds.has(j) <==> (old(self).group_ds.has(j)
                    && !freed@.to_set().contains(j)),
            forall|j: usize|
                old(self).group_ds.has(j) && !freed@.to_set().contains(j) ==> final(self).group_ds.root_of(j) == old(self).group_ds.root_of(j) && final(self).group_ds.group(j) =~= old(self).group_ds.group(j),
            forall|r: usize|
                #[trigger] final(self).group_ds.is_root_at(r) <==> (old(self).group_ds.is_root_at(
                    r,
                ) && !eaten@.contains(r)),
            forall|s2: usize|
                s2 < old(self).n2() ==> ((#[trigger] final(self).group_info_array.0@[s2 as int])
                    is Some <==> final(self).group_ds.is_root_at(s2)),
            forall|r: usize|
                #[trigger] final(self).group_ds.is_root_at(r) ==> final(self).members_at(r)
                    == old(self).members_at(r) && final(self).qi_at(r) == libs(
                    final(self).board@,
                    final(self).size,
                    old(self).group_ds.group(r),
                ).len(),
    {
        let ghost st = *old(self);
        let mut freed: Vec<usize> = Vec::new();
        let en = eaten.len();
        let mut k: usize = 0;
        while k < en
            invariant
                k <= en,
                en == eaten@.len(),
                self.size == st.size,
                self.board == st.board,
                self.history_states == st.history_states,
                self.group_info_array.0@.len() == st.group_info_array.0@.len(),
                st.group_ds.wf(),
                st.group_ds.cap() == st.n2(),
                1 <= st.size,
                st.n2() < usize::MAX,
                st.board@.len() == st.n2(),
                st.group_info_array.0@.len() == st.n2(),
                forall|i: usize| #[trigger] st.group_ds.has(i) <==> st.occupied(i),
                forall|r: usize|
                    r < st.n2() ==> ((#[trigger] st.group_info_array.0@[r as int]) is Some
                        <==> st.group_ds.is_root_at(r)),
                forall|r: usize| #[trigger] st.group_ds.is_root_at(r) ==> st.ledger_groups_ok(r),
                eaten@.no_duplicates(),
                forall|kk: int|
                    0 <= kk < eaten@.len() ==> st.group_ds.is_root_at(#[trigger] eaten@[kk]),
                self.group_ds.wf(),
                self.group_ds.cap() == st.group_ds.cap(),
                freed@.no_duplicates(),
                forall|c: usize|
                    #[trigger] freed@.to_set().contains(c) <==> (st.group_ds.has(c)
                        && eaten@.subrange(0, k as int).contains(st.group_ds.root_of(c))),
                forall|c: usize|
                    #[trigger] freed@.to_set().contains(c) ==> c < st.n2(),
                forall|j: usize|
                    self.group_ds.has(j) <==> (st.group_ds.has(j) && !freed@.to_set().contains(
                        j,
                    )),
                forall|j: usize|
                    st.group_ds.has(j) && !freed@.to_set().contains(j)
                        ==> self.group_ds.root_of(j) == st.group_ds.root_of(j)
                        && self.group_ds.group(j) =~= st.group_ds.group(j),
                forall|r: usize|
                    #[trigger] self.group_ds.is_root_at(r) <==> (st.group_ds.is_root_at(r)
                        && !eaten@.subrange(0, k as int).contains(r)),
                forall|r: usize|
                    #[trigger] self.group_ds.is_root_at(r) ==> self.group_ds.member_seq(r)
                        == st.group_ds.member_seq(r),
                forall|s2: usize|
                    s2 < st.n2() ==> self.group_info_array.0@[s2 as int] == (
                    if eaten@.subrange(0, k as int).contains(s2) {
                        None
                    } else {
                        st.group_info_array.0@[s2 as int]
                    }),
            decreases en - k,
        {
            proof {
                assert(eaten@.contains(eaten@[k as int]));
            }
            let r = eaten[k];
            proof {
                assert(st.group_ds.is_root_at(r));
                assert(st.group_ds.has(r) && st.group_ds.root_of(r) == r) by {
                    assert(st.group_ds.cell_ok(r as int));
                }
                assert(!eaten@.subrange(0, k as int).contains(r)) by {
                    if eaten@.subrange(0, k as int).contains(r) {
                        let kk = choose|kk: int|
                            0 <= kk < k && #[trigger] eaten@.subrange(0, k as int)[kk] == r;
                        assert(eaten@[kk] == r && eaten@[k as int] == r);
                    }
                }
                assert(self.group_ds.is_root_at(r));
                assert(!freed@.to_set().contains(r));
                assert(self.group_ds.has(r) && self.group_ds.root_of(r) == r) by {
                    assert(self.group_ds.cell_ok(r as int));
                }
                assert(st.ledger_groups_ok(r));
            }
            let prev_gi = self.group_info_array.swap_entry(r, None);
            let mut gm = match prev_gi {
                Some(g) => g.members,
                None => unreached(),
            };
            proof {
                assert(gm@ == st.members_at(r));
                assert(gm@.to_set() == st.group_ds.group(r));
                assert(freed@.to_set().disjoint(gm@.to_set())) by {
                    assert forall|c: usize|
                        freed@.to_set().contains(c) implies !gm@.to_set().contains(c) by {
                        if gm@.to_set().contains(c) {
                            assert(st.group_ds.group(r).contains(c));
                            assert(st.group_ds.root_of(c) == r);
                        }
                    }
                }
                lemma_concat_no_dup(freed@, gm@);
                assert forall|c: usize| gm@.to_set().contains(c) implies c < st.n2() by {
                    assert(st.group_ds.group(r).contains(c));
                }
            }
            let ghost pre = *self;
            let ghost gmv = gm@;
            freed.append(&mut gm);
            self.group_ds.delete_group(r);
            proof {
                assert(pre.group_ds.group(r) =~= st.group_ds.group(r));
                assert forall|c: usize|
                    #[trigger] freed@.to_set().contains(c) <==> (st.group_ds.has(c)
                        && eaten@.subrange(0, k + 1 as int).contains(st.group_ds.root_of(c))) by {
                    if freed@.to_set().contains(c) {
                        if st.group_ds.group(r).contains(c) {
                            assert(st.group_ds.root_of(c) == r);
                            assert(eaten@.subrange(0, k + 1 as int)[k as int] == r);
                            assert(eaten@.subrange(0, k + 1 as int).contains(r));
                        } else {
                            let kk = choose|kk: int|
                                0 <= kk < k && #[trigger] eaten@.subrange(0, k as int)[kk]
                                    == st.group_ds.root_of(c);
                            assert(eaten@.subrange(0, k + 1 as int)[kk] == st.group_ds.root_of(c));
                            assert(eaten@.subrange(0, k + 1 as int).contains(
                                st.group_ds.root_of(c),
                            ));
                        }
                    } else {
                        if st.group_ds.has(c) && eaten@.subrange(0, k + 1 as int).contains(
                            st.group_ds.root_of(c),
                        ) {
                            let kk = choose|kk: int|
                                0 <= kk < k + 1 && #[trigger] eaten@.subrange(0, k + 1 as int)[kk]
                                    == st.group_ds.root_of(c);
                            if kk == k {
                                assert(st.group_ds.root_of(c) == r);
                                assert(st.group_ds.group(r).contains(c));
                                assert(gm@.to_set().contains(c));
                            } else {
                                assert(eaten@.subrange(0, k as int)[kk] == st.group_ds.root_of(c));
                                assert(eaten@.subrange(0, k as int).contains(
                                    st.group_ds.root_of(c),
                                ));
                            }
                        }
                    }
                }
                assert forall|j: usize|
                    self.group_ds.has(j) <==> (st.group_ds.has(j) && !freed@.to_set().contains(
                        j,
                    )) by {
                    if pre.group_ds.has(j) {
                        if pre.group_ds.group(r).contains(j) {
                            assert(st.group_ds.group(r).contains(j));
                            assert(gmv.to_set().contains(j));
                        }
                    }
                }
                assert forall|j: usize|
                    st.group_ds.has(j) && !freed@.to_set().contains(j)
                        implies self.group_ds.root_of(j) == st.group_ds.root_of(j)
                    && self.group_ds.group(j) =~= st.group_ds.group(j) by {
                    assert(!pre.group_ds.group(r).contains(j));
                    assert(pre.group_ds.has(j));
                    assert(self.group_ds.root_of(j) == pre.group_ds.root_of(j));
                    assert(self.group_ds.group(j) =~= pre.group_ds.group(j));
                }
                assert forall|r2: usize|
                    #[trigger] self.group_ds.is_root_at(r2) <==> (st.group_ds.is_root_at(r2)
                        && !eaten@.subrange(0, k + 1 as int).contains(r2)) by {
                    if st.group_ds.is_root_at(r2) {
                        assert(st.group_ds.has(r2) && st.group_ds.root_of(r2) == r2) by {
                            assert(st.group_ds.cell_ok(r2 as int));
                        }
                    }
                    if eaten@.subrange(0, k + 1 as int).contains(r2) {
                        let kk = choose|kk: int|
                            0 <= kk < k + 1 && #[trigger] eaten@.subrange(0, k + 1 as int)[kk]
                                == r2;
                        if kk == k {
                            assert(r2 == r);
                            assert(freed@.to_set().contains(r2)) by {
                                assert(gmv.to_set().contains(r)) by {
                                    assert(st.group_ds.group(r).contains(r));
                                }
                            }
                            assert(!self.group_ds.has(r2));
                        } else {
                            assert(eaten@.subrange(0, k as int)[kk] == r2);
                            assert(eaten@.subrange(0, k as int).contains(r2));
                            assert(!pre.group_ds.is_root_at(r2));
                            assert(!self.group_ds.is_root_at(r2)) by {
                                if self.group_ds.is_root_at(r2) {
                                    assert(self.group_ds.has(r2));
                                    assert(pre.group_ds.has(r2));
                                    assert(self.group_ds.cell_ok(r2 as int));
                                    assert(self.group_ds.root_of(r2) == r2);
                                    assert(pre.group_ds.root_of(r2) == r2);
                                    st.group_ds.lemma_root_props(r2);
                                    assert(st.group_ds.root_of(r2) == r2);
                                    assert(st.group_ds.is_root_at(r2));
                                }
                            }
                        }
                    } else {
                        if st.group_ds.is_root_at(r2) && !eaten@.subrange(
                            0,
                            k + 1 as int,
                        ).contains(r2) {
                            assert(!eaten@.subrange(0, k as int).contains(r2)) by {
                                if eaten@.subrange(0, k as int).contains(r2) {
                                    let kk = choose|kk: int|
                                        0 <= kk < k && #[trigger] eaten@.subrange(0, k as int)[kk]
                                            == r2;
                                    assert(eaten@.subrange(0, k + 1 as int)[kk] == r2);
                                    assert(eaten@.subrange(0, k + 1 as int).contains(r2));
                                }
                            }
                            assert(pre.group_ds.is_root_at(r2));
                            assert(r2 != r) by {
                                if r2 == r {
                                    assert(eaten@.subrange(0, k + 1 as int)[k as int] == r);
                                    assert(eaten@.subrange(0, k + 1 as int).contains(r2));
                                }
                            }
                            assert(!freed@.to_set().contains(r2)) by {
                                if freed@.to_set().contains(r2) {
                                    assert(st.group_ds.root_of(r2) == r2) by {
                                        assert(st.group_ds.cell_ok(r2 as int));
                                    }
                                    assert(eaten@.subrange(0, k + 1 as int).contains(r2));
                                }
                            }
                            assert(st.group_ds.has(r2)) by {
                                assert(st.group_ds.cell_ok(r2 as int));
                            }
                            assert(self.group_ds.has(r2));
                            assert(self.group_ds.is_root_at(r2)) by {
                                assert(pre.group_ds.is_root_at(r2));
                                assert(pre.group_ds.has(r2) && pre.group_ds.root_of(r2) == r2) by {
                                    assert(pre.group_ds.cell_ok(r2 as int));
                                }
                                assert(!pre.group_ds.group(r).contains(r2)) by {
                                    if pre.group_ds.group(r).contains(r2) {
                                        assert(st.group_ds.group(r).contains(r2));
                                        assert(st.group_ds.root_of(r2) == r2) by {
                                            assert(st.group_ds.cell_ok(r2 as int));
                                        }
                                        assert(r2 == r);
                                    }
                                }
                            }
                        }
                    }
                }
                assert forall|r2: usize|
                    #[trigger] self.group_ds.is_root_at(r2) implies self.group_ds.member_seq(r2)
                    == st.group_ds.member_seq(r2) by {
                    assert(pre.group_ds.is_root_at(r2)) by {
                        if !pre.group_ds.is_root_at(r2) {
                            assert(!self.group_ds.is_root_at(r2)) by {
                                if self.group_ds.is_root_at(r2) {
                                    assert(self.group_ds.has(r2));
                                    assert(pre.group_ds.has(r2));
                                    assert(self.group_ds.cell_ok(r2 as int));
                                    assert(self.group_ds.root_of(r2) == r2);
                                    assert(pre.group_ds.root_of(r2) == r2);
                                    pre.group_ds.lemma_root_props(r2);
                                }
                            }
                        }
                    }
                    assert(pre.group_ds.has(r2) && pre.group_ds.root_of(r2) == r2) by {
                        assert(pre.group_ds.cell_ok(r2 as int));
                    }
                    assert(!pre.group_ds.group(r).contains(r2)) by {
                        if pre.group_ds.group(r).contains(r2) {
                            assert(st.group_ds.group(r).contains(r2));
                            assert(st.group_ds.root_of(r2) == r2) by {
                                assert(st.group_ds.cell_ok(r2 as int));
                            }
                            assert(r2 == r);
                            assert(!self.group_ds.has(r2));
                            assert(self.group_ds.cell_ok(r2 as int));
                        }
                    }
                    assert(self.group_ds.member_seq(r2) == pre.group_ds.member_seq(r2));
                }
                assert forall|s2: usize|
                    s2 < st.n2() implies self.group_info_array.0@[s2 as int] == (
                    if eaten@.subrange(0, k + 1 as int).contains(s2) {
                        None
                    } else {
                        st.group_info_array.0@[s2 as int]
                    }) by {
                    if eaten@.subrange(0, k + 1 as int).contains(s2) {
                        let kk = choose|kk: int|
                            0 <= kk < k + 1 && #[trigger] eaten@.subrange(0, k + 1 as int)[kk]
                                == s2;
                        if kk < k {
                            assert(eaten@.subrange(0, k as int)[kk] == s2);
                            assert(eaten@.subrange(0, k as int).contains(s2));
                        }
                    } else {
                        assert(!eaten@.subrange(0, k as int).contains(s2)) by {
                            if eaten@.subrange(0, k as int).contains(s2) {
                                let kk = choose|kk: int|
                                    0 <= kk < k && #[trigger] eaten@.subrange(0, k as int)[kk]
                                        == s2;
                                assert(eaten@.subrange(0, k + 1 as int)[kk] == s2);
                            }
                        }
                        assert(s2 != r) by {
                            if s2 == r {
                                assert(eaten@.subrange(0, k + 1 as int)[k as int] == s2);
                            }
                        }
                    }
                }
            }
            k = k + 1;
        }
        proof {
            assert(eaten@.subrange(0, en as int) == eaten@);
        }
        let ghost st1 = *self;
        let ghost fs = freed@.to_set();
        let m = freed.len();
        let mut k2: usize = 0;
        while k2 < m
            invariant
                k2 <= m,
                m == freed@.len(),
                freed@.no_duplicates(),
                forall|c: usize| #[trigger] freed@.to_set().contains(c) ==> c < st.n2(),
                fs == freed@.to_set(),
                st.board@.len() == st.n2(),
                st.n2() < usize::MAX,
                self.size == st1.size,
                self.group_ds == st1.group_ds,
                self.group_info_array == st1.group_info_array,
                self.history_states == st1.history_states,
                st1.board == st.board,
                self.board@.len() == st.board@.len(),
                forall|j: int|
                    0 <= j < st.board@.len() ==> self.board@[j] == (
                    if freed@.subrange(0, k2 as int).contains(j as usize) {
                        Stone(0u8)
                    } else {
                        st.board@[j]
                    }),
            decreases m - k2,
        {
            proof {
                assert(freed@.contains(freed@[k2 as int]));
                assert(freed@.to_set().contains(freed@[k2 as int]));
            }
            let ghost preb = self.board@;
            let c = freed[k2];
            self.board.set(c, Stone(0));
            proof {
                assert forall|j: int|
                    0 <= j < st.board@.len() implies self.board@[j] == (
                    if freed@.subrange(0, k2 + 1 as int).contains(j as usize) {
                        Stone(0u8)
                    } else {
                        st.board@[j]
                    }) by {
                    if freed@.subrange(0, k2 + 1 as int).contains(j as usize) {
                        if j != c {
                            let kk = choose|kk: int|
                                0 <= kk < k2 + 1 && #[trigger] freed@.subrange(0, k2 + 1 as int)[kk]
                                    == j as usize;
                            assert(kk < k2) by {
                                if kk == k2 {
                                    assert(freed@[k2 as int] == j as usize);
                                }
                            }
                            assert(freed@.subrange(0, k2 as int)[kk] == j as usize);
                            assert(freed@.subrange(0, k2 as int).contains(j as usize));
                        }
                    } else {
                        assert(!freed@.subrange(0, k2 as int).contains(j as usize)) by {
                            if freed@.subrange(0, k2 as int).contains(j as usize) {
                                let kk = choose|kk: int|
                                    0 <= kk < k2 && #[trigger] freed@.subrange(0, k2 as int)[kk]
                                        == j as usize;
                                assert(freed@.subrange(0, k2 + 1 as int)[kk] == j as usize);
                            }
                        }
                        assert(j != c) by {
                            if j == c {
                                assert(freed@.subrange(0, k2 + 1 as int)[k2 as int] == c);
                            }
                        }
                    }
                }
            }
            k2 = k2 + 1;
        }
        proof {
            assert(freed@.subrange(0, m as int) == freed@);
        }
        let ghost st2 = *self;
        proof {
            lemma_bounded_cells_finite(fs, st.n2() as usize);
            // Each surviving group's target liberty count on the cleared
            // board: its old count plus one per adjacent freed cell.
            assert forall|r: usize| #[trigger]
                st2.group_ds.is_root_at(r) implies st.qi_at(r) + count_touching(
                freed@,
                st.size,
                st.group_ds.group(r),
            ) == libs(st2.board@, st.size, st.group_ds.group(r)).len() && libs(
                st2.board@,
                st.size,
                st.group_ds.group(r),
            ).len() <= st.n2() by {
                let gr = st.group_ds.group(r);
                assert(st.group_ds.is_root_at(r) && !eaten@.contains(r));
                assert(st.group_ds.has(r) && st.group_ds.root_of(r) == r) by {
                    assert(st.group_ds.cell_ok(r as int));
                }
                assert forall|mm: usize| #[trigger] gr.contains(mm) implies !fs.contains(mm) by {
                    if fs.contains(mm) {
                        assert(eaten@.contains(st.group_ds.root_of(mm)));
                    }
                }
                assert forall|cc: usize| #[trigger] fs.contains(cc) implies cc < st.board@.len()
                    && st.board@[cc as int].is_color() by {
                    assert(st.group_ds.has(cc));
                }
                lemma_libs_after_clear(st.board@, st2.board@, st.size, gr, fs);
                lemma_count_touching_card(freed@, st.size, gr);
                lemma_libs_finite(st2.board@, st.size, gr);
            }
        }
        let mut k3: usize = 0;
        while k3 < m
            invariant
                k3 <= m,
                m == freed@.len(),
                freed@.no_duplicates(),
                fs == freed@.to_set(),
                forall|c: usize| #[trigger] fs.contains(c) ==> c < st.n2(),
                forall|c2: usize|
                    #[trigger] fs.contains(c2) <==> (st.group_ds.has(c2) && eaten@.contains(
                        st.group_ds.root_of(c2),
                    )),
                st2.group_ds.wf(),
                st2.group_ds.cap() == st.n2(),
                st.group_ds.wf(),
                st.group_ds.cap() == st.n2(),
                1 <= st.size,
                st.n2() < usize::MAX,
                st.board@.len() == st.n2(),
                st.group_info_array.0@.len() == st.n2(),
                forall|i: usize| #[trigger] st.group_ds.has(i) <==> st.occupied(i),
                self.size == st.size,
                self.history_states == st.history_states,
                self.board == st2.board,
                self.group_ds == st2.group_ds,
                self.group_info_array.0@.len() == st.n2(),
                st2.size == st.size,
                st2.board@.len() == st.n2(),
                forall|i: int|
                    0 <= i < st2.board@.len() ==> (#[trigger] st2.board@[i]).valid(),
                forall|j: int|
                    0 <= j < st.board@.len() ==> st2.board@[j] == (if fs.contains(j as usize) {
                        Stone(0u8)
                    } else {
                        st.board@[j]
                    }),
                forall|j: usize|
                    #[trigger] st2.group_ds.has(j) <==> (st.group_ds.has(j) && !fs.contains(j)),
                forall|j: usize|
                    st.group_ds.has(j) && !fs.contains(j) ==> st2.group_ds.root_of(j)
                        == st.group_ds.root_of(j) && st2.group_ds.group(j) =~= st.group_ds.group(
                        j,
                    ),
                forall|r: usize|
                    #[trigger] st2.group_ds.is_root_at(r) <==> (st.group_ds.is_root_at(r)
                        && !eaten@.contains(r)),
                forall|r: usize|
                    #[trigger] st2.group_ds.is_root_at(r) ==> st2.group_ds.member_seq(r)
                        == st.group_ds.member_seq(r),
                forall|s2: usize|
                    s2 < st.n2() ==> ((#[trigger] st2.group_info_array.0@[s2 as int]) is Some
                        <==> st2.group_ds.is_root_at(s2)),
                forall|r: usize|
                    #[trigger] st2.group_ds.is_root_at(r) ==> st2.members_at(r) == st.members_at(
                        r,
                    ) && st2.qi_at(r) == st.qi_at(r),
                forall|r: usize| #[trigger]
                    st2.group_ds.is_root_at(r) ==> st.qi_at(r) + count_touching(
                        freed@,
                        st.size,
                        st.group_ds.group(r),
                    ) == libs(st2.board@, st.size, st.group_ds.group(r)).len() && libs(
                        st2.board@,
                        st.size,
                        st.group_ds.group(r),
                    ).len() <= st.n2(),
                forall|s2: usize|
                    s2 < st.n2() ==> ((#[trigger] self.group_info_array.0@[s2 as int]) is Some
                        <==> st2.group_info_array.0@[s2 as int] is Some),
                forall|r: usize|
                    #[trigger] st2.group_ds.is_root_at(r) ==> self.members_at(r) == st.members_at(
                        r,
                    ) && self.qi_at(r) == st.qi_at(r) + count_touching(
                        freed@.subrange(0, k3 as int),
                        st.size,
                        st.group_ds.group(r),
                    ),
            decreases m - k3,
        {
            proof {
                assert(freed@.contains(freed@[k3 as int]));
                assert(fs.contains(freed@[k3 as int]));
            }
            let c = freed[k3];
            proof {
                assert forall|i: usize| #[trigger] self.group_ds.has(i) <==> self.occupied(i) by {
                    assert(self.group_ds == st2.group_ds);
                    if self.group_ds.has(i) {
                        assert(st2.group_ds.has(i));
                        assert(st.group_ds.has(i) && !fs.contains(i));
                        assert(st.occupied(i));
                        assert(self.board@[i as int] == st.board@[i as int]);
                    } else {
                        assert(!st2.group_ds.has(i));
                        if i < self.board@.len() {
                            if fs.contains(i) {
                                assert(self.board@[i as int] == Stone(0u8));
                            } else {
                                assert(self.board@[i as int] == st.board@[i as int]);
                                if st.occupied(i) {
                                    assert(st.group_ds.has(i));
                                    assert(st2.group_ds.has(i));
                                }
                            }
                        }
                    }
                }
            }
            let ghost pre_it = *self;
            let rv = self.neighbor_groups(c);
            proof {
                // The returned roots are exactly the surviving groups
                // the freed cell touches.
                assert forall|rr: usize| #[trigger] rv@.contains(rr) <==> (
                st2.group_ds.is_root_at(rr) && touches(
                    st.size,
                    st.group_ds.group(rr),
                    c,
                )) by {
                    if rv@.contains(rr) {
                        let nn = choose|nn: usize|
                            #[trigger] adj(st2.size, c, nn) && st2.occupied(nn)
                                && st2.group_ds.root_of(nn) == rr;
                        assert(st2.group_ds.has(nn));
                        assert(st.group_ds.has(nn) && !fs.contains(nn));
                        assert(st2.group_ds.root_of(nn) == st.group_ds.root_of(nn));
                        st2.group_ds.lemma_root_props(nn);
                        assert(st2.group_ds.is_root_at(rr));
                        assert(st.group_ds.group(rr).contains(nn)) by {
                            assert(st.group_ds.is_root_at(rr));
                            assert(st.group_ds.root_of(rr) == rr) by {
                                assert(st.group_ds.cell_ok(rr as int));
                            }
                        }
                        assert(adj(st.size, nn, c));
                        assert(touches(st.size, st.group_ds.group(rr), c));
                    }
                    if st2.group_ds.is_root_at(rr) && touches(st.size, st.group_ds.group(rr), c) {
                        let mm = choose|mm: usize|
                            #[trigger] st.group_ds.group(rr).contains(mm) && adj(st.size, mm, c);
                        assert(st.group_ds.has(mm));
                        assert(!fs.contains(mm)) by {
                            if fs.contains(mm) {
                                assert(eaten@.contains(st.group_ds.root_of(mm)));
                                assert(st.group_ds.root_of(mm) == rr) by {
                                    assert(st.group_ds.cell_ok(rr as int));
                                }
                                assert(st.group_ds.is_root_at(rr));
                            }
                        }
                        assert(st2.group_ds.has(mm));
                        assert(st2.occupied(mm)) by {
                            assert(st2.board@[mm as int] == st.board@[mm as int]);
                            assert(st.occupied(mm));
                        }
                        assert(st2.group_ds.root_of(mm) == st.group_ds.root_of(mm));
                        assert(st.group_ds.root_of(mm) == rr) by {
                            assert(st.group_ds.cell_ok(rr as int));
                        }
                        assert(adj(st2.size, c, mm));
                        assert(rv@.contains(rr));
                    }
                }
                assert forall|rr: usize| #[trigger] rv@.contains(rr) implies rr < st.n2()
                    && pre_it.group_ds.is_root_at(rr) && pre_it.group_info_array.0@[rr as int]
                    is Some && pre_it.qi_at(rr) < usize::MAX by {
                    assert(st2.group_ds.is_root_at(rr));
                    assert(rr < st.n2());
                    assert(pre_it.group_info_array.0@[rr as int] is Some) by {
                        assert(st2.group_info_array.0@[rr as int] is Some);
                    }
                    lemma_count_touching_take_le(freed@, st.size, st.group_ds.group(rr), k3 as int);
                    lemma_count_touching_nonneg(
                        freed@.take(k3 as int),
                        st.size,
                        st.group_ds.group(rr),
                    );
                    assert(freed@.subrange(0, k3 as int) == freed@.take(k3 as int));
                    assert(pre_it.qi_at(rr) == st.qi_at(rr) + count_touching(
                        freed@.subrange(0, k3 as int),
                        st.size,
                        st.group_ds.group(rr),
                    ));
                    assert(st.qi_at(rr) + count_touching(freed@, st.size, st.group_ds.group(rr))
                        <= st.n2());
                }
            }
            let rn = rv.len();
            let mut t: usize = 0;
            while t < rn
                invariant
                    t <= rn,
                    rn == rv@.len(),
                    rv@.no_duplicates(),
                    st.n2() < usize::MAX,
                    st.group_info_array.0@.len() == st.n2(),
                    self.size == pre_it.size,
                    self.board == pre_it.board,
                    self.history_states == pre_it.history_states,
                    self.group_ds == pre_it.group_ds,
                    self.group_info_array.0@.len() == st.n2(),
                    forall|rr: usize|
                        #[trigger] rv@.contains(rr) ==> rr < st.n2()
                            && pre_it.group_ds.is_root_at(rr)
                            && pre_it.group_info_array.0@[rr as int] is Some
                            && pre_it.qi_at(rr) < usize::MAX,
                    forall|s2: usize|
                        s2 < st.n2() && !rv@.subrange(0, t as int).contains(s2)
                            ==> self.group_info_array.0@[s2 as int]
                            == pre_it.group_info_array.0@[s2 as int],
                    forall|s2: usize|
                        #[trigger] rv@.subrange(0, t as int).contains(s2)
                            ==> self.group_info_array.0@[s2 as int] is Some && self.members_at(s2)
                            == pre_it.members_at(s2) && self.qi_at(s2) == pre_it.qi_at(s2) + 1,
                decreases rn - t,
            {
                proof {
                    assert(rv@.contains(rv@[t as int]));
                    assert(!rv@.subrange(0, t as int).contains(rv@[t as int])) by {
                        if rv@.subrange(0, t as int).contains(rv@[t as int]) {
                            let kk = choose|kk: int|
                                0 <= kk < t && #[trigger] rv@.subrange(0, t as int)[kk] == rv@[
                                    t as int];
                        }
                    }
                    assert(pre_it.group_ds.is_root_at(rv@[t as int]));
                    assert(rv@[t as int] < st.n2());
                }
                let rr = rv[t];
                let ghost pre_body = *self;
                proof {
                    assert(pre_body.group_info_array.0@[rr as int] == pre_it.group_info_array.0@[
                        rr as int]);
                }
                let prev_gi = self.group_info_array.swap_entry(rr, None);
                let gi = match prev_gi {
                    Some(g) => g,
                    None => unreached(),
                };
                let gi2 = GroupInfo::new(gi.qi + 1, gi.members);
                self.group_info_array.set_entry(rr, Some(gi2));
                proof {
                    assert(gi == pre_it.group_info_array.0@[rr as int]->Some_0);
                    assert(self.group_info_array.0@ == pre_body.group_info_array.0@.update(
                        rr as int,
                        None,
                    ).update(rr as int, Some(gi2)));
                    assert(self.group_info_array.0@[rr as int] == Some(gi2));
                    assert(self.members_at(rr) == pre_it.members_at(rr));
                    assert(self.qi_at(rr) == pre_it.qi_at(rr) + 1);
                    assert forall|s2: usize|
                        s2 < st.n2() && !rv@.subrange(0, t + 1 as int).contains(s2)
                            implies self.group_info_array.0@[s2 as int]
                        == pre_it.group_info_array.0@[s2 as int] by {
                        assert(!rv@.subrange(0, t as int).contains(s2)) by {
                            if rv@.subrange(0, t as int).contains(s2) {
                                let kk = choose|kk: int|
                                    0 <= kk < t && #[trigger] rv@.subrange(0, t as int)[kk] == s2;
                                assert(rv@.subrange(0, t + 1 as int)[kk] == s2);
                            }
                        }
                        assert(s2 != rr) by {
                            if s2 == rr {
                                assert(rv@.subrange(0, t + 1 as int)[t as int] == rr);
                            }
                        }
                    }
                    assert forall|s2: usize|
                        #[trigger] rv@.subrange(0, t + 1 as int).contains(s2)
                            implies self.group_info_array.0@[s2 as int] is Some
                        && self.members_at(s2) == pre_it.members_at(s2) && self.qi_at(s2)
                        == pre_it.qi_at(s2) + 1 by {
                        if s2 != rr {
                            let kk = choose|kk: int|
                                0 <= kk < t + 1 && #[trigger] rv@.subrange(0, t + 1 as int)[kk]
                                    == s2;
                            assert(kk < t) by {
                                if kk == t {
                                    assert(rv@.subrange(0, t + 1 as int)[t as int] == rr);
                                }
                            }
                            assert(rv@.subrange(0, t as int)[kk] == s2);
                            assert(rv@.subrange(0, t as int).contains(s2));
                            assert(s2 < st.n2()) by {
                                assert(rv@.contains(rv@.subrange(0, t as int)[kk]));
                            }
                            assert(self.group_info_array.0@[s2 as int]
                                == pre_body.group_info_array.0@[s2 as int]);
                            assert(pre_body.group_info_array.0@[s2 as int] is Some
                                && pre_body.members_at(s2) == pre_it.members_at(s2)
                                && pre_body.qi_at(s2) == pre_it.qi_at(s2) + 1);
                        }
                    }
                }
                t = t + 1;
            }
            proof {
                assert(rv@.subrange(0, rn as int) == rv@);
                let post = *self;
                assert forall|r: usize|
                    #[trigger] st2.group_ds.is_root_at(r) implies post.members_at(r)
                    == st.members_at(r) && post.qi_at(r) == st.qi_at(r) + count_touching(
                    freed@.subrange(0, k3 + 1 as int),
                    st.size,
                    st.group_ds.group(r),
                ) by {
                    lemma_count_touching_step(freed@, st.size, st.group_ds.group(r), k3 as int);
                    assert(freed@.subrange(0, k3 + 1 as int) == freed@.take(k3 + 1 as int));
                    assert(freed@.subrange(0, k3 as int) == freed@.take(k3 as int));
                    assert(r < st.n2()) by {
                        assert(st.group_ds.is_root_at(r));
                    }
                    if rv@.contains(r) {
                        assert(touches(st.size, st.group_ds.group(r), c));
                        assert(post.qi_at(r) == pre_it.qi_at(r) + 1);
                        assert(post.members_at(r) == pre_it.members_at(r));
                    } else {
                        assert(!touches(st.size, st.group_ds.group(r), c));
                        assert(!rv@.subrange(0, rn as int).contains(r));
                        assert(post.group_info_array.0@[r as int] == pre_it.group_info_array.0@[
                            r as int]);
                    }
                }
                assert forall|s2: usize|
                    s2 < st.n2() implies ((#[trigger] post.group_info_array.0@[s2 as int]) is Some
                    <==> st2.group_info_array.0@[s2 as int] is Some) by {
                    if rv@.contains(s2) {
                        assert(pre_it.group_info_array.0@[s2 as int] is Some);
                        assert(post.group_info_array.0@[s2 as int] is Some);
                    } else {
                        assert(!rv@.subrange(0, rn as int).contains(s2));
                        assert(post.group_info_array.0@[s2 as int] == pre_it.group_info_array.0@[
                            s2 as int]);
                    }
                }
            }
            k3 = k3 + 1;
        }
        proof {
            assert(freed@.subrange(0, m as int) == freed@);
            let post = *self;
            assert forall|r: usize|
                #[trigger] post.group_ds.is_root_at(r) implies post.members_at(r)
                == st.members_at(r) && post.qi_at(r) == libs(
                post.board@,
                post.size,
                st.group_ds.group(r),
            ).len() by {
                assert(st2.group_ds.is_root_at(r));
            }
        }
        freed
    }

    /// Sorts the stones around `cur_idx` into friendly groups, enemy
    /// groups that survive the move, and enemy groups that the move
    /// captures (their last liberty is `cur_idx` itself), each listed by
    /// root exactly once.
    fn classify(&mut self, cur_idx: usize, stone: Stone) -> (r: (Vec<usize>, Vec<usize>, Vec<
        usize,
    >))
        requires
            old(self).wf(),
            cur_idx < old(self).n2(),
            !old(self).occupied(cur_idx),
            stone.is_color(),
        ensures
            *final(self) == *old(self),
            r.0@.no_duplicates(),
            r.1@.no_duplicates(),
            r.2@.no_duplicates(),
            forall|rt: usize|
                #[trigger] r.0@.contains(rt) <==> exists|n: usize|
                    #[trigger] adj(old(self).size, cur_idx, n) && old(self).occupied(n) && old(
                        self,
                    ).board@[n as int] == stone && old(self).group_ds.root_of(n) == rt,
            forall|rt: usize|
                #[trigger] r.1@.contains(rt) <==> exists|n: usize|
                    #[trigger] adj(old(self).size, cur_idx, n) && old(self).occupied(n) && old(
                        self,
                    ).board@[n as int] != stone && old(self).group_ds.root_of(n) == rt && old(
                        self,
                    ).qi_at(rt) != 1,
            forall|rt: usize| #[trigger] r.2@.contains(rt) <==> old(self).eaten_root(
                cur_idx,
                stone,
                rt,
            ),
            forall|rt: usize|
                r.0@.contains(rt) || r.1@.contains(rt) || r.2@.contains(rt) ==> old(
                    self,
                ).group_ds.is_root_at(rt),
    {
        let nb = self.neighbors(cur_idx);
        let mut allies: Vec<usize> = Vec::new();
        let mut opponents: Vec<usize> = Vec::new();
        let mut eaten: Vec<usize> = Vec::new();
        let n = nb.len();
        let mut t: usize = 0;
        while t < n
            invariant
                t <= n,
                n == nb@.len(),
                *self == *old(self),
                self.wf(),
                cur_idx < self.n2(),
                stone.is_color(),
                nb@.no_duplicates(),
                forall|j: usize| #[trigger] nb@.contains(j) <==> adj(self.size, cur_idx, j),
                allies@.no_duplicates(),
                opponents@.no_duplicates(),
                eaten@.no_duplicates(),
                forall|rt: usize|
                    #[trigger] allies@.contains(rt) <==> exists|tt: int|
                        0 <= tt < t && self.occupied(#[trigger] nb@[tt]) && self.board@[nb@[tt] as int]
                            == stone && self.group_ds.root_of(nb@[tt]) == rt,
                forall|rt: usize|
                    #[trigger] opponents@.contains(rt) <==> exists|tt: int|
                        0 <= tt < t && self.occupied(#[trigger] nb@[tt]) && self.board@[nb@[tt] as int]
                            != stone && self.group_ds.root_of(nb@[tt]) == rt && self.qi_at(rt) != 1,
                forall|rt: usize|
                    #[trigger] eaten@.contains(rt) <==> exists|tt: int|
                        0 <= tt < t && self.occupied(#[trigger] nb@[tt]) && self.board@[nb@[tt] as int]
                            != stone && self.group_ds.root_of(nb@[tt]) == rt && self.qi_at(rt) == 1,
                forall|rt: usize|
                    allies@.contains(rt) || opponents@.contains(rt) || eaten@.contains(rt)
                        ==> self.group_ds.is_root_at(rt),
            decreases n - t,
        {
            proof {
                assert(nb@.contains(nb@[t as int]));
            }
            let nn = nb[t];
            if self.have_stone(nn) {
                proof {
                    assert(self.group_ds.has(nn));
                }
                let root = match self.group_ds.find_root(nn) {
                    Some(rt) => rt,
                    None => unreached(),
                };
                proof {
                    self.group_ds.lemma_root_props(nn);
                    assert(self.group_ds.is_root_at(root));
                }
                let ghost pa = allies@;
                let ghost po = opponents@;
                let ghost pe = eaten@;
                if self.board[nn] == stone {
                    push_if_not_exist(&mut allies, root);
                } else {
                    let qi = self.group_info_array.qi_at(root);
                    if qi == 1 {
                        push_if_not_exist(&mut eaten, root);
                    } else {
                        push_if_not_exist(&mut opponents, root);
                    }
                }
                proof {
                    assert forall|rt: usize|
                        #[trigger] allies@.contains(rt) <==> exists|tt: int|
                            0 <= tt < t + 1 && self.occupied(#[trigger] nb@[tt])
                                && self.board@[nb@[tt] as int] == stone && self.group_ds.root_of(
                                nb@[tt],
                            ) == rt by {
                        if allies@.contains(rt) {
                            if pa.contains(rt) {
                                let tt = choose|tt: int|
                                    0 <= tt < t && self.occupied(#[trigger] nb@[tt])
                                        && self.board@[nb@[tt] as int] == stone
                                        && self.group_ds.root_of(nb@[tt]) == rt;
                                assert(0 <= tt < t + 1 && self.occupied(nb@[tt])
                                    && self.board@[nb@[tt] as int] == stone
                                    && self.group_ds.root_of(nb@[tt]) == rt);
                            } else {
                                assert(rt == root && self.board@[nn as int] == stone);
                                assert(0 <= t < t + 1 && self.occupied(nb@[t as int])
                                    && self.board@[nb@[t as int] as int] == stone
                                    && self.group_ds.root_of(nb@[t as int]) == rt);
                            }
                        } else {
                            if exists|tt: int|
                                0 <= tt < t + 1 && self.occupied(#[trigger] nb@[tt])
                                    && self.board@[nb@[tt] as int] == stone
                                    && self.group_ds.root_of(nb@[tt]) == rt {
                                let tt = choose|tt: int|
                                    0 <= tt < t + 1 && self.occupied(#[trigger] nb@[tt])
                                        && self.board@[nb@[tt] as int] == stone
                                        && self.group_ds.root_of(nb@[tt]) == rt;
                                assert(tt < t);
                            }
                        }
                    }
                    assert forall|rt: usize|
                        #[trigger] opponents@.contains(rt) <==> exists|tt: int|
                            0 <= tt < t + 1 && self.occupied(#[trigger] nb@[tt])
                                && self.board@[nb@[tt] as int] != stone && self.group_ds.root_of(
                                nb@[tt],
                            ) == rt && self.qi_at(rt) != 1 by {
                        if opponents@.contains(rt) {
                            if po.contains(rt) {
                                let tt = choose|tt: int|
                                    0 <= tt < t && self.occupied(#[trigger] nb@[tt])
                                        && self.board@[nb@[tt] as int] != stone
                                        && self.group_ds.root_of(nb@[tt]) == rt && self.qi_at(rt)
                                        != 1;
                                assert(0 <= tt < t + 1 && self.occupied(nb@[tt])
                                    && self.board@[nb@[tt] as int] != stone
                                    && self.group_ds.root_of(nb@[tt]) == rt && self.qi_at(rt)
                                    != 1);
                            } else {
                                assert(0 <= t < t + 1 && self.occupied(nb@[t as int])
                                    && self.board@[nb@[t as int] as int] != stone
                                    && self.group_ds.root_of(nb@[t as int]) == rt && self.qi_at(
                                    rt,
                                ) != 1);
                            }
                        } else {
                            if exists|tt: int|
                                0 <= tt < t + 1 && self.occupied(#[trigger] nb@[tt])
                                    && self.board@[nb@[tt] as int] != stone
                                    && self.group_ds.root_of(nb@[tt]) == rt && self.qi_at(rt)
                                    != 1 {
                                let tt = choose|tt: int|
                                    0 <= tt < t + 1 && self.occupied(#[trigger] nb@[tt])
                                        && self.board@[nb@[tt] as int] != stone
                                        && self.group_ds.root_of(nb@[tt]) == rt && self.qi_at(rt)
                                        != 1;
                                assert(tt < t);
                            }
                        }
                    }
                    assert forall|rt: usize|
                        #[trigger] eaten@.contains(rt) <==> exists|tt: int|
                            0 <= tt < t + 1 && self.occupied(#[trigger] nb@[tt])
                                && self.board@[nb@[tt] as int] != stone && self.group_ds.root_of(
                                nb@[tt],
                            ) == rt && self.qi_at(rt) == 1 by {
                        if eaten@.contains(rt) {
                            if pe.contains(rt) {
                                let tt = choose|tt: int|
                                    0 <= tt < t && self.occupied(#[trigger] nb@[tt])
                                        && self.board@[nb@[tt] as int] != stone
                                        && self.group_ds.root_of(nb@[tt]) == rt && self.qi_at(rt)
                                        == 1;
                                assert(0 <= tt < t + 1 && self.occupied(nb@[tt])
                                    && self.board@[nb@[tt] as int] != stone
                                    && self.group_ds.root_of(nb@[tt]) == rt && self.qi_at(rt)
                                    == 1);
                            } else {
                                assert(0 <= t < t + 1 && self.occupied(nb@[t as int])
                                    && self.board@[nb@[t as int] as int] != stone
                                    && self.group_ds.root_of(nb@[t as int]) == rt && self.qi_at(
                                    rt,
                                ) == 1);
                            }
                        } else {
                            if exists|tt: int|
                                0 <= tt < t + 1 && self.occupied(#[trigger] nb@[tt])
                                    && self.board@[nb@[tt] as int] != stone
                                    && self.group_ds.root_of(nb@[tt]) == rt && self.qi_at(rt)
                                    == 1 {
                                let tt = choose|tt: int|
                                    0 <= tt < t + 1 && self.occupied(#[trigger] nb@[tt])
                                        && self.board@[nb@[tt] as int] != stone
                                        && self.group_ds.root_of(nb@[tt]) == rt && self.qi_at(rt)
                                        == 1;
                                assert(tt < t);
                            }
                        }
                    }
                }
            } else {
                proof {
                    assert(!self.occupied(nb@[t as int]));
                    assert forall|rt: usize|
                        #[trigger] allies@.contains(rt) <==> exists|tt: int|
                            0 <= tt < t + 1 && self.occupied(#[trigger] nb@[tt])
                                && self.board@[nb@[tt] as int] == stone && self.group_ds.root_of(
                                nb@[tt],
                            ) == rt by {
                        if exists|tt: int|
                            0 <= tt < t + 1 && self.occupied(#[trigger] nb@[tt])
                                && self.board@[nb@[tt] as int] == stone && self.group_ds.root_of(
                                nb@[tt],
                            ) == rt {
                            let tt = choose|tt: int|
                                0 <= tt < t + 1 && self.occupied(#[trigger] nb@[tt])
                                    && self.board@[nb@[tt] as int] == stone
                                    && self.group_ds.root_of(nb@[tt]) == rt;
                            assert(tt < t);
                        }
                    }
                    assert forall|rt: usize|
                        #[trigger] opponents@.contains(rt) <==> exists|tt: int|
                            0 <= tt < t + 1 && self.occupied(#[trigger] nb@[tt])
                                && self.board@[nb@[tt] as int] != stone && self.group_ds.root_of(
                                nb@[tt],
                            ) == rt && self.qi_at(rt) != 1 by {
                        if exists|tt: int|
                            0 <= tt < t + 1 && self.occupied(#[trigger] nb@[tt])
                                && self.board@[nb@[tt] as int] != stone && self.group_ds.root_of(
                                nb@[tt],
                            ) == rt && self.qi_at(rt) != 1 {
                            let tt = choose|tt: int|
                                0 <= tt < t + 1 && self.occupied(#[trigger] nb@[tt])
                                    && self.board@[nb@[tt] as int] != stone
                                    && self.group_ds.root_of(nb@[tt]) == rt && self.qi_at(rt)
                                    != 1;
                            assert(tt < t);
                        }
                    }
                    assert forall|rt: usize|
                        #[trigger] eaten@.contains(rt) <==> exists|tt: int|
                            0 <= tt < t + 1 && self.occupied(#[trigger] nb@[tt])
                                && self.board@[nb@[tt] as int] != stone && self.group_ds.root_of(
                                nb@[tt],
                            ) == rt && self.qi_at(rt) == 1 by {
                        if exists|tt: int|
                            0 <= tt < t + 1 && self.occupied(#[trigger] nb@[tt])
                                && self.board@[nb@[tt] as int] != stone && self.group_ds.root_of(
                                nb@[tt],
                            ) == rt && self.qi_at(rt) == 1 {
                            let tt = choose|tt: int|
                                0 <= tt < t + 1 && self.occupied(#[trigger] nb@[tt])
                                    && self.board@[nb@[tt] as int] != stone
                                    && self.group_ds.root_of(nb@[tt]) == rt && self.qi_at(rt)
                                    == 1;
                            assert(tt < t);
                        }
                    }
                }
            }
            t = t + 1;
        }
        proof {
            assert forall|rt: usize| #[trigger] allies@.contains(rt) <==> exists|n2: usize|
                #[trigger] adj(self.size, cur_idx, n2) && self.occupied(n2) && self.board@[
                n2 as int] == stone && self.group_ds.root_of(n2) == rt by {
                if allies@.contains(rt) {
                    let tt = choose|tt: int|
                        0 <= tt < n && self.occupied(#[trigger] nb@[tt]) && self.board@[nb@[tt] as int]
                            == stone && self.group_ds.root_of(nb@[tt]) == rt;
                    assert(nb@.contains(nb@[tt]));
                }
                if exists|n2: usize|
                    #[trigger] adj(self.size, cur_idx, n2) && self.occupied(n2) && self.board@[
                    n2 as int] == stone && self.group_ds.root_of(n2) == rt {
                    let n2 = choose|n2: usize|
                        #[trigger] adj(self.size, cur_idx, n2) && self.occupied(n2) && self.board@[
                        n2 as int] == stone && self.group_ds.root_of(n2) == rt;
                    assert(nb@.contains(n2));
                    let tt = choose|tt: int| 0 <= tt < nb@.len() && nb@[tt] == n2;
                    assert(0 <= tt < n && self.occupied(nb@[tt]) && self.board@[nb@[tt] as int]
                        == stone && self.group_ds.root_of(nb@[tt]) == rt);
                }
            }
            assert forall|rt: usize| #[trigger] opponents@.contains(rt) <==> exists|n2: usize|
                #[trigger] adj(self.size, cur_idx, n2) && self.occupied(n2) && self.board@[
                n2 as int] != stone && self.group_ds.root_of(n2) == rt && self.qi_at(rt) != 1 by {
                if opponents@.contains(rt) {
                    let tt = choose|tt: int|
                        0 <= tt < n && self.occupied(#[trigger] nb@[tt]) && self.board@[nb@[tt] as int]
                            != stone && self.group_ds.root_of(nb@[tt]) == rt && self.qi_at(rt)
                            != 1;
                    assert(nb@.contains(nb@[tt]));
                }
                if exists|n2: usize|
                    #[trigger] adj(self.size, cur_idx, n2) && self.occupied(n2) && self.board@[
                    n2 as int] != stone && self.group_ds.root_of(n2) == rt && self.qi_at(rt)
                        != 1 {
                    let n2 = choose|n2: usize|
                        #[trigger] adj(self.size, cur_idx, n2) && self.occupied(n2) && self.board@[
                        n2 as int] != stone && self.group_ds.root_of(n2) == rt && self.qi_at(rt)
                            != 1;
                    assert(nb@.contains(n2));
                    let tt = choose|tt: int| 0 <= tt < nb@.len() && nb@[tt] == n2;
                    assert(0 <= tt < n && self.occupied(nb@[tt]) && self.board@[nb@[tt] as int]
                        != stone && self.group_ds.root_of(nb@[tt]) == rt && self.qi_at(rt) != 1);
                }
            }
            assert forall|rt: usize| #[trigger] eaten@.contains(rt) <==> self.eaten_root(
                cur_idx,
                stone,
                rt,
            ) by {
                if eaten@.contains(rt) {
                    let tt = choose|tt: int|
                        0 <= tt < n && self.occupied(#[trigger] nb@[tt]) && self.board@[nb@[tt] as int]
                            != stone && self.group_ds.root_of(nb@[tt]) == rt && self.qi_at(rt)
                            == 1;
                    assert(nb@.contains(nb@[tt]));
                    assert(adj(self.size, cur_idx, nb@[tt]));
                }
                if self.eaten_root(cur_idx, stone, rt) {
                    let n2 = choose|n2: usize|
                        #[trigger] adj(self.size, cur_idx, n2) && self.occupied(n2) && self.board@[
                        n2 as int] != stone && self.group_ds.root_of(n2) == rt && self.qi_at(rt)
                            == 1;
                    assert(nb@.contains(n2));
                    let tt = choose|tt: int| 0 <= tt < nb@.len() && nb@[tt] == n2;
                    assert(0 <= tt < n && self.occupied(nb@[tt]) && self.board@[nb@[tt] as int]
                        != stone && self.group_ds.root_of(nb@[tt]) == rt && self.qi_at(rt) == 1);
                }
            }
        }
        (allies, opponents, eaten)
    }

    /// Whether some remembered past position equals `b`.
    fn in_history(&self, b: &Vec<Stone>) -> (r: bool)
        ensures
            r == exists|h: int|
                0 <= h < self.history_states@.len() && (#[trigger] self.history_states@[h])@
                    == b@,
    {
        let n = self.history_states.len();
        let mut h: usize = 0;
        while h < n
            invariant
                h <= n,
                n == self.history_states@.len(),
                forall|hh: int|
                    0 <= hh < h ==> (#[trigger] self.history_states@[hh])@ != b@,
            decreases n - h,
        {
            if Self::boards_equal(&self.history_states[h], b) {
                return true;
            }
            h = h + 1;
        }
        false
    }

    /// The position the move would produce: the stone placed and every
    /// captured group's cells cleared. The board itself is untouched.
    fn build_new_board(&self, cur_idx: usize, stone: Stone, eaten: &Vec<usize>) -> (nb: Vec<Stone>)
        requires
            self.wf(),
            cur_idx < self.n2(),
            !self.occupied(cur_idx),
            stone.is_color(),
            eaten@.no_duplicates(),
            forall|rt: usize| #[trigger] eaten@.contains(rt) <==> self.eaten_root(
                cur_idx,
                stone,
                rt,
            ),
            forall|rt: usize| eaten@.contains(rt) ==> self.group_ds.is_root_at(rt),
        ensures
            nb@ == self.board_after(cur_idx, stone),
    {
        let mut nb: Vec<Stone> = Vec::new();
        let n2 = self.board.len();
        let mut i: usize = 0;
        while i < n2
            invariant
                i <= n2,
                n2 == self.board@.len(),
                nb@.len() == i,
                forall|j: int| 0 <= j < i ==> nb@[j] == self.board@[j],
            decreases n2 - i,
        {
            nb.push(self.board[i]);
            i = i + 1;
        }
        nb.set(cur_idx, stone);
        let en = eaten.len();
        let mut k: usize = 0;
        while k < en
            invariant
                k <= en,
                en == eaten@.len(),
                self.wf(),
                cur_idx < self.n2(),
                !self.occupied(cur_idx),
                stone.is_color(),
                eaten@.no_duplicates(),
                forall|rt: usize| #[trigger] eaten@.contains(rt) <==> self.eaten_root(
                    cur_idx,
                    stone,
                    rt,
                ),
                forall|rt: usize| eaten@.contains(rt) ==> self.group_ds.is_root_at(rt),
                nb@.len() == self.board@.len(),
                forall|j: int|
                    0 <= j < nb@.len() ==> nb@[j] == (if j == cur_idx {
                        stone
                    } else if (exists|kk: int|
                        0 <= kk < k && self.group_ds.group(#[trigger] eaten@[kk]).contains(
                            j as usize,
                        )) {
                        Stone(0u8)
                    } else {
                        self.board@[j]
                    }),
            decreases en - k,
        {
            proof {
                assert(eaten@.contains(eaten@[k as int]));
            }
            let rt = eaten[k];
            proof {
                assert(self.group_ds.is_root_at(rt));
                assert(rt < self.n2());
                assert(self.group_info_array.0@[rt as int] is Some);
                assert(self.ledger_ok(rt));
            }
            let gi = self.group_info_array.get(rt);
            let gm = gi.members.len();
            let ghost prev = nb@;
            let mut u: usize = 0;
            while u < gm
                invariant
                    u <= gm,
                    gm == gi.members@.len(),
                    gi.members@ == self.members_at(rt),
                    self.wf(),
                    rt < self.n2(),
                    self.group_ds.is_root_at(rt),
                    self.group_info_array.0@[rt as int] is Some,
                    nb@.len() == prev.len(),
                    prev.len() == self.board@.len(),
                    forall|j: int|
                        0 <= j < nb@.len() ==> nb@[j] == (if (exists|uu: int|
                            0 <= uu < u && gi.members@[uu] == j as usize) {
                            Stone(0u8)
                        } else {
                            prev[j]
                        }),
                decreases gm - u,
            {
                proof {
                    assert(gi.members@.contains(gi.members@[u as int]));
                    assert(self.members_at(rt).to_set().contains(gi.members@[u as int]));
                    assert(self.ledger_ok(rt));
                    assert(gi.members@[u as int] < self.board@.len());
                }
                let c = gi.members[u];
                nb.set(c, Stone(0));
                proof {
                    assert forall|j: int|
                        0 <= j < nb@.len() implies nb@[j] == (if (exists|uu: int|
                            0 <= uu < u + 1 && gi.members@[uu] == j as usize) {
                            Stone(0u8)
                        } else {
                            prev[j]
                        }) by {
                        if exists|uu: int| 0 <= uu < u + 1 && gi.members@[uu] == j as usize {
                            let uu = choose|uu: int|
                                0 <= uu < u + 1 && gi.members@[uu] == j as usize;
                            if uu < u {
                            } else {
                                assert(j == c);
                            }
                        } else {
                            assert(j != c) by {
                                if j == c {
                                    assert(gi.members@[u as int] == j as usize);
                                }
                            }
                        }
                    }
                }
                u = u + 1;
            }
            proof {
                assert forall|j: int|
                    0 <= j < nb@.len() implies nb@[j] == (if j == cur_idx {
                        stone
                    } else if (exists|kk: int|
                        0 <= kk < k + 1 && self.group_ds.group(#[trigger] eaten@[kk]).contains(
                            j as usize,
                        )) {
                        Stone(0u8)
                    } else {
                        self.board@[j]
                    }) by {
                    assert(self.ledger_ok(eaten@[k as int]));
                    if exists|uu: int| 0 <= uu < gm && gi.members@[uu] == j as usize {
                        assert(gi.members@.contains(j as usize));
                        assert(self.members_at(rt).to_set().contains(j as usize));
                        assert(self.group_ds.group(rt).contains(j as usize));
                        assert(j != cur_idx) by {
                            if j == cur_idx {
                                assert(self.group_ds.has(cur_idx));
                                assert(self.occupied(cur_idx));
                            }
                        }
                    } else {
                        if self.group_ds.group(rt).contains(j as usize) {
                            assert(self.members_at(rt).to_set().contains(j as usize));
                            assert(gi.members@.contains(j as usize));
                            let uu = choose|uu: int|
                                0 <= uu < gi.members@.len() && gi.members@[uu] == j as usize;
                        }
                        if exists|kk: int|
                            0 <= kk < k + 1 && self.group_ds.group(#[trigger] eaten@[kk]).contains(
                                j as usize,
                            ) {
                            let kk = choose|kk: int|
                                0 <= kk < k + 1 && self.group_ds.group(
                                    #[trigger] eaten@[kk],
                                ).contains(j as usize);
                            assert(kk < k);
                        }
                    }
                }
            }
            k = k + 1;
        }
        proof {
            assert(nb@ =~= self.board_after(cur_idx, stone)) by {
                assert forall|j: int| 0 <= j < nb@.len() implies nb@[j] == self.board_after(
                    cur_idx,
                    stone,
                )[j] by {
                    if j != cur_idx {
                        if self.eaten_cells(cur_idx, stone).contains(j as usize) {
                            let rt = self.group_ds.root_of(j as usize);
                            assert(self.eaten_root(cur_idx, stone, rt));
                            assert(eaten@.contains(rt));
                            let kk = choose|kk: int| 0 <= kk < eaten@.len() && eaten@[kk] == rt;
                            assert(self.group_ds.group(eaten@[kk]).contains(j as usize)) by {
                                self.group_ds.lemma_root_props(j as usize);
                            }
                        } else {
                            if exists|kk: int|
                                0 <= kk < en && self.group_ds.group(#[trigger] eaten@[kk]).contains(
                                    j as usize,
                                ) {
                                let kk = choose|kk: int|
                                    0 <= kk < en && self.group_ds.group(
                                        #[trigger] eaten@[kk],
                                    ).contains(j as usize);
                                assert(eaten@.contains(eaten@[kk]));
                                assert(self.eaten_root(cur_idx, stone, eaten@[kk]));
                                assert(self.group_ds.root_of(j as usize) == eaten@[kk]) by {
                                    assert(self.group_ds.cell_ok(eaten@[kk] as int));
                                }
                                assert(self.eaten_cells(cur_idx, stone).contains(j as usize));
                            }
                        }
                    }
                }
            }
        }
        nb
    }

    /// The sole mutating entry point: attempts to place `stone` on
    /// `coord`. Rejects the move (leaving the engine untouched) when the
    /// cell is occupied, when the move would be suicidal, or when the
    /// resulting position repeats a remembered one; otherwise commits
    /// the stone, resolves captures, records the new position, and
    /// reports the captured coordinates.
    #[verifier::spinoff_prover]
    #[verifier::rlimit(100)]
    pub fn place_stone(&mut self, coord: Coord, stone: Stone) -> (r: Result<
        PlaceStoneResult,
        ErrorKind,
    >)
        requires
            old(self).wf(),
            old(self).groups_alive(),
            coord.x < old(self).size,
            coord.y < old(self).size,
            stone.is_color(),
        ensures
            final(self).wf(),
            final(self).groups_alive(),
            final(self).size == old(self).size,
            r is Err ==> *final(self) == *old(self),
            (r == Err::<PlaceStoneResult, ErrorKind>(ErrorKind::AlreadyOccupied) <==> old(
                self,
            ).occupied(old(self).target(coord))),
            !old(self).occupied(old(self).target(coord)) ==> (r == Err::<
                PlaceStoneResult,
                ErrorKind,
            >(ErrorKind::SelfCapture) <==> old(self).suicide(old(self).target(coord), stone)),
            !old(self).occupied(old(self).target(coord)) && !old(self).suicide(
                old(self).target(coord),
                stone,
            ) ==> (r == Err::<PlaceStoneResult, ErrorKind>(ErrorKind::PositionRepeated) <==> old(
                self,
            ).repeated(old(self).target(coord), stone)),
            r is Ok <==> (!old(self).occupied(old(self).target(coord)) && !old(self).suicide(
                old(self).target(coord),
                stone,
            ) && !old(self).repeated(old(self).target(coord), stone)),
            r is Ok ==> {
                &&& final(self).board@ == old(self).board_after(old(self).target(coord), stone)
                &&& final(self).history_states@.len() == (
                if old(self).history_states@.len() >= MAX_STATES_RECORD {
                    MAX_STATES_RECORD as int
                } else {
                    old(self).history_states@.len() as int + 1
                })
                &&& final(self).history_states@[0]@ == final(self).board@
                &&& forall|h: int|
                    1 <= h < final(self).history_states@.len() ==> final(self).history_states@[h]
                        == old(self).history_states@[h - 1]
                &&& cells_of(old(self).size, r->Ok_0.eaten_stones@).no_duplicates()
                &&& cells_of(old(self).size, r->Ok_0.eaten_stones@).to_set() == old(
                    self,
                ).eaten_cells(old(self).target(coord), stone)
                &&& forall|k: int|
                    0 <= k < r->Ok_0.eaten_stones@.len() ==> (#[trigger] r->Ok_0.eaten_stones@[k]).x
                        < old(self).size && r->Ok_0.eaten_stones@[k].y < old(self).size
            },
    {
        let ghost st0 = *old(self);
        let cur_idx = self.idx(coord);
        if self.have_stone(cur_idx) {
            return Err(ErrorKind::AlreadyOccupied);
        }
        let (allies, opponents, eaten) = self.classify(cur_idx, stone);
        let mut singlev: Vec<usize> = Vec::new();
        singlev.push(cur_idx);
        let cur_qi = self.calc_qi(&singlev);
        proof {
            assert(singlev@.to_set() =~= set![cur_idx]) by {
                assert(singlev@[0] == cur_idx);
                assert forall|c: usize| singlev@.to_set().contains(c) implies c == cur_idx by {}
            }
            assert(cur_qi == libs(st0.board@, st0.size, set![cur_idx]).len());
            lemma_libs_finite(st0.board@, st0.size, set![cur_idx]);
            vstd::set_lib::lemma_set_empty_equivalency_len(
                libs(st0.board@, st0.size, set![cur_idx]),
            );
            // `cur_qi` is zero exactly when the cell has no empty neighbor.
            assert(cur_qi == 0 <==> !st0.has_empty_neighbor(cur_idx)) by {
                if cur_qi == 0 {
                    if st0.has_empty_neighbor(cur_idx) {
                        let j = choose|j: usize|
                            #[trigger] adj(st0.size, cur_idx, j) && st0.board@[j as int].is_void();
                        assert(set![cur_idx].contains(cur_idx) && adj(st0.size, cur_idx, j));
                        assert(libs(st0.board@, st0.size, set![cur_idx]).contains(j));
                        assert(!libs(st0.board@, st0.size, set![cur_idx]).is_empty());
                        vstd::set_lib::lemma_set_empty_equivalency_len(
                            libs(st0.board@, st0.size, set![cur_idx]),
                        );
                        assert(libs(st0.board@, st0.size, set![cur_idx]) =~= Set::empty());
                    }
                } else {
                    assert(!(libs(st0.board@, st0.size, set![cur_idx]) =~= Set::<usize>::empty()));
                    let j = choose|j: usize|
                        libs(st0.board@, st0.size, set![cur_idx]).contains(j) != Set::<
                            usize,
                        >::empty().contains(j);
                    assert(libs(st0.board@, st0.size, set![cur_idx]).contains(j));
                    let m = choose|m: usize|
                        #[trigger] set![cur_idx].contains(m) && adj(st0.size, m, j);
                    assert(st0.has_empty_neighbor(cur_idx));
                }
            }
            // Captures exist exactly when the capture list is non-empty.
            assert(eaten@.len() == 0 <==> !st0.any_capture(cur_idx, stone)) by {
                if eaten@.len() > 0 {
                    assert(eaten@.contains(eaten@[0]));
                    assert(st0.eaten_root(cur_idx, stone, eaten@[0]));
                } else {
                    if st0.any_capture(cur_idx, stone) {
                        let rt = choose|rt: usize| st0.eaten_root(cur_idx, stone, rt);
                        assert(eaten@.contains(rt));
                    }
                }
            }
        }
        if eaten.len() == 0 && cur_qi == 0 {
            let mut flag = false;
            let an = allies.len();
            let mut k: usize = 0;
            while k < an
                invariant
                    k <= an,
                    an == allies@.len(),
                    *self == st0,
                    st0.wf(),
                    cur_idx < st0.n2(),
                    stone.is_color(),
                    forall|rt: usize|
                        allies@.contains(rt) ==> st0.group_ds.is_root_at(rt)
                            && st0.group_info_array.0@[rt as int] is Some,
                    flag ==> exists|kk: int|
                        0 <= kk < an && st0.qi_at(#[trigger] allies@[kk]) != 1,
                    !flag ==> forall|kk: int|
                        0 <= kk < k ==> st0.qi_at(#[trigger] allies@[kk]) == 1,
                decreases an - k,
            {
                proof {
                    assert(allies@.contains(allies@[k as int]));
                    assert(st0.group_ds.is_root_at(allies@[k as int]));
                }
                let rt = allies[k];
                if self.group_info_array.qi_at(rt) != 1 {
                    flag = true;
                }
                k = k + 1;
            }
            if !flag {
                proof {
                    assert(st0.suicide(cur_idx, stone)) by {
                        assert forall|n: usize|
                            #[trigger] adj(st0.size, cur_idx, n) && st0.occupied(n) && st0.board@[
                            n as int] == stone implies st0.qi_at(st0.group_ds.root_of(n))
                            == 1 by {
                            assert(allies@.contains(st0.group_ds.root_of(n)));
                            let kk = choose|kk: int|
                                0 <= kk < an && allies@[kk] == st0.group_ds.root_of(n);
                        }
                    }
                }
                return Err(ErrorKind::SelfCapture);
            }
        }
        proof {
            // The move is not suicidal on any path that reaches here.
            assert(!st0.suicide(cur_idx, stone)) by {
                if st0.suicide(cur_idx, stone) {
                    assert(eaten@.len() == 0 && cur_qi == 0);
                    let kk = choose|kk: int|
                        0 <= kk < allies@.len() && st0.qi_at(#[trigger] allies@[kk]) != 1;
                    assert(allies@.contains(allies@[kk]));
                    let n = choose|n: usize|
                        #[trigger] adj(st0.size, cur_idx, n) && st0.occupied(n) && st0.board@[
                        n as int] == stone && st0.group_ds.root_of(n) == allies@[kk];
                }
            }
        }
        let new_board = self.build_new_board(cur_idx, stone, &eaten);
        if self.in_history(&new_board) {
            proof {
                assert(st0.repeated(cur_idx, stone));
            }
            return Err(ErrorKind::PositionRepeated);
        }
        proof {
            assert(!st0.repeated(cur_idx, stone));
        }
        // Commit: place the stone.
        self.board.set(cur_idx, stone);
        let ghost b1 = self.board@;
        let new_root: usize;
        if allies.len() == 0 {
            self.group_ds.insert(cur_idx);
            let mut mvec: Vec<usize> = Vec::new();
            mvec.push(cur_idx);
            self.group_info_array.set_entry(cur_idx, Some(GroupInfo::new(cur_qi, mvec)));
            new_root = cur_idx;
            proof {
                let stb = *self;
                assert(stb.members_at(cur_idx) =~= seq![cur_idx]);
                assert(stb.members_at(cur_idx).to_set() =~= set![cur_idx]) by {
                    assert(stb.members_at(cur_idx)[0] == cur_idx);
                    assert forall|c: usize|
                        stb.members_at(cur_idx).to_set().contains(c) implies c == cur_idx by {}
                    assert(stb.members_at(cur_idx).to_set().contains(cur_idx));
                }
                assert(stb.group_ds.group(cur_idx) =~= set![cur_idx]);
                lemma_libs_after_place(st0.board@, b1, st0.size, set![cur_idx], cur_idx, stone);
                assert(!touches(st0.size, set![cur_idx], cur_idx)) by {
                    if touches(st0.size, set![cur_idx], cur_idx) {
                        let m = choose|m: usize|
                            #[trigger] set![cur_idx].contains(m) && adj(st0.size, m, cur_idx);
                        assert(m == cur_idx);
                        assert(adj(st0.size, cur_idx, cur_idx));
                        assert(cur_idx as int % st0.size as int != cur_idx as int % st0.size
                            as int + 1);
                    }
                }
                assert forall|s2: usize|
                    s2 < st0.n2() implies ((#[trigger] stb.group_info_array.0@[s2 as int])
                    is Some <==> stb.group_ds.is_root_at(s2)) by {
                    if s2 != cur_idx {
                        assert(stb.group_info_array.0@[s2 as int] == st0.group_info_array.0@[
                            s2 as int]);
                        if st0.group_ds.is_root_at(s2) {
                            assert(stb.group_ds.is_root_at(s2));
                        } else {
                            assert(!stb.group_ds.is_root_at(s2)) by {
                                if stb.group_ds.is_root_at(s2) {
                                    assert(stb.group_ds.has(s2)) by {
                                        assert(stb.group_ds.cell_ok(s2 as int));
                                    }
                                    assert(st0.group_ds.has(s2));
                                    assert(stb.group_ds.root_of(s2) == s2) by {
                                        assert(stb.group_ds.cell_ok(s2 as int));
                                    }
                                    assert(st0.group_ds.root_of(s2) == s2);
                                    st0.group_ds.lemma_root_props(s2);
                                }
                            }
                        }
                    }
                }
                assert(stb.qi_at(cur_idx) == libs(b1, st0.size, stb.group_ds.group(
                    cur_idx,
                )).len()) by {
                    assert(libs(b1, st0.size, set![cur_idx]) =~= libs(
                        st0.board@,
                        st0.size,
                        set![cur_idx],
                    ).remove(cur_idx));
                    assert(!libs(st0.board@, st0.size, set![cur_idx]).contains(cur_idx));
                    assert(libs(b1, st0.size, set![cur_idx]).len() == libs(
                        st0.board@,
                        st0.size,
                        set![cur_idx],
                    ).len());
                    assert(libs(b1, st0.size, stb.group_ds.group(cur_idx)) == libs(
                        b1,
                        st0.size,
                        set![cur_idx],
                    ));
                }
            }
        } else {
            proof {
                assert forall|k: int, c: usize|
                    0 <= k < allies@.len() && #[trigger] st0.group_ds.group(allies@[k]).contains(
                        c,
                    ) implies self.board@[c as int] == stone by {
                    assert(allies@.contains(allies@[k]));
                    let rt = allies@[k];
                    assert(st0.group_ds.is_root_at(rt));
                    assert(st0.ledger_ok(rt));
                    assert(st0.members_at(rt).to_set().contains(c));
                    assert(st0.board@[c as int] == st0.board@[rt as int]);
                    let n = choose|n: usize|
                        #[trigger] adj(st0.size, cur_idx, n) && st0.occupied(n) && st0.board@[
                        n as int] == stone && st0.group_ds.root_of(n) == rt;
                    assert(st0.group_ds.group(rt).contains(n)) by {
                        st0.group_ds.lemma_root_props(n);
                        assert(st0.group_ds.cell_ok(rt as int));
                    }
                    assert(st0.members_at(rt).to_set().contains(n));
                    assert(st0.board@[n as int] == st0.board@[rt as int]);
                    assert(c != cur_idx) by {
                        if c == cur_idx {
                            assert(st0.group_ds.has(cur_idx));
                            assert(st0.occupied(cur_idx));
                        }
                    }
                }
                assert forall|r2: usize|
                    #[trigger] self.group_ds.is_root_at(r2) implies self.ledger_groups_ok(r2) by {
                    assert(st0.ledger_ok(r2));
                }
            }
            new_root = self.merge_allies(cur_idx, stone, &allies);
        }
        proof {
            let stb = *self;
            assert(stb.board@ == b1);
            assert(stb.group_ds.group(new_root) == stb.group_ds.group(cur_idx)) by {
                if allies@.len() == 0 {
                    stb.group_ds.lemma_root_props(cur_idx);
                    assert(stb.group_ds.group(cur_idx) =~= stb.group_ds.group(new_root));
                }
            }
        }
        // Adjacent enemy groups that survive lose the liberty this stone
        // now fills.
        let ghost stb = *self;
        proof {
            // No enemy root is a friendly root, the merged root, or the
            // placed cell; its ledger entry is untouched so far.
            assert forall|kk: int|
                0 <= kk < opponents@.len() implies (#[trigger] opponents@[kk]) < st0.n2()
                && stb.group_info_array.0@[opponents@[kk] as int] == st0.group_info_array.0@[
                opponents@[kk] as int] && stb.group_info_array.0@[opponents@[kk] as int] is Some
                && stb.qi_at(opponents@[kk]) >= 2 && stb.group_ds.is_root_at(opponents@[kk])
                && opponents@[kk] != new_root && stb.group_ds.group(opponents@[kk])
                =~= st0.group_ds.group(opponents@[kk]) by {
                let rt = opponents@[kk];
                assert(opponents@.contains(rt));
                assert(st0.group_ds.is_root_at(rt));
                assert(rt < st0.n2());
                let n = choose|n: usize|
                    #[trigger] adj(st0.size, cur_idx, n) && st0.occupied(n) && st0.board@[n as int]
                        != stone && st0.group_ds.root_of(n) == rt && st0.qi_at(rt) != 1;
                assert(!allies@.contains(rt)) by {
                    if allies@.contains(rt) {
                        let n2 = choose|n2: usize|
                            #[trigger] adj(st0.size, cur_idx, n2) && st0.occupied(n2)
                                && st0.board@[n2 as int] == stone && st0.group_ds.root_of(n2)
                                == rt;
                        assert(st0.ledger_ok(rt));
                        st0.group_ds.lemma_root_props(n);
                        st0.group_ds.lemma_root_props(n2);
                        assert(st0.members_at(rt).to_set().contains(n));
                        assert(st0.members_at(rt).to_set().contains(n2));
                        assert(st0.board@[n as int] == st0.board@[rt as int]);
                        assert(st0.board@[n2 as int] == st0.board@[rt as int]);
                    }
                }
                assert(rt != cur_idx) by {
                    if rt == cur_idx {
                        assert(st0.group_ds.has(cur_idx)) by {
                            assert(st0.group_ds.cell_ok(cur_idx as int));
                        }
                        assert(st0.occupied(cur_idx));
                    }
                }
                if allies@.len() == 0 {
                    assert(rt != new_root);
                    assert(stb.group_info_array.0@[rt as int] == st0.group_info_array.0@[
                        rt as int]);
                    assert(stb.group_ds.group(rt) =~= st0.group_ds.group(rt)) by {
                        assert(st0.group_ds.has(rt)) by {
                            assert(st0.group_ds.cell_ok(rt as int));
                        }
                    }
                    assert(stb.group_ds.is_root_at(rt));
                } else {
                    assert(rt != new_root) by {
                        if rt == new_root {
                            assert(stb.group_ds.is_root_at(new_root));
                            stb.group_ds.lemma_root_props(cur_idx);
                            assert(stb.group_ds.group(cur_idx).contains(new_root)) by {
                                assert(stb.group_ds.root_of(new_root) == new_root) by {
                                    assert(stb.group_ds.cell_ok(new_root as int));
                                }
                                assert(stb.group_ds.has(new_root)) by {
                                    assert(stb.group_ds.cell_ok(new_root as int));
                                }
                            }
                            let kk2 = choose|kk2: int|
                                0 <= kk2 < allies@.len() && st0.group_ds.group(
                                    #[trigger] allies@[kk2],
                                ).contains(rt);
                            assert(allies@.contains(allies@[kk2]));
                            assert(st0.group_ds.is_root_at(allies@[kk2]));
                            assert(st0.group_ds.root_of(rt) == allies@[kk2]) by {
                                assert(st0.group_ds.cell_ok(allies@[kk2] as int));
                            }
                            assert(st0.group_ds.root_of(rt) == rt) by {
                                assert(st0.group_ds.cell_ok(rt as int));
                            }
                            assert(allies@.contains(rt));
                        }
                    }
                    assert(stb.group_info_array.0@[rt as int] == st0.group_info_array.0@[
                        rt as int]);
                    assert(st0.group_ds.has(rt)) by {
                        assert(st0.group_ds.cell_ok(rt as int));
                    }
                    assert(!(exists|kk2: int|
                        0 <= kk2 < allies@.len() && st0.group_ds.group(
                            #[trigger] allies@[kk2],
                        ).contains(rt))) by {
                        if exists|kk2: int|
                            0 <= kk2 < allies@.len() && st0.group_ds.group(
                                #[trigger] allies@[kk2],
                            ).contains(rt) {
                            let kk2 = choose|kk2: int|
                                0 <= kk2 < allies@.len() && st0.group_ds.group(
                                    #[trigger] allies@[kk2],
                                ).contains(rt);
                            assert(allies@.contains(allies@[kk2]));
                            assert(st0.group_ds.root_of(rt) == allies@[kk2]) by {
                                assert(st0.group_ds.cell_ok(allies@[kk2] as int));
                            }
                            assert(st0.group_ds.root_of(rt) == rt) by {
                                assert(st0.group_ds.cell_ok(rt as int));
                            }
                            assert(allies@.contains(rt));
                        }
                    }
                    assert(stb.group_ds.group(rt) =~= st0.group_ds.group(rt));
                    assert(stb.group_ds.is_root_at(rt)) by {
                        assert(stb.group_info_array.0@[rt as int] is Some);
                    }
                }
                assert(st0.qi_at(rt) >= 1) by {
                    assert(st0.group_ds.is_root_at(rt));
                }
                assert(stb.qi_at(rt) == st0.qi_at(rt));
            }
        }
        let on = opponents.len();
        let mut k: usize = 0;
        while k < on
            invariant
                k <= on,
                on == opponents@.len(),
                self.size == stb.size,
                self.board == stb.board,
                self.history_states == stb.history_states,
                self.group_ds == stb.group_ds,
                self.group_info_array.0@.len() == stb.group_info_array.0@.len(),
                stb.group_info_array.0@.len() == st0.n2(),
                st0.n2() < usize::MAX,
                opponents@.no_duplicates(),
                forall|kk: int|
                    0 <= kk < opponents@.len() ==> (#[trigger] opponents@[kk]) < st0.n2()
                        && stb.group_info_array.0@[opponents@[kk] as int] is Some && stb.qi_at(
                        opponents@[kk],
                    ) >= 2,
                forall|s2: usize|
                    s2 < st0.n2() && !opponents@.subrange(0, k as int).contains(s2)
                        ==> self.group_info_array.0@[s2 as int] == stb.group_info_array.0@[
                        s2 as int],
                forall|s2: usize|
                    #[trigger] opponents@.subrange(0, k as int).contains(s2)
                        ==> self.group_info_array.0@[s2 as int] is Some && self.members_at(s2)
                        == stb.members_at(s2) && self.qi_at(s2) == stb.qi_at(s2) - 1,
            decreases on - k,
        {
            proof {
                assert(opponents@.contains(opponents@[k as int]));
                assert(!opponents@.subrange(0, k as int).contains(opponents@[k as int])) by {
                    if opponents@.subrange(0, k as int).contains(opponents@[k as int]) {
                        let kk = choose|kk: int|
                            0 <= kk < k && #[trigger] opponents@.subrange(0, k as int)[kk]
                                == opponents@[k as int];
                    }
                }
            }
            let rt = opponents[k];
            let ghost preb = *self;
            let prev_gi = self.group_info_array.swap_entry(rt, None);
            let gi = match prev_gi {
                Some(g) => g,
                None => unreached(),
            };
            let gi2 = GroupInfo::new(gi.qi - 1, gi.members);
            self.group_info_array.set_entry(rt, Some(gi2));
            proof {
                assert(gi == stb.group_info_array.0@[rt as int]->Some_0);
                assert forall|s2: usize|
                    s2 < st0.n2() && !opponents@.subrange(0, k + 1 as int).contains(s2)
                        implies self.group_info_array.0@[s2 as int] == stb.group_info_array.0@[
                    s2 as int] by {
                    assert(!opponents@.subrange(0, k as int).contains(s2)) by {
                        if opponents@.subrange(0, k as int).contains(s2) {
                            let kk = choose|kk: int|
                                0 <= kk < k && #[trigger] opponents@.subrange(0, k as int)[kk]
                                    == s2;
                            assert(opponents@.subrange(0, k + 1 as int)[kk] == s2);
                        }
                    }
                    assert(s2 != rt) by {
                        if s2 == rt {
                            assert(opponents@.subrange(0, k + 1 as int)[k as int] == rt);
                        }
                    }
                    assert(self.group_info_array.0@[s2 as int] == preb.group_info_array.0@[
                        s2 as int]);
                }
                assert forall|s2: usize|
                    #[trigger] opponents@.subrange(0, k + 1 as int).contains(s2)
                        implies self.group_info_array.0@[s2 as int] is Some && self.members_at(s2)
                    == stb.members_at(s2) && self.qi_at(s2) == stb.qi_at(s2) - 1 by {
                    if s2 != rt {
                        let kk = choose|kk: int|
                            0 <= kk < k + 1 && #[trigger] opponents@.subrange(0, k + 1 as int)[kk]
                                == s2;
                        assert(kk < k) by {
                            if kk == k {
                                assert(opponents@.subrange(0, k + 1 as int)[k as int] == rt);
                            }
                        }
                        assert(opponents@.subrange(0, k as int)[kk] == s2);
                        assert(opponents@.subrange(0, k as int).contains(s2));
                        assert(self.group_info_array.0@[s2 as int] == preb.group_info_array.0@[
                            s2 as int]);
                    }
                }
            }
            k = k + 1;
        }
        let ghost sta = *self;
        proof {
            assert(opponents@.subrange(0, on as int) == opponents@);
            // --- The intermediate state satisfies what the capture step
            // needs: every surviving ledger entry is exact for the board
            // with the new stone placed.
            assert(sta.board@ == b1);
            assert(b1 == st0.board@.update(cur_idx as int, stone));
            assert forall|i: int| 0 <= i < sta.board@.len() implies (
            #[trigger] sta.board@[i]).valid() by {
                if i != cur_idx {
                    assert(sta.board@[i] == st0.board@[i]);
                }
            }
            assert forall|i: usize| #[trigger] sta.group_ds.has(i) <==> sta.occupied(i) by {
                if i == cur_idx {
                    assert(sta.group_ds.has(cur_idx));
                } else {
                    if i < sta.board@.len() {
                        assert(sta.board@[i as int] == st0.board@[i as int]);
                    }
                    assert(sta.group_ds.has(i) <==> st0.group_ds.has(i));
                }
            }
            assert forall|s2: usize|
                s2 < st0.n2() implies ((#[trigger] sta.group_info_array.0@[s2 as int]) is Some
                <==> sta.group_ds.is_root_at(s2)) by {
                if opponents@.contains(s2) {
                    let kk = choose|kk: int| 0 <= kk < opponents@.len() && opponents@[kk] == s2;
                    assert(opponents@.subrange(0, on as int)[kk] == s2);
                    assert(opponents@.subrange(0, on as int).contains(s2));
                    assert(sta.group_info_array.0@[s2 as int] is Some);
                    assert(stb.group_ds.is_root_at(s2));
                } else {
                    assert(!opponents@.subrange(0, on as int).contains(s2)) by {
                        if opponents@.subrange(0, on as int).contains(s2) {
                            let kk = choose|kk: int|
                                0 <= kk < on && #[trigger] opponents@.subrange(0, on as int)[kk]
                                    == s2;
                            assert(opponents@.contains(s2));
                        }
                    }
                    assert(sta.group_info_array.0@[s2 as int] == stb.group_info_array.0@[
                        s2 as int]);
                }
            }
            // Ledger member lists and colors are intact.
            assert forall|r2: usize|
                #[trigger] sta.group_ds.is_root_at(r2) implies sta.ledger_groups_ok(r2)
                && sta.members_at(r2).to_set() == sta.group_ds.group(r2) && (forall|e: usize|
                #[trigger] sta.members_at(r2).to_set().contains(e) ==> e < b1.len() && b1[e as int]
                    == b1[r2 as int]) by {
                if opponents@.contains(r2) {
                    assert(sta.members_at(r2) == stb.members_at(r2)) by {
                        let kk = choose|kk: int|
                            0 <= kk < opponents@.len() && opponents@[kk] == r2;
                        assert(opponents@.subrange(0, on as int)[kk] == r2);
                        assert(opponents@.subrange(0, on as int).contains(r2));
                    }
                } else {
                    assert(!opponents@.subrange(0, on as int).contains(r2)) by {
                        if opponents@.subrange(0, on as int).contains(r2) {
                            let kk = choose|kk: int|
                                0 <= kk < on && #[trigger] opponents@.subrange(0, on as int)[kk]
                                    == r2;
                            assert(opponents@.contains(r2));
                        }
                    }
                    assert(sta.group_info_array.0@[r2 as int] == stb.group_info_array.0@[
                        r2 as int]);
                }
                assert(sta.group_ds == stb.group_ds);
                assert(stb.group_ds.is_root_at(r2));
                assert(stb.group_info_array.0@[r2 as int] is Some);
                if allies@.len() == 0 {
                    if r2 == cur_idx {
                        assert(stb.ledger_groups_ok(r2));
                        assert forall|e: usize|
                            stb.members_at(r2).to_set().contains(e) implies e < b1.len() && b1[
                            e as int] == b1[r2 as int] by {
                            assert(e == cur_idx);
                        }
                    } else {
                        assert(stb.group_info_array.0@[r2 as int] == st0.group_info_array.0@[
                            r2 as int]);
                        assert(st0.group_ds.is_root_at(r2));
                        assert(st0.ledger_ok(r2));
                        assert(stb.group_ds.group(r2) =~= st0.group_ds.group(r2)) by {
                            assert(st0.group_ds.has(r2)) by {
                                assert(st0.group_ds.cell_ok(r2 as int));
                            }
                        }
                        assert forall|e: usize|
                            stb.members_at(r2).to_set().contains(e) implies e < b1.len() && b1[
                            e as int] == b1[r2 as int] by {
                            assert(st0.group_ds.group(r2).contains(e));
                            assert(e != cur_idx && r2 != cur_idx) by {
                                if e == cur_idx {
                                    assert(st0.group_ds.has(cur_idx));
                                    assert(st0.occupied(cur_idx));
                                }
                                if r2 == cur_idx {
                                    assert(st0.group_ds.has(cur_idx)) by {
                                        assert(st0.group_ds.cell_ok(cur_idx as int));
                                    }
                                    assert(st0.occupied(cur_idx));
                                }
                            }
                            assert(b1[e as int] == st0.board@[e as int]);
                            assert(b1[r2 as int] == st0.board@[r2 as int]);
                        }
                    }
                } else {
                    if r2 == new_root {
                        assert(stb.ledger_groups_ok(r2)) by {
                            assert(stb.group_ds.group(new_root) == stb.group_ds.group(cur_idx));
                        }
                        assert(b1[new_root as int] == stone) by {
                            stb.group_ds.lemma_root_props(cur_idx);
                            assert(stb.group_ds.group(cur_idx).contains(new_root)) by {
                                assert(stb.group_ds.root_of(new_root) == new_root) by {
                                    assert(stb.group_ds.cell_ok(new_root as int));
                                }
                                assert(stb.group_ds.has(new_root)) by {
                                    assert(stb.group_ds.cell_ok(new_root as int));
                                }
                            }
                            assert(stb.members_at(new_root).to_set().contains(new_root));
                        }
                        assert forall|e: usize|
                            stb.members_at(r2).to_set().contains(e) implies e < b1.len() && b1[
                            e as int] == b1[r2 as int] by {
                            assert(e < st0.n2() && b1[e as int] == stone);
                        }
                    } else {
                        assert(!allies@.contains(r2)) by {
                            if allies@.contains(r2) {
                                assert(stb.group_info_array.0@[r2 as int] is None);
                            }
                        }
                        assert(stb.group_info_array.0@[r2 as int] == st0.group_info_array.0@[
                            r2 as int]);
                        assert(st0.group_ds.is_root_at(r2));
                        assert(st0.ledger_ok(r2));
                        assert(st0.group_ds.has(r2) && st0.group_ds.root_of(r2) == r2) by {
                            assert(st0.group_ds.cell_ok(r2 as int));
                        }
                        assert(!(exists|kk2: int|
                            0 <= kk2 < allies@.len() && st0.group_ds.group(
                                #[trigger] allies@[kk2],
                            ).contains(r2))) by {
                            if exists|kk2: int|
                                0 <= kk2 < allies@.len() && st0.group_ds.group(
                                    #[trigger] allies@[kk2],
                                ).contains(r2) {
                                let kk2 = choose|kk2: int|
                                    0 <= kk2 < allies@.len() && st0.group_ds.group(
                                        #[trigger] allies@[kk2],
                                    ).contains(r2);
                                assert(allies@.contains(allies@[kk2]));
                                assert(st0.group_ds.root_of(r2) == allies@[kk2]) by {
                                    assert(st0.group_ds.cell_ok(allies@[kk2] as int));
                                }
                                assert(allies@.contains(r2));
                                assert(stb.group_info_array.0@[r2 as int] is None);
                            }
                        }
                        assert(stb.group_ds.group(r2) =~= st0.group_ds.group(r2));
                        assert forall|e: usize|
                            stb.members_at(r2).to_set().contains(e) implies e < b1.len() && b1[
                            e as int] == b1[r2 as int] by {
                            assert(st0.group_ds.group(r2).contains(e));
                            assert(e != cur_idx && r2 != cur_idx) by {
                                if e == cur_idx {
                                    assert(st0.group_ds.has(cur_idx));
                                    assert(st0.occupied(cur_idx));
                                }
                            }
                            assert(b1[e as int] == st0.board@[e as int]);
                            assert(b1[r2 as int] == st0.board@[r2 as int]);
                        }
                    }
                }
            }
            // Captured roots are still roots here.
            assert forall|kk: int|
                0 <= kk < eaten@.len() implies sta.group_ds.is_root_at(
                #[trigger] eaten@[kk],
            ) by {
                let rt = eaten@[kk];
                assert(eaten@.contains(rt));
                assert(st0.eaten_root(cur_idx, stone, rt));
                assert(st0.group_ds.is_root_at(rt));
                assert(!allies@.contains(rt)) by {
                    if allies@.contains(rt) {
                        let n = choose|n: usize|
                            #[trigger] adj(st0.size, cur_idx, n) && st0.occupied(n) && st0.board@[
                            n as int] != stone && st0.group_ds.root_of(n) == rt && st0.qi_at(rt)
                                == 1;
                        let n2 = choose|n2: usize|
                            #[trigger] adj(st0.size, cur_idx, n2) && st0.occupied(n2)
                                && st0.board@[n2 as int] == stone && st0.group_ds.root_of(n2)
                                == rt;
                        assert(st0.ledger_ok(rt));
                        st0.group_ds.lemma_root_props(n);
                        st0.group_ds.lemma_root_props(n2);
                        assert(st0.members_at(rt).to_set().contains(n));
                        assert(st0.members_at(rt).to_set().contains(n2));
                        assert(st0.board@[n as int] == st0.board@[rt as int]);
                        assert(st0.board@[n2 as int] == st0.board@[rt as int]);
                    }
                }
                if allies@.len() == 0 {
                    assert(sta.group_ds.is_root_at(rt));
                } else {
                    assert(rt != cur_idx) by {
                        if rt == cur_idx {
                            assert(st0.group_ds.has(cur_idx)) by {
                                assert(st0.group_ds.cell_ok(cur_idx as int));
                            }
                            assert(st0.occupied(cur_idx));
                        }
                    }
                    assert(sta.group_info_array.0@[rt as int] == stb.group_info_array.0@[
                        rt as int]) by {
                        assert(!opponents@.contains(rt)) by {
                            if opponents@.contains(rt) {
                                assert(st0.qi_at(rt) != 1);
                            }
                        }
                        assert(!opponents@.subrange(0, on as int).contains(rt)) by {
                            if opponents@.subrange(0, on as int).contains(rt) {
                                let kk3 = choose|kk3: int|
                                    0 <= kk3 < on && #[trigger] opponents@.subrange(
                                        0,
                                        on as int,
                                    )[kk3] == rt;
                                assert(opponents@.contains(rt));
                            }
                        }
                    }
                    assert(rt != new_root) by {
                        if rt == new_root {
                            assert(stb.group_info_array.0@[rt as int] is Some);
                            assert(stb.ledger_groups_ok(new_root));
                            assert(b1[rt as int] == stone) by {
                                stb.group_ds.lemma_root_props(cur_idx);
                                assert(stb.group_ds.group(cur_idx).contains(new_root)) by {
                                    assert(stb.group_ds.root_of(new_root) == new_root) by {
                                        assert(stb.group_ds.cell_ok(new_root as int));
                                    }
                                    assert(stb.group_ds.has(new_root)) by {
                                        assert(stb.group_ds.cell_ok(new_root as int));
                                    }
                                }
                                assert(stb.members_at(new_root).to_set().contains(new_root));
                            }
                            let n = choose|n: usize|
                                #[trigger] adj(st0.size, cur_idx, n) && st0.occupied(n)
                                    && st0.board@[n as int] != stone && st0.group_ds.root_of(n)
                                    == rt && st0.qi_at(rt) == 1;
                            assert(st0.ledger_ok(rt));
                            st0.group_ds.lemma_root_props(n);
                            assert(st0.members_at(rt).to_set().contains(n));
                            assert(st0.board@[n as int] == st0.board@[rt as int]);
                            assert(b1[rt as int] == st0.board@[rt as int]);
                        }
                    }
                    assert(stb.group_info_array.0@[rt as int] == st0.group_info_array.0@[
                        rt as int]);
                    assert(sta.group_info_array.0@[rt as int] is Some);
                    assert(sta.group_ds.is_root_at(rt));
                }
            }
            // Exact liberty counts for every surviving root.
            assert forall|r2: usize|
                #[trigger] sta.group_ds.is_root_at(r2) && !eaten@.contains(r2) implies sta.qi_at(
                r2,
            ) == libs(sta.board@, sta.size, sta.group_ds.group(r2)).len() by {
                if allies@.len() > 0 && r2 == new_root {
                    assert(sta.qi_at(new_root) == stb.qi_at(new_root)) by {
                        assert(!opponents@.contains(new_root)) by {
                            if opponents@.contains(new_root) {
                                let kk = choose|kk: int|
                                    0 <= kk < opponents@.len() && opponents@[kk] == new_root;
                                assert(opponents@[kk] != new_root);
                            }
                        }
                        assert(!opponents@.subrange(0, on as int).contains(new_root)) by {
                            if opponents@.subrange(0, on as int).contains(new_root) {
                                let kk3 = choose|kk3: int|
                                    0 <= kk3 < on && #[trigger] opponents@.subrange(
                                        0,
                                        on as int,
                                    )[kk3] == new_root;
                                assert(opponents@.contains(new_root));
                            }
                        }
                    }
                    assert(stb.qi_at(new_root) == libs(b1, stb.size, stb.group_ds.group(
                        cur_idx,
                    )).len());
                    assert(sta.group_ds.group(r2) == stb.group_ds.group(cur_idx));
                } else if allies@.len() == 0 && r2 == cur_idx {
                    assert(sta.qi_at(cur_idx) == stb.qi_at(cur_idx)) by {
                        assert(!opponents@.contains(cur_idx)) by {
                            if opponents@.contains(cur_idx) {
                                assert(st0.group_ds.is_root_at(cur_idx));
                                assert(st0.group_ds.has(cur_idx)) by {
                                    assert(st0.group_ds.cell_ok(cur_idx as int));
                                }
                                assert(st0.occupied(cur_idx));
                            }
                        }
                        assert(!opponents@.subrange(0, on as int).contains(cur_idx)) by {
                            if opponents@.subrange(0, on as int).contains(cur_idx) {
                                let kk3 = choose|kk3: int|
                                    0 <= kk3 < on && #[trigger] opponents@.subrange(
                                        0,
                                        on as int,
                                    )[kk3] == cur_idx;
                                assert(opponents@.contains(cur_idx));
                            }
                        }
                    }
                } else {
                    // An old enemy or distant group.
                    assert(st0.group_ds.is_root_at(r2)) by {
                        if allies@.len() == 0 {
                        } else {
                            assert(r2 != new_root);
                            assert(!allies@.contains(r2)) by {
                                if allies@.contains(r2) {
                                    assert(stb.group_info_array.0@[r2 as int] is None);
                                    assert(!opponents@.subrange(0, on as int).contains(r2)
                                        ==> sta.group_info_array.0@[r2 as int] is None);
                                    if opponents@.subrange(0, on as int).contains(r2) {
                                        let kk3 = choose|kk3: int|
                                            0 <= kk3 < on && #[trigger] opponents@.subrange(
                                                0,
                                                on as int,
                                            )[kk3] == r2;
                                        assert(opponents@.contains(r2));
                                        assert(stb.group_info_array.0@[r2 as int] is Some);
                                    }
                                    assert(sta.group_info_array.0@[r2 as int] is Some);
                                }
                            }
                        }
                    }
                    assert(st0.ledger_ok(r2));
                    assert(st0.group_ds.has(r2) && st0.group_ds.root_of(r2) == r2) by {
                        assert(st0.group_ds.cell_ok(r2 as int));
                    }
                    assert(st0.qi_at(r2) == libs(st0.board@, st0.size, st0.group_ds.group(
                        r2,
                    )).len());
                    assert(sta.group_ds.group(r2) =~= st0.group_ds.group(r2)) by {
                        if allies@.len() == 0 {
                        } else {
                            assert(!(exists|kk2: int|
                                0 <= kk2 < allies@.len() && st0.group_ds.group(
                                    #[trigger] allies@[kk2],
                                ).contains(r2))) by {
                                if exists|kk2: int|
                                    0 <= kk2 < allies@.len() && st0.group_ds.group(
                                        #[trigger] allies@[kk2],
                                    ).contains(r2) {
                                    let kk2 = choose|kk2: int|
                                        0 <= kk2 < allies@.len() && st0.group_ds.group(
                                            #[trigger] allies@[kk2],
                                        ).contains(r2);
                                    assert(allies@.contains(allies@[kk2]));
                                    assert(st0.group_ds.root_of(r2) == allies@[kk2]) by {
                                        assert(st0.group_ds.cell_ok(allies@[kk2] as int));
                                    }
                                    assert(allies@.contains(r2));
                                    assert(stb.group_info_array.0@[r2 as int] is None);
                                    if opponents@.subrange(0, on as int).contains(r2) {
                                        let kk3 = choose|kk3: int|
                                            0 <= kk3 < on && #[trigger] opponents@.subrange(
                                                0,
                                                on as int,
                                            )[kk3] == r2;
                                        assert(opponents@.contains(r2));
                                        assert(stb.group_info_array.0@[r2 as int] is Some);
                                    }
                                    assert(sta.group_info_array.0@[r2 as int] is None);
                                    assert(!sta.group_ds.is_root_at(r2));
                                }
                            }
                        }
                    }
                    lemma_libs_after_place(
                        st0.board@,
                        b1,
                        st0.size,
                        st0.group_ds.group(r2),
                        cur_idx,
                        stone,
                    );
                    if opponents@.contains(r2) {
                        assert(sta.qi_at(r2) == stb.qi_at(r2) - 1) by {
                            let kk = choose|kk: int|
                                0 <= kk < opponents@.len() && opponents@[kk] == r2;
                            assert(opponents@.subrange(0, on as int)[kk] == r2);
                            assert(opponents@.subrange(0, on as int).contains(r2));
                        }
                        assert(stb.qi_at(r2) == st0.qi_at(r2));
                        assert(touches(st0.size, st0.group_ds.group(r2), cur_idx)) by {
                            let n = choose|n: usize|
                                #[trigger] adj(st0.size, cur_idx, n) && st0.occupied(n)
                                    && st0.board@[n as int] != stone && st0.group_ds.root_of(n)
                                    == r2 && st0.qi_at(r2) != 1;
                            assert(st0.group_ds.group(r2).contains(n)) by {
                                st0.group_ds.lemma_root_props(n);
                            }
                            assert(adj(st0.size, n, cur_idx));
                        }
                    } else {
                        assert(sta.qi_at(r2) == st0.qi_at(r2)) by {
                            assert(!opponents@.subrange(0, on as int).contains(r2)) by {
                                if opponents@.subrange(0, on as int).contains(r2) {
                                    let kk3 = choose|kk3: int|
                                        0 <= kk3 < on && #[trigger] opponents@.subrange(
                                            0,
                                            on as int,
                                        )[kk3] == r2;
                                    assert(opponents@.contains(r2));
                                }
                            }
                            assert(sta.group_info_array.0@[r2 as int] == stb.group_info_array.0@[
                                r2 as int]);
                            if allies@.len() == 0 {
                            } else {
                                assert(!allies@.contains(r2));
                            }
                        }
                        assert(!touches(st0.size, st0.group_ds.group(r2), cur_idx)) by {
                            if touches(st0.size, st0.group_ds.group(r2), cur_idx) {
                                let mm = choose|mm: usize|
                                    #[trigger] st0.group_ds.group(r2).contains(mm) && adj(
                                        st0.size,
                                        mm,
                                        cur_idx,
                                    );
                                assert(st0.group_ds.has(mm));
                                assert(st0.occupied(mm));
                                assert(adj(st0.size, cur_idx, mm));
                                assert(st0.group_ds.root_of(mm) == r2) by {
                                    assert(st0.group_ds.cell_ok(r2 as int));
                                }
                                if st0.board@[mm as int] == stone {
                                    assert(allies@.contains(r2));
                                    if allies@.len() == 0 {
                                    } else {
                                        assert(!allies@.contains(r2));
                                    }
                                } else {
                                    if st0.qi_at(r2) == 1 {
                                        assert(st0.eaten_root(cur_idx, stone, r2));
                                        assert(eaten@.contains(r2));
                                    } else {
                                        assert(opponents@.contains(r2));
                                    }
                                }
                            }
                        }
                    }
                }
            }
        }
        let freed = self.apply_captures(&eaten);
        let ghost stf = *self;
        proof {
            let gse = st0.eaten_cells(cur_idx, stone);
            // The freed cells are exactly the captured groups' cells.
            assert(freed@.to_set() =~= gse) by {
                assert forall|c: usize| freed@.to_set().contains(c) implies gse.contains(c) by {
                    assert(sta.group_ds.has(c) && eaten@.contains(sta.group_ds.root_of(c)));
                    assert(st0.eaten_root(cur_idx, stone, sta.group_ds.root_of(c)));
                    assert(c != cur_idx) by {
                        if c == cur_idx {
                            if allies@.len() == 0 {
                                assert(sta.group_ds.root_of(cur_idx) == cur_idx);
                                assert(sta.group_ds.is_root_at(cur_idx));
                                assert(eaten@.contains(cur_idx));
                                assert(st0.eaten_root(cur_idx, stone, cur_idx));
                                assert(st0.group_ds.is_root_at(cur_idx));
                                assert(st0.group_ds.has(cur_idx)) by {
                                    assert(st0.group_ds.cell_ok(cur_idx as int));
                                }
                                assert(st0.occupied(cur_idx));
                            } else {
                                assert(sta.group_ds.root_of(cur_idx) == new_root);
                                assert(eaten@.contains(new_root));
                                assert(sta.group_ds.is_root_at(new_root));
                            }
                        }
                    }
                    assert(st0.group_ds.has(c));
                    assert(st0.group_ds.root_of(c) == sta.group_ds.root_of(c)) by {
                        if allies@.len() == 0 {
                        } else {
                            assert(!(exists|kk2: int|
                                0 <= kk2 < allies@.len() && st0.group_ds.group(
                                    #[trigger] allies@[kk2],
                                ).contains(c))) by {
                                if exists|kk2: int|
                                    0 <= kk2 < allies@.len() && st0.group_ds.group(
                                        #[trigger] allies@[kk2],
                                    ).contains(c) {
                                    assert(sta.group_ds.group(cur_idx).contains(c));
                                    assert(sta.group_ds.root_of(c) == sta.group_ds.root_of(
                                        cur_idx,
                                    ));
                                    assert(sta.group_ds.root_of(cur_idx) == new_root);
                                    assert(eaten@.contains(new_root));
                                    assert(sta.group_ds.is_root_at(new_root));
                                }
                            }
                        }
                    }
                }
                assert forall|c: usize| gse.contains(c) implies freed@.to_set().contains(c) by {
                    assert(st0.group_ds.has(c));
                    assert(st0.eaten_root(cur_idx, stone, st0.group_ds.root_of(c)));
                    assert(eaten@.contains(st0.group_ds.root_of(c)));
                    assert(sta.group_ds.has(c)) by {
                        assert(st0.occupied(c));
                        assert(sta.occupied(c)) by {
                            assert(c != cur_idx);
                            assert(sta.board@[c as int] == st0.board@[c as int]);
                        }
                    }
                    assert(sta.group_ds.root_of(c) == st0.group_ds.root_of(c)) by {
                        if allies@.len() == 0 {
                        } else {
                            assert(!(exists|kk2: int|
                                0 <= kk2 < allies@.len() && st0.group_ds.group(
                                    #[trigger] allies@[kk2],
                                ).contains(c))) by {
                                if exists|kk2: int|
                                    0 <= kk2 < allies@.len() && st0.group_ds.group(
                                        #[trigger] allies@[kk2],
                                    ).contains(c) {
                                    let kk2 = choose|kk2: int|
                                        0 <= kk2 < allies@.len() && st0.group_ds.group(
                                            #[trigger] allies@[kk2],
                                        ).contains(c);
                                    assert(allies@.contains(allies@[kk2]));
                                    assert(st0.group_ds.root_of(c) == allies@[kk2]) by {
                                        assert(st0.group_ds.cell_ok(allies@[kk2] as int));
                                    }
                                    assert(eaten@.contains(allies@[kk2]));
                                    assert(st0.eaten_root(cur_idx, stone, allies@[kk2]));
                                    let n = choose|n: usize|
                                        #[trigger] adj(st0.size, cur_idx, n) && st0.occupied(n)
                                            && st0.board@[n as int] != stone
                                            && st0.group_ds.root_of(n) == allies@[kk2]
                                            && st0.qi_at(allies@[kk2]) == 1;
                                    let n2 = choose|n2: usize|
                                        #[trigger] adj(st0.size, cur_idx, n2) && st0.occupied(n2)
                                            && st0.board@[n2 as int] == stone
                                            && st0.group_ds.root_of(n2) == allies@[kk2];
                                    assert(st0.ledger_ok(allies@[kk2]));
                                    st0.group_ds.lemma_root_props(n);
                                    st0.group_ds.lemma_root_props(n2);
                                    assert(st0.members_at(allies@[kk2]).to_set().contains(n));
                                    assert(st0.members_at(allies@[kk2]).to_set().contains(n2));
                                    assert(st0.board@[n as int] == st0.board@[allies@[kk2] as int]);
                                    assert(st0.board@[n2 as int] == st0.board@[allies@[
                                        kk2] as int]);
                                }
                            }
                        }
                    }
                }
            }
            // The final board is the hypothetical board computed before
            // the history check.
            assert(stf.board@ =~= st0.board_after(cur_idx, stone)) by {
                assert forall|j: int|
                    0 <= j < stf.board@.len() implies stf.board@[j] == st0.board_after(
                    cur_idx,
                    stone,
                )[j] by {
                    if j == cur_idx {
                        assert(!freed@.to_set().contains(cur_idx)) by {
                            if freed@.to_set().contains(cur_idx) {
                                assert(st0.eaten_cells(cur_idx, stone).contains(cur_idx));
                                assert(st0.group_ds.has(cur_idx));
                                assert(st0.occupied(cur_idx));
                            }
                        }
                        assert(stf.board@[j] == b1[j]);
                    } else {
                        if freed@.to_set().contains(j as usize) {
                            assert(st0.eaten_cells(cur_idx, stone).contains(j as usize));
                        } else {
                            assert(stf.board@[j] == b1[j]);
                            assert(b1[j] == st0.board@[j]);
                            assert(!st0.eaten_cells(cur_idx, stone).contains(j as usize));
                        }
                    }
                }
            }
            assert(stf.board@ == new_board@);
            // Same-colored neighbors still share a group: the placed
            // stone was joined with every adjacent friendly group, old
            // chains were only merged or removed whole.
            assert forall|c: usize|
                sta.group_ds.group(cur_idx).contains(c) <==> (c == cur_idx || exists|kk: int|
                    0 <= kk < allies@.len() && st0.group_ds.group(#[trigger] allies@[kk]).contains(
                        c,
                    )) by {
                if allies@.len() == 0 {
                    assert(sta.group_ds.group(cur_idx) =~= set![cur_idx]);
                    if exists|kk: int|
                        0 <= kk < allies@.len() && st0.group_ds.group(
                            #[trigger] allies@[kk],
                        ).contains(c) {
                        let kk = choose|kk: int|
                            0 <= kk < allies@.len() && st0.group_ds.group(
                                #[trigger] allies@[kk],
                            ).contains(c);
                    }
                }
            }
            assert forall|j2: usize|
                st0.group_ds.has(j2) && !(exists|kk: int|
                    0 <= kk < allies@.len() && st0.group_ds.group(#[trigger] allies@[kk]).contains(
                        j2,
                    )) implies sta.group_ds.has(j2) && sta.group_ds.root_of(j2)
                == st0.group_ds.root_of(j2) by {}
            lemma_place_maximal(st0, sta, stf, b1, allies@, freed@, cur_idx, stone);
            // Every surviving group keeps at least one liberty.            // Every surviving group keeps at least one liberty.
            assert forall|r2: usize| #[trigger] stf.group_ds.is_root_at(r2) implies stf.qi_at(r2)
                >= 1 by {
                let gg = sta.group_ds.group(r2);
                assert(stf.qi_at(r2) == libs(stf.board@, stf.size, gg).len());
                lemma_libs_finite(stf.board@, stf.size, gg);
                vstd::set_lib::lemma_set_empty_equivalency_len(libs(stf.board@, stf.size, gg));
                let is_new = if allies@.len() == 0 {
                    r2 == cur_idx
                } else {
                    r2 == new_root
                };
                if is_new {
                    assert(gg == sta.group_ds.group(cur_idx)) by {
                        if allies@.len() == 0 {
                        } else {
                            assert(sta.group_ds.group(new_root) == sta.group_ds.group(cur_idx));
                        }
                    }
                    assert(gg.contains(cur_idx)) by {
                        assert(sta.group_ds.has(cur_idx));
                    }
                    if eaten@.len() > 0 {
                        let rt0 = eaten@[0];
                        assert(eaten@.contains(rt0));
                        assert(st0.eaten_root(cur_idx, stone, rt0));
                        let n = choose|n: usize|
                            #[trigger] adj(st0.size, cur_idx, n) && st0.occupied(n) && st0.board@[
                            n as int] != stone && st0.group_ds.root_of(n) == rt0 && st0.qi_at(rt0)
                                == 1;
                        assert(freed@.to_set().contains(n)) by {
                            assert(st0.eaten_cells(cur_idx, stone).contains(n));
                        }
                        assert(stf.board@[n as int] == Stone(0u8));
                        assert(libs(stf.board@, stf.size, gg).contains(n)) by {
                            assert(gg.contains(cur_idx) && adj(stf.size, cur_idx, n));
                        }
                        assert(libs(stf.board@, stf.size, gg).len() >= 1) by {
                            if libs(stf.board@, stf.size, gg).len() == 0 {
                                assert(libs(stf.board@, stf.size, gg) =~= Set::<usize>::empty());
                            }
                        }
                    } else {
                        assert(!st0.any_capture(cur_idx, stone));
                        if cur_qi > 0 {
                            assert(!(libs(st0.board@, st0.size, set![cur_idx]) =~= Set::<
                                usize,
                            >::empty())) by {
                                vstd::set_lib::lemma_set_empty_equivalency_len(
                                    libs(st0.board@, st0.size, set![cur_idx]),
                                );
                            }
                            let j = choose|j: usize|
                                libs(st0.board@, st0.size, set![cur_idx]).contains(j) != Set::<
                                    usize,
                                >::empty().contains(j);
                            assert(libs(st0.board@, st0.size, set![cur_idx]).contains(j));
                            assert(j != cur_idx) by {
                                let m = choose|m: usize|
                                    #[trigger] set![cur_idx].contains(m) && adj(st0.size, m, j);
                                assert(adj(st0.size, cur_idx, j));
                                assert(cur_idx as int % st0.size as int != cur_idx as int
                                    % st0.size as int + 1);
                            }
                            assert(stf.board@[j as int] == Stone(0u8) || stf.board@[j as int]
                                == b1[j as int]);
                            assert(b1[j as int] == st0.board@[j as int]);
                            assert(stf.board@[j as int].is_void());
                            assert(libs(stf.board@, stf.size, gg).contains(j)) by {
                                let m = choose|m: usize|
                                    #[trigger] set![cur_idx].contains(m) && adj(st0.size, m, j);
                                assert(adj(stf.size, cur_idx, j));
                            }
                            assert(libs(stf.board@, stf.size, gg).len() >= 1) by {
                                if libs(stf.board@, stf.size, gg).len() == 0 {
                                    assert(libs(stf.board@, stf.size, gg) =~= Set::<
                                        usize,
                                    >::empty());
                                }
                            }
                        } else {
                            // The move was not suicidal, so some friendly
                            // group had a spare liberty.
                            assert(st0.has_empty_neighbor(cur_idx) == false);
                            assert(exists|n: usize|
                                #[trigger] adj(st0.size, cur_idx, n) && st0.occupied(n)
                                    && st0.board@[n as int] == stone && st0.qi_at(
                                    st0.group_ds.root_of(n),
                                ) != 1);
                            let n = choose|n: usize|
                                #[trigger] adj(st0.size, cur_idx, n) && st0.occupied(n)
                                    && st0.board@[n as int] == stone && st0.qi_at(
                                    st0.group_ds.root_of(n),
                                ) != 1;
                            let rt = st0.group_ds.root_of(n);
                            assert(allies@.contains(rt));
                            assert(allies@.len() > 0) by {
                                if allies@.len() == 0 {
                                    assert(!allies@.contains(rt));
                                }
                            }
                            assert(st0.group_ds.is_root_at(rt));
                            assert(st0.qi_at(rt) >= 2) by {
                                assert(st0.qi_at(rt) >= 1);
                            }
                            assert(st0.ledger_ok(rt));
                            let g0 = st0.group_ds.group(rt);
                            lemma_libs_after_place(st0.board@, b1, st0.size, g0, cur_idx, stone);
                            assert(libs(b1, st0.size, g0).len() >= 1);
                            lemma_libs_finite(b1, st0.size, g0);
                            assert(!(libs(b1, st0.size, g0) =~= Set::<usize>::empty())) by {
                                vstd::set_lib::lemma_set_empty_equivalency_len(
                                    libs(b1, st0.size, g0),
                                );
                            }
                            let j = choose|j: usize|
                                libs(b1, st0.size, g0).contains(j) != Set::<
                                    usize,
                                >::empty().contains(j);
                            assert(libs(b1, st0.size, g0).contains(j));
                            let m = choose|m: usize|
                                #[trigger] g0.contains(m) && adj(st0.size, m, j);
                            assert(gg.contains(m)) by {
                                let kk = choose|kk: int|
                                    0 <= kk < allies@.len() && allies@[kk] == rt;
                                assert(st0.group_ds.group(allies@[kk]).contains(m));
                                assert(sta.group_ds.group(cur_idx).contains(m));
                            }
                            assert(stf.board@[j as int].is_void()) by {
                                assert(stf.board@[j as int] == Stone(0u8) || stf.board@[j as int]
                                    == b1[j as int]);
                            }
                            assert(libs(stf.board@, stf.size, gg).contains(j));
                            assert(libs(stf.board@, stf.size, gg).len() >= 1) by {
                                if libs(stf.board@, stf.size, gg).len() == 0 {
                                    assert(libs(stf.board@, stf.size, gg) =~= Set::<
                                        usize,
                                    >::empty());
                                }
                            }
                        }
                    }
                } else {
                    // A surviving old group: it had a liberty besides the
                    // placed cell, which is still empty now.
                    assert(sta.group_ds.is_root_at(r2) && !eaten@.contains(r2));
                    assert(sta.qi_at(r2) == libs(b1, sta.size, sta.group_ds.group(r2)).len());
                    assert(gg == sta.group_ds.group(r2));
                    assert(sta.qi_at(r2) >= 1) by {
                        if opponents@.contains(r2) {
                            let kk = choose|kk: int|
                                0 <= kk < opponents@.len() && opponents@[kk] == r2;
                            assert(opponents@.subrange(0, on as int)[kk] == r2);
                            assert(opponents@.subrange(0, on as int).contains(r2));
                            assert(sta.qi_at(r2) == stb.qi_at(r2) - 1);
                            assert(stb.qi_at(r2) >= 2);
                        } else {
                            assert(!opponents@.subrange(0, on as int).contains(r2)) by {
                                if opponents@.subrange(0, on as int).contains(r2) {
                                    let kk3 = choose|kk3: int|
                                        0 <= kk3 < on && #[trigger] opponents@.subrange(
                                            0,
                                            on as int,
                                        )[kk3] == r2;
                                    assert(opponents@.contains(r2));
                                }
                            }
                            assert(sta.group_info_array.0@[r2 as int] == stb.group_info_array.0@[
                                r2 as int]);
                            assert(stb.group_ds.is_root_at(r2));
                            if allies@.len() == 0 {
                                if r2 == cur_idx {
                                    assert(stb.qi_at(cur_idx) == cur_qi);
                                    assert(false);
                                } else {
                                    assert(stb.group_info_array.0@[r2 as int]
                                        == st0.group_info_array.0@[r2 as int]);
                                    assert(st0.group_ds.is_root_at(r2));
                                    assert(st0.qi_at(r2) >= 1);
                                }
                            } else {
                                assert(r2 != new_root);
                                assert(!allies@.contains(r2)) by {
                                    if allies@.contains(r2) {
                                        assert(stb.group_info_array.0@[r2 as int] is None);
                                    }
                                }
                                assert(stb.group_info_array.0@[r2 as int]
                                    == st0.group_info_array.0@[r2 as int]);
                                assert(st0.group_ds.is_root_at(r2)) by {
                                    assert(st0.group_info_array.0@[r2 as int] is Some);
                                }
                                assert(st0.qi_at(r2) >= 1);
                            }
                        }
                    }
                    lemma_libs_finite(b1, sta.size, gg);
                    assert(!(libs(b1, sta.size, gg) =~= Set::<usize>::empty())) by {
                        vstd::set_lib::lemma_set_empty_equivalency_len(libs(b1, sta.size, gg));
                    }
                    let j = choose|j: usize|
                        libs(b1, sta.size, gg).contains(j) != Set::<usize>::empty().contains(j);
                    assert(libs(b1, sta.size, gg).contains(j));
                    assert(stf.board@[j as int].is_void()) by {
                        assert(stf.board@[j as int] == Stone(0u8) || stf.board@[j as int] == b1[
                            j as int]);
                    }
                    assert(libs(stf.board@, stf.size, gg).contains(j));
                    assert(libs(stf.board@, stf.size, gg).len() >= 1) by {
                        if libs(stf.board@, stf.size, gg).len() == 0 {
                            assert(libs(stf.board@, stf.size, gg) =~= Set::<usize>::empty());
                        }
                    }
                }
            }
        }
        // Record the new position, evicting the oldest when full.
        if self.history_states.len() == MAX_STATES_RECORD {
            let _ = self.history_states.pop();
        }
        self.history_states.insert(0, new_board);
        // Translate the freed cells back to coordinates.
        proof {
            assert forall|kk: int|
                0 <= kk < freed@.len() implies (#[trigger] freed@[kk]) < st0.n2() by {
                assert(freed@.contains(freed@[kk]));
                assert(freed@.to_set().contains(freed@[kk]));
            }
        }
        let size = self.size;
        let fl = freed.len();
        let mut coords: Vec<Coord> = Vec::new();
        let mut k4: usize = 0;
        while k4 < fl
            invariant
                k4 <= fl,
                fl == freed@.len(),
                size == st0.size,
                1 <= size,
                st0.n2() < usize::MAX,
                forall|kk: int| 0 <= kk < fl ==> (#[trigger] freed@[kk]) < st0.n2(),
                coords@.len() == k4,
                forall|kk: int|
                    0 <= kk < k4 ==> (#[trigger] coords@[kk]).x < size && coords@[kk].y < size
                        && coords@[kk].y * size + coords@[kk].x == freed@[kk],
            decreases fl - k4,
        {
            let c = freed[k4];
            proof {
                lemma_fundamental_div_mod(c as int, size as int);
                lemma_mod_bound(c as int, size as int);
                assert((c as int) / (size as int) < size) by (nonlinear_arith)
                    requires
                        size >= 1,
                        c < size * size,
                        c as int == size * ((c as int) / (size as int)) + (c as int) % (
                        size as int),
                        0 <= (c as int) % (size as int) < size,
                ;
            }
            coords.push(Coord::new(c % size, c / size));
            proof {
                assert(coords@[k4 as int].x == c % size && coords@[k4 as int].y == c / size);
                assert((c as int / size as int) * (size as int) + c as int % size as int
                    == c as int) by (nonlinear_arith)
                    requires
                        size >= 1,
                        c as int == size * (c as int / size as int) + c as int % size as int,
                ;
            }
            k4 = k4 + 1;
        }
        proof {
            assert(cells_of(st0.size, coords@) =~= freed@) by {
                assert(cells_of(st0.size, coords@).len() == freed@.len());
                assert forall|kk: int|
                    0 <= kk < freed@.len() implies cells_of(st0.size, coords@)[kk] == freed@[
                    kk] by {
                    assert(cells_of(st0.size, coords@)[kk] == (coords@[kk].y * st0.size
                        + coords@[kk].x) as usize);
                }
            }
        }
        Ok(PlaceStoneResult { eaten_stones: coords })
    }
}

/// The move commit keeps same-colored neighboring stones in one group:
/// the placed stone is joined with every adjacent friendly group, and
/// old chains are only merged whole or removed whole (helper for
/// `place_stone`).
#[verifier::spinoff_prover]
#[verifier::rlimit(100)]
proof fn lemma_place_maximal(
    st0: Engine,
    sta: Engine,
    stf: Engine,
    b1: Seq<Stone>,
    allies: Seq<usize>,
    freed: Seq<usize>,
    cur_idx: usize,
    stone: Stone,
)
    requires
        st0.wf(),
        cur_idx < st0.n2(),
        !st0.occupied(cur_idx),
        stone.is_color(),
        b1 == st0.board@.update(cur_idx as int, stone),
        stf.size == st0.size,
        stf.board@.len() == st0.board@.len(),
        forall|j: int|
            0 <= j < st0.board@.len() ==> stf.board@[j] == (if freed.to_set().contains(
                j as usize,
            ) {
                Stone(0u8)
            } else {
                b1[j]
            }),
        forall|rt: usize|
            #[trigger] allies.contains(rt) <==> exists|n: usize|
                #[trigger] adj(st0.size, cur_idx, n) && st0.occupied(n) && st0.board@[n as int]
                    == stone && st0.group_ds.root_of(n) == rt,
        forall|kk: int| 0 <= kk < allies.len() ==> st0.group_ds.is_root_at(#[trigger] allies[kk]),
        forall|c: usize|
            sta.group_ds.group(cur_idx).contains(c) <==> (c == cur_idx || exists|kk: int|
                0 <= kk < allies.len() && st0.group_ds.group(#[trigger] allies[kk]).contains(c)),
        forall|j2: usize|
            st0.group_ds.has(j2) && !(exists|kk: int|
                0 <= kk < allies.len() && st0.group_ds.group(#[trigger] allies[kk]).contains(j2))
                ==> sta.group_ds.has(j2) && sta.group_ds.root_of(j2) == st0.group_ds.root_of(j2),
        sta.group_ds.has(cur_idx),
        forall|j: usize|
            sta.group_ds.has(j) && !freed.to_set().contains(j) ==> stf.group_ds.has(j)
                && stf.group_ds.root_of(j) == sta.group_ds.root_of(j),
    ensures
        stf.maximal(),
{
    assert forall|i: usize, j: usize|
        #[trigger] adj(stf.size, i, j) && stf.board@[i as int].is_color() && stf.board@[j as int]
            == stf.board@[i as int] implies stf.group_ds.in_same(i, j) by {
        assert(!freed.to_set().contains(i)) by {
            if freed.to_set().contains(i) {
                assert(stf.board@[i as int] == Stone(0u8));
            }
        }
        assert(!freed.to_set().contains(j)) by {
            if freed.to_set().contains(j) {
                assert(stf.board@[j as int] == Stone(0u8));
            }
        }
        assert(stf.board@[i as int] == b1[i as int]);
        assert(stf.board@[j as int] == b1[j as int]);
        assert(sta.group_ds.in_same(i, j)) by {
            if i == cur_idx || j == cur_idx {
                let p: usize = if i == cur_idx {
                    j
                } else {
                    i
                };
                assert(p != cur_idx && adj(st0.size, cur_idx, p));
                assert(b1[p as int] == stone && b1[cur_idx as int] == stone);
                assert(st0.board@[p as int] == stone);
                assert(st0.occupied(p));
                assert(allies.contains(st0.group_ds.root_of(p)));
                let rt = st0.group_ds.root_of(p);
                let kk = choose|kk: int| 0 <= kk < allies.len() && allies[kk] == rt;
                assert(st0.group_ds.group(allies[kk]).contains(p)) by {
                    st0.group_ds.lemma_root_props(p);
                }
                assert(sta.group_ds.group(cur_idx).contains(p));
                assert(sta.group_ds.group(cur_idx).contains(cur_idx));
                assert(sta.group_ds.in_same(cur_idx, p));
            } else {
                assert(st0.board@[i as int] == b1[i as int]);
                assert(st0.board@[j as int] == b1[j as int]);
                assert(adj(st0.size, i, j));
                assert(st0.group_ds.in_same(i, j));
                if exists|kk: int|
                    0 <= kk < allies.len() && st0.group_ds.group(#[trigger] allies[kk]).contains(
                        i,
                    ) {
                    let kk = choose|kk: int|
                        0 <= kk < allies.len() && st0.group_ds.group(
                            #[trigger] allies[kk],
                        ).contains(i);
                    assert(allies.contains(allies[kk]));
                    assert(st0.group_ds.is_root_at(allies[kk]));
                    assert(st0.group_ds.root_of(i) == allies[kk]) by {
                        assert(st0.group_ds.cell_ok(allies[kk] as int));
                    }
                    assert(st0.group_ds.group(allies[kk]).contains(j)) by {
                        assert(st0.group_ds.root_of(j) == st0.group_ds.root_of(i));
                        st0.group_ds.lemma_root_props(j);
                    }
                    assert(sta.group_ds.group(cur_idx).contains(i));
                    assert(sta.group_ds.group(cur_idx).contains(j));
                    assert(sta.group_ds.in_same(i, j));
                } else {
                    assert(!(exists|kk: int|
                        0 <= kk < allies.len() && st0.group_ds.group(
                            #[trigger] allies[kk],
                        ).contains(j))) by {
                        if exists|kk: int|
                            0 <= kk < allies.len() && st0.group_ds.group(
                                #[trigger] allies[kk],
                            ).contains(j) {
                            let kk = choose|kk: int|
                                0 <= kk < allies.len() && st0.group_ds.group(
                                    #[trigger] allies[kk],
                                ).contains(j);
                            assert(allies.contains(allies[kk]));
                            assert(st0.group_ds.is_root_at(allies[kk]));
                            assert(st0.group_ds.group(allies[kk]).contains(i)) by {
                                assert(st0.group_ds.root_of(i) == st0.group_ds.root_of(j));
                                st0.group_ds.lemma_root_props(i);
                                assert(st0.group_ds.cell_ok(allies[kk] as int));
                            }
                        }
                    }
                    assert(sta.group_ds.has(i) && sta.group_ds.root_of(i) == st0.group_ds.root_of(
                        i,
                    ));
                    assert(sta.group_ds.has(j) && sta.group_ds.root_of(j) == st0.group_ds.root_of(
                        j,
                    ));
                }
            }
        }
        assert(stf.group_ds.has(i) && stf.group_ds.root_of(i) == sta.group_ds.root_of(i));
        assert(stf.group_ds.has(j) && stf.group_ds.root_of(j) == sta.group_ds.root_of(j));
    }
}

/// Law: between moves, the recorded liberty count of every group equals
/// the number of distinct empty cells orthogonally adjacent to it on the
/// current board. In particular, after a capturing move the freed cells
/// count again as liberties of every surviving neighboring group, since
/// `place_stone` re-establishes `wf`.
pub proof fn lemma_liberties_exact(e: &Engine, i: usize)
    requires
        e.wf(),
        e.group_ds.has(i),
    ensures
        e.group_ds.is_root_at(e.group_ds.root_of(i)),
        e.qi_at(e.group_ds.root_of(i)) == libs(e.board@, e.size, e.group_ds.group(i)).len(),
{
    e.group_ds.lemma_root_props(i);
    let r = e.group_ds.root_of(i);
    assert(e.ledger_ok(r));
    assert(e.group_ds.group(r) =~= e.group_ds.group(i));
}

} // verus!
