//! The mathematical model of a minefield: which cells exist, which hold a
//! bomb, how many bombs surround a cell, and which cells one click uncovers.

use vstd::prelude::*;

verus! {

/// A grid position: column `x` first, row `y` second.
pub type Cell = (int, int);

/// Two distinct cells touch, by an edge or by a corner.
pub open spec fn adjacent(a: Cell, b: Cell) -> bool {
    &&& a != b
    &&& -1 <= a.0 - b.0 <= 1
    &&& -1 <= a.1 - b.1 <= 1
}

/// `p` is a walk inside `s`: it stays in `s` and goes from cell to touching
/// cell.
pub open spec fn walks(p: Seq<Cell>, s: Set<Cell>) -> bool {
    &&& p.len() > 0
    &&& forall|i: int| 0 <= i < p.len() ==> s.contains(#[trigger] p[i])
    &&& forall|i: int| 0 <= i < p.len() - 1 ==> adjacent(#[trigger] p[i], p[i + 1])
}

/// A rectangle of cells and the set of those that hold a bomb.
pub struct Board {
    pub width: nat,
    pub height: nat,
    pub bombs: Set<Cell>,
}

impl Board {
    /// `c` lies on the board.
    pub open spec fn in_bounds(self, c: Cell) -> bool {
        0 <= c.0 < self.width && 0 <= c.1 < self.height
    }

    /// Every cell of the board.
    pub open spec fn cells(self) -> Set<Cell> {
        Set::new(|c: Cell| self.in_bounds(c))
    }

    /// The board is not empty and every bomb lies on it.
    pub open spec fn wf(self) -> bool {
        &&& self.width > 0
        &&& self.height > 0
        &&& self.bombs.subset_of(self.cells())
    }

    /// The cells of the board that touch `c`: eight in the interior, five on
    /// an edge, three in a corner.
    pub open spec fn surrounding(self, c: Cell) -> Set<Cell> {
        Set::new(|d: Cell| self.in_bounds(d) && adjacent(c, d))
    }

    /// The bombs among the cells that touch `c`.
    pub open spec fn surrounding_bombs(self, c: Cell) -> Set<Cell> {
        self.surrounding(c).intersect(self.bombs)
    }

    /// The number shown on `c` once it is uncovered.
    pub open spec fn num_surrounding_bombs(self, c: Cell) -> nat {
        self.surrounding_bombs(c).len()
    }

    /// Uncovering `c` uncovers its surroundings too: `c` is on the board,
    /// holds no bomb and touches none.
    pub open spec fn spreads(self, c: Cell) -> bool {
        &&& self.in_bounds(c)
        &&& !self.bombs.contains(c)
        &&& self.num_surrounding_bombs(c) == 0
    }

    /// A way the cascade can take: every cell but the last spreads, and each
    /// step goes to a cell that touches the one before.
    pub open spec fn is_trail(self, p: Seq<Cell>) -> bool {
        &&& p.len() > 0
        &&& forall|i: int|
            #![trigger p[i]]
            0 <= i < p.len() - 1 ==> self.spreads(p[i]) && self.surrounding(p[i]).contains(p[i + 1])
    }

    /// A trail leads from `c` to `d`.
    pub open spec fn leads(self, c: Cell, d: Cell) -> bool {
        exists|p: Seq<Cell>| #[trigger] self.is_trail(p) && p[0] == c && p.last() == d
    }

    /// Everything that a click on `c` uncovers: `c` itself and whatever a
    /// trail from `c` reaches.
    pub open spec fn cascade(self, c: Cell) -> Set<Cell> {
        Set::new(|d: Cell| self.leads(c, d))
    }

    /// `s` is closed under the cascade: around each of its cells that spreads,
    /// everything is in `s` already.
    pub open spec fn settled(self, s: Set<Cell>) -> bool {
        forall|c: Cell, d: Cell|
            #![trigger s.contains(c), self.surrounding(c).contains(d)]
            s.contains(c) && self.spreads(c) && self.surrounding(c).contains(d) ==> s.contains(d)
    }

    /// `s` is a connected region of cells without a bomb on or around them:
    /// each of its cells spreads, and any two are joined by a walk inside it.
    pub open spec fn is_region(self, s: Set<Cell>) -> bool {
        &&& forall|c: Cell| s.contains(c) ==> self.spreads(c)
        &&& forall|c: Cell, d: Cell|
            s.contains(c) && s.contains(d) ==> exists|p: Seq<Cell>|
                #[trigger] walks(p, s) && p[0] == c && p.last() == d
    }
}

/// The eight cells around `c`, on the board or not.
spec fn ring(c: Cell) -> Set<Cell> {
    set![
        (c.0 - 1, c.1 - 1),
        (c.0 - 1, c.1),
        (c.0 - 1, c.1 + 1),
        (c.0, c.1 - 1),
        (c.0, c.1 + 1),
        (c.0 + 1, c.1 - 1),
        (c.0 + 1, c.1),
        (c.0 + 1, c.1 + 1)
    ]
}

/// A cell has at most eight cells around it, so the count on it is at most 8.
pub proof fn lemma_surrounding_finite(b: Board, c: Cell)
    ensures
        b.surrounding(c).finite(),
        b.surrounding(c).len() <= 8,
        b.surrounding_bombs(c).finite(),
        b.num_surrounding_bombs(c) <= b.surrounding(c).len(),
{
    vstd::set_lib::lemma_len_subset(b.surrounding(c), ring(c));
    vstd::set_lib::lemma_len_subset(b.surrounding_bombs(c), b.surrounding(c));
}

/// The cells of `width` columns from column `x` on and of `height` rows from
/// row `y` on.
spec fn block(x: int, y: int, width: nat, height: nat) -> Set<Cell> {
    Set::new(|c: Cell| x <= c.0 < x + width && y <= c.1 < y + height)
}

/// A block of `width` columns and `height` rows has `width * height` cells.
proof fn lemma_block_len(x: int, y: int, width: nat, height: nat)
    ensures
        block(x, y, width, height).finite(),
        block(x, y, width, height).len() == width * height,
    decreases height, width,
{
    let all = block(x, y, width, height);
    if height == 0 || width == 0 {
        assert(all =~= Set::<Cell>::empty());
        assert(width * height == 0) by (nonlinear_arith)
            requires
                height == 0 || width == 0,
        ;
    } else if height == 1 {
        let shorter = (width - 1) as nat;
        lemma_block_len(x, y, shorter, 1);
        assert(all =~= block(x, y, shorter, 1).insert((x + width - 1, y)));
    } else {
        let lower = block(x, y, width, (height - 1) as nat);
        let top = block(x, y + height - 1, width, 1);
        lemma_block_len(x, y, width, (height - 1) as nat);
        lemma_block_len(x, y + height - 1, width, 1);
        assert(all =~= lower.union(top));
        vstd::set_lib::lemma_set_disjoint_lens(lower, top);
        assert(width * (height - 1) + width * 1 == width * height) by (nonlinear_arith);
    }
}

/// A board of `width` columns and `height` rows has `width * height` cells.
pub proof fn lemma_cells_len(b: Board)
    ensures
        b.cells().finite(),
        b.cells().len() == b.width * b.height,
{
    lemma_block_len(0, 0, b.width, b.height);
    assert(b.cells() =~= block(0, 0, b.width, b.height));
}

/// How many of the positions `x - 1`, `x` and `x + 1` lie in a line of `n`
/// that holds `x`: three inside the line, two at an end, one where the line
/// is a single position.
pub open spec fn span(x: int, n: nat) -> nat {
    let before: nat = if x > 0 { 1 } else { 0 };
    let after: nat = if x + 1 < n { 1 } else { 0 };
    before + 1 + after
}

/// The cells around a cell of the board, the cell itself put back, fill a
/// block of columns and rows: so eight cells touch a cell in the interior,
/// five a cell on an edge and three a cell in a corner.
pub proof fn lemma_surrounding_len(b: Board, c: Cell)
    requires
        b.in_bounds(c),
    ensures
        b.surrounding(c).len() == span(c.0, b.width) * span(c.1, b.height) - 1,
        span(c.0, b.width) == 3 && span(c.1, b.height) == 3 ==> b.surrounding(c).len() == 8,
        span(c.0, b.width) + span(c.1, b.height) == 5 ==> b.surrounding(c).len() == 5,
        span(c.0, b.width) == 2 && span(c.1, b.height) == 2 ==> b.surrounding(c).len() == 3,
{
    let columns = span(c.0, b.width);
    let rows = span(c.1, b.height);
    let x = if c.0 > 0 { c.0 - 1 } else { 0 };
    let y = if c.1 > 0 { c.1 - 1 } else { 0 };
    lemma_block_len(x, y, columns, rows);
    assert(b.surrounding(c) =~= block(x, y, columns, rows).remove(c));
    assert(columns * rows == if columns == 1 {
        rows
    } else if columns == 2 {
        2 * rows
    } else {
        3 * rows
    }) by (nonlinear_arith)
        requires
            1 <= columns <= 3,
    ;
}

/// A click uncovers the cell that was clicked.
pub proof fn lemma_cascade_start(b: Board, c: Cell)
    ensures
        b.cascade(c).contains(c),
{
    let p = seq![c];
    assert(b.is_trail(p) && p[0] == c && p.last() == c);
}

/// The cascade goes on from each cell that spreads to all that touch it.
pub proof fn lemma_cascade_step(b: Board, c: Cell, d: Cell, e: Cell)
    requires
        b.cascade(c).contains(d),
        b.spreads(d),
        b.surrounding(d).contains(e),
    ensures
        b.cascade(c).contains(e),
{
    let p = choose|p: Seq<Cell>| #[trigger] b.is_trail(p) && p[0] == c && p.last() == d;
    let q = p.push(e);
    assert(b.is_trail(q) && q[0] == c && q.last() == e);
}

/// Every cell of a trail that starts inside a settled set lies in that set.
proof fn lemma_trail_within(b: Board, s: Set<Cell>, p: Seq<Cell>, k: int)
    requires
        b.settled(s),
        b.is_trail(p),
        s.contains(p[0]),
        0 <= k < p.len(),
    ensures
        s.contains(p[k]),
    decreases k,
{
    if k > 0 {
        lemma_trail_within(b, s, p, k - 1);
    }
}

/// The cascade never leaves a settled set that holds the clicked cell.
pub proof fn lemma_cascade_within(b: Board, s: Set<Cell>, c: Cell)
    requires
        b.settled(s),
        s.contains(c),
    ensures
        b.cascade(c).subset_of(s),
{
    assert forall|d: Cell| b.cascade(c).contains(d) implies s.contains(d) by {
        let p = choose|p: Seq<Cell>| #[trigger] b.is_trail(p) && p[0] == c && p.last() == d;
        lemma_trail_within(b, s, p, p.len() - 1);
    }
}

/// A cell that does not spread (it holds a bomb, touches one, or is off the
/// board) is all that a click on it uncovers.
pub proof fn lemma_cascade_halts(b: Board, c: Cell)
    requires
        !b.spreads(c),
    ensures
        b.cascade(c) == set![c],
{
    lemma_cascade_start(b, c);
    assert forall|d: Cell| b.cascade(c).contains(d) implies d == c by {
        let p = choose|p: Seq<Cell>| #[trigger] b.is_trail(p) && p[0] == c && p.last() == d;
        assert(p.len() == 1);
    }
}

/// A click on the board uncovers cells of the board only.
pub proof fn lemma_cascade_in_bounds(b: Board, c: Cell)
    requires
        b.in_bounds(c),
    ensures
        b.cascade(c).subset_of(b.cells()),
{
    lemma_cascade_within(b, b.cells(), c);
}

/// No bomb touches a cell that spreads.
pub proof fn lemma_spreading_cell_touches_no_bomb(b: Board, c: Cell, d: Cell)
    requires
        b.spreads(c),
        b.surrounding(c).contains(d),
    ensures
        !b.bombs.contains(d),
{
    lemma_surrounding_finite(b, c);
    if b.bombs.contains(d) {
        assert(b.surrounding_bombs(c).contains(d));
    }
}

/// The cascade uncovers no bomb: after a click, the only bomb that can have
/// come to light is the clicked cell itself.
pub proof fn lemma_cascade_spares_bombs(b: Board, c: Cell, d: Cell)
    requires
        b.cascade(c).contains(d),
        d != c,
    ensures
        !b.bombs.contains(d),
{
    let p = choose|p: Seq<Cell>| #[trigger] b.is_trail(p) && p[0] == c && p.last() == d;
    let k = p.len() - 2;
    lemma_spreading_cell_touches_no_bomb(b, p[k], d);
}

/// Adding a whole cascade to a settled set leaves it settled.
pub proof fn lemma_cascade_settled(b: Board, s: Set<Cell>, c: Cell)
    requires
        b.settled(s),
    ensures
        b.settled(s.union(b.cascade(c))),
{
    let t = s.union(b.cascade(c));
    assert forall|u: Cell, d: Cell|
        #![trigger t.contains(u), b.surrounding(u).contains(d)]
        t.contains(u) && b.spreads(u) && b.surrounding(u).contains(d) implies t.contains(d) by {
        if !s.contains(u) {
            lemma_cascade_step(b, c, u, d);
        }
    }
}

/// A cascade is settled: it has gone on from each of its cells that spreads.
pub proof fn lemma_cascade_is_settled(b: Board, c: Cell)
    ensures
        b.settled(b.cascade(c)),
{
    lemma_cascade_settled(b, Set::<Cell>::empty(), c);
    assert(Set::<Cell>::empty().union(b.cascade(c)) =~= b.cascade(c));
}

/// What a click on a cell of a cascade uncovers, the click that started the
/// cascade uncovers too.
pub proof fn lemma_cascade_nested(b: Board, c: Cell, d: Cell)
    requires
        b.cascade(c).contains(d),
    ensures
        b.cascade(d).subset_of(b.cascade(c)),
{
    lemma_cascade_is_settled(b, c);
    lemma_cascade_within(b, b.cascade(c), d);
}

/// A trail between two cells that spread can be taken backwards.
pub proof fn lemma_leads_back(b: Board, c: Cell, d: Cell)
    requires
        b.spreads(d),
        b.cascade(c).contains(d),
    ensures
        b.cascade(d).contains(c),
{
    let p = choose|p: Seq<Cell>| #[trigger] b.is_trail(p) && p[0] == c && p.last() == d;
    let q = p.reverse();
    assert forall|i: int| 0 <= i < q.len() - 1 implies b.spreads(#[trigger] q[i])
        && b.surrounding(q[i]).contains(q[i + 1]) by {
        // Step `i` of `q` is step `k` of `p`, taken the other way.
        let k = p.len() - 2 - i;
        assert(q[i] == p[k + 1] && q[i + 1] == p[k]);
    }
    assert(b.is_trail(q) && q[0] == d && q.last() == c);
}

/// Within one stretch of cells that spread it does not matter which cell is
/// clicked: the cascade is the same.
pub proof fn lemma_cascade_shared(b: Board, c: Cell, d: Cell)
    requires
        b.spreads(c),
        b.spreads(d),
        b.cascade(c).contains(d),
    ensures
        b.cascade(d) == b.cascade(c),
{
    lemma_cascade_nested(b, c, d);
    lemma_leads_back(b, c, d);
    lemma_cascade_nested(b, d, c);
}

/// A click on any cell of a region uncovers the whole region and every cell
/// that touches it.
pub proof fn lemma_cascade_covers_region(b: Board, s: Set<Cell>, c: Cell)
    requires
        b.is_region(s),
        s.contains(c),
    ensures
        s.subset_of(b.cascade(c)),
        forall|d: Cell, e: Cell|
            s.contains(d) && #[trigger] b.surrounding(d).contains(e) ==> b.cascade(c).contains(e),
{
    assert forall|d: Cell| s.contains(d) implies b.cascade(c).contains(d) by {
        let p = choose|p: Seq<Cell>| #[trigger] walks(p, s) && p[0] == c && p.last() == d;
        assert(b.is_trail(p));
    }
    assert forall|d: Cell, e: Cell|
        s.contains(d) && #[trigger] b.surrounding(d).contains(e) implies b.cascade(c).contains(
        e,
    ) by {
        lemma_cascade_step(b, c, d, e);
    }
}

} // verus!
