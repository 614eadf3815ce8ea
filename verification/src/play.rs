//! A game in progress as a mathematical value, and the laws of clicking.

use crate::board::{
    lemma_cascade_covers_region, lemma_cascade_halts, lemma_cascade_in_bounds,
    lemma_cascade_settled, lemma_cascade_shared, lemma_cascade_spares_bombs, lemma_cascade_start,
    lemma_cascade_within, lemma_cells_len, Board, Cell,
};
use vstd::prelude::*;

verus! {

/// What a field is, apart from how it is stored.
pub struct FieldView {
    pub board: Board,
    pub clicked: Set<Cell>,
}

impl FieldView {
    /// Only cells of the board are uncovered, and no cascade is left
    /// unfinished.
    pub open spec fn wf(self) -> bool {
        &&& self.board.wf()
        &&& self.clicked.subset_of(self.board.cells())
        &&& self.board.settled(self.clicked)
    }

    /// The field after a click on `c`.
    pub open spec fn click(self, c: Cell) -> FieldView {
        FieldView { board: self.board, clicked: self.clicked.union(self.board.cascade(c)) }
    }

    /// Every cell of the board is uncovered.
    pub open spec fn has_won(self) -> bool {
        self.clicked == self.board.cells()
    }

    /// A bomb is uncovered.
    pub open spec fn has_lost(self) -> bool {
        exists|c: Cell| #[trigger] self.clicked.contains(c) && self.board.bombs.contains(c)
    }
}

/// A field is fully uncovered exactly when as many cells are uncovered as the
/// board has.
pub proof fn lemma_full_cover(v: FieldView)
    requires
        v.clicked.subset_of(v.board.cells()),
    ensures
        v.has_won() <==> v.clicked.len() == v.board.width * v.board.height,
{
    lemma_cells_len(v.board);
    if v.clicked.len() == v.board.width * v.board.height {
        vstd::set_lib::lemma_len_subset(v.clicked, v.board.cells());
        vstd::set_lib::lemma_subset_equality(v.clicked, v.board.cells());
    }
}

/// A click keeps a field well formed.
pub proof fn lemma_click_wf(v: FieldView, c: Cell)
    requires
        v.wf(),
        v.board.in_bounds(c),
    ensures
        v.click(c).wf(),
{
    lemma_cascade_in_bounds(v.board, c);
    lemma_cascade_settled(v.board, v.clicked, c);
}

/// Cells are only ever added: what was uncovered before a click is uncovered
/// after it, and so is the clicked cell.
pub proof fn lemma_click_grows(v: FieldView, c: Cell)
    ensures
        v.clicked.subset_of(v.click(c).clicked),
        v.click(c).clicked.contains(c),
{
    lemma_cascade_start(v.board, c);
}

/// A click on a cell that is already uncovered changes nothing.
pub proof fn lemma_click_again(v: FieldView, c: Cell)
    requires
        v.wf(),
        v.clicked.contains(c),
    ensures
        v.click(c) == v,
{
    lemma_cascade_within(v.board, v.clicked, c);
    assert(v.clicked.union(v.board.cascade(c)) =~= v.clicked);
}

/// Clicking a cell twice leaves the field as clicking it once does.
pub proof fn lemma_click_idempotent(v: FieldView, c: Cell)
    ensures
        v.click(c).click(c) == v.click(c),
{
    let once = v.clicked.union(v.board.cascade(c));
    assert(once.union(v.board.cascade(c)) =~= once);
}

/// Two clicks uncover the same cells in either order.
pub proof fn lemma_click_commutes(v: FieldView, c: Cell, d: Cell)
    ensures
        v.click(c).click(d) == v.click(d).click(c),
{
    let reach_c = v.board.cascade(c);
    let reach_d = v.board.cascade(d);
    assert(v.clicked.union(reach_c).union(reach_d) =~= v.clicked.union(reach_d).union(reach_c));
}

/// A click on a cell of a region uncovers the whole region and all that
/// touches it, and it uncovers the same cells whichever cell of the region is
/// clicked.
pub proof fn lemma_click_uncovers_region(v: FieldView, region: Set<Cell>, c: Cell, d: Cell)
    requires
        v.board.is_region(region),
        region.contains(c),
        region.contains(d),
    ensures
        region.subset_of(v.click(c).clicked),
        forall|e: Cell, f: Cell|
            region.contains(e) && #[trigger] v.board.surrounding(e).contains(f) ==> v.click(
                c,
            ).clicked.contains(f),
        v.click(d) == v.click(c),
{
    lemma_cascade_covers_region(v.board, region, c);
    lemma_cascade_shared(v.board, c, d);
}

/// A click on a cell that shows a number uncovers that cell and no other.
pub proof fn lemma_click_on_number(v: FieldView, c: Cell)
    requires
        v.board.num_surrounding_bombs(c) > 0,
    ensures
        v.click(c).clicked == v.clicked.insert(c),
{
    lemma_cascade_halts(v.board, c);
}

/// A click on a bomb uncovers that cell and no other.
pub proof fn lemma_click_on_bomb(v: FieldView, c: Cell)
    requires
        v.board.bombs.contains(c),
    ensures
        v.click(c).clicked == v.clicked.insert(c),
{
    lemma_cascade_halts(v.board, c);
}

/// A click loses the game exactly when the clicked cell holds a bomb: the
/// cascade brings no other bomb to light.
pub proof fn lemma_click_loses(v: FieldView, c: Cell)
    requires
        !v.has_lost(),
    ensures
        v.click(c).has_lost() <==> v.board.bombs.contains(c),
{
    lemma_cascade_start(v.board, c);
    if v.board.bombs.contains(c) {
        assert(v.click(c).clicked.contains(c));
    }
    if v.click(c).has_lost() {
        let d = choose|d: Cell| #[trigger]
            v.click(c).clicked.contains(d) && v.board.bombs.contains(d);
        if d != c {
            lemma_cascade_spares_bombs(v.board, c, d);
        }
    }
}

} // verus!
