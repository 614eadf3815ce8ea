//! The playing field: the bombs, the cells clicked so far, and the click that
//! uncovers a cell together with everything the cascade reaches from it.

use crate::board::{
    lemma_cascade_in_bounds, lemma_cascade_start, lemma_cascade_step, lemma_cascade_within,
    lemma_cells_len, lemma_surrounding_finite, Board, Cell,
};
use crate::play::{lemma_full_cover, FieldView};
use crate::random::draw_bombs;
use vstd::prelude::*;

verus! {

/// Width and height of a field, in cells.
#[derive(Clone, Copy, Debug, PartialEq, Eq, Structural)]
pub struct Size(pub usize, pub usize);

/// Why a query or a click was turned down.
#[derive(Clone, Copy, Debug, PartialEq, Eq, Structural)]
pub enum FieldError {
    /// The coordinate lies outside the field.
    OutOfBounds,
}

/// What a query about cell `c` gives: `value` where `c` lies on the board, the
/// error where it does not.
pub open spec fn checked<T>(board: Board, c: Cell, value: T) -> Result<T, FieldError> {
    if board.in_bounds(c) {
        Ok(value)
    } else {
        Err(FieldError::OutOfBounds)
    }
}

/// A coordinate as a cell of the model.
pub open spec fn as_cell(p: (usize, usize)) -> Cell {
    (p.0 as int, p.1 as int)
}

/// The cells of a `width` by `height` rectangle whose flag is set, the flags
/// laid out row by row.
pub open spec fn marked(width: nat, height: nat, flags: Seq<bool>) -> Set<Cell> {
    Set::new(|c: Cell| 0 <= c.0 < width && 0 <= c.1 < height && flags[c.1 * width + c.0])
}

/// `a` comes before `b` when cells are ordered by column, then by row.
pub open spec fn precedes(a: Cell, b: Cell) -> bool {
    a.0 < b.0 || (a.0 == b.0 && a.1 < b.1)
}

/// `v` holds the cells of `s` and no others, each once, in increasing order.
pub open spec fn lists(v: Seq<(usize, usize)>, s: Set<Cell>) -> bool {
    &&& forall|i: int| 0 <= i < v.len() ==> s.contains(as_cell(#[trigger] v[i]))
    &&& forall|c: Cell|
        #[trigger] s.contains(c) ==> exists|i: int|
            0 <= i < v.len() && as_cell(#[trigger] v[i]) == c
    &&& forall|i: int, j: int|
        0 <= i < j < v.len() ==> precedes(as_cell(#[trigger] v[i]), as_cell(#[trigger] v[j]))
}

/// A list of the cells of `s` is as long as `s` is large.
pub proof fn lemma_lists_len(v: Seq<(usize, usize)>, s: Set<Cell>)
    requires
        lists(v, s),
    ensures
        s.finite(),
        s.len() == v.len(),
    decreases v.len(),
{
    if v.len() == 0 {
        assert(s =~= Set::<Cell>::empty());
    } else {
        let last = as_cell(v.last());
        let rest = s.remove(last);
        assert forall|i: int| 0 <= i < v.len() - 1 implies rest.contains(
            as_cell(#[trigger] v.drop_last()[i]),
        ) by {
            assert(precedes(as_cell(v[i]), as_cell(v[v.len() - 1])));
        }
        assert forall|c: Cell| #[trigger] rest.contains(c) implies exists|i: int|
            0 <= i < v.len() - 1 && as_cell(#[trigger] v.drop_last()[i]) == c by {
            let i = choose|i: int| 0 <= i < v.len() && as_cell(#[trigger] v[i]) == c;
            assert(as_cell(v.drop_last()[i]) == c);
        }
        assert forall|i: int, j: int| 0 <= i < j < v.len() - 1 implies precedes(
            as_cell(#[trigger] v.drop_last()[i]),
            as_cell(#[trigger] v.drop_last()[j]),
        ) by {
            assert(precedes(as_cell(v[i]), as_cell(v[j])));
        }
        lemma_lists_len(v.drop_last(), rest);
        assert(s.contains(as_cell(v[v.len() - 1])));
        assert(s =~= rest.insert(last));
    }
}

/// The cells among the first `n` entries of `v`.
spec fn first_cells(v: Seq<(usize, usize)>, n: int) -> Set<Cell> {
    Set::new(|c: Cell| exists|i: int| 0 <= i < n && as_cell(#[trigger] v[i]) == c)
}

/// `d` is met before step `(i, j)` of a scan of the three columns around `c`,
/// each from top to bottom.
spec fn scanned(c: Cell, d: Cell, i: int, j: int) -> bool {
    d.0 - c.0 + 1 < i || (d.0 - c.0 + 1 == i && d.1 - c.1 + 1 < j)
}

/// `v` lists the cells of `s` that the scan around `c` has met before step
/// `(i, j)`.
spec fn scan(v: Seq<(usize, usize)>, s: Set<Cell>, c: Cell, i: int, j: int) -> bool {
    lists(v, s.filter(|d: Cell| scanned(c, d, i, j)))
}

/// A minefield in play.
#[derive(Debug)]
pub struct Field {
    size: Size,
    bombs: Vec<bool>,
    clicked: Vec<bool>,
}

impl View for Field {
    type V = FieldView;

    closed spec fn view(&self) -> FieldView {
        FieldView {
            board: Board {
                width: self.size.0 as nat,
                height: self.size.1 as nat,
                bombs: marked(self.size.0 as nat, self.size.1 as nat, self.bombs@),
            },
            clicked: marked(self.size.0 as nat, self.size.1 as nat, self.clicked@),
        }
    }
}

/// Row-major indexing stays inside the rectangle and tells cells apart.
proof fn lemma_index(width: int, height: int, x: int, y: int)
    requires
        0 <= x < width,
        0 <= y < height,
    ensures
        0 <= y * width <= y * width + x < width * height,
        forall|c: Cell| 0 <= c.0 < width && c.1 * width + c.0 == y * width + x ==> c == (x, y),
{
    assert(0 <= y * width <= y * width + x < width * height) by (nonlinear_arith)
        requires
            0 <= x < width,
            0 <= y < height,
    ;
    assert forall|c: Cell|
        0 <= c.0 < width && c.1 * width + c.0 == y * width + x implies c == (x, y) by {
        let row = c.1;
        let column = c.0;
        assert(row == y) by (nonlinear_arith)
            requires
                0 <= column < width,
                0 <= x < width,
                row * width + column == y * width + x,
        ;
    }
}

/// Setting the flag of one cell adds that cell to the marked ones.
proof fn lemma_mark(width: nat, height: nat, flags: Seq<bool>, x: int, y: int)
    requires
        0 <= x < width,
        0 <= y < height,
        flags.len() == width * height,
    ensures
        marked(width, height, flags.update(y * width + x, true))
            == marked(width, height, flags).insert((x, y)),
{
    let before = marked(width, height, flags);
    let after = marked(width, height, flags.update(y * width + x, true));
    lemma_index(width as int, height as int, x, y);
    assert forall|c: Cell| after.contains(c) == before.insert((x, y)).contains(c) by {
        if 0 <= c.0 < width && 0 <= c.1 < height {
            lemma_index(width as int, height as int, c.0, c.1);
        }
    }
}

/// `u` waits in the work list.
spec fn waits(pending: Seq<(usize, usize)>, u: Cell) -> bool {
    exists|k: int| 0 <= k < pending.len() && as_cell(#[trigger] pending[k]) == u
}

/// `s` is settled but for the cells in the work list and the cell in hand:
/// around every other cell of `s` that spreads, everything is in `s`.
spec fn settled_but(
    board: Board,
    s: Set<Cell>,
    pending: Seq<(usize, usize)>,
    hand: Option<Cell>,
) -> bool {
    forall|u: Cell, d: Cell|
        #![trigger s.contains(u), board.surrounding(u).contains(d)]
        s.contains(u) && board.spreads(u) && board.surrounding(u).contains(d) ==> s.contains(d)
            || waits(pending, u) || hand == Some(u)
}

impl Field {
    /// Both flag vectors cover the rectangle exactly.
    spec fn shaped(&self) -> bool {
        &&& self.size.0 > 0
        &&& self.size.1 > 0
        &&& self.bombs@.len() == self.size.0 * self.size.1
        &&& self.clicked@.len() == self.size.0 * self.size.1
    }

    /// The field is one that the constructors and `click` can produce.
    pub closed spec fn wf(&self) -> bool {
        &&& self.shaped()
        &&& self@.board.settled(self@.clicked)
    }

    /// A well-formed field has a well-formed view.
    pub proof fn lemma_view_wf(&self)
        requires
            self.wf(),
        ensures
            self@.wf(),
    {
    }

    /// A field with the bombs given row by row: the flag of cell `(x, y)` is
    /// `bombs[y * width + x]`. Nothing is uncovered yet. There is no such
    /// field where a side is zero or where `bombs` does not hold one flag
    /// for each cell.
    pub fn with_bombs(width: usize, height: usize, bombs: Vec<bool>) -> (r: Option<Field>)
        ensures
            r is Some <==> width > 0 && height > 0 && bombs@.len() == width * height,
            r matches Some(field) ==> {
                &&& field.wf()
                &&& field@.board.width == width
                &&& field@.board.height == height
                &&& field@.board.bombs == marked(width as nat, height as nat, bombs@)
                &&& field@.clicked == Set::<Cell>::empty()
            },
    {
        if width == 0 || height == 0 || width.checked_mul(height) != Some(bombs.len()) {
            return None;
        }
        let cells = bombs.len();
        let mut clicked: Vec<bool> = Vec::new();
        while clicked.len() < cells
            invariant
                clicked@.len() <= cells,
                forall|i: int| 0 <= i < clicked@.len() ==> !clicked@[i],
            decreases cells - clicked@.len(),
        {
            clicked.push(false);
        }
        let field = Field { size: Size(width, height), bombs, clicked };
        proof {
            assert forall|c: Cell| !field@.clicked.contains(c) by {
                if 0 <= c.0 < width && 0 <= c.1 < height {
                    lemma_index(width as int, height as int, c.0, c.1);
                }
            }
        }
        Some(field)
    }

    /// A field of `width` by `height` cells in which each cell holds a bomb
    /// with probability `numerator / denominator`, independently of the
    /// others. Nothing is uncovered yet. Any layout may come out; only a
    /// probability of zero or of one decides it.
    pub fn new(width: usize, height: usize, numerator: u32, denominator: u32) -> (field: Field)
        requires
            width > 0,
            height > 0,
            width * height <= usize::MAX,
            denominator > 0,
            numerator <= denominator,
        ensures
            field.wf(),
            field@.board.width == width,
            field@.board.height == height,
            field@.clicked == Set::<Cell>::empty(),
            numerator == 0 ==> field@.board.bombs == Set::<Cell>::empty(),
            numerator == denominator ==> field@.board.bombs == field@.board.cells(),
    {
        let bombs = draw_bombs(width * height, numerator, denominator);
        let ghost flags = bombs@;
        let field = Field::with_bombs(width, height, bombs).unwrap();
        proof {
            assert forall|c: Cell| #[trigger] field@.board.in_bounds(c) implies {
                &&& 0 <= c.1 * width + c.0 < flags.len()
                &&& field@.board.bombs.contains(c) == flags[c.1 * width + c.0]
            } by {
                lemma_index(width as int, height as int, c.0, c.1);
            }
            assert forall|c: Cell| #[trigger]
                field@.board.bombs.contains(c) implies field@.board.in_bounds(c) by {}
        }
        field
    }

    /// Width and height of the field.
    pub fn size(&self) -> (size: Size)
        ensures
            size.0 == self@.board.width,
            size.1 == self@.board.height,
    {
        self.size
    }

    /// The row-major index of a cell of the field.
    fn index(&self, x: usize, y: usize) -> (i: usize)
        requires
            self.shaped(),
            x < self.size.0,
            y < self.size.1,
        ensures
            i == y * self.size.0 + x,
            i < self.size.0 * self.size.1,
    {
        proof {
            lemma_index(self.size.0 as int, self.size.1 as int, x as int, y as int);
            assert(self.bombs@.len() == self.bombs.len());
        }
        y * self.size.0 + x
    }

    /// Whether a bomb lies at `(x, y)`.
    pub fn bomb_at(&self, x: usize, y: usize) -> (r: Result<bool, FieldError>)
        requires
            self.wf(),
        ensures
            r == checked(
                self@.board,
                (x as int, y as int),
                self@.board.bombs.contains((x as int, y as int)),
            ),
    {
        if x >= self.size.0 || y >= self.size.1 {
            return Err(FieldError::OutOfBounds);
        }
        let i = self.index(x, y);
        Ok(self.bombs[i])
    }

    /// Whether the cell at `(x, y)` has been uncovered.
    pub fn clicked_at(&self, x: usize, y: usize) -> (r: Result<bool, FieldError>)
        requires
            self.wf(),
        ensures
            r == checked(
                self@.board,
                (x as int, y as int),
                self@.clicked.contains((x as int, y as int)),
            ),
    {
        if x >= self.size.0 || y >= self.size.1 {
            return Err(FieldError::OutOfBounds);
        }
        let i = self.index(x, y);
        Ok(self.clicked[i])
    }

    /// The cells of the field that touch `(x, y)`, column by column.
    fn around(&self, x: usize, y: usize) -> (v: Vec<(usize, usize)>)
        requires
            self.shaped(),
            x < self.size.0,
            y < self.size.1,
        ensures
            lists(v@, self@.board.surrounding((x as int, y as int))),
            v@.len() <= 8,
    {
        let ghost c = (x as int, y as int);
        let ghost sur = self@.board.surrounding(c);
        let mut v: Vec<(usize, usize)> = Vec::new();
        let mut i: usize = 0;
        while i < 3
            invariant
                i <= 3,
                x < self.size.0,
                y < self.size.1,
                c == (x as int, y as int),
                sur == self@.board.surrounding(c),
                scan(v@, sur, c, i as int, 0),
            decreases 3 - i,
        {
            let mut j: usize = 0;
            while j < 3
                invariant
                    i < 3,
                    j <= 3,
                    x < self.size.0,
                    y < self.size.1,
                    c == (x as int, y as int),
                    sur == self@.board.surrounding(c),
                    scan(v@, sur, c, i as int, j as int),
                decreases 3 - j,
            {
                let fits_x = if i == 0 {
                    x > 0
                } else {
                    i - 1 < self.size.0 - x
                };
                let fits_y = if j == 0 {
                    y > 0
                } else {
                    j - 1 < self.size.1 - y
                };
                let ghost before = v@;
                if (i != 1 || j != 1) && fits_x && fits_y {
                    let nx = if i == 0 {
                        x - 1
                    } else {
                        x + (i - 1)
                    };
                    let ny = if j == 0 {
                        y - 1
                    } else {
                        y + (j - 1)
                    };
                    v.push((nx, ny));
                }
                proof {
                    // The one cell that this step meets is the one just pushed.
                    let met = sur.filter(|d: Cell| scanned(c, d, i as int, j as int));
                    let next = sur.filter(|d: Cell| scanned(c, d, i as int, j + 1));
                    assert forall|k: int| 0 <= k < before.len() implies v@[k] == before[k] by {}
                    assert forall|d: Cell| #[trigger] next.contains(d) implies exists|k: int|
                        0 <= k < v@.len() && as_cell(#[trigger] v@[k]) == d by {
                        if !met.contains(d) {
                            assert(as_cell(v@[before.len() as int]) == d);
                        }
                    }
                }
                j += 1;
            }
            assert(sur.filter(|d: Cell| scanned(c, d, i as int, 3)) =~= sur.filter(
                |d: Cell| scanned(c, d, i + 1, 0),
            ));
            i += 1;
        }
        proof {
            assert(sur.filter(|d: Cell| scanned(c, d, 3, 0)) =~= sur);
            lemma_lists_len(v@, sur);
            lemma_surrounding_finite(self@.board, c);
        }
        v
    }

    /// The number of bombs among the cells that touch `(x, y)`.
    fn bombs_around(&self, x: usize, y: usize) -> (count: u32)
        requires
            self.shaped(),
            x < self.size.0,
            y < self.size.1,
        ensures
            count == self@.board.num_surrounding_bombs((x as int, y as int)),
            count <= 8,
    {
        let ghost c = (x as int, y as int);
        let ghost sur = self@.board.surrounding(c);
        let ghost bombs = self@.board.bombs;
        let v = self.around(x, y);
        let mut count: u32 = 0;
        let mut k: usize = 0;
        proof {
            lemma_surrounding_finite(self@.board, c);
            assert(first_cells(v@, 0).intersect(bombs) =~= Set::<Cell>::empty());
        }
        while k < v.len()
            invariant
                k <= v@.len(),
                self.shaped(),
                sur == self@.board.surrounding(c),
                bombs == self@.board.bombs,
                sur.finite(),
                sur.len() <= 8,
                lists(v@, sur),
                count == first_cells(v@, k as int).intersect(bombs).len(),
            decreases v@.len() - k,
        {
            let (nx, ny) = v[k];
            let ghost d = as_cell(v@[k as int]);
            let i = self.index(nx, ny);
            proof {
                // The cell in hand was not seen before, so a bomb on it adds
                // one to the bombs seen.
                let seen = first_cells(v@, k as int);
                let next = first_cells(v@, k + 1);
                vstd::set_lib::lemma_len_subset(seen.intersect(bombs), sur);
                vstd::set_lib::lemma_len_subset(next.intersect(bombs), sur);
                if bombs.contains(d) {
                    assert(next.intersect(bombs) =~= seen.intersect(bombs).insert(d));
                } else {
                    assert(next.intersect(bombs) =~= seen.intersect(bombs));
                }
            }
            if self.bombs[i] {
                count += 1;
            }
            k += 1;
        }
        assert(first_cells(v@, v@.len() as int) =~= sur);
        count
    }

    /// The cells of the field that touch `(x, y)`: the up to eight neighbours
    /// that lie inside the field, each once, ordered by column, then by row.
    pub fn surrounding_positions(&self, x: usize, y: usize) -> (r: Result<
        Vec<(usize, usize)>,
        FieldError,
    >)
        requires
            self.wf(),
        ensures
            match r {
                Ok(v) => self@.board.in_bounds((x as int, y as int)) && v@.len() <= 8 && lists(
                    v@,
                    self@.board.surrounding((x as int, y as int)),
                ),
                Err(e) => !self@.board.in_bounds((x as int, y as int)) && e
                    == FieldError::OutOfBounds,
            },
    {
        if x >= self.size.0 || y >= self.size.1 {
            return Err(FieldError::OutOfBounds);
        }
        Ok(self.around(x, y))
    }

    /// The number of bombs among the cells that touch `(x, y)`, which is at
    /// most 8. It is the number to show on the cell once it is uncovered.
    pub fn num_surrounding_bombs(&self, x: usize, y: usize) -> (r: Result<u32, FieldError>)
        requires
            self.wf(),
        ensures
            match r {
                Ok(count) => self@.board.in_bounds((x as int, y as int)) && count
                    == self@.board.num_surrounding_bombs((x as int, y as int)) && count <= 8,
                Err(e) => !self@.board.in_bounds((x as int, y as int)) && e
                    == FieldError::OutOfBounds,
            },
    {
        if x >= self.size.0 || y >= self.size.1 {
            return Err(FieldError::OutOfBounds);
        }
        Ok(self.bombs_around(x, y))
    }

    /// A cascade from `c` is under way on what was the field `start`: so far
    /// it has uncovered cells of the cascade only, `c` among them, and it has
    /// gone on from every cell but those in the work list and the one in hand.
    spec fn under_way(
        &self,
        start: FieldView,
        c: Cell,
        pending: Seq<(usize, usize)>,
        hand: Option<Cell>,
    ) -> bool {
        &&& self.shaped()
        &&& self@.board == start.board
        &&& start.clicked.subset_of(self@.clicked)
        &&& self@.clicked.subset_of(start.click(c).clicked)
        &&& self@.clicked.contains(c)
        &&& forall|k: int|
            0 <= k < pending.len() ==> start.board.cascade(c).contains(
                as_cell(#[trigger] pending[k]),
            )
        &&& settled_but(start.board, self@.clicked, pending, hand)
    }

    /// Uncovers one cell. A cell that was still covered joins the work list.
    fn uncover(&mut self, pending: &mut Vec<(usize, usize)>, x: usize, y: usize)
        requires
            old(self).shaped(),
            old(self)@.board.in_bounds((x as int, y as int)),
        ensures
            final(self).shaped(),
            final(self)@.board == old(self)@.board,
            final(self)@.clicked == old(self)@.clicked.insert((x as int, y as int)),
            final(pending)@ == if old(self)@.clicked.contains((x as int, y as int)) {
                old(pending)@
            } else {
                old(pending)@.push((x, y))
            },
    {
        let i = self.index(x, y);
        proof {
            lemma_index(self.size.0 as int, self.size.1 as int, x as int, y as int);
        }
        if !self.clicked[i] {
            proof {
                lemma_mark(
                    self.size.0 as nat,
                    self.size.1 as nat,
                    self.clicked@,
                    x as int,
                    y as int,
                );
            }
            self.clicked[i] = true;
            pending.push((x, y));
        }
    }

    /// Uncovers the cell at `(x, y)`. Where that cell holds no bomb and
    /// touches none, the cells around it are uncovered too, and so on from
    /// each of them: in the end exactly the cascade of `(x, y)` has been
    /// added, in whatever order the cells were visited. A click on a cell
    /// that is already uncovered changes nothing.
    ///
    /// The cascade uncovers no bomb, so the player has lost exactly when
    /// `bomb_at(x, y)` holds afterwards.
    pub fn click(&mut self, x: usize, y: usize) -> (r: Result<(), FieldError>)
        requires
            old(self).wf(),
        ensures
            final(self).wf(),
            r == checked(old(self)@.board, (x as int, y as int), ()),
            r is Ok ==> final(self)@ == old(self)@.click((x as int, y as int)),
            r is Err ==> final(self)@ == old(self)@,
    {
        if x >= self.size.0 || y >= self.size.1 {
            return Err(FieldError::OutOfBounds);
        }
        let ghost start = self@;
        let ghost board = start.board;
        let ghost c = (x as int, y as int);
        let mut pending: Vec<(usize, usize)> = Vec::new();
        self.uncover(&mut pending, x, y);
        proof {
            lemma_cells_len(board);
            lemma_cascade_start(board, c);
            // What was uncovered before is settled; the clicked cell, if it is
            // new, waits in the work list.
            assert forall|u: Cell, d: Cell|
                #![trigger self@.clicked.contains(u), board.surrounding(u).contains(d)]
                self@.clicked.contains(u) && board.spreads(u) && board.surrounding(u).contains(
                    d,
                ) implies self@.clicked.contains(d) || waits(pending@, u) by {
                if !start.clicked.contains(u) {
                    assert(as_cell(pending@[0]) == u);
                }
            }
        }
        while pending.len() > 0
            invariant
                start == old(self)@,
                board == start.board,
                board.cells().finite(),
                self.under_way(start, c, pending@, None),
            decreases board.cells().difference(self@.clicked).len(), pending@.len(),
        {
            let ghost covered = board.cells().difference(self@.clicked).len();
            let ghost waiting = pending@;
            let (cx, cy) = pending.pop().unwrap();
            let ghost u = (cx as int, cy as int);
            proof {
                lemma_cascade_in_bounds(board, c);
                // Every cell that waited still waits, but for the one in hand.
                assert forall|w: Cell| waits(waiting, w) implies waits(pending@, w) || w == u by {
                    let k = choose|k: int|
                        0 <= k < waiting.len() && as_cell(#[trigger] waiting[k]) == w;
                    if k < pending@.len() {
                        assert(as_cell(pending@[k]) == w);
                    }
                }
            }
            let i = self.index(cx, cy);
            proof {
                lemma_index(self.size.0 as int, self.size.1 as int, cx as int, cy as int);
            }
            if !self.bombs[i] && self.bombs_around(cx, cy) == 0 {
                let near = self.around(cx, cy);
                let mut k: usize = 0;
                while k < near.len()
                    invariant
                        k <= near@.len(),
                        start == old(self)@,
                        board == start.board,
                        board.cells().finite(),
                        self.under_way(start, c, pending@, Some(u)),
                        board.spreads(u),
                        board.cascade(c).contains(u),
                        lists(near@, board.surrounding(u)),
                        forall|l: int|
                            0 <= l < k ==> self@.clicked.contains(as_cell(#[trigger] near@[l])),
                        board.cells().difference(self@.clicked).len() < covered || (
                        board.cells().difference(self@.clicked).len() == covered && pending@.len()
                            == waiting.len() - 1),
                    decreases near@.len() - k,
                {
                    let (nx, ny) = near[k];
                    let ghost d = as_cell(near@[k as int]);
                    let ghost shown = self@.clicked;
                    let ghost stack = pending@;
                    self.uncover(&mut pending, nx, ny);
                    proof {
                        lemma_cascade_step(board, c, u, d);
                        // A cell that was still covered has left the covered
                        // ones and joined the work list; else nothing changed.
                        let hidden = board.cells().difference(shown);
                        if shown.contains(d) {
                            assert(self@.clicked =~= shown);
                        } else {
                            assert(board.cells().difference(self@.clicked) =~= hidden.remove(d));
                            assert(as_cell(pending@[stack.len() as int]) == d);
                        }
                        assert forall|w: Cell| waits(stack, w) implies waits(pending@, w) by {
                            let l = choose|l: int|
                                0 <= l < stack.len() && as_cell(#[trigger] stack[l]) == w;
                            assert(as_cell(pending@[l]) == w);
                        }
                    }
                    k += 1;
                }
            }
        }
        proof {
            // With nothing left waiting the uncovered cells are settled, so
            // the whole cascade is among them.
            lemma_cascade_within(board, self@.clicked, c);
            assert(self@.clicked =~= start.click(c).clicked);
        }
        Ok(())
    }

    /// Whether every cell of the field is uncovered.
    pub fn has_won(&self) -> (won: bool)
        requires
            self.wf(),
        ensures
            won == self@.has_won(),
            won == (self@.clicked.len() == self@.board.width * self@.board.height),
    {
        let mut won = true;
        let mut i: usize = 0;
        while i < self.size.0
            invariant
                self.shaped(),
                i <= self.size.0,
                won == forall|c: Cell|
                    self@.board.in_bounds(c) && precedes(c, (i as int, 0))
                        ==> #[trigger] self@.clicked.contains(c),
            decreases self.size.0 - i,
        {
            let mut j: usize = 0;
            while j < self.size.1
                invariant
                    self.shaped(),
                    i < self.size.0,
                    j <= self.size.1,
                    won == forall|c: Cell|
                        self@.board.in_bounds(c) && precedes(c, (i as int, j as int))
                            ==> #[trigger] self@.clicked.contains(c),
                decreases self.size.1 - j,
            {
                let k = self.index(i, j);
                if !self.clicked[k] {
                    assert(!self@.clicked.contains((i as int, j as int)));
                    won = false;
                }
                j += 1;
            }
            i += 1;
        }
        proof {
            lemma_full_cover(self@);
            if won {
                assert(self@.clicked =~= self@.board.cells());
            }
        }
        won
    }
}

} // verus!
