use vstd::prelude::*;

use crate::cell::{
    spec_code, spec_encode, spec_passable, BaseTerrain, Cell, CellAnimation, CellContent,
    EncodedCellValue, Team,
};

verus! {

/// The spatial truth of a match: a grid of cells stored row by row.
pub struct Board {
    pub rows: usize,
    pub cols: usize,
    pub cells: Vec<Cell>,
}

/// Which occupants a scan looks for.
#[derive(Debug, Clone, Copy, PartialEq, Eq, Structural)]
pub enum ScanFilter {
    /// Champions, minions, towers and bases of the other team.
    EnemyOf(Team),
    /// Like `EnemyOf`, and neutral monsters as well.
    EnemyOrMonster(Team),
    /// Champions and minions of the other team.
    EnemyUnitsOf(Team),
    /// Any champion.
    Champions,
}

pub open spec fn content_team(c: CellContent) -> Option<Team> {
    match c {
        CellContent::Champion(_, t) => Some(t),
        CellContent::Minion(_, t) => Some(t),
        CellContent::Tower(_, t) => Some(t),
        CellContent::Base(t) => Some(t),
        _ => None,
    }
}

pub open spec fn spec_matches(f: ScanFilter, content: Option<CellContent>) -> bool {
    match content {
        None => false,
        Some(c) => match f {
            ScanFilter::EnemyOf(t) => content_team(c) == Some(t.opponent_spec()),
            ScanFilter::EnemyOrMonster(t) => content_team(c) == Some(t.opponent_spec())
                || c is Monster,
            ScanFilter::EnemyUnitsOf(t) => (c is Champion || c is Minion) && content_team(c)
                == Some(t.opponent_spec()),
            ScanFilter::Champions => c is Champion,
        },
    }
}

fn spec_matches_exec(f: ScanFilter, content: &Option<CellContent>) -> (r: bool)
    ensures
        r == spec_matches(f, *content),
{
    match content {
        None => false,
        Some(c) => {
            let team = match c {
                CellContent::Champion(_, t) => Some(*t),
                CellContent::Minion(_, t) => Some(*t),
                CellContent::Tower(_, t) => Some(*t),
                CellContent::Base(t) => Some(*t),
                _ => None,
            };
            match f {
                ScanFilter::EnemyOf(t) => team == Some(t.opponent()),
                ScanFilter::EnemyOrMonster(t) => team == Some(t.opponent()) || matches!(c, CellContent::Monster(_)),
                ScanFilter::EnemyUnitsOf(t) => matches!(c, CellContent::Champion(_, _) | CellContent::Minion(_, _))
                    && team == Some(t.opponent()),
                ScanFilter::Champions => matches!(c, CellContent::Champion(_, _)),
            }
        },
    }
}

impl Team {
    pub open spec fn opponent_spec(self) -> Team {
        match self {
            Team::Blue => Team::Red,
            Team::Red => Team::Blue,
        }
    }
}

pub open spec fn abs_diff(a: int, b: int) -> int {
    if a >= b { a - b } else { b - a }
}

/// Chebyshev distance: the side of the smallest square around one cell
/// that reaches the other.
pub open spec fn dist(r1: int, c1: int, r2: int, c2: int) -> int {
    let dr = abs_diff(r1, r2);
    let dc = abs_diff(c1, c2);
    if dr >= dc { dr } else { dc }
}

/// Row-major order on positions.
pub open spec fn row_major_le(r1: int, c1: int, r2: int, c2: int) -> bool {
    r1 < r2 || (r1 == r2 && c1 <= c2)
}

pub open spec fn row_major_lt(r1: int, c1: int, r2: int, c2: int) -> bool {
    r1 < r2 || (r1 == r2 && c1 < c2)
}

/// `(r1, c1)` is preferred over `(r2, c2)` as a scan result seen from the origin.
pub open spec fn preferred(or: int, oc: int, r1: int, c1: int, r2: int, c2: int) -> bool {
    dist(or, oc, r1, c1) < dist(or, oc, r2, c2) || (dist(or, oc, r1, c1) == dist(
        or,
        oc,
        r2,
        c2,
    ) && row_major_le(r1, c1, r2, c2))
}

/// Run-length encoding of a sequence, built from the front: each element
/// extends the last run when it repeats its value, or opens a new run.
pub open spec fn spec_rle(s: Seq<u8>) -> Seq<(u8, usize)>
    decreases s.len(),
{
    if s.len() == 0 {
        Seq::empty()
    } else {
        let prev = spec_rle(s.drop_last());
        let v = s.last();
        if prev.len() > 0 && prev.last().0 == v {
            prev.update(prev.len() - 1, (v, (prev.last().1 + 1) as usize))
        } else {
            prev.push((v, 1usize))
        }
    }
}

/// The sum of the run lengths.
pub open spec fn run_total(runs: Seq<(u8, usize)>) -> nat
    decreases runs.len(),
{
    if runs.len() == 0 {
        0
    } else {
        run_total(runs.drop_last()) + runs.last().1 as nat
    }
}

/// The sequence that a list of runs stands for.
pub open spec fn expand(runs: Seq<(u8, usize)>) -> Seq<u8>
    decreases runs.len(),
{
    if runs.len() == 0 {
        Seq::empty()
    } else {
        expand(runs.drop_last()) + Seq::new(runs.last().1 as nat, |j: int| runs.last().0)
    }
}

/// Every run is non-empty and no two neighbouring runs hold the same value.
pub open spec fn runs_maximal(runs: Seq<(u8, usize)>) -> bool {
    &&& forall|k: int| 0 <= k < runs.len() ==> (#[trigger] runs[k]).1 >= 1
    &&& forall|k: int| 0 <= k < runs.len() - 1 ==> (#[trigger] runs[k]).0 != runs[k + 1].0
}

pub proof fn lemma_index_in_bounds(r: int, c: int, rows: int, cols: int)
    requires
        0 <= r < rows,
        0 <= c < cols,
    ensures
        0 <= r * cols + c < rows * cols,
{
    assert(r * cols + c < rows * cols) by (nonlinear_arith)
        requires
            0 <= r < rows,
            0 <= c < cols,
    ;
    assert(0 <= r * cols) by (nonlinear_arith)
        requires
            0 <= r,
            0 <= c < cols,
    ;
}

pub proof fn lemma_index_distinct(r1: int, c1: int, r2: int, c2: int, cols: int)
    requires
        0 <= r1,
        0 <= r2,
        0 <= c1 < cols,
        0 <= c2 < cols,
        r1 != r2 || c1 != c2,
    ensures
        r1 * cols + c1 != r2 * cols + c2,
{
    if r1 < r2 {
        assert(r1 * cols + c1 < r2 * cols + c2) by (nonlinear_arith)
            requires
                r1 < r2,
                0 <= c1 < cols,
                0 <= c2,
        ;
    } else if r2 < r1 {
        assert(r2 * cols + c2 < r1 * cols + c1) by (nonlinear_arith)
            requires
                r2 < r1,
                0 <= c2 < cols,
                0 <= c1,
        ;
    }
}

/// The encoding has the runs of the sequence: they expand back to it, their
/// lengths add up to its length, and they are maximal.
pub proof fn lemma_rle_properties(s: Seq<u8>)
    requires
        s.len() <= usize::MAX,
    ensures
        expand(spec_rle(s)) == s,
        run_total(spec_rle(s)) == s.len(),
        runs_maximal(spec_rle(s)),
        forall|k: int| 0 <= k < spec_rle(s).len() ==> (#[trigger] spec_rle(s)[k]).1 <= s.len(),
        s.len() > 0 ==> spec_rle(s).len() > 0 && spec_rle(s).last().0 == s.last(),
    decreases s.len(),
{
    if s.len() > 0 {
        let p = s.drop_last();
        lemma_rle_properties(p);
        let prev = spec_rle(p);
        let v = s.last();
        let runs = spec_rle(s);
        if prev.len() > 0 && prev.last().0 == v {
            let n = prev.last().1;
            assert(runs.drop_last() =~= prev.drop_last());
            assert(Seq::new((n + 1) as nat, |j: int| v) =~= Seq::new(n as nat, |j: int| v).push(v));
            assert(expand(prev) == expand(prev.drop_last()) + Seq::new(n as nat, |j: int| v));
            let e = expand(prev.drop_last());
            assert(runs.last() == (v, (n + 1) as usize));
            assert(expand(runs) == e + Seq::new((n + 1) as nat, |j: int| v));
            assert(e + Seq::new(n as nat, |j: int| v).push(v) =~= (e + Seq::new(
                n as nat,
                |j: int| v,
            )).push(v));
            assert(expand(runs) =~= expand(prev).push(v));
            assert(s =~= p.push(v));
        } else {
            assert(runs.drop_last() =~= prev);
            assert(Seq::new(1, |j: int| v) =~= seq![v]);
            assert(s =~= p.push(v));
        }
    }
}

/// Whatever the board holds, the run lengths of its encoding add up to the
/// number of its cells.
pub proof fn lemma_encoding_covers_board(b: Board)
    requires
        b.wf(),
    ensures
        run_total(b.encoding()) == b.rows * b.cols,
        expand(b.encoding()) == b.codes(),
        runs_maximal(b.encoding()),
{
    lemma_rle_properties(b.codes());
}

/// Encoding depends on the board's state alone: two boards with the same
/// dimensions and cells, or one board encoded twice, give the same runs.
pub proof fn lemma_encoding_deterministic(b1: Board, b2: Board)
    requires
        b1.cells@ == b2.cells@,
    ensures
        b1.encoding() == b2.encoding(),
{
    assert(b1.codes() =~= b2.codes());
}

/// At most one cell is preferred over every candidate.
pub proof fn lemma_nearest_unique(
    b: Board,
    f: ScanFilter,
    or: int,
    oc: int,
    radius: int,
    r1: int,
    c1: int,
    r2: int,
    c2: int,
)
    requires
        b.is_nearest(f, or, oc, radius, r1, c1),
        b.is_nearest(f, or, oc, radius, r2, c2),
    ensures
        r1 == r2 && c1 == c2,
{
    assert(preferred(or, oc, r1, c1, r2, c2));
    assert(preferred(or, oc, r2, c2, r1, c1));
}

/// `b2` has the same size as `b1`, and every destroyed-tower cell of `b1`
/// with no occupant is still one in `b2`.
pub open spec fn keeps_destroyed(b1: Board, b2: Board) -> bool {
    &&& b1.rows == b2.rows
    &&& b1.cols == b2.cols
    &&& forall|r: int, c: int| #[trigger] b1.destroyed_at(r, c) ==> b2.destroyed_at(r, c)
}

pub proof fn lemma_keeps_destroyed_trans(a: Board, b: Board, c: Board)
    requires
        keeps_destroyed(a, b),
        keeps_destroyed(b, c),
    ensures
        keeps_destroyed(a, c),
{
    assert forall|r: int, cc: int| #[trigger] a.destroyed_at(r, cc) implies c.destroyed_at(r, cc) by {
        assert(b.destroyed_at(r, cc));
    }
}

/// Replacing one cell keeps every other cell, and keeps the replaced one a
/// destroyed-tower cell when the replacement is one too.
pub proof fn lemma_with_cell_keeps_destroyed(b1: Board, b2: Board, r: int, c: int, cell: Cell)
    requires
        b1.wf(),
        b2.rows == b1.rows,
        b2.cols == b1.cols,
        b2.cells@ == b1.with_cell(r, c, cell),
        b1.destroyed_at(r, c) ==> cell.base == BaseTerrain::TowerDestroyed && cell.content.is_none(),
    ensures
        keeps_destroyed(b1, b2),
{
    assert forall|x: int, y: int| #[trigger] b1.destroyed_at(x, y) implies b2.destroyed_at(x, y) by {
        lemma_index_in_bounds(x, y, b1.rows as int, b1.cols as int);
        if b1.in_bounds(r, c) {
            lemma_index_in_bounds(r, c, b1.rows as int, b1.cols as int);
            if x != r || y != c {
                lemma_index_distinct(x, y, r, c, b1.cols as int);
            }
        }
    }
}

impl Board {
    pub open spec fn destroyed_at(&self, r: int, c: int) -> bool {
        &&& self.in_bounds(r, c)
        &&& self.cell_at(r, c).base == BaseTerrain::TowerDestroyed
        &&& self.cell_at(r, c).content.is_none()
    }

    pub open spec fn wf(&self) -> bool {
        &&& self.cells@.len() == self.rows * self.cols
        &&& self.rows * self.cols <= usize::MAX
        &&& self.rows <= 65536
        &&& self.cols <= 65536
    }

    pub open spec fn cells_view(&self) -> Seq<Cell> {
        self.cells@
    }

    pub open spec fn in_bounds(&self, r: int, c: int) -> bool {
        0 <= r < self.rows && 0 <= c < self.cols
    }

    pub open spec fn cell_at(&self, r: int, c: int) -> Cell {
        self.cells@[r * self.cols + c]
    }

    pub open spec fn passable_at(&self, r: int, c: int) -> bool {
        self.in_bounds(r, c) && spec_passable(self.cell_at(r, c))
    }

    /// The encoded values of all cells in row-major order.
    pub open spec fn codes(&self) -> Seq<u8> {
        Seq::new(self.cells@.len(), |i: int| spec_code(spec_encode(self.cells@[i])))
    }

    /// The board's run-length encoding.
    pub open spec fn encoding(&self) -> Seq<(u8, usize)> {
        spec_rle(self.codes())
    }

    /// The cells that a scan with these parameters may report.
    pub open spec fn candidate(
        &self,
        f: ScanFilter,
        or: int,
        oc: int,
        radius: int,
        r: int,
        c: int,
    ) -> bool {
        &&& self.in_bounds(r, c)
        &&& dist(or, oc, r, c) <= radius
        &&& spec_matches(f, self.cell_at(r, c).content)
    }

    /// `(r, c)` is the cell a scan reports: a candidate preferred over every
    /// other candidate.
    pub open spec fn is_nearest(
        &self,
        f: ScanFilter,
        or: int,
        oc: int,
        radius: int,
        r: int,
        c: int,
    ) -> bool {
        &&& self.candidate(f, or, oc, radius, r, c)
        &&& forall|r2: int, c2: int|
            #[trigger] self.candidate(f, or, oc, radius, r2, c2) ==> preferred(or, oc, r, c, r2, c2)
    }

    /// The cell a scan reports, if any candidate exists.
    pub open spec fn nearest(&self, f: ScanFilter, or: int, oc: int, radius: int) -> Option<(int, int)> {
        if exists|r: int, c: int| #[trigger] self.is_nearest(f, or, oc, radius, r, c) {
            Some(choose|r: int, c: int| #[trigger] self.is_nearest(f, or, oc, radius, r, c))
        } else {
            None
        }
    }

    /// The board after replacing the cell at `(r, c)`, or the board itself
    /// when `(r, c)` lies outside it.
    pub open spec fn with_cell(&self, r: int, c: int, cell: Cell) -> Seq<Cell> {
        if self.in_bounds(r, c) {
            self.cells@.update(r * self.cols + c, cell)
        } else {
            self.cells@
        }
    }

    /// A board of `rows` x `cols` empty cells whose terrain is given row by row.
    pub fn new(rows: usize, cols: usize, terrain: &Vec<BaseTerrain>) -> (b: Board)
        requires
            terrain@.len() == rows * cols,
            rows * cols <= usize::MAX,
            rows <= 65536,
            cols <= 65536,
        ensures
            b.wf(),
            b.rows == rows,
            b.cols == cols,
            forall|r: int, c: int|
                #![trigger b.cell_at(r, c)]
                b.in_bounds(r, c) ==> b.cell_at(r, c).base == terrain@[r * cols + c]
                    && b.cell_at(r, c).content.is_none() && b.cell_at(r, c).animation.is_none()
                    && b.cell_at(r, c).position == (r as u16, c as u16),
    {
        let mut cells: Vec<Cell> = Vec::new();
        let mut r: usize = 0;
        while r < rows
            invariant
                0 <= r <= rows,
                rows <= 65536,
                cols <= 65536,
                rows * cols <= usize::MAX,
                terrain@.len() == rows * cols,
                cells@.len() == r * cols,
                forall|rr: int, cc: int|
                    #![trigger cells@[rr * cols + cc]]
                    0 <= rr < r && 0 <= cc < cols ==> cells@[rr * cols + cc].base == terrain@[rr
                        * cols + cc] && cells@[rr * cols + cc].content.is_none()
                        && cells@[rr * cols + cc].animation.is_none() && cells@[rr * cols
                        + cc].position == (rr as u16, cc as u16),
            decreases rows - r,
        {
            let mut c: usize = 0;
            while c < cols
                invariant
                    0 <= r < rows,
                    0 <= c <= cols,
                    rows <= 65536,
                    cols <= 65536,
                    rows * cols <= usize::MAX,
                    terrain@.len() == rows * cols,
                    cells@.len() == r * cols + c,
                    forall|rr: int, cc: int|
                        #![trigger cells@[rr * cols + cc]]
                        (0 <= rr < r && 0 <= cc < cols) || (rr == r && 0 <= cc < c)
                            ==> cells@[rr * cols + cc].base == terrain@[rr * cols + cc]
                            && cells@[rr * cols + cc].content.is_none()
                            && cells@[rr * cols + cc].animation.is_none() && cells@[rr * cols
                            + cc].position == (rr as u16, cc as u16),
                decreases cols - c,
            {
                proof {
                    lemma_index_in_bounds(r as int, c as int, rows as int, cols as int);
                }
                let i = r * cols + c;
                let cell = Cell::new(terrain[i], (r as u16, c as u16));
                cells.push(cell);
                proof {
                    assert forall|rr: int, cc: int|
                        (0 <= rr < r && 0 <= cc < cols) || (rr == r && 0 <= cc < c + 1) implies
                        #[trigger] cells@[rr * cols + cc].base == terrain@[rr * cols + cc]
                        && cells@[rr * cols + cc].content.is_none()
                        && cells@[rr * cols + cc].animation.is_none() && cells@[rr * cols
                        + cc].position == (rr as u16, cc as u16) by {
                        if rr != r || cc != c {
                            lemma_index_distinct(rr, cc, r as int, c as int, cols as int);
                            if rr < r {
                                assert(rr * cols + cc < r * cols) by (nonlinear_arith)
                                    requires
                                        0 <= rr < r,
                                        0 <= cc < cols,
                                ;
                            }
                        }
                    }
                }
                c = c + 1;
            }
            assert((r + 1) * cols == r * cols + cols) by (nonlinear_arith);
            r = r + 1;
        }
        let b = Board { rows, cols, cells };
        assert forall|r: int, c: int|
            #![trigger b.cell_at(r, c)]
            b.in_bounds(r, c) implies b.cell_at(r, c).base == terrain@[r * cols + c]
                && b.cell_at(r, c).content.is_none() && b.cell_at(r, c).animation.is_none()
                && b.cell_at(r, c).position == (r as u16, c as u16) by {
            assert(cells@[r * cols + c] == b.cell_at(r, c));
        }
        b
    }

    fn index_of(&self, r: usize, c: usize) -> (i: Option<usize>)
        requires
            self.wf(),
        ensures
            i.is_some() <==> self.in_bounds(r as int, c as int),
            i.is_some() ==> i.unwrap() == r * self.cols + c && i.unwrap() < self.cells@.len(),
    {
        if r < self.rows && c < self.cols {
            proof {
                lemma_index_in_bounds(r as int, c as int, self.rows as int, self.cols as int);
            }
            Some(r * self.cols + c)
        } else {
            None
        }
    }

    pub fn get_cell(&self, r: usize, c: usize) -> (res: Option<&Cell>)
        requires
            self.wf(),
        ensures
            res.is_some() <==> self.in_bounds(r as int, c as int),
            res.is_some() ==> *res.unwrap() == self.cell_at(r as int, c as int),
    {
        match self.index_of(r, c) {
            Some(i) => Some(&self.cells[i]),
            None => None,
        }
    }

    /// Whether a unit could step onto `(r, c)`; false outside the board.
    pub fn is_passable(&self, r: usize, c: usize) -> (res: bool)
        requires
            self.wf(),
        ensures
            res == self.passable_at(r as int, c as int),
    {
        match self.index_of(r, c) {
            Some(i) => self.cells[i].is_passable(),
            None => false,
        }
    }

    /// Puts `content` on `(r, c)`, replacing what stood there; does nothing
    /// outside the board.
    pub fn place_cell(&mut self, content: CellContent, r: usize, c: usize)
        requires
            old(self).wf(),
        ensures
            final(self).wf(),
            final(self).rows == old(self).rows,
            final(self).cols == old(self).cols,
            final(self).cells@ == old(self).with_cell(
                r as int,
                c as int,
                Cell { content: Some(content), ..old(self).cell_at(r as int, c as int) },
            ),
    {
        if let Some(i) = self.index_of(r, c) {
            let mut cell = self.cells[i];
            cell.content = Some(content);
            self.cells.set(i, cell);
        }
    }

    /// Removes the content of `(r, c)`; terrain and animation stay.
    pub fn clear_cell(&mut self, r: usize, c: usize)
        requires
            old(self).wf(),
        ensures
            final(self).wf(),
            final(self).rows == old(self).rows,
            final(self).cols == old(self).cols,
            final(self).cells@ == old(self).with_cell(
                r as int,
                c as int,
                Cell { content: None, ..old(self).cell_at(r as int, c as int) },
            ),
    {
        if let Some(i) = self.index_of(r, c) {
            let mut cell = self.cells[i];
            cell.content = None;
            self.cells.set(i, cell);
        }
    }

    pub fn place_animation(&mut self, animation: CellAnimation, r: usize, c: usize)
        requires
            old(self).wf(),
        ensures
            final(self).wf(),
            final(self).rows == old(self).rows,
            final(self).cols == old(self).cols,
            final(self).cells@ == old(self).with_cell(
                r as int,
                c as int,
                Cell { animation: Some(animation), ..old(self).cell_at(r as int, c as int) },
            ),
    {
        if let Some(i) = self.index_of(r, c) {
            let mut cell = self.cells[i];
            cell.animation = Some(animation);
            self.cells.set(i, cell);
        }
    }

    pub fn clean_animation(&mut self, r: usize, c: usize)
        requires
            old(self).wf(),
        ensures
            final(self).wf(),
            final(self).rows == old(self).rows,
            final(self).cols == old(self).cols,
            final(self).cells@ == old(self).with_cell(
                r as int,
                c as int,
                Cell { animation: None, ..old(self).cell_at(r as int, c as int) },
            ),
    {
        if let Some(i) = self.index_of(r, c) {
            let mut cell = self.cells[i];
            cell.animation = None;
            self.cells.set(i, cell);
        }
    }

    /// The nearest cell within `radius` (Chebyshev distance) of the origin
    /// whose content matches `filter`; among equally near cells the first in
    /// row-major order.
    pub fn scan_nearest(&self, orow: usize, ocol: usize, radius: usize, filter: ScanFilter) -> (res:
        Option<(usize, usize)>)
        requires
            self.wf(),
        ensures
            res.is_none() ==> forall|r: int, c: int|
                !(#[trigger] self.candidate(filter, orow as int, ocol as int, radius as int, r, c)),
            res.is_none() ==> self.nearest(filter, orow as int, ocol as int, radius as int).is_none(),
            res.is_some() ==> self.nearest(filter, orow as int, ocol as int, radius as int) == Some(
                (res.unwrap().0 as int, res.unwrap().1 as int),
            ),
            res.is_some() ==> {
                let (br, bc) = res.unwrap();
                &&& self.candidate(filter, orow as int, ocol as int, radius as int, br as int, bc as int)
                &&& forall|r: int, c: int|
                    #[trigger] self.candidate(filter, orow as int, ocol as int, radius as int, r, c)
                        ==> preferred(orow as int, ocol as int, br as int, bc as int, r, c)
            },
    {
        if self.rows == 0 || self.cols == 0 {
            assert(!exists|r: int, c: int|
                #[trigger] self.is_nearest(filter, orow as int, ocol as int, radius as int, r, c));
            return None;
        }
        let r_lo: usize = if orow >= radius { orow - radius } else { 0 };
        let r_hi: usize = if orow < self.rows && radius < self.rows - orow {
            orow + radius + 1
        } else {
            self.rows
        };
        let c_lo: usize = if ocol >= radius { ocol - radius } else { 0 };
        let c_hi: usize = if ocol < self.cols && radius < self.cols - ocol {
            ocol + radius + 1
        } else {
            self.cols
        };
        let mut best: Option<(usize, usize)> = None;
        let mut best_d: usize = 0;
        let mut r: usize = r_lo;
        while r < r_hi
            invariant
                self.wf(),
                r_lo <= r,
                r_hi <= self.rows,
                c_hi <= self.cols,
                forall|rr: int, cc: int|
                    self.in_bounds(rr, cc) && dist(orow as int, ocol as int, rr, cc) <= radius
                        ==> r_lo <= rr < r_hi && c_lo <= cc < c_hi,
                best.is_some() ==> {
                    let (br, bc) = best.unwrap();
                    &&& self.candidate(filter, orow as int, ocol as int, radius as int, br as int, bc as int)
                    &&& best_d == dist(orow as int, ocol as int, br as int, bc as int)
                    &&& br < r
                },
                forall|rr: int, cc: int|
                    #[trigger] self.candidate(filter, orow as int, ocol as int, radius as int, rr, cc)
                        && rr < r ==> best.is_some() && preferred(
                        orow as int,
                        ocol as int,
                        best.unwrap().0 as int,
                        best.unwrap().1 as int,
                        rr,
                        cc,
                    ),
            decreases r_hi - r,
        {
            let mut c: usize = c_lo;
            while c < c_hi
                invariant
                    self.wf(),
                    r_lo <= r < r_hi,
                    r_hi <= self.rows,
                    c_lo <= c,
                    c_hi <= self.cols,
                    forall|rr: int, cc: int|
                        self.in_bounds(rr, cc) && dist(orow as int, ocol as int, rr, cc) <= radius
                            ==> r_lo <= rr < r_hi && c_lo <= cc < c_hi,
                    best.is_some() ==> {
                        let (br, bc) = best.unwrap();
                        &&& self.candidate(filter, orow as int, ocol as int, radius as int, br as int, bc as int)
                        &&& best_d == dist(orow as int, ocol as int, br as int, bc as int)
                        &&& row_major_lt(br as int, bc as int, r as int, c as int)
                    },
                    forall|rr: int, cc: int|
                        #[trigger] self.candidate(filter, orow as int, ocol as int, radius as int, rr, cc)
                            && row_major_lt(rr, cc, r as int, c as int) ==> best.is_some()
                            && preferred(
                            orow as int,
                            ocol as int,
                            best.unwrap().0 as int,
                            best.unwrap().1 as int,
                            rr,
                            cc,
                        ),
                decreases c_hi - c,
            {
                proof {
                    lemma_index_in_bounds(r as int, c as int, self.rows as int, self.cols as int);
                }
                let dr: usize = if r >= orow { r - orow } else { orow - r };
                let dc: usize = if c >= ocol { c - ocol } else { ocol - c };
                let d: usize = if dr >= dc { dr } else { dc };
                if d <= radius && spec_matches_exec(filter, &self.cells[r * self.cols + c].content) {
                    if best.is_none() || d < best_d {
                        best = Some((r, c));
                        best_d = d;
                    }
                }
                c = c + 1;
            }
            r = r + 1;
        }
        proof {
            let (o1, o2, rad) = (orow as int, ocol as int, radius as int);
            if best.is_some() {
                let (br, bc) = best.unwrap();
                assert(self.is_nearest(filter, o1, o2, rad, br as int, bc as int));
                let (cr, cc) = choose|r: int, c: int| #[trigger] self.is_nearest(filter, o1, o2, rad, r, c);
                lemma_nearest_unique(*self, filter, o1, o2, rad, br as int, bc as int, cr, cc);
            } else {
                assert(!exists|r: int, c: int| #[trigger] self.is_nearest(filter, o1, o2, rad, r, c));
            }
        }
        best
    }

    /// The board's encoded cells in row-major order, as (value, run length)
    /// pairs. The viewer's position is reserved for cropping to a viewport;
    /// the whole board is encoded.
    pub fn run_length_encode(&self, viewer_row: u16, viewer_col: u16) -> (runs: Vec<(u8, usize)>)
        requires
            self.wf(),
        ensures
            runs@ == self.encoding(),
    {
        let n = self.cells.len();
        let mut runs: Vec<(u8, usize)> = Vec::new();
        let mut i: usize = 0;
        while i < n
            invariant
                n == self.cells@.len(),
                0 <= i <= n,
                runs@ == spec_rle(self.codes().take(i as int)),
            decreases n - i,
        {
            let v = EncodedCellValue::of_cell(&self.cells[i]).code();
            proof {
                let t = self.codes().take(i as int + 1);
                assert(t.drop_last() =~= self.codes().take(i as int));
                assert(t.last() == v);
                lemma_rle_properties(self.codes().take(i as int));
            }
            let len = runs.len();
            if len > 0 && runs[len - 1].0 == v {
                let count = runs[len - 1].1;
                runs.set(len - 1, (v, count + 1));
            } else {
                runs.push((v, 1));
            }
            i = i + 1;
        }
        assert(self.codes().take(n as int) =~= self.codes());
        runs
    }

    /// Changes the terrain of `(r, c)`; content and animation stay.
    pub fn set_terrain(&mut self, base: BaseTerrain, r: usize, c: usize)
        requires
            old(self).wf(),
        ensures
            final(self).wf(),
            final(self).rows == old(self).rows,
            final(self).cols == old(self).cols,
            final(self).cells@ == old(self).with_cell(
                r as int,
                c as int,
                Cell { base, ..old(self).cell_at(r as int, c as int) },
            ),
    {
        if let Some(i) = self.index_of(r, c) {
            let mut cell = self.cells[i];
            cell.base = base;
            self.cells.set(i, cell);
        }
    }
}

} // verus!
