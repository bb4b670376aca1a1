use vstd::prelude::*;
use crate::geometry::{lemma_cell_at, word_fits, cell_at, in_range, pt, to_xy, Orientation, XY};

verus! {

/// The character that marks a cell on which two different letters met.
pub const CONFLICT_CHAR: char = '!';

/// One occupied cell: where it is, what it shows now, and the letter that
/// first landed on it (under which the cell is indexed).
#[derive(Clone, Copy, Debug, PartialEq, Eq, Structural)]
pub struct Cell {
    pub pos: XY,
    pub ch: char,
    pub first: char,
}

pub open spec fn is_at(c: Cell, p: (int, int)) -> bool {
    pt(c.pos) == p
}

/// Whether some cell of `cells` lies at `p`.
pub open spec fn taken(cells: Seq<Cell>, p: (int, int)) -> bool {
    exists|k: int| 0 <= k < cells.len() && is_at(#[trigger] cells[k], p)
}

/// No two cells share a position.
pub open spec fn distinct(cells: Seq<Cell>) -> bool {
    forall|i: int, j: int|
        0 <= i < cells.len() && 0 <= j < cells.len() && i != j ==> #[trigger] cells[i].pos
            != #[trigger] cells[j].pos
}

pub open spec fn index_of(cells: Seq<Cell>, p: (int, int)) -> int {
    choose|k: int| 0 <= k < cells.len() && is_at(cells[k], p)
}

/// What the grid shows at `p`, if anything.
pub open spec fn char_at(cells: Seq<Cell>, p: (int, int)) -> Option<char> {
    if taken(cells, p) {
        Some(cells[index_of(cells, p)].ch)
    } else {
        None
    }
}

/// The grid after the letter `c` is put at `p`: a free cell takes it, a
/// cell showing `c` stays, any other cell turns into the conflict marker.
pub open spec fn put_char(cells: Seq<Cell>, p: (int, int), c: char) -> Seq<Cell> {
    if taken(cells, p) {
        let k = index_of(cells, p);
        if cells[k].ch == c {
            cells
        } else {
            cells.update(k, Cell { pos: cells[k].pos, ch: CONFLICT_CHAR, first: cells[k].first })
        }
    } else {
        cells.push(Cell { pos: to_xy(p), ch: c, first: c })
    }
}

/// Putting `c` at `p` meets the same letter already there.
pub open spec fn is_crossing(cells: Seq<Cell>, p: (int, int), c: char) -> bool {
    char_at(cells, p) == Some(c)
}

/// Putting `c` at `p` meets a different character already there.
pub open spec fn is_clash(cells: Seq<Cell>, p: (int, int), c: char) -> bool {
    taken(cells, p) && char_at(cells, p) != Some(c)
}

/// The grid after the first `n` letters of `w` are put from `pos` on.
pub open spec fn put_word(cells: Seq<Cell>, w: Seq<char>, pos: XY, o: Orientation, n: nat) -> Seq<
    Cell,
>
    decreases n,
{
    if n == 0 {
        cells
    } else {
        put_char(put_word(cells, w, pos, o, (n - 1) as nat), cell_at(pos, o, n - 1), w[n - 1])
    }
}

/// How many of the first `n` letters of `w` land on the same letter.
pub open spec fn word_crossings(cells: Seq<Cell>, w: Seq<char>, pos: XY, o: Orientation, n: nat) -> nat
    decreases n,
{
    if n == 0 {
        0
    } else {
        word_crossings(cells, w, pos, o, (n - 1) as nat) + if is_crossing(
            put_word(cells, w, pos, o, (n - 1) as nat),
            cell_at(pos, o, n - 1),
            w[n - 1],
        ) {
            1nat
        } else {
            0nat
        }
    }
}

/// Whether one of the first `n` letters of `w` lands on a different character.
pub open spec fn word_clashes(cells: Seq<Cell>, w: Seq<char>, pos: XY, o: Orientation, n: nat) -> bool
    decreases n,
{
    n > 0 && (word_clashes(cells, w, pos, o, (n - 1) as nat) || is_clash(
        put_word(cells, w, pos, o, (n - 1) as nat),
        cell_at(pos, o, n - 1),
        w[n - 1],
    ))
}

pub open spec fn positions(cells: Seq<Cell>) -> Seq<XY> {
    cells.map_values(|c: Cell| c.pos)
}

pub open spec fn min32(a: i32, b: i32) -> i32 {
    if a < b {
        a
    } else {
        b
    }
}

pub open spec fn max32(a: i32, b: i32) -> i32 {
    if a > b {
        a
    } else {
        b
    }
}

/// The top-left corner of the smallest rectangle holding all of `ps`.
pub open spec fn low_corner(ps: Seq<XY>) -> Option<XY>
    decreases ps.len(),
{
    if ps.len() == 0 {
        None
    } else {
        let p = ps.last();
        match low_corner(ps.drop_last()) {
            None => Some(p),
            Some(t) => Some(XY { x: min32(p.x, t.x), y: min32(p.y, t.y) }),
        }
    }
}

/// The bottom-right corner of the smallest rectangle holding all of `ps`.
pub open spec fn high_corner(ps: Seq<XY>) -> Option<XY>
    decreases ps.len(),
{
    if ps.len() == 0 {
        None
    } else {
        let p = ps.last();
        match high_corner(ps.drop_last()) {
            None => Some(p),
            Some(t) => Some(XY { x: max32(p.x, t.x), y: max32(p.y, t.y) }),
        }
    }
}

pub proof fn lemma_positions_push(cells: Seq<Cell>, c: Cell)
    ensures
        positions(cells.push(c)) == positions(cells).push(c.pos),
{
    assert(positions(cells.push(c)) =~= positions(cells).push(c.pos));
}

pub proof fn lemma_put_char_keeps(cells: Seq<Cell>, p: (int, int), c: char)
    requires
        distinct(cells),
        in_range(p),
    ensures
        distinct(put_char(cells, p, c)),
        taken(cells, p) ==> positions(put_char(cells, p, c)) == positions(cells),
        !taken(cells, p) ==> positions(put_char(cells, p, c)) == positions(cells).push(to_xy(p)),
        forall|q: (int, int)| taken(put_char(cells, p, c), q) <==> (taken(cells, q) || q == p),
{
    let r = put_char(cells, p, c);
    if taken(cells, p) {
        let k = index_of(cells, p);
        assert(positions(r) =~= positions(cells));
        assert forall|q: (int, int)| taken(r, q) <==> (taken(cells, q) || q == p) by {
            if taken(cells, q) {
                let j = choose|j: int| 0 <= j < cells.len() && is_at(cells[j], q);
                assert(is_at(r[j], q));
            }
            if taken(r, q) {
                let j = choose|j: int| 0 <= j < r.len() && is_at(r[j], q);
                assert(is_at(cells[j], q));
            }
            if q == p {
                assert(is_at(r[k], q));
            }
        }
    } else {
        lemma_positions_push(cells, Cell { pos: to_xy(p), ch: c, first: c });
        assert forall|i: int, j: int|
            0 <= i < r.len() && 0 <= j < r.len() && i != j implies #[trigger] r[i].pos
            != #[trigger] r[j].pos by {
            if i == cells.len() {
                assert(!is_at(cells[j], p));
            } else if j == cells.len() {
                assert(!is_at(cells[i], p));
            }
        }
        assert forall|q: (int, int)| taken(r, q) <==> (taken(cells, q) || q == p) by {
            if taken(cells, q) {
                let j = choose|j: int| 0 <= j < cells.len() && is_at(cells[j], q);
                assert(is_at(r[j], q));
            }
            if taken(r, q) {
                let j = choose|j: int| 0 <= j < r.len() && is_at(r[j], q);
                if j < cells.len() {
                    assert(is_at(cells[j], q));
                }
            }
            if q == p {
                assert(is_at(r[cells.len() as int], q));
            }
        }
    }
}

/// What `insert_char` found at the cell.
pub enum CharInsertResult {
    /// The cell was free and now holds the letter.
    First,
    /// The cell already held the same letter.
    Taken,
}

/// A sparse grid of characters.
#[derive(Clone, Debug)]
pub struct CharMap {
    cells: Vec<Cell>,
    top_left: Option<XY>,
    /// Bottom-right corner inside the layout rectangle.
    bottom_right: Option<XY>,
    /// Whether two different letters ever met on one cell.
    has_conflict: bool,
}

impl CharMap {
    /// The occupied cells, in the order in which they were first filled.
    pub closed spec fn cells(&self) -> Seq<Cell> {
        self.cells@
    }

    pub closed spec fn conflicted(&self) -> bool {
        self.has_conflict
    }

    pub closed spec fn corners(&self) -> (Option<XY>, Option<XY>) {
        (self.top_left, self.bottom_right)
    }

    pub open spec fn wf(&self) -> bool {
        &&& distinct(self.cells())
        &&& self.corners() == (low_corner(positions(self.cells())), high_corner(
            positions(self.cells()),
        ))
    }

    pub fn new() -> (r: CharMap)
        ensures
            r.wf(),
            r.cells() == Seq::<Cell>::empty(),
            !r.conflicted(),
    {
        CharMap { cells: Vec::new(), top_left: None, bottom_right: None, has_conflict: false }
    }

    /// A copy of this grid.
    pub fn duplicate(&self) -> (r: CharMap)
        ensures
            r.cells() == self.cells(),
            r.corners() == self.corners(),
            r.conflicted() == self.conflicted(),
    {
        let mut cells: Vec<Cell> = Vec::new();
        let mut i: usize = 0;
        while i < self.cells.len()
            invariant
                i <= self.cells@.len(),
                cells@ == self.cells@.subrange(0, i as int),
            decreases self.cells@.len() - i,
        {
            cells.push(self.cells[i]);
            i += 1;
        }
        assert(cells@ =~= self.cells@);
        CharMap {
            cells,
            top_left: self.top_left,
            bottom_right: self.bottom_right,
            has_conflict: self.has_conflict,
        }
    }

    pub fn top_left(&self) -> (r: Option<XY>)
        ensures
            r == self.corners().0,
    {
        self.top_left
    }

    pub fn bottom_right(&self) -> (r: Option<XY>)
        ensures
            r == self.corners().1,
    {
        self.bottom_right
    }

    pub fn cell_list(&self) -> (r: &Vec<Cell>)
        ensures
            r@ == self.cells(),
    {
        &self.cells
    }

    /// Where in the list the cell at `(x, y)` stands, if it is occupied.
    fn find(&self, x: i64, y: i64) -> (r: Option<usize>)
        ensures
            r.is_none() <==> !taken(self.cells(), (x as int, y as int)),
            r.is_some() ==> r.unwrap() < self.cells().len() && is_at(
                self.cells()[r.unwrap() as int],
                (x as int, y as int),
            ),
    {
        let mut i: usize = 0;
        while i < self.cells.len()
            invariant
                i <= self.cells@.len(),
                forall|j: int| 0 <= j < i ==> !is_at(#[trigger] self.cells@[j], (x as int, y as int)),
            decreases self.cells@.len() - i,
        {
            let c = self.cells[i];
            if c.pos.x as i64 == x && c.pos.y as i64 == y {
                return Some(i);
            }
            i += 1;
        }
        None
    }

    /// Whether the cell at `(x, y)` is occupied.
    pub fn is_pos_taken(&self, x: i64, y: i64) -> (r: bool)
        ensures
            r == taken(self.cells(), (x as int, y as int)),
    {
        self.find(x, y).is_some()
    }

    /// What the grid shows at `(x, y)`.
    pub fn get(&self, x: i64, y: i64) -> (r: Option<char>)
        requires
            self.wf(),
        ensures
            r == char_at(self.cells(), (x as int, y as int)),
    {
        match self.find(x, y) {
            Some(i) => {
                proof {
                    let p = (x as int, y as int);
                    let k = index_of(self.cells(), p);
                    assert(self.cells()[k].pos == self.cells()[i as int].pos);
                }
                Some(self.cells[i].ch)
            },
            None => None,
        }
    }

    pub fn is_empty(&self) -> (r: bool)
        ensures
            r == (self.cells().len() == 0),
    {
        self.cells.len() == 0
    }

    fn update_corners(&mut self, pos: XY)
        ensures
            final(self).cells == old(self).cells,
            final(self).has_conflict == old(self).has_conflict,
            final(self).top_left == Some(
                match old(self).top_left {
                    None => pos,
                    Some(t) => XY { x: min32(pos.x, t.x), y: min32(pos.y, t.y) },
                },
            ),
            final(self).bottom_right == Some(
                match old(self).bottom_right {
                    None => pos,
                    Some(t) => XY { x: max32(pos.x, t.x), y: max32(pos.y, t.y) },
                },
            ),
    {
        self.top_left = Some(
            match self.top_left {
                Some(t) => XY {
                    x: if pos.x < t.x {
                        pos.x
                    } else {
                        t.x
                    },
                    y: if pos.y < t.y {
                        pos.y
                    } else {
                        t.y
                    },
                },
                None => pos,
            },
        );
        self.bottom_right = Some(
            match self.bottom_right {
                Some(t) => XY {
                    x: if pos.x > t.x {
                        pos.x
                    } else {
                        t.x
                    },
                    y: if pos.y > t.y {
                        pos.y
                    } else {
                        t.y
                    },
                },
                None => pos,
            },
        );
    }

    /// Puts one letter on the grid; see `put_char`.
    pub fn insert_char(&mut self, pos: XY, c: char) -> (r: Result<CharInsertResult, ()>)
        requires
            old(self).wf(),
        ensures
            final(self).wf(),
            final(self).cells() == put_char(old(self).cells(), pt(pos), c),
            final(self).conflicted() == (old(self).conflicted() || is_clash(
                old(self).cells(),
                pt(pos),
                c,
            )),
            r is Err <==> is_clash(old(self).cells(), pt(pos), c),
            r matches Ok(CharInsertResult::Taken) <==> is_crossing(old(self).cells(), pt(pos), c),
            r matches Ok(CharInsertResult::First) <==> !taken(old(self).cells(), pt(pos)),
    {
        let ghost old_cells = self.cells@;
        let ghost p = pt(pos);
        proof {
            assert(to_xy(p) == pos);
            lemma_put_char_keeps(old_cells, p, c);
        }
        match self.find(pos.x as i64, pos.y as i64) {
            Some(i) => {
                proof {
                    let k = index_of(old_cells, p);
                    assert(old_cells[k].pos == old_cells[i as int].pos);
                }
                let cur = self.cells[i];
                if cur.ch == c {
                    Ok(CharInsertResult::Taken)
                } else {
                    self.has_conflict = true;
                    self.cells.set(i, Cell { pos: cur.pos, ch: CONFLICT_CHAR, first: cur.first });
                    self.update_corners(pos);
                    proof {
                        let ps = positions(old_cells);
                        assert(ps[i as int] == pos);
                        lemma_corner_member(ps, i as int);
                    }
                    Err(())
                }
            },
            None => {
                self.cells.push(Cell { pos, ch: c, first: c });
                self.update_corners(pos);
                proof {
                    assert(self.cells@ =~= put_char(old_cells, p, c));
                    assert(positions(old_cells).push(pos).drop_last() =~= positions(old_cells));
                }
                Ok(CharInsertResult::First)
            },
        }
    }
}

impl CharMap {
    /// Puts the letters of `w` one by one from `pos` on; see `put_word`.
    /// On a clash the grid keeps what was put, marker included.
    pub fn insert_word(&mut self, w: &Vec<char>, pos: XY, o: Orientation) -> (r: Result<usize, ()>)
        requires
            old(self).wf(),
            word_fits(pos, o, w@.len() as int),
        ensures
            final(self).wf(),
            final(self).cells() == put_word(old(self).cells(), w@, pos, o, w@.len()),
            final(self).conflicted() == (old(self).conflicted() || word_clashes(
                old(self).cells(),
                w@,
                pos,
                o,
                w@.len(),
            )),
            r is Err <==> word_clashes(old(self).cells(), w@, pos, o, w@.len()),
            r is Ok ==> r.unwrap() == word_crossings(old(self).cells(), w@, pos, o, w@.len()),
    {
        let ghost start = self.cells();
        let n = w.len();
        let mut is_conflict = false;
        let mut crossing_count: usize = 0;
        let mut i: usize = 0;
        while i < n
            invariant
                n == w@.len(),
                i <= n,
                word_fits(pos, o, n as int),
                self.wf(),
                self.cells() == put_word(start, w@, pos, o, i as nat),
                self.conflicted() == (old(self).conflicted() || word_clashes(start, w@, pos, o, i as nat)),
                is_conflict == word_clashes(start, w@, pos, o, i as nat),
                crossing_count == word_crossings(start, w@, pos, o, i as nat),
                crossing_count <= i,
            decreases n - i,
        {
            let here = match o {
                Orientation::Horiz => XY { x: (pos.x as i64 + i as i64) as i32, y: pos.y },
                Orientation::Vert => XY { x: pos.x, y: (pos.y as i64 + i as i64) as i32 },
            };
            assert(pt(here) == cell_at(pos, o, i as int));
            match self.insert_char(here, w[i]) {
                Ok(CharInsertResult::First) => {},
                Ok(CharInsertResult::Taken) => {
                    crossing_count += 1;
                },
                Err(_) => {
                    is_conflict = true;
                },
            }
            i += 1;
        }
        if is_conflict {
            Err(())
        } else {
            Ok(crossing_count)
        }
    }
}

/// Putting a letter at `p` leaves every other cell as it was.
pub proof fn lemma_put_char_other(cells: Seq<Cell>, p: (int, int), c: char, q: (int, int))
    requires
        distinct(cells),
        in_range(p),
        q != p,
    ensures
        taken(put_char(cells, p, c), q) == taken(cells, q),
        char_at(put_char(cells, p, c), q) == char_at(cells, q),
{
    lemma_put_char_keeps(cells, p, c);
    let r = put_char(cells, p, c);
    if taken(cells, q) {
        let j = index_of(r, q);
        let i = index_of(cells, q);
        if taken(cells, p) {
            let k = index_of(cells, p);
            assert(j != k || r == cells);
            assert(r[j] == cells[j]);
        } else {
            assert(j < cells.len());
            assert(r[j] == cells[j]);
        }
        assert(cells[i].pos == cells[j].pos);
    }
}

/// Putting a letter at `p` shows there the letter itself or the conflict marker.
pub proof fn lemma_put_char_here(cells: Seq<Cell>, p: (int, int), c: char)
    requires
        distinct(cells),
        in_range(p),
    ensures
        is_crossing(cells, p, c) ==> char_at(put_char(cells, p, c), p) == Some(c),
        !taken(cells, p) ==> char_at(put_char(cells, p, c), p) == Some(c),
        is_clash(cells, p, c) ==> char_at(put_char(cells, p, c), p) == Some(CONFLICT_CHAR),
{
    lemma_put_char_keeps(cells, p, c);
    let r = put_char(cells, p, c);
    if taken(cells, p) {
        let k = index_of(cells, p);
        let j = index_of(r, p);
        assert(r[j].pos == r[k].pos);
    } else {
        let j = index_of(r, p);
        assert(r[cells.len() as int].pos == r[j].pos);
    }
}

/// While a straight word is put letter by letter, the cells it has not
/// reached yet show what they showed before it.
pub proof fn lemma_put_word_ahead(cells: Seq<Cell>, w: Seq<char>, pos: XY, o: Orientation, k: nat, q: (int, int))
    requires
        distinct(cells),
        k <= w.len(),
        word_fits(pos, o, w.len() as int),
        forall|i: int| 0 <= i < k ==> cell_at(pos, o, i) != q,
    ensures
        distinct(put_word(cells, w, pos, o, k)),
        taken(put_word(cells, w, pos, o, k), q) == taken(cells, q),
        char_at(put_word(cells, w, pos, o, k), q) == char_at(cells, q),
    decreases k,
{
    if k > 0 {
        lemma_put_word_ahead(cells, w, pos, o, (k - 1) as nat, q);
        let prev = put_word(cells, w, pos, o, (k - 1) as nat);
        lemma_word_cell_in_range(pos, o, w.len() as int, k - 1);
        assert(cell_at(pos, o, k - 1) != q);
        lemma_put_char_keeps(prev, cell_at(pos, o, k - 1), w[k - 1]);
        lemma_put_char_other(prev, cell_at(pos, o, k - 1), w[k - 1], q);
    }
}

/// Every letter of a word that fits lands on a cell an `XY` can hold.
pub proof fn lemma_word_cell_in_range(pos: XY, o: Orientation, n: int, i: int)
    requires
        word_fits(pos, o, n),
        0 <= i < n,
    ensures
        in_range(cell_at(pos, o, i)),
{
    lemma_cell_at(pos, o, i);
    lemma_cell_at(pos, o, n - 1);
}

/// Distinct letters of a straight word land on distinct cells.
pub proof fn lemma_word_cells_distinct(pos: XY, o: Orientation, i: int, j: int)
    requires
        i != j,
    ensures
        cell_at(pos, o, i) != cell_at(pos, o, j),
{
    lemma_cell_at(pos, o, i);
    lemma_cell_at(pos, o, j);
}

/// Adding a point already among `ps` leaves the rectangle as it is.
pub proof fn lemma_corner_member(ps: Seq<XY>, i: int)
    requires
        0 <= i < ps.len(),
    ensures
        low_corner(ps) == Some(
            XY { x: min32(ps[i].x, low_corner(ps).unwrap().x), y: min32(ps[i].y, low_corner(ps).unwrap().y) },
        ),
        high_corner(ps) == Some(
            XY { x: max32(ps[i].x, high_corner(ps).unwrap().x), y: max32(ps[i].y, high_corner(ps).unwrap().y) },
        ),
    decreases ps.len(),
{
    if i < ps.len() - 1 {
        lemma_corner_member(ps.drop_last(), i);
    } else if ps.len() > 1 {
        lemma_corner_member(ps.drop_last(), 0);
    }
}

} // verus!
