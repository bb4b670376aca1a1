use vstd::prelude::*;
use crate::char_map::{
    is_clash, char_at, distinct, high_corner, low_corner, positions, put_word, taken, word_clashes,
    word_crossings, Cell, CharMap,
};
use crate::geometry::{lemma_cell_at, across_of, cell_at, in_range, pt, to_xy, word_fits, Orientation, XY};

verus! {

/// A word together with the cell of its first letter and its direction.
#[derive(Clone, Debug)]
pub struct WordPosition {
    pub word: String,
    pub pos: XY,
    pub orientation: Orientation,
}

/// What a placement is: the letters, the start cell, the direction.
pub struct Placed {
    pub word: Seq<char>,
    pub pos: XY,
    pub orientation: Orientation,
}

impl View for WordPosition {
    type V = Placed;

    open spec fn view(&self) -> Placed {
        Placed { word: self.word@, pos: self.pos, orientation: self.orientation }
    }
}

impl WordPosition {
    /// A copy of this placement.
    pub fn duplicate(&self) -> (r: WordPosition)
        ensures
            r == *self,
    {
        WordPosition { word: self.word.clone(), pos: self.pos, orientation: self.orientation }
    }
}

/// Relies on `String`'s `FromIterator<char>`: collecting characters gives
/// the string of exactly those characters, in order.
#[verifier::external_body]
fn string_from(chars: &Vec<char>) -> (r: String)
    ensures
        r@ == chars@,
{
    chars.iter().collect()
}

/// The characters of `s`.
pub fn chars_of(s: &str) -> (r: Vec<char>)
    ensures
        r@ == s@,
{
    let n = s.unicode_len();
    let mut r: Vec<char> = Vec::new();
    let mut i: usize = 0;
    while i < n
        invariant
            n == s@.len(),
            i <= n,
            r@ == s@.subrange(0, i as int),
        decreases n - i,
    {
        r.push(s.get_char(i));
        i += 1;
    }
    assert(r@ =~= s@);
    r
}

/// The grid that placing `ws` one after another gives.
pub open spec fn grid_of(ws: Seq<Placed>) -> Seq<Cell>
    decreases ws.len(),
{
    if ws.len() == 0 {
        Seq::empty()
    } else {
        let w = ws.last();
        put_word(grid_of(ws.drop_last()), w.word, w.pos, w.orientation, w.word.len())
    }
}

/// Whether placing the last of `ws` on the grid of the others meets a
/// different letter.
pub open spec fn last_clashes(ws: Seq<Placed>) -> bool {
    let w = ws.last();
    word_clashes(grid_of(ws.drop_last()), w.word, w.pos, w.orientation, w.word.len())
}

/// The crossings counted while placing `ws` one after another: a placement
/// that clashed counts none.
pub open spec fn crossings_of(ws: Seq<Placed>) -> nat
    decreases ws.len(),
{
    if ws.len() == 0 {
        0
    } else {
        let w = ws.last();
        crossings_of(ws.drop_last()) + if last_clashes(ws) {
            0nat
        } else {
            word_crossings(grid_of(ws.drop_last()), w.word, w.pos, w.orientation, w.word.len())
        }
    }
}

/// Whether some placement of `ws` met a different letter.
pub open spec fn clash_of(ws: Seq<Placed>) -> bool
    decreases ws.len(),
{
    ws.len() > 0 && (clash_of(ws.drop_last()) || last_clashes(ws))
}

/// The number of letters in `ws`.
pub open spec fn total_len(ws: Seq<Placed>) -> nat
    decreases ws.len(),
{
    if ws.len() == 0 {
        0
    } else {
        total_len(ws.drop_last()) + ws.last().word.len()
    }
}

/// Every word of `ws` lies on cells that an `XY` can hold.
pub open spec fn all_fit(ws: Seq<Placed>) -> bool {
    forall|i: int|
        0 <= i < ws.len() ==> word_fits(#[trigger] ws[i].pos, ws[i].orientation, ws[i].word.len() as int)
}

/// Width times height of the smallest rectangle holding every occupied cell.
pub open spec fn area_of(cells: Seq<Cell>) -> nat {
    match (low_corner(positions(cells)), high_corner(positions(cells))) {
        (Some(a), Some(b)) => ((b.x - a.x + 1) * (b.y - a.y + 1)) as nat,
        _ => 0,
    }
}

pub proof fn lemma_word_crossings_bound(cells: Seq<Cell>, w: Seq<char>, pos: XY, o: Orientation, n: nat)
    ensures
        word_crossings(cells, w, pos, o, n) <= n,
    decreases n,
{
    if n > 0 {
        lemma_word_crossings_bound(cells, w, pos, o, (n - 1) as nat);
    }
}

pub proof fn lemma_crossings_bound(ws: Seq<Placed>)
    ensures
        crossings_of(ws) <= total_len(ws),
    decreases ws.len(),
{
    if ws.len() > 0 {
        let w = ws.last();
        lemma_crossings_bound(ws.drop_last());
        lemma_word_crossings_bound(grid_of(ws.drop_last()), w.word, w.pos, w.orientation, w.word.len());
    }
}

pub proof fn lemma_corners_ordered(ps: Seq<XY>)
    requires
        ps.len() > 0,
    ensures
        low_corner(ps).unwrap().x <= high_corner(ps).unwrap().x,
        low_corner(ps).unwrap().y <= high_corner(ps).unwrap().y,
    decreases ps.len(),
{
    if ps.len() > 1 {
        lemma_corners_ordered(ps.drop_last());
    }
}

/// Some letter of `w`, placed from `pos` on, would land on a cell showing
/// a different character.
pub open spec fn clashes_with(cells: Seq<Cell>, w: Seq<char>, pos: XY, o: Orientation) -> bool {
    exists|i: int| 0 <= i < w.len() && #[trigger] is_clash(cells, cell_at(pos, o, i), w[i])
}

pub open spec fn offset(p: (int, int), d: (int, int)) -> (int, int) {
    (p.0 + d.0, p.1 + d.1)
}

/// The free cell at offset `i` of the word has an occupied neighbour
/// beside it.
pub open spec fn side_touch(cells: Seq<Cell>, pos: XY, o: Orientation, i: int) -> bool {
    let c = cell_at(pos, o, i);
    let a = across_of(o);
    !taken(cells, c) && (taken(cells, offset(c, a)) || taken(cells, offset(c, (-a.0, -a.1))))
}

/// A word of length `n` placed from `pos` on would extend a word in line
/// (the cell just before or just after it is occupied), or would lie side
/// by side with one without crossing it.
pub open spec fn touches(cells: Seq<Cell>, n: int, pos: XY, o: Orientation) -> bool {
    ||| taken(cells, cell_at(pos, o, -1))
    ||| taken(cells, cell_at(pos, o, n))
    ||| exists|i: int| 0 <= i < n && #[trigger] side_touch(cells, pos, o, i)
}

/// Letter `i` of `w` placed from `pos` on lands on cell `k`, which was
/// first filled with that same letter.
pub open spec fn anchor(cells: Seq<Cell>, w: Seq<char>, pos: XY, o: Orientation, i: int, k: int) -> bool {
    0 <= i < w.len() && 0 <= k < cells.len() && cells[k].first == w[i] && pt(cells[k].pos) == cell_at(pos, o, i)
}

/// `w` may start at `pos` in direction `o`: some of its letters meet the
/// same letter already on the grid, none meets a different one, it fits,
/// and it touches no word but where it crosses.
pub open spec fn is_candidate(cells: Seq<Cell>, w: Seq<char>, pos: XY, o: Orientation) -> bool {
    &&& word_fits(pos, o, w.len() as int)
    &&& !clashes_with(cells, w, pos, o)
    &&& !touches(cells, w.len() as int, pos, o)
    &&& exists|i: int, k: int| #[trigger] anchor(cells, w, pos, o, i, k)
}

/// The start from which letter `i` of a word in direction `o` lands on `p`.
pub open spec fn start_from(p: XY, o: Orientation, i: int) -> (int, int) {
    cell_at(p, o, -i)
}

pub proof fn lemma_cell_shift(p: XY, o: Orientation, a: int, b: int)
    requires
        in_range(cell_at(p, o, a)),
    ensures
        cell_at(to_xy(cell_at(p, o, a)), o, b) == cell_at(p, o, a + b),
        pt(to_xy(cell_at(p, o, a))) == cell_at(p, o, a),
{
    match o {
        Orientation::Horiz => {},
        Orientation::Vert => {},
    }
}

pub proof fn lemma_fits_len(pos: XY, o: Orientation, n: int)
    requires
        word_fits(pos, o, n),
        n >= 0,
    ensures
        n <= 0x1_0000_0000,
{
    match o {
        Orientation::Horiz => {},
        Orientation::Vert => {},
    }
}

pub open spec fn orient(oi: int) -> Orientation {
    if oi == 0 {
        Orientation::Horiz
    } else {
        Orientation::Vert
    }
}

/// The start found from letter `i` and cell `k` in direction `o`, where it
/// is a candidate, is among `r`.
pub open spec fn covers(r: Seq<(XY, Orientation)>, cells: Seq<Cell>, w: Seq<char>, i: int, o: Orientation, k: int) -> bool {
    let s = start_from(cells[k].pos, o, i);
    (cells[k].first == w[i] && in_range(s) && is_candidate(cells, w, to_xy(s), o)) ==> r.contains((to_xy(s), o))
}

pub proof fn lemma_push_contains<A>(s: Seq<A>, e: A)
    ensures
        forall|x: A| s.contains(x) ==> #[trigger] s.push(e).contains(x),
        s.push(e).contains(e),
{
    assert forall|x: A| s.contains(x) implies #[trigger] s.push(e).contains(x) by {
        let j = choose|j: int| 0 <= j < s.len() && s[j] == x;
        assert(s.push(e)[j] == x);
    }
    assert(s.push(e)[s.len() as int] == e);
}

/// The smallest column of a start cell in `ws` (0 when `ws` is empty).
pub open spec fn low_x(ws: Seq<Placed>) -> int
    decreases ws.len(),
{
    if ws.len() == 0 {
        0
    } else if ws.len() == 1 {
        ws[0].pos.x as int
    } else {
        let m = low_x(ws.drop_last());
        if ws.last().pos.x < m {
            ws.last().pos.x as int
        } else {
            m
        }
    }
}

/// The smallest row of a start cell in `ws` (0 when `ws` is empty).
pub open spec fn low_y(ws: Seq<Placed>) -> int
    decreases ws.len(),
{
    if ws.len() == 0 {
        0
    } else if ws.len() == 1 {
        ws[0].pos.y as int
    } else {
        let m = low_y(ws.drop_last());
        if ws.last().pos.y < m {
            ws.last().pos.y as int
        } else {
            m
        }
    }
}

/// `ws` with every start cell moved by `(-dx, -dy)`.
pub open spec fn shift(ws: Seq<Placed>, dx: int, dy: int) -> Seq<Placed> {
    ws.map_values(
        |w: Placed|
            Placed {
                word: w.word,
                pos: to_xy((w.pos.x - dx, w.pos.y - dy)),
                orientation: w.orientation,
            },
    )
}

/// `ws` moved so that the smallest start column and row are 0.
pub open spec fn normalized(ws: Seq<Placed>) -> Seq<Placed> {
    shift(ws, low_x(ws), low_y(ws))
}

/// The moved start cells and every letter after the move can be held by an `XY`.
pub open spec fn normalizable(ws: Seq<Placed>) -> bool {
    &&& forall|i: int|
        0 <= i < ws.len() ==> in_range((#[trigger] ws[i].pos.x - low_x(ws), ws[i].pos.y - low_y(ws)))
    &&& all_fit(normalized(ws))
}

pub proof fn lemma_low_bounds(ws: Seq<Placed>)
    requires
        ws.len() > 0,
    ensures
        forall|i: int| 0 <= i < ws.len() ==> low_x(ws) <= #[trigger] ws[i].pos.x,
        forall|i: int| 0 <= i < ws.len() ==> low_y(ws) <= #[trigger] ws[i].pos.y,
        exists|i: int| 0 <= i < ws.len() && low_x(ws) == #[trigger] ws[i].pos.x,
        exists|i: int| 0 <= i < ws.len() && low_y(ws) == #[trigger] ws[i].pos.y,
    decreases ws.len(),
{
    if ws.len() > 1 {
        let d = ws.drop_last();
        lemma_low_bounds(d);
        assert forall|i: int| 0 <= i < ws.len() implies low_x(ws) <= #[trigger] ws[i].pos.x by {
            if i < d.len() {
                assert(ws[i] == d[i]);
            }
        }
        assert forall|i: int| 0 <= i < ws.len() implies low_y(ws) <= #[trigger] ws[i].pos.y by {
            if i < d.len() {
                assert(ws[i] == d[i]);
            }
        }
        let jx = choose|i: int| 0 <= i < d.len() && low_x(d) == #[trigger] d[i].pos.x;
        let jy = choose|i: int| 0 <= i < d.len() && low_y(d) == #[trigger] d[i].pos.y;
        assert(ws[jx] == d[jx]);
        assert(ws[jy] == d[jy]);
        assert(ws[ws.len() - 1] == ws.last());
    } else {
        assert(ws[0].pos.x == low_x(ws));
        assert(ws[0].pos.y == low_y(ws));
    }
}

/// Moving every start cell by the same vector moves the smallest column and
/// row by it.
pub proof fn lemma_low_shift(ws: Seq<Placed>, dx: int, dy: int)
    requires
        ws.len() > 0,
        forall|i: int| 0 <= i < ws.len() ==> in_range((#[trigger] ws[i].pos.x - dx, ws[i].pos.y - dy)),
    ensures
        low_x(shift(ws, dx, dy)) == low_x(ws) - dx,
        low_y(shift(ws, dx, dy)) == low_y(ws) - dy,
    decreases ws.len(),
{
    let t = shift(ws, dx, dy);
    assert(t[0].pos.x == ws[0].pos.x - dx);
    if ws.len() > 1 {
        let d = ws.drop_last();
        assert(t.drop_last() =~= shift(d, dx, dy));
        assert forall|i: int| 0 <= i < d.len() implies in_range((#[trigger] d[i].pos.x - dx, d[i].pos.y - dy)) by {
            assert(d[i] == ws[i]);
        }
        lemma_low_shift(d, dx, dy);
        assert(t.last().pos.x == ws.last().pos.x - dx);
        assert(t.last().pos.y == ws.last().pos.y - dy);
    }
}

pub proof fn lemma_total_prefix(ws: Seq<Placed>, i: int)
    requires
        0 <= i <= ws.len(),
    ensures
        total_len(ws.subrange(0, i)) <= total_len(ws),
    decreases ws.len(),
{
    if i < ws.len() {
        lemma_total_prefix(ws.drop_last(), i);
        assert(ws.drop_last().subrange(0, i) =~= ws.subrange(0, i));
    } else {
        assert(ws.subrange(0, i) =~= ws);
    }
}

pub proof fn lemma_total_shift(ws: Seq<Placed>, dx: int, dy: int)
    ensures
        total_len(shift(ws, dx, dy)) == total_len(ws),
    decreases ws.len(),
{
    if ws.len() > 0 {
        assert(shift(ws, dx, dy).drop_last() =~= shift(ws.drop_last(), dx, dy));
        lemma_total_shift(ws.drop_last(), dx, dy);
    }
}

/// `p` comes before `q` in reading order: an earlier row, or the same row
/// and an earlier column.
pub open spec fn reads_before(p: XY, q: XY) -> bool {
    p.y < q.y || (p.y == q.y && p.x < q.x)
}

/// No word before word `j` starts at its cell.
pub open spec fn first_at(ws: Seq<Placed>, j: int) -> bool {
    forall|l: int| 0 <= l < j ==> #[trigger] ws[l].pos != ws[j].pos
}

/// How many distinct start cells among the first `n` words come before `p`
/// in reading order.
pub open spec fn starts_before(ws: Seq<Placed>, p: XY, n: nat) -> nat
    decreases n,
{
    if n == 0 {
        0
    } else {
        starts_before(ws, p, (n - 1) as nat) + if first_at(ws, n - 1) && reads_before(ws[n - 1].pos, p) {
            1nat
        } else {
            0nat
        }
    }
}

/// The number of the start cell `p`: start cells are numbered from 1 in
/// reading order.
pub open spec fn start_id(ws: Seq<Placed>, p: XY) -> nat {
    starts_before(ws, p, ws.len()) + 1
}

/// What the grid shows at `p`, or `fill` where nothing is.
pub open spec fn shown(cells: Seq<Cell>, p: (int, int), fill: char) -> char {
    match char_at(cells, p) {
        Some(c) => c,
        None => fill,
    }
}

/// Row `r` of the picture of the grid, `w` cells wide, whose top-left cell is `lo`.
pub open spec fn row_text(cells: Seq<Cell>, lo: XY, w: int, r: int, fill: char) -> Seq<char> {
    Seq::new(w as nat, |c: int| shown(cells, (lo.x + c, lo.y + r), fill))
}

/// The first `n` rows of the picture, one line each.
pub open spec fn rows_text(cells: Seq<Cell>, lo: XY, w: int, n: nat, fill: char) -> Seq<char>
    decreases n,
{
    if n == 0 {
        Seq::empty()
    } else if n == 1 {
        row_text(cells, lo, w, 0, fill)
    } else {
        rows_text(cells, lo, w, (n - 1) as nat, fill).push('\n') + row_text(cells, lo, w, n - 1, fill)
    }
}

/// The picture of the grid: the rows of its smallest rectangle, top to
/// bottom, each cell showing its character or `fill`; `[]` for an empty grid.
pub open spec fn picture(cells: Seq<Cell>, fill: char) -> Seq<char> {
    match (low_corner(positions(cells)), high_corner(positions(cells))) {
        (Some(a), Some(b)) => rows_text(cells, a, b.x - a.x + 1, (b.y - a.y + 1) as nat, fill),
        _ => seq!['[', ']'],
    }
}

/// Letter `i` of `w` and cell `k` give a candidate start in direction `o`:
/// the cell was first filled with that letter, and the start from which the
/// letter lands on it can be held, fits, meets no different letter and
/// touches no word.
pub open spec fn hit(cells: Seq<Cell>, w: Seq<char>, i: int, o: Orientation, k: int) -> bool {
    let s = start_from(cells[k].pos, o, i);
    &&& cells[k].first == w[i]
    &&& in_range(s)
    &&& word_fits(to_xy(s), o, w.len() as int)
    &&& !clashes_with(cells, w, to_xy(s), o)
    &&& !touches(cells, w.len() as int, to_xy(s), o)
}

/// The starts found from letter `i` in direction `o`, over the first `k`
/// cells in the order in which they were filled.
pub open spec fn from_cells(cells: Seq<Cell>, w: Seq<char>, i: int, o: Orientation, k: nat) -> Seq<(XY, Orientation)>
    decreases k,
{
    if k == 0 {
        Seq::empty()
    } else {
        let rest = from_cells(cells, w, i, o, (k - 1) as nat);
        if hit(cells, w, i, o, k - 1) {
            rest.push((to_xy(start_from(cells[k - 1].pos, o, i)), o))
        } else {
            rest
        }
    }
}

/// The starts found from letter `i`: horizontal ones first, then vertical ones.
pub open spec fn from_letter(cells: Seq<Cell>, w: Seq<char>, i: int) -> Seq<(XY, Orientation)> {
    from_cells(cells, w, i, Orientation::Horiz, cells.len()) + from_cells(cells, w, i, Orientation::Vert, cells.len())
}

/// The starts found from the first `n` letters, letter by letter.
pub open spec fn from_letters(cells: Seq<Cell>, w: Seq<char>, n: nat) -> Seq<(XY, Orientation)>
    decreases n,
{
    if n == 0 {
        Seq::empty()
    } else {
        from_letters(cells, w, (n - 1) as nat) + from_letter(cells, w, n - 1)
    }
}

/// The candidate starts of `w`, in the order in which they are offered: on a
/// layout with no word the origin in both directions; else by letter of the
/// word, then horizontal before vertical, then by cell in the order in which
/// the cells were filled. A start appears once for each letter and cell
/// that give it.
pub open spec fn candidates(cells: Seq<Cell>, w: Seq<char>, placed: bool) -> Seq<(XY, Orientation)> {
    if placed {
        from_letters(cells, w, w.len())
    } else {
        seq![(XY { x: 0, y: 0 }, Orientation::Horiz), (XY { x: 0, y: 0 }, Orientation::Vert)]
    }
}

pub open spec fn from_orients(cells: Seq<Cell>, w: Seq<char>, i: int, oi: int) -> Seq<(XY, Orientation)> {
    if oi <= 0 {
        Seq::empty()
    } else if oi == 1 {
        from_cells(cells, w, i, Orientation::Horiz, cells.len())
    } else {
        from_letter(cells, w, i)
    }
}

/// Layout of the words: position and orientation per word.
#[derive(Clone)]
pub struct Layout {
    /// The words with positions.
    positioned_words: Vec<WordPosition>,
    /// The grid of their letters, kept as the words are placed.
    char_map: CharMap,
    /// How many letters landed on the same letter of an earlier word.
    n_crossings: usize,
}

impl Layout {
    /// The placed words, in the order in which they were placed.
    pub closed spec fn words(&self) -> Seq<Placed> {
        self.positioned_words@.map_values(|w: WordPosition| w@)
    }

    /// The occupied cells, in the order in which they were first filled.
    pub closed spec fn cells(&self) -> Seq<Cell> {
        self.char_map.cells()
    }

    pub closed spec fn crossings(&self) -> nat {
        self.n_crossings as nat
    }

    pub closed spec fn inner_wf(&self) -> bool {
        &&& self.char_map.wf()
        &&& self.char_map.conflicted() == clash_of(self.words())
    }

    /// The grid and the crossing count are those that placing the words in
    /// order gives.
    pub open spec fn wf(&self) -> bool {
        &&& self.inner_wf()
        &&& self.cells() == grid_of(self.words())
        &&& self.crossings() == crossings_of(self.words())
        &&& all_fit(self.words())
        &&& total_len(self.words()) <= usize::MAX
    }

    pub fn new() -> (r: Layout)
        ensures
            r.wf(),
            r.words() == Seq::<Placed>::empty(),
    {
        let r = Layout { positioned_words: Vec::new(), char_map: CharMap::new(), n_crossings: 0 };
        assert(r.words() =~= Seq::<Placed>::empty());
        r
    }

    pub fn get_word_positions(&self) -> (r: &Vec<WordPosition>)
        ensures
            r@.map_values(|w: WordPosition| w@) == self.words(),
    {
        &self.positioned_words
    }

    pub fn crossings_count(&self) -> (r: usize)
        requires
            self.wf(),
        ensures
            r == crossings_of(self.words()),
    {
        self.n_crossings
    }

    pub fn area(&self) -> (r: u128)
        requires
            self.wf(),
        ensures
            r == area_of(self.cells()),
    {
        let tl = self.char_map.top_left();
        let br = self.char_map.bottom_right();
        match (tl, br) {
            (Some(a), Some(b)) => {
                proof {
                    lemma_corners_ordered(positions(self.cells()));
                }
                let w = (b.x as i64 - a.x as i64 + 1) as u128;
                let h = (b.y as i64 - a.y as i64 + 1) as u128;
                assert(w * h <= 0x1_0000_0000u128 * 0x1_0000_0000u128) by (nonlinear_arith)
                    requires
                        w <= 0x1_0000_0000u128,
                        h <= 0x1_0000_0000u128,
                ;
                w * h
            },
            _ => 0,
        }
    }

    /// The cell of letter `i` of a word starting at `pos`.
    fn letter_cell(pos: XY, o: Orientation, i: i64) -> (r: (i64, i64))
        requires
            -0x1_0000_0002 <= i <= 0x1_0000_0002,
        ensures
            (r.0 as int, r.1 as int) == cell_at(pos, o, i as int),
            -0x4_0000_0000 <= r.0 <= 0x4_0000_0000,
            -0x4_0000_0000 <= r.1 <= 0x4_0000_0000,
    {
        proof {
            lemma_cell_at(pos, o, i as int);
        }
        match o {
            Orientation::Horiz => (pos.x as i64 + i, pos.y as i64),
            Orientation::Vert => (pos.x as i64, pos.y as i64 + i),
        }
    }

    /// Tells whether a word put at `pos` would land a letter on a cell that
    /// shows a different one.
    fn would_conflict_with_other_char(&self, word: &Vec<char>, pos: XY, orient: Orientation) -> (r: bool)
        requires
            self.wf(),
            word_fits(pos, orient, word@.len() as int),
        ensures
            r == clashes_with(self.cells(), word@, pos, orient),
    {
        proof {
            lemma_fits_len(pos, orient, word@.len() as int);
        }
        let mut i: usize = 0;
        while i < word.len()
            invariant
                i <= word@.len(),
                self.wf(),
                word@.len() <= 0x1_0000_0000,
                forall|j: int| 0 <= j < i ==> !#[trigger] is_clash(self.cells(), cell_at(pos, orient, j), word@[j]),
            decreases word@.len() - i,
        {
            let (x, y) = Self::letter_cell(pos, orient, i as i64);
            if let Some(c) = self.char_map.get(x, y) {
                if c != word[i] {
                    assert(is_clash(self.cells(), cell_at(pos, orient, i as int), word@[i as int]));
                    return true;
                }
            }
            i += 1;
        }
        false
    }

    /// Tells whether a word of `word_len` letters put at `pos` would touch an
    /// existing word: in line with it, or side by side without crossing.
    fn would_envelope_overlap(&self, word_len: usize, pos: XY, orient: Orientation) -> (r: bool)
        requires
            self.wf(),
            word_fits(pos, orient, word_len as int),
        ensures
            r == touches(self.cells(), word_len as int, pos, orient),
    {
        proof {
            lemma_fits_len(pos, orient, word_len as int);
        }
        let n = word_len as i64;
        let (bx, by) = Self::letter_cell(pos, orient, -1);
        if self.char_map.is_pos_taken(bx, by) {
            return true;
        }
        let (ax, ay) = Self::letter_cell(pos, orient, n);
        if self.char_map.is_pos_taken(ax, ay) {
            return true;
        }
        let band = orient.band();
        let mut i: i64 = 0;
        while i < n
            invariant
                0 <= i <= n,
                n == word_len,
                n <= 0x1_0000_0001,
                self.wf(),
                pt(band[0]) == across_of(orient),
                pt(band[1]) == (-across_of(orient).0, -across_of(orient).1),
                !taken(self.cells(), cell_at(pos, orient, -1)),
                !taken(self.cells(), cell_at(pos, orient, n as int)),
                forall|j: int| 0 <= j < i ==> !#[trigger] side_touch(self.cells(), pos, orient, j),
            decreases n - i,
        {
            let (x, y) = Self::letter_cell(pos, orient, i);
            if !self.char_map.is_pos_taken(x, y) {
                let t0 = self.char_map.is_pos_taken(x + band[0].x as i64, y + band[0].y as i64);
                let t1 = self.char_map.is_pos_taken(x + band[1].x as i64, y + band[1].y as i64);
                if t0 || t1 {
                    assert(side_touch(self.cells(), pos, orient, i as int));
                    return true;
                }
            }
            assert(!side_touch(self.cells(), pos, orient, i as int));
            i += 1;
        }
        false
    }

    /// The starts at which `word` may be placed: on an empty layout the
    /// origin in both directions; else every candidate start (see
    /// `is_candidate`), found from each letter of the word and each cell
    /// first filled with that letter.
    ///
    /// Two equal words are not told apart: a word may be offered the very
    /// cells of an equal word already placed.
    #[verifier::rlimit(60)]
    pub fn get_possible_start_positions(&self, word: &str) -> (r: Vec<(XY, Orientation)>)
        requires
            self.wf(),
            word@.len() <= i32::MAX,
        ensures
            self.words().len() == 0 ==> r@ == seq![
                (XY { x: 0, y: 0 }, Orientation::Horiz),
                (XY { x: 0, y: 0 }, Orientation::Vert),
            ],
            self.words().len() > 0 ==> forall|j: int|
                0 <= j < r@.len() ==> is_candidate(self.cells(), word@, #[trigger] r@[j].0, r@[j].1),
            self.words().len() > 0 ==> forall|pos: XY, o: Orientation|
                is_candidate(self.cells(), word@, pos, o) ==> #[trigger] r@.contains((pos, o)),
            r@ == candidates(self.cells(), word@, self.words().len() > 0),
    {
        if self.positioned_words.len() == 0 {
            return vec![(XY::zero(), Orientation::Horiz), (XY::zero(), Orientation::Vert)];
        }
        let w = chars_of(word);
        let n = w.len();
        let cells = self.char_map.cell_list();
        let ghost cs = self.cells();
        let mut r: Vec<(XY, Orientation)> = Vec::new();
        let mut i: usize = 0;
        assert(r@ =~= from_letters(cs, w@, 0));
        while i < n
            invariant
                n == w@.len(),
                w@ == word@,
                n <= i32::MAX,
                i <= n,
                self.wf(),
                cells@ == cs,
                cs == self.cells(),
                forall|j: int| 0 <= j < r@.len() ==> is_candidate(cs, w@, #[trigger] r@[j].0, r@[j].1),
                forall|i2: int, oi: int, k: int|
                    0 <= i2 < i && 0 <= oi < 2 && 0 <= k < cs.len() ==> #[trigger] covers(r@, cs, w@, i2, orient(oi), k),
                r@ == from_letters(cs, w@, i as nat),
            decreases n - i,
        {
            let mut oi: usize = 0;
            assert(r@ =~= from_letters(cs, w@, i as nat) + from_orients(cs, w@, i as int, 0));
            while oi < 2
                invariant
                    n == w@.len(),
                    w@ == word@,
                    n <= i32::MAX,
                    i < n,
                    oi <= 2,
                    self.wf(),
                    cells@ == cs,
                    cs == self.cells(),
                    forall|j: int| 0 <= j < r@.len() ==> is_candidate(cs, w@, #[trigger] r@[j].0, r@[j].1),
                    forall|i2: int, oi2: int, k: int|
                        0 <= i2 < i && 0 <= oi2 < 2 && 0 <= k < cs.len() ==> #[trigger] covers(r@, cs, w@, i2, orient(oi2), k),
                    forall|oi2: int, k: int|
                        0 <= oi2 < oi && 0 <= k < cs.len() ==> #[trigger] covers(r@, cs, w@, i as int, orient(oi2), k),
                    r@ == from_letters(cs, w@, i as nat) + from_orients(cs, w@, i as int, oi as int),
                decreases 2 - oi,
            {
                let o = if oi == 0 {
                    Orientation::Horiz
                } else {
                    Orientation::Vert
                };
                let mut k: usize = 0;
                assert(r@ =~= from_letters(cs, w@, i as nat) + from_orients(cs, w@, i as int, oi as int)
                    + from_cells(cs, w@, i as int, o, 0));
                while k < cells.len()
                    invariant
                        n == w@.len(),
                        w@ == word@,
                        n <= i32::MAX,
                        i < n,
                        oi < 2,
                        o == orient(oi as int),
                        k <= cs.len(),
                        self.wf(),
                        cells@ == cs,
                        cs == self.cells(),
                        forall|j: int| 0 <= j < r@.len() ==> is_candidate(cs, w@, #[trigger] r@[j].0, r@[j].1),
                        forall|i2: int, oi2: int, k2: int|
                            0 <= i2 < i && 0 <= oi2 < 2 && 0 <= k2 < cs.len() ==> #[trigger] covers(r@, cs, w@, i2, orient(oi2), k2),
                        forall|oi2: int, k2: int|
                            0 <= oi2 < oi && 0 <= k2 < cs.len() ==> #[trigger] covers(r@, cs, w@, i as int, orient(oi2), k2),
                        forall|k2: int| 0 <= k2 < k ==> #[trigger] covers(r@, cs, w@, i as int, o, k2),
                        r@ == from_letters(cs, w@, i as nat) + from_orients(cs, w@, i as int, oi as int)
                            + from_cells(cs, w@, i as int, o, k as nat),
                    decreases cs.len() - k,
                {
                    let c = cells[k];
                    let ghost before = r@;
                    let ghost head = from_letters(cs, w@, i as nat) + from_orients(cs, w@, i as int, oi as int);
                    let ghost found = hit(cs, w@, i as int, o, k as int);
                    if c.first == w[i] {
                        let (sx, sy) = Self::letter_cell(c.pos, o, -(i as i64));
                        assert((sx as int, sy as int) == start_from(c.pos, o, i as int));
                        if i32::MIN as i64 <= sx && sx <= i32::MAX as i64 && i32::MIN as i64 <= sy && sy <= i32::MAX as i64 {
                            let pos = XY { x: sx as i32, y: sy as i32 };
                            let (lx, ly) = Self::letter_cell(pos, o, n as i64 - 1);
                            if n == 0 || (i32::MIN as i64 <= lx && lx <= i32::MAX as i64 && i32::MIN as i64 <= ly && ly <= i32::MAX as i64) {
                                if !self.would_conflict_with_other_char(&w, pos, o)
                                    && !self.would_envelope_overlap(n, pos, o) {
                                    proof {
                                        lemma_cell_shift(c.pos, o, -(i as int), i as int);
                                        assert(pos == to_xy(cell_at(c.pos, o, -(i as int))));
                                    }
                                    assert(anchor(cs, w@, pos, o, i as int, k as int));
                                    r.push((pos, o));
                                    proof {
                                        lemma_push_contains(before, (pos, o));
                                    }
                                }
                            }
                        }
                    }
                    proof {
                        if r@ != before {
                            assert forall|i2: int, oi2: int, k2: int|
                                0 <= i2 < i && 0 <= oi2 < 2 && 0 <= k2 < cs.len() implies #[trigger] covers(r@, cs, w@, i2, orient(oi2), k2) by {
                                assert(covers(before, cs, w@, i2, orient(oi2), k2));
                            }
                            assert forall|oi2: int, k2: int|
                                0 <= oi2 < oi && 0 <= k2 < cs.len() implies #[trigger] covers(r@, cs, w@, i as int, orient(oi2), k2) by {
                                assert(covers(before, cs, w@, i as int, orient(oi2), k2));
                            }
                            assert forall|k2: int| 0 <= k2 < k implies #[trigger] covers(r@, cs, w@, i as int, o, k2) by {
                                assert(covers(before, cs, w@, i as int, o, k2));
                            }
                            assert forall|j: int| 0 <= j < r@.len() implies is_candidate(cs, w@, #[trigger] r@[j].0, r@[j].1) by {
                                if j < before.len() {
                                    assert(r@[j] == before[j]);
                                }
                            }
                        }
                        assert(covers(r@, cs, w@, i as int, o, k as int));
                        if found {
                            assert(r@ != before);
                            assert(r@ =~= head + from_cells(cs, w@, i as int, o, (k + 1) as nat));
                        } else {
                            assert(r@ == before);
                            assert(r@ =~= head + from_cells(cs, w@, i as int, o, (k + 1) as nat));
                        }
                    }
                    k += 1;
                }
                proof {
                    if oi == 0 {
                        assert(r@ =~= from_letters(cs, w@, i as nat) + from_orients(cs, w@, i as int, 1));
                    } else {
                        assert(r@ =~= from_letters(cs, w@, i as nat) + from_orients(cs, w@, i as int, 2));
                    }
                }
                oi += 1;
            }
            assert(r@ =~= from_letters(cs, w@, (i + 1) as nat));
            i += 1;
        }
        proof {
            assert forall|pos: XY, o: Orientation| is_candidate(cs, w@, pos, o) implies #[trigger] r@.contains((pos, o)) by {
                let (i2, k2) = choose|i2: int, k2: int| #[trigger] anchor(cs, w@, pos, o, i2, k2);
                let oi2: int = if o == Orientation::Horiz { 0 } else { 1 };
                assert(covers(r@, cs, w@, i2, orient(oi2), k2));
                lemma_cell_shift(pos, o, i2, -i2);
                assert(pt(cs[k2].pos) == cell_at(pos, o, i2));
                assert(start_from(cs[k2].pos, o, i2) == pt(pos));
                assert(to_xy(pt(pos)) == pos);
                assert(orient(oi2) == o);
            }
        }
        r
    }

    /// The smallest start column and row of the words.
    fn low_start(&self) -> (r: (i32, i32))
        requires
            self.words().len() > 0,
        ensures
            r.0 == low_x(self.words()),
            r.1 == low_y(self.words()),
    {
        let ghost ws = self.words();
        let n = self.positioned_words.len();
        let mut min_x: i32 = self.positioned_words[0].pos.x;
        let mut min_y: i32 = self.positioned_words[0].pos.y;
        let mut i: usize = 1;
        assert(ws.subrange(0, 1)[0] == ws[0]);
        while i < n
            invariant
                1 <= i <= n,
                n == ws.len(),
                ws == self.words(),
                min_x == low_x(ws.subrange(0, i as int)),
                min_y == low_y(ws.subrange(0, i as int)),
            decreases n - i,
        {
            let p = self.positioned_words[i].pos;
            proof {
                assert(ws.subrange(0, i + 1).drop_last() =~= ws.subrange(0, i as int));
                assert(ws.subrange(0, i + 1).last() == ws[i as int]);
            }
            if p.x < min_x {
                min_x = p.x;
            }
            if p.y < min_y {
                min_y = p.y;
            }
            i += 1;
        }
        assert(ws.subrange(0, n as int) =~= ws);
        (min_x, min_y)
    }

    /// The same words moved so that the smallest start column and row are 0,
    /// placed anew in their order.
    pub fn normalize(self) -> (r: Layout)
        requires
            self.wf(),
            normalizable(self.words()),
        ensures
            r.wf(),
            r.words() == normalized(self.words()),
            r.cells() == crate::laws::shift_cells(self.cells(), low_x(self.words()), low_y(self.words())),
            crossings_of(r.words()) == crossings_of(self.words()),
            clash_of(r.words()) == clash_of(self.words()),
    {
        let ghost ws = self.words();
        proof {
            crate::laws::lemma_shift_grid(ws, low_x(ws), low_y(ws));
        }
        let n = self.positioned_words.len();
        if n == 0 {
            assert(normalized(ws) =~= ws);
            assert(crate::laws::shift_cells(self.cells(), 0, 0) =~= self.cells());
            return self;
        }
        let (min_x, min_y) = self.low_start();
        let ghost nws = normalized(ws);
        proof {
            lemma_total_shift(ws, low_x(ws), low_y(ws));
        }
        let mut layout = Layout::new();
        let mut j: usize = 0;
        while j < n
            invariant
                j <= n,
                n == ws.len(),
                ws == self.words(),
                nws == normalized(ws),
                min_x == low_x(ws),
                min_y == low_y(ws),
                normalizable(ws),
                total_len(nws) == total_len(ws),
                total_len(ws) <= usize::MAX,
                layout.wf(),
                layout.words() == nws.subrange(0, j as int),
            decreases n - j,
        {
            let wp = &self.positioned_words[j];
            assert(in_range((ws[j as int].pos.x - low_x(ws), ws[j as int].pos.y - low_y(ws))));
            let pos = XY { x: (wp.pos.x as i64 - min_x as i64) as i32, y: (wp.pos.y as i64 - min_y as i64) as i32 };
            proof {
                assert(nws[j as int].pos == pos);
                assert(word_fits(nws[j as int].pos, nws[j as int].orientation, nws[j as int].word.len() as int));
                lemma_total_prefix(nws, j + 1);
                assert(nws.subrange(0, j + 1).drop_last() =~= nws.subrange(0, j as int));
            }
            let _ = layout.insert_at(wp.word.as_str(), pos, wp.orientation);
            assert(layout.words() =~= nws.subrange(0, j + 1));
            j += 1;
        }
        assert(layout.words() =~= nws);
        layout
    }

    /// Each word with the number of its start cell: start cells are
    /// numbered from 1 in reading order, and words that start at one cell
    /// share its number.
    pub fn get_words_with_ids(&self) -> (r: Vec<(WordPosition, usize)>)
        ensures
            r@.len() == self.words().len(),
            forall|i: int|
                0 <= i < r@.len() ==> (#[trigger] r@[i]).0@ == self.words()[i] && r@[i].1 == start_id(
                    self.words(),
                    self.words()[i].pos,
                ),
    {
        let ghost ws = self.words();
        let n = self.positioned_words.len();
        let mut firsts: Vec<bool> = Vec::new();
        let mut j: usize = 0;
        while j < n
            invariant
                j <= n,
                n == ws.len(),
                ws == self.words(),
                firsts@.len() == j,
                forall|k: int| 0 <= k < j ==> #[trigger] firsts@[k] == first_at(ws, k),
            decreases n - j,
        {
            let p = self.positioned_words[j].pos;
            let mut first = true;
            let mut l: usize = 0;
            while l < j
                invariant
                    l <= j < n,
                    n == ws.len(),
                    ws == self.words(),
                    p == ws[j as int].pos,
                    first == forall|m: int| 0 <= m < l ==> #[trigger] ws[m].pos != ws[j as int].pos,
                decreases j - l,
            {
                assert(ws[l as int].pos == self.positioned_words@[l as int].pos);
                if self.positioned_words[l].pos == p {
                    first = false;
                }
                l += 1;
            }
            firsts.push(first);
            j += 1;
        }
        let mut r: Vec<(WordPosition, usize)> = Vec::new();
        let mut i: usize = 0;
        while i < n
            invariant
                i <= n,
                n == ws.len(),
                ws == self.words(),
                firsts@.len() == n,
                forall|k: int| 0 <= k < n ==> #[trigger] firsts@[k] == first_at(ws, k),
                r@.len() == i,
                forall|k: int|
                    0 <= k < i ==> (#[trigger] r@[k]).0@ == ws[k] && r@[k].1 == start_id(ws, ws[k].pos),
            decreases n - i,
        {
            let p = self.positioned_words[i].pos;
            let mut count: usize = 0;
            let mut k: usize = 0;
            while k < n
                invariant
                    k <= n,
                    n == ws.len(),
                    ws == self.words(),
                    firsts@.len() == n,
                    forall|m: int| 0 <= m < n ==> #[trigger] firsts@[m] == first_at(ws, m),
                    count == starts_before(ws, p, k as nat),
                    count <= k,
                    i < n,
                    p == ws[i as int].pos,
                    k > i ==> count + 1 <= k,
                decreases n - k,
            {
                let q = self.positioned_words[k].pos;
                assert(ws[k as int].pos == q);
                if firsts[k] && (q.y < p.y || (q.y == p.y && q.x < p.x)) {
                    count += 1;
                }
                k += 1;
            }
            r.push((self.positioned_words[i].duplicate(), count + 1));
            i += 1;
        }
        r
    }

    /// The picture of the grid (see `picture`), with `fill` on free cells.
    pub fn render(&self, fill: char) -> (r: String)
        requires
            self.wf(),
        ensures
            r@ == picture(self.cells(), fill),
    {
        let tl = self.char_map.top_left();
        let br = self.char_map.bottom_right();
        let mut text: Vec<char> = Vec::new();
        match (tl, br) {
            (Some(a), Some(b)) => {
                proof {
                    lemma_corners_ordered(positions(self.cells()));
                }
                let w: i64 = b.x as i64 - a.x as i64 + 1;
                let h: i64 = b.y as i64 - a.y as i64 + 1;
                let ghost cells = self.cells();
                let mut row: i64 = 0;
                while row < h
                    invariant
                        0 <= row <= h,
                        1 <= w <= 0x1_0000_0000,
                        1 <= h <= 0x1_0000_0000,
                        self.wf(),
                        cells == self.cells(),
                        text@ == rows_text(cells, a, w as int, row as nat, fill),
                    decreases h - row,
                {
                    let ghost before = text@;
                    if row > 0 {
                        text.push('\n');
                    }
                    let ghost lead = text@;
                    let mut col: i64 = 0;
                    while col < w
                        invariant
                            0 <= col <= w,
                            0 <= row < h,
                            1 <= w <= 0x1_0000_0000,
                            1 <= h <= 0x1_0000_0000,
                            self.wf(),
                            cells == self.cells(),
                            text@ == lead + row_text(cells, a, w as int, row as int, fill).subrange(0, col as int),
                        decreases w - col,
                    {
                        let c = match self.char_map.get(a.x as i64 + col, a.y as i64 + row) {
                            Some(c) => c,
                            None => fill,
                        };
                        text.push(c);
                        proof {
                            assert(row_text(cells, a, w as int, row as int, fill).subrange(0, col + 1)
                                =~= row_text(cells, a, w as int, row as int, fill).subrange(0, col as int).push(c));
                        }
                        col += 1;
                    }
                    proof {
                        assert(row_text(cells, a, w as int, row as int, fill).subrange(0, w as int)
                            =~= row_text(cells, a, w as int, row as int, fill));
                        if row == 0 {
                            assert(text@ =~= rows_text(cells, a, w as int, 1, fill));
                        } else {
                            assert(text@ =~= rows_text(cells, a, w as int, (row + 1) as nat, fill));
                        }
                    }
                    row += 1;
                }
            },
            _ => {
                text.push('[');
                text.push(']');
                assert(text@ =~= seq!['[', ']']);
            },
        }
        string_from(&text)
    }

    /// Whether the words can be moved to the origin (see `normalizable`).
    pub fn fits_normalized(&self) -> (r: bool)
        requires
            self.wf(),
        ensures
            r == normalizable(self.words()),
    {
        let ghost ws = self.words();
        let n = self.positioned_words.len();
        if n == 0 {
            assert(normalized(ws) =~= ws);
            return true;
        }
        let (min_x, min_y) = self.low_start();
        let ghost nws = normalized(ws);
        let mut j: usize = 0;
        while j < n
            invariant
                j <= n,
                n == ws.len(),
                ws == self.words(),
                nws == normalized(ws),
                min_x == low_x(ws),
                min_y == low_y(ws),
                self.wf(),
                forall|k: int| 0 <= k < j ==> in_range((#[trigger] ws[k].pos.x - low_x(ws), ws[k].pos.y - low_y(ws))),
                forall|k: int| 0 <= k < j ==> word_fits(#[trigger] nws[k].pos, nws[k].orientation, nws[k].word.len() as int),
            decreases n - j,
        {
            let wp = &self.positioned_words[j];
            let x = wp.pos.x as i64 - min_x as i64;
            let y = wp.pos.y as i64 - min_y as i64;
            if x > i32::MAX as i64 || y > i32::MAX as i64 {
                return false;
            }
            proof {
                lemma_low_bounds(ws);
                assert(ws[j as int].pos == wp.pos);
            }
            let ulen = wp.word.as_str().unicode_len();
            proof {
                assert(ws[j as int] == wp@);
                assert(nws[j as int].word == ws[j as int].word);
                assert(nws[j as int].orientation == wp.orientation);
                assert(ulen == nws[j as int].word.len());
                lemma_fits_len(ws[j as int].pos, wp.orientation, ulen as int);
                lemma_cell_at(nws[j as int].pos, wp.orientation, ulen - 1);
            }
            let len = ulen as i64;
            assert(nws[j as int].pos == (XY { x: x as i32, y: y as i32 }));
            let last_ok = match wp.orientation {
                Orientation::Horiz => len == 0 || x + len - 1 <= i32::MAX as i64,
                Orientation::Vert => len == 0 || y + len - 1 <= i32::MAX as i64,
            };
            if !last_ok {
                assert(!word_fits(nws[j as int].pos, nws[j as int].orientation, nws[j as int].word.len() as int));
                return false;
            }
            j += 1;
        }
        true
    }

    /// A copy of this layout, with the same words, grid and count.
    pub fn snapshot(&self) -> (r: Layout)
        requires
            self.wf(),
        ensures
            r.wf(),
            r.words() == self.words(),
            r.cells() == self.cells(),
    {
        let mut words: Vec<WordPosition> = Vec::new();
        let mut i: usize = 0;
        while i < self.positioned_words.len()
            invariant
                i <= self.positioned_words@.len(),
                words@ == self.positioned_words@.subrange(0, i as int),
            decreases self.positioned_words@.len() - i,
        {
            words.push(self.positioned_words[i].duplicate());
            i += 1;
        }
        assert(words@ =~= self.positioned_words@);
        Layout { positioned_words: words, char_map: self.char_map.duplicate(), n_crossings: self.n_crossings }
    }

    /// Places `word` from `pos` on in direction `orientation`. The word is
    /// kept even when it meets a different letter: the result is then `Err`,
    /// the grid shows the conflict marker there, and the layout is no longer
    /// fit for further placing.
    pub fn insert_at(&mut self, word: &str, pos: XY, orientation: Orientation) -> (r: Result<(), ()>)
        requires
            old(self).wf(),
            word_fits(pos, orientation, word@.len() as int),
            total_len(old(self).words()) + word@.len() <= usize::MAX,
        ensures
            final(self).wf(),
            final(self).words() == old(self).words().push(Placed { word: word@, pos, orientation }),
            r is Err <==> word_clashes(old(self).cells(), word@, pos, orientation, word@.len()),
            r is Err <==> clashes_with(old(self).cells(), word@, pos, orientation),
            r is Ok ==> crossings_of(final(self).words()) == crossings_of(old(self).words())
                + crate::laws::matching_letters(old(self).cells(), word@, pos, orientation, word@.len()),
            r is Err ==> crossings_of(final(self).words()) == crossings_of(old(self).words()),
    {
        proof {
            crate::laws::lemma_word_sees_grid(old(self).cells(), word@, pos, orientation, word@.len());
        }
        let chars = chars_of(word);
        let wp = WordPosition { word: word.to_owned(), pos, orientation };
        let ghost old_words = self.words();
        self.positioned_words.push(wp);
        let ghost ws = self.words();
        proof {
            assert(ws =~= old_words.push(Placed { word: word@, pos, orientation }));
            assert(ws.drop_last() =~= old_words);
            lemma_crossings_bound(old_words);
            assert forall|i: int| 0 <= i < ws.len() implies word_fits(
                #[trigger] ws[i].pos,
                ws[i].orientation,
                ws[i].word.len() as int,
            ) by {
                if i < old_words.len() {
                    assert(ws[i] == old_words[i]);
                }
            }
        }
        match self.char_map.insert_word(&chars, pos, orientation) {
            Ok(n) => {
                proof {
                    crate::laws::law_crossings_added(old_words, Placed { word: word@, pos, orientation });
                    lemma_word_crossings_bound(old(self).cells(), word@, pos, orientation, word@.len());
                }
                self.n_crossings = self.n_crossings + n;
                Ok(())
            },
            Err(_) => {
                proof {
                    crate::laws::law_crossings_added(old_words, Placed { word: word@, pos, orientation });
                }
                Err(())
            },
        }
    }
}

} // verus!
