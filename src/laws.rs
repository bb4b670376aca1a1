use vstd::prelude::*;
use crate::char_map::{
    index_of, is_at, char_at, distinct, is_clash, is_crossing, lemma_put_char_here, lemma_put_char_keeps,
    lemma_put_char_other, lemma_put_word_ahead, lemma_word_cell_in_range,
    lemma_word_cells_distinct, put_char, put_word, taken, word_clashes, word_crossings, Cell,
    CONFLICT_CHAR,
};
use crate::geometry::{cell_at, in_range, lemma_cell_at, pt, to_xy, word_fits, Orientation, XY};
use crate::layout::{
    all_fit, area_of, clash_of, clashes_with, crossings_of, grid_of, is_candidate,
    lemma_low_shift, normalizable, normalized, shift, Placed,
};

verus! {

/// How many of the first `n` letters of `w`, placed from `pos` on, land on
/// a cell that shows the same letter.
pub open spec fn matching_letters(cells: Seq<Cell>, w: Seq<char>, pos: XY, o: Orientation, n: nat) -> nat
    decreases n,
{
    if n == 0 {
        0
    } else {
        matching_letters(cells, w, pos, o, (n - 1) as nat) + if is_crossing(
            cells,
            cell_at(pos, o, n - 1),
            w[n - 1],
        ) {
            1nat
        } else {
            0nat
        }
    }
}

pub proof fn lemma_put_word_distinct(cells: Seq<Cell>, w: Seq<char>, pos: XY, o: Orientation, k: nat)
    requires
        distinct(cells),
        k <= w.len(),
        word_fits(pos, o, w.len() as int),
    ensures
        distinct(put_word(cells, w, pos, o, k)),
        forall|q: (int, int)|
            #[trigger] taken(put_word(cells, w, pos, o, k), q) <==> (taken(cells, q) || exists|i: int|
                0 <= i < k && q == #[trigger] cell_at(pos, o, i)),
    decreases k,
{
    if k > 0 {
        lemma_put_word_distinct(cells, w, pos, o, (k - 1) as nat);
        let prev = put_word(cells, w, pos, o, (k - 1) as nat);
        lemma_word_cell_in_range(pos, o, w.len() as int, k - 1);
        lemma_put_char_keeps(prev, cell_at(pos, o, k - 1), w[k - 1]);
        let cur = put_word(cells, w, pos, o, k);
        assert(cur == put_char(prev, cell_at(pos, o, k - 1), w[k - 1]));
        assert forall|q: (int, int)|
            #[trigger] taken(cur, q) <==> (taken(cells, q) || exists|i: int|
                0 <= i < k && q == #[trigger] cell_at(pos, o, i)) by {
            assert(taken(cur, q) <==> (taken(prev, q) || q == cell_at(pos, o, k - 1)));
            assert(taken(prev, q) <==> (taken(cells, q) || exists|i: int|
                0 <= i < k - 1 && q == #[trigger] cell_at(pos, o, i)));
            if exists|i: int| 0 <= i < k && q == #[trigger] cell_at(pos, o, i) {
                let i = choose|i: int| 0 <= i < k && q == #[trigger] cell_at(pos, o, i);
                if i < k - 1 {
                    assert(exists|i2: int| 0 <= i2 < k - 1 && q == #[trigger] cell_at(pos, o, i2));
                }
            }
            if taken(prev, q) && !taken(cells, q) {
                let i = choose|i: int| 0 <= i < k - 1 && q == #[trigger] cell_at(pos, o, i);
                assert(0 <= i < k && q == cell_at(pos, o, i));
            }
            if q == cell_at(pos, o, k - 1) {
                assert(0 <= k - 1 < k && q == cell_at(pos, o, k - 1));
            }
        }
    }
}

/// A grid built from words that fit never holds two cells at one place.
pub proof fn lemma_grid_distinct(ws: Seq<Placed>)
    requires
        all_fit(ws),
    ensures
        distinct(grid_of(ws)),
    decreases ws.len(),
{
    if ws.len() > 0 {
        let d = ws.drop_last();
        assert forall|i: int| 0 <= i < d.len() implies word_fits(#[trigger] d[i].pos, d[i].orientation, d[i].word.len() as int) by {
            assert(d[i] == ws[i]);
        }
        lemma_grid_distinct(d);
        let w = ws.last();
        assert(ws[ws.len() - 1] == w);
        lemma_put_word_distinct(grid_of(d), w.word, w.pos, w.orientation, w.word.len());
    }
}

/// Putting a straight word letter by letter: each letter meets what the
/// grid showed before the word, so the crossings counted are the letters
/// that land on the same letter, and it clashes exactly when a letter lands
/// on a different one.
pub proof fn lemma_word_sees_grid(cells: Seq<Cell>, w: Seq<char>, pos: XY, o: Orientation, n: nat)
    requires
        distinct(cells),
        n <= w.len(),
        word_fits(pos, o, w.len() as int),
    ensures
        word_crossings(cells, w, pos, o, n) == matching_letters(cells, w, pos, o, n),
        word_clashes(cells, w, pos, o, n) <==> exists|i: int|
            0 <= i < n && #[trigger] is_clash(cells, cell_at(pos, o, i), w[i]),
    decreases n,
{
    if n > 0 {
        lemma_word_sees_grid(cells, w, pos, o, (n - 1) as nat);
        let q = cell_at(pos, o, n - 1);
        assert forall|i: int| 0 <= i < n - 1 implies cell_at(pos, o, i) != q by {
            lemma_word_cells_distinct(pos, o, i, n - 1);
        }
        lemma_put_word_ahead(cells, w, pos, o, (n - 1) as nat, q);
        let prev = put_word(cells, w, pos, o, (n - 1) as nat);
        assert(is_clash(prev, q, w[n - 1]) == is_clash(cells, q, w[n - 1]));
        assert(is_crossing(prev, q, w[n - 1]) == is_crossing(cells, q, w[n - 1]));
        if is_clash(cells, q, w[n - 1]) {
            assert(0 <= n - 1 < n && is_clash(cells, cell_at(pos, o, n - 1), w[n - 1]));
        }
        if exists|i: int| 0 <= i < n && #[trigger] is_clash(cells, cell_at(pos, o, i), w[i]) {
            let i = choose|i: int| 0 <= i < n && #[trigger] is_clash(cells, cell_at(pos, o, i), w[i]);
            if i < n - 1 {
                assert(exists|i2: int| 0 <= i2 < n - 1 && #[trigger] is_clash(cells, cell_at(pos, o, i2), w[i2]));
            }
        }
    }
}

/// Placing a word after the words `ws` adds to the crossing count exactly
/// the number of its letters that land on the same letter, when none of its
/// letters lands on a different one; a placement that meets a different
/// letter adds nothing and is reported as a conflict.
pub proof fn law_crossings_added(ws: Seq<Placed>, w: Placed)
    requires
        all_fit(ws.push(w)),
    ensures
        !clashes_with(grid_of(ws), w.word, w.pos, w.orientation) ==> crossings_of(ws.push(w))
            == crossings_of(ws) + matching_letters(grid_of(ws), w.word, w.pos, w.orientation, w.word.len()),
        clashes_with(grid_of(ws), w.word, w.pos, w.orientation) ==> crossings_of(ws.push(w))
            == crossings_of(ws) && clash_of(ws.push(w)),
{
    let all = ws.push(w);
    assert(all.drop_last() =~= ws);
    assert(all[all.len() - 1] == w);
    assert forall|i: int| 0 <= i < ws.len() implies word_fits(#[trigger] ws[i].pos, ws[i].orientation, ws[i].word.len() as int) by {
        assert(all[i] == ws[i]);
    }
    lemma_grid_distinct(ws);
    lemma_word_sees_grid(grid_of(ws), w.word, w.pos, w.orientation, w.word.len());
}

/// Placing a word that shares exactly one cell with the grid, a cell that
/// shows the same letter, adds exactly one crossing.
pub proof fn law_one_shared_letter(ws: Seq<Placed>, w: Placed, k: int)
    requires
        all_fit(ws.push(w)),
        0 <= k < w.word.len(),
        is_crossing(grid_of(ws), cell_at(w.pos, w.orientation, k), w.word[k]),
        forall|i: int| 0 <= i < w.word.len() && i != k ==> !taken(grid_of(ws), #[trigger] cell_at(w.pos, w.orientation, i)),
    ensures
        crossings_of(ws.push(w)) == crossings_of(ws) + 1,
{
    let g = grid_of(ws);
    law_crossings_added(ws, w);
    assert(!clashes_with(g, w.word, w.pos, w.orientation)) by {
        if clashes_with(g, w.word, w.pos, w.orientation) {
            let i = choose|i: int| 0 <= i < w.word.len() && #[trigger] is_clash(g, cell_at(w.pos, w.orientation, i), w.word[i]);
            assert(i != k);
        }
    }
    lemma_matching_one(g, w.word, w.pos, w.orientation, w.word.len(), k);
}

proof fn lemma_matching_one(cells: Seq<Cell>, w: Seq<char>, pos: XY, o: Orientation, n: nat, k: int)
    requires
        n <= w.len(),
        0 <= k < w.len(),
        is_crossing(cells, cell_at(pos, o, k), w[k]),
        forall|i: int| 0 <= i < w.len() && i != k ==> !taken(cells, #[trigger] cell_at(pos, o, i)),
    ensures
        matching_letters(cells, w, pos, o, n) == if k < n { 1nat } else { 0nat },
    decreases n,
{
    if n > 0 {
        lemma_matching_one(cells, w, pos, o, (n - 1) as nat, k);
        if n - 1 != k {
            assert(!taken(cells, cell_at(pos, o, n - 1)));
        }
    }
}

/// Placing a word none of whose letters lands on an occupied cell adds no
/// crossing and no conflict.
pub proof fn law_disjoint_adds_none(ws: Seq<Placed>, w: Placed)
    requires
        all_fit(ws.push(w)),
        forall|i: int| 0 <= i < w.word.len() ==> !taken(grid_of(ws), #[trigger] cell_at(w.pos, w.orientation, i)),
    ensures
        crossings_of(ws.push(w)) == crossings_of(ws),
        clash_of(ws.push(w)) == clash_of(ws),
{
    let g = grid_of(ws);
    law_crossings_added(ws, w);
    assert(!clashes_with(g, w.word, w.pos, w.orientation));
    lemma_matching_none(g, w.word, w.pos, w.orientation, w.word.len());
    let all = ws.push(w);
    assert(all.drop_last() =~= ws);
    assert(all[all.len() - 1] == w);
    lemma_grid_distinct(ws);
    lemma_word_sees_grid(g, w.word, w.pos, w.orientation, w.word.len());
}

proof fn lemma_matching_none(cells: Seq<Cell>, w: Seq<char>, pos: XY, o: Orientation, n: nat)
    requires
        n <= w.len(),
        forall|i: int| 0 <= i < w.len() ==> !taken(cells, #[trigger] cell_at(pos, o, i)),
    ensures
        matching_letters(cells, w, pos, o, n) == 0,
    decreases n,
{
    if n > 0 {
        lemma_matching_none(cells, w, pos, o, (n - 1) as nat);
        assert(!taken(cells, cell_at(pos, o, n - 1)));
    }
}

/// Moving the words to the origin a second time changes nothing.
pub proof fn law_normalize_idempotent(ws: Seq<Placed>)
    requires
        normalizable(ws),
    ensures
        normalizable(normalized(ws)),
        normalized(normalized(ws)) == normalized(ws),
{
    let n1 = normalized(ws);
    if ws.len() == 0 {
        assert(n1 =~= ws);
        assert(normalized(n1) =~= n1);
    } else {
        lemma_low_shift(ws, crate::layout::low_x(ws), crate::layout::low_y(ws));
        assert forall|i: int| 0 <= i < n1.len() implies to_xy((n1[i].pos.x - 0, n1[i].pos.y - 0)) == n1[i].pos by {
        }
        assert(normalized(n1) =~= n1);
    }
}

/// Words moved all by one vector come to the same place at the origin as
/// the words themselves.
pub proof fn law_translation_invariant(ws: Seq<Placed>, dx: int, dy: int)
    requires
        forall|i: int| 0 <= i < ws.len() ==> in_range((#[trigger] ws[i].pos.x - dx, ws[i].pos.y - dy)),
    ensures
        normalized(shift(ws, dx, dy)) == normalized(ws),
{
    let t = shift(ws, dx, dy);
    if ws.len() == 0 {
        assert(normalized(t) =~= normalized(ws));
    } else {
        lemma_low_shift(ws, dx, dy);
        assert forall|i: int| 0 <= i < ws.len() implies #[trigger] normalized(t)[i] == normalized(ws)[i] by {
            assert(t[i].pos.x == ws[i].pos.x - dx);
            assert(t[i].pos.y == ws[i].pos.y - dy);
        }
        assert(normalized(t) =~= normalized(ws));
    }
}

/// The empty layout covers no area.
pub proof fn law_empty_area()
    ensures
        area_of(grid_of(Seq::<Placed>::empty())) == 0,
{
    assert(crate::char_map::positions(grid_of(Seq::<Placed>::empty())) =~= Seq::<XY>::empty());
}

/// Every letter of a placed word occupies its cell of the grid.
pub proof fn lemma_placed_letters_taken(ws: Seq<Placed>, k: int, i: int)
    requires
        all_fit(ws),
        0 <= k < ws.len(),
        0 <= i < ws[k].word.len(),
    ensures
        taken(grid_of(ws), cell_at(ws[k].pos, ws[k].orientation, i)),
    decreases ws.len(),
{
    let d = ws.drop_last();
    let w = ws.last();
    assert(ws[ws.len() - 1] == w);
    assert forall|j: int| 0 <= j < d.len() implies word_fits(#[trigger] d[j].pos, d[j].orientation, d[j].word.len() as int) by {
        assert(d[j] == ws[j]);
    }
    lemma_grid_distinct(d);
    lemma_put_word_distinct(grid_of(d), w.word, w.pos, w.orientation, w.word.len());
    if k < ws.len() - 1 {
        assert(d[k] == ws[k]);
        lemma_placed_letters_taken(d, k, i);
    } else {
        assert(grid_of(ws) == put_word(grid_of(d), w.word, w.pos, w.orientation, w.word.len()));
        assert(0 <= i < w.word.len() && cell_at(w.pos, w.orientation, i) == cell_at(w.pos, w.orientation, i));
    }
}

/// A word that would start just after the end of a placed word, on its
/// line and in its direction, is never a candidate: it would extend it.
pub proof fn law_no_extension(ws: Seq<Placed>, k: int, w: Seq<char>, pos: XY)
    requires
        all_fit(ws),
        0 <= k < ws.len(),
        ws[k].word.len() > 0,
        pt(pos) == cell_at(ws[k].pos, ws[k].orientation, ws[k].word.len() as int),
    ensures
        !is_candidate(grid_of(ws), w, pos, ws[k].orientation),
{
    let v = ws[k];
    lemma_placed_letters_taken(ws, k, v.word.len() - 1);
    lemma_cell_at(pos, v.orientation, -1);
    lemma_cell_at(v.pos, v.orientation, v.word.len() - 1);
    lemma_cell_at(v.pos, v.orientation, v.word.len() as int);
}

/// A placement that lands a letter on a different one is reported, and
/// the grid then shows the conflict marker on one of the word's cells: no
/// wrong letter is taken silently.
pub proof fn law_conflict_marked(ws: Seq<Placed>, w: Placed)
    requires
        all_fit(ws.push(w)),
        clashes_with(grid_of(ws), w.word, w.pos, w.orientation),
    ensures
        clash_of(ws.push(w)),
        exists|i: int|
            0 <= i < w.word.len() && char_at(grid_of(ws.push(w)), #[trigger] cell_at(w.pos, w.orientation, i))
                == Some(CONFLICT_CHAR),
{
    law_crossings_added(ws, w);
    let g = grid_of(ws);
    let n = w.word.len();
    let all = ws.push(w);
    assert forall|j: int| 0 <= j < ws.len() implies word_fits(#[trigger] ws[j].pos, ws[j].orientation, ws[j].word.len() as int) by {
        assert(all[j] == ws[j]);
    }
    assert(all[all.len() - 1] == w);
    let i = choose|i: int| 0 <= i < n && #[trigger] is_clash(g, cell_at(w.pos, w.orientation, i), w.word[i]);
    let q = cell_at(w.pos, w.orientation, i);
    lemma_grid_distinct(ws);
    assert forall|j: int| 0 <= j < i implies cell_at(w.pos, w.orientation, j) != q by {
        lemma_word_cells_distinct(w.pos, w.orientation, j, i);
    }
    lemma_put_word_ahead(g, w.word, w.pos, w.orientation, i as nat, q);
    lemma_word_cell_in_range(w.pos, w.orientation, n as int, i);
    lemma_put_char_here(put_word(g, w.word, w.pos, w.orientation, i as nat), q, w.word[i]);
    lemma_marker_stays(g, w.word, w.pos, w.orientation, (i + 1) as nat, n, q);
    assert(all.drop_last() =~= ws);
    assert(grid_of(all) == put_word(g, w.word, w.pos, w.orientation, n));
}

/// Later letters of a straight word leave a cell they do not land on as it is.
proof fn lemma_marker_stays(cells: Seq<Cell>, w: Seq<char>, pos: XY, o: Orientation, m: nat, k: nat, q: (int, int))
    requires
        distinct(cells),
        m <= k <= w.len(),
        word_fits(pos, o, w.len() as int),
        forall|i: int| m <= i < k ==> cell_at(pos, o, i) != q,
    ensures
        char_at(put_word(cells, w, pos, o, k), q) == char_at(put_word(cells, w, pos, o, m), q),
    decreases k,
{
    if k > m {
        lemma_marker_stays(cells, w, pos, o, m, (k - 1) as nat, q);
        lemma_put_word_distinct(cells, w, pos, o, (k - 1) as nat);
        lemma_word_cell_in_range(pos, o, w.len() as int, k - 1);
        assert(cell_at(pos, o, k - 1) != q);
        lemma_put_char_other(put_word(cells, w, pos, o, (k - 1) as nat), cell_at(pos, o, k - 1), w[k - 1], q);
    }
}

/// `c` moved by `(-dx, -dy)`.
pub open spec fn shift_cell(c: Cell, dx: int, dy: int) -> Cell {
    Cell { pos: to_xy((c.pos.x - dx, c.pos.y - dy)), ch: c.ch, first: c.first }
}

/// Every cell of `cells` moved by `(-dx, -dy)`.
pub open spec fn shift_cells(cells: Seq<Cell>, dx: int, dy: int) -> Seq<Cell> {
    cells.map_values(|c: Cell| shift_cell(c, dx, dy))
}

/// Every cell of `cells`, moved by `(-dx, -dy)`, can be held by an `XY`.
pub open spec fn movable(cells: Seq<Cell>, dx: int, dy: int) -> bool {
    forall|k: int| 0 <= k < cells.len() ==> in_range((#[trigger] cells[k].pos.x - dx, cells[k].pos.y - dy))
}

pub proof fn lemma_shift_lookup(cells: Seq<Cell>, dx: int, dy: int, p: (int, int))
    requires
        distinct(cells),
        movable(cells, dx, dy),
    ensures
        distinct(shift_cells(cells, dx, dy)),
        taken(shift_cells(cells, dx, dy), (p.0 - dx, p.1 - dy)) == taken(cells, p),
        char_at(shift_cells(cells, dx, dy), (p.0 - dx, p.1 - dy)) == char_at(cells, p),
        taken(cells, p) ==> index_of(shift_cells(cells, dx, dy), (p.0 - dx, p.1 - dy)) == index_of(cells, p),
{
    let t = shift_cells(cells, dx, dy);
    let q = (p.0 - dx, p.1 - dy);
    assert forall|i: int, j: int| 0 <= i < t.len() && 0 <= j < t.len() && i != j implies #[trigger] t[i].pos != #[trigger] t[j].pos by {
        assert(cells[i].pos != cells[j].pos);
        assert(in_range((cells[i].pos.x - dx, cells[i].pos.y - dy)));
        assert(in_range((cells[j].pos.x - dx, cells[j].pos.y - dy)));
    }
    if taken(cells, p) {
        let k = choose|k: int| 0 <= k < cells.len() && is_at(cells[k], p);
        assert(in_range((cells[k].pos.x - dx, cells[k].pos.y - dy)));
        assert(is_at(t[k], q));
    }
    if taken(t, q) {
        let k = choose|k: int| 0 <= k < t.len() && is_at(t[k], q);
        assert(in_range((cells[k].pos.x - dx, cells[k].pos.y - dy)));
        assert(is_at(cells[k], p));
        let i = index_of(cells, p);
        let j = index_of(t, q);
        assert(in_range((cells[j].pos.x - dx, cells[j].pos.y - dy)));
        assert(cells[i].pos == cells[j].pos);
    }
}

pub proof fn lemma_shift_put_char(cells: Seq<Cell>, dx: int, dy: int, p: (int, int), c: char)
    requires
        distinct(cells),
        movable(cells, dx, dy),
        in_range(p),
        in_range((p.0 - dx, p.1 - dy)),
    ensures
        movable(put_char(cells, p, c), dx, dy),
        put_char(shift_cells(cells, dx, dy), (p.0 - dx, p.1 - dy), c) == shift_cells(put_char(cells, p, c), dx, dy),
        is_crossing(shift_cells(cells, dx, dy), (p.0 - dx, p.1 - dy), c) == is_crossing(cells, p, c),
        is_clash(shift_cells(cells, dx, dy), (p.0 - dx, p.1 - dy), c) == is_clash(cells, p, c),
{
    lemma_shift_lookup(cells, dx, dy, p);
    lemma_put_char_keeps(cells, p, c);
    let t = shift_cells(cells, dx, dy);
    let q = (p.0 - dx, p.1 - dy);
    let r = put_char(cells, p, c);
    if taken(cells, p) {
        let k = index_of(cells, p);
        assert(r.len() == cells.len());
        assert forall|j: int| 0 <= j < r.len() implies in_range((#[trigger] r[j].pos.x - dx, r[j].pos.y - dy)) by {
            assert(r[j].pos == cells[j].pos);
        }
        assert(put_char(t, q, c) =~= shift_cells(r, dx, dy));
    } else {
        assert forall|j: int| 0 <= j < r.len() implies in_range((#[trigger] r[j].pos.x - dx, r[j].pos.y - dy)) by {
            if j < cells.len() {
                assert(r[j] == cells[j]);
            }
        }
        assert(put_char(t, q, c) =~= shift_cells(r, dx, dy));
    }
}

/// Putting a word moved by `(-dx, -dy)` on the moved grid gives the moved
/// grid, with the same crossings and clashes.
pub proof fn lemma_shift_put_word(cells: Seq<Cell>, w: Seq<char>, pos: XY, o: Orientation, dx: int, dy: int, k: nat)
    requires
        distinct(cells),
        movable(cells, dx, dy),
        k <= w.len(),
        word_fits(pos, o, w.len() as int),
        in_range((pos.x - dx, pos.y - dy)),
        word_fits(to_xy((pos.x - dx, pos.y - dy)), o, w.len() as int),
    ensures
        distinct(put_word(cells, w, pos, o, k)),
        movable(put_word(cells, w, pos, o, k), dx, dy),
        put_word(shift_cells(cells, dx, dy), w, to_xy((pos.x - dx, pos.y - dy)), o, k) == shift_cells(
            put_word(cells, w, pos, o, k),
            dx,
            dy,
        ),
        word_crossings(shift_cells(cells, dx, dy), w, to_xy((pos.x - dx, pos.y - dy)), o, k)
            == word_crossings(cells, w, pos, o, k),
        word_clashes(shift_cells(cells, dx, dy), w, to_xy((pos.x - dx, pos.y - dy)), o, k)
            == word_clashes(cells, w, pos, o, k),
    decreases k,
{
    if k > 0 {
        lemma_shift_put_word(cells, w, pos, o, dx, dy, (k - 1) as nat);
        lemma_put_word_distinct(cells, w, pos, o, (k - 1) as nat);
        let prev = put_word(cells, w, pos, o, (k - 1) as nat);
        let p = cell_at(pos, o, k - 1);
        let pos2 = to_xy((pos.x - dx, pos.y - dy));
        lemma_word_cell_in_range(pos, o, w.len() as int, k - 1);
        lemma_word_cell_in_range(pos2, o, w.len() as int, k - 1);
        lemma_cell_at(pos, o, k - 1);
        lemma_cell_at(pos2, o, k - 1);
        assert(cell_at(pos2, o, k - 1) == (p.0 - dx, p.1 - dy));
        lemma_shift_put_char(prev, dx, dy, p, w[k - 1]);
        lemma_put_word_distinct(cells, w, pos, o, k);
    }
}

/// Moving every word by one vector moves the grid by it and keeps the
/// crossing count and whether some placement clashed.
pub proof fn lemma_shift_grid(ws: Seq<Placed>, dx: int, dy: int)
    requires
        all_fit(ws),
        all_fit(shift(ws, dx, dy)),
        forall|i: int| 0 <= i < ws.len() ==> in_range((#[trigger] ws[i].pos.x - dx, ws[i].pos.y - dy)),
    ensures
        movable(grid_of(ws), dx, dy),
        grid_of(shift(ws, dx, dy)) == shift_cells(grid_of(ws), dx, dy),
        crossings_of(shift(ws, dx, dy)) == crossings_of(ws),
        clash_of(shift(ws, dx, dy)) == clash_of(ws),
    decreases ws.len(),
{
    let t = shift(ws, dx, dy);
    if ws.len() == 0 {
        assert(shift_cells(grid_of(ws), dx, dy) =~= grid_of(t));
    } else {
        let d = ws.drop_last();
        let w = ws.last();
        assert(t.drop_last() =~= shift(d, dx, dy));
        assert(ws[ws.len() - 1] == w);
        assert(t[t.len() - 1] == t.last());
        assert forall|i: int| 0 <= i < d.len() implies word_fits(#[trigger] d[i].pos, d[i].orientation, d[i].word.len() as int) by {
            assert(d[i] == ws[i]);
        }
        assert forall|i: int| 0 <= i < d.len() implies word_fits(#[trigger] shift(d, dx, dy)[i].pos, shift(d, dx, dy)[i].orientation, shift(d, dx, dy)[i].word.len() as int) by {
            assert(shift(d, dx, dy)[i] == t[i]);
        }
        assert forall|i: int| 0 <= i < d.len() implies in_range((#[trigger] d[i].pos.x - dx, d[i].pos.y - dy)) by {
            assert(d[i] == ws[i]);
        }
        lemma_shift_grid(d, dx, dy);
        lemma_grid_distinct(d);
        assert(t.last() == Placed { word: w.word, pos: to_xy((w.pos.x - dx, w.pos.y - dy)), orientation: w.orientation });
        assert(in_range((ws[ws.len() - 1].pos.x - dx, ws[ws.len() - 1].pos.y - dy)));
        assert(word_fits(t[t.len() - 1].pos, t[t.len() - 1].orientation, t[t.len() - 1].word.len() as int));
        lemma_shift_put_word(grid_of(d), w.word, w.pos, w.orientation, dx, dy, w.word.len());
    }
}

} // verus!
