use std::cmp::Ordering;
use vstd::prelude::*;
use crate::geometry::{lemma_cell_at, cell_at, Orientation, XY};
use crate::char_map::{is_clash, taken, Cell};
use crate::layout::{
    candidates, grid_of, normalized, clash_of, clashes_with, lemma_low_shift, low_x, low_y, area_of, crossings_of, is_candidate, normalizable, total_len, Layout, Placed,
};

verus! {

/// Orders two counts: `Greater` when the first is larger.
pub open spec fn cmp_nat(a: nat, b: nat) -> Ordering {
    if a < b {
        Ordering::Less
    } else if a > b {
        Ordering::Greater
    } else {
        Ordering::Equal
    }
}

/// A layout that has more crossings is preferred.
pub fn compare_crossings(some: &Layout, other: &Layout) -> (r: Ordering)
    requires
        some.wf(),
        other.wf(),
    ensures
        r == cmp_nat(crossings_of(some.words()), crossings_of(other.words())),
{
    let a = some.crossings_count();
    let b = other.crossings_count();
    if a < b {
        Ordering::Less
    } else if a > b {
        Ordering::Greater
    } else {
        Ordering::Equal
    }
}

/// A layout that covers a smaller area is preferred.
pub fn compare_area(some: &Layout, other: &Layout) -> (r: Ordering)
    requires
        some.wf(),
        other.wf(),
    ensures
        r == cmp_nat(area_of(other.cells()), area_of(some.cells())),
{
    let a = some.area();
    let b = other.area();
    if b < a {
        Ordering::Less
    } else if b > a {
        Ordering::Greater
    } else {
        Ordering::Equal
    }
}

pub struct UltimateComparator;

/// One way of telling which of two layouts is better.
#[derive(Clone, Copy, Debug, PartialEq, Eq, Structural)]
pub enum Comparator {
    /// More crossings is better.
    ByCrossings,
    /// A smaller area is better.
    ByArea,
}

/// How `c` ranks the layout of the words `a` against that of the words `b`.
pub open spec fn rank(c: Comparator, a: Seq<Placed>, b: Seq<Placed>) -> Ordering {
    match c {
        Comparator::ByCrossings => cmp_nat(crossings_of(a), crossings_of(b)),
        Comparator::ByArea => cmp_nat(area_of(grid_of(b)), area_of(grid_of(a))),
    }
}

/// The first ranking in `cs` that tells the layouts apart, or `Equal`.
pub open spec fn rank_all(cs: Seq<Comparator>, a: Seq<Placed>, b: Seq<Placed>) -> Ordering
    decreases cs.len(),
{
    if cs.len() == 0 {
        Ordering::Equal
    } else if rank(cs[0], a, b) == Ordering::Equal {
        rank_all(cs.drop_first(), a, b)
    } else {
        rank(cs[0], a, b)
    }
}

/// Where a word of `n` bytes goes among `r`, from index `k` on: after every
/// word at least as long.
pub open spec fn lead(r: Seq<&str>, n: nat, k: int) -> int
    decreases r.len() - k,
{
    if 0 <= k < r.len() && r[k].len() >= n {
        lead(r, n, k + 1)
    } else {
        k
    }
}

/// `ws` ordered from longest to shortest (in bytes): each word in turn goes
/// after every word already there that is at least as long, so equal
/// lengths keep their given order.
pub open spec fn longest_first_order(ws: Seq<&str>) -> Seq<&str>
    decreases ws.len(),
{
    if ws.len() == 0 {
        Seq::empty()
    } else {
        let r = longest_first_order(ws.drop_last());
        r.insert(lead(r, ws.last().len() as nat, 0), ws.last())
    }
}

/// A word can be tried on the layout of `ws`: its length fits the
/// coordinates and the total letter count still fits a `usize`.
pub open spec fn placeable(ws: Seq<Placed>, w: Seq<char>) -> bool {
    w.len() <= i32::MAX && total_len(ws) + w.len() <= usize::MAX
}

/// The trials of pending word `iw`: the words `ws` with it placed at each
/// of its candidates in turn, each tagged with `iw`.
pub open spec fn word_trials(ws: Seq<Placed>, pending: Seq<&str>, iw: int) -> Seq<(Seq<Placed>, int)> {
    if placeable(ws, pending[iw]@) {
        candidates(grid_of(ws), pending[iw]@, ws.len() > 0).map_values(
            |c: (XY, Orientation)| (ws.push(Placed { word: pending[iw]@, pos: c.0, orientation: c.1 }), iw),
        )
    } else {
        Seq::empty()
    }
}

/// The trials of the first `s` pending words, word by word.
pub open spec fn round_trials(ws: Seq<Placed>, pending: Seq<&str>, s: nat) -> Seq<(Seq<Placed>, int)>
    decreases s,
{
    if s == 0 {
        Seq::empty()
    } else {
        round_trials(ws, pending, (s - 1) as nat) + word_trials(ws, pending, s - 1)
    }
}

/// The trial a round keeps: the first one, replaced by each later one that
/// `cs` ranks above the one kept so far; so among equals the earliest wins.
pub open spec fn keep_best(cs: Seq<Comparator>, ts: Seq<(Seq<Placed>, int)>) -> Option<(Seq<Placed>, int)>
    decreases ts.len(),
{
    if ts.len() == 0 {
        None
    } else {
        let t = ts.last();
        match keep_best(cs, ts.drop_last()) {
            None => Some(t),
            Some(b) => if rank_all(cs, t.0, b.0) == Ordering::Greater {
                Some(t)
            } else {
                Some(b)
            },
        }
    }
}

/// How many pending words a round tries: all of them in automatic mode,
/// else the first.
pub open spec fn round_scope(pending: Seq<&str>, automatic: bool) -> nat {
    if automatic {
        pending.len()
    } else if pending.len() > 0 {
        1
    } else {
        0
    }
}

/// The words placed by growing `ws` round by round: each round keeps its
/// best trial and its word leaves `pending`; growth ends when nothing is
/// pending or a round has no trial.
pub open spec fn grow(ws: Seq<Placed>, pending: Seq<&str>, automatic: bool, cs: Seq<Comparator>) -> Seq<Placed>
    decreases pending.len(),
{
    if pending.len() == 0 {
        ws
    } else {
        match keep_best(cs, round_trials(ws, pending, round_scope(pending, automatic))) {
            Some(b) => if 0 <= b.1 < pending.len() {
                grow(b.0, pending.remove(b.1), automatic, cs)
            } else {
                ws
            },
            None => ws,
        }
    }
}

/// The words placed from `words`: longest first in automatic mode, in the
/// given order otherwise.
pub open spec fn grown(words: Seq<&str>, automatic: bool, cs: Seq<Comparator>) -> Seq<Placed> {
    grow(Seq::empty(), if automatic { longest_first_order(words) } else { words }, automatic, cs)
}

/// `ws` moved to the origin where that can be done.
pub open spec fn finished(ws: Seq<Placed>) -> Seq<Placed> {
    if normalizable(ws) {
        normalized(ws)
    } else {
        ws
    }
}

/// The comparators of a mode: crossings alone in automatic mode, crossings
/// then area otherwise.
pub open spec fn mode_comparators(automatic: bool) -> Seq<Comparator> {
    if automatic {
        seq![Comparator::ByCrossings]
    } else {
        seq![Comparator::ByCrossings, Comparator::ByArea]
    }
}

/// What a best trial held in a round stands for in `keep_best`.
pub open spec fn held(best: Option<(Layout, usize, usize)>, k: Option<(Seq<Placed>, int)>) -> bool {
    match best {
        None => k is None,
        Some(b) => k == Some((b.0.words(), b.1 as int)),
    }
}

/// The trial a round keeps is one of its trials, and some trial is kept
/// whenever there is one.
pub proof fn lemma_keep_best_member(cs: Seq<Comparator>, ts: Seq<(Seq<Placed>, int)>)
    ensures
        keep_best(cs, ts) is Some <==> ts.len() > 0,
        keep_best(cs, ts) matches Some(b) ==> ts.contains(b),
    decreases ts.len(),
{
    if ts.len() > 0 {
        lemma_keep_best_member(cs, ts.drop_last());
        assert(ts[ts.len() - 1] == ts.last());
        if let Some(b) = keep_best(cs, ts.drop_last()) {
            let j = choose|j: int| 0 <= j < ts.drop_last().len() && ts.drop_last()[j] == b;
            assert(ts[j] == b);
        }
    }
}

/// Every trial of a round places one pending word in scope, as the last
/// word after `ws`, at one of its candidates.
pub proof fn lemma_round_trials_member(ws: Seq<Placed>, pending: Seq<&str>, s: nat, t: (Seq<Placed>, int))
    requires
        round_trials(ws, pending, s).contains(t),
    ensures
        0 <= t.1 < s,
        t.0.len() == ws.len() + 1,
        t.0.drop_last() == ws,
        t.0.last().word == pending[t.1]@,
        candidates(grid_of(ws), pending[t.1]@, ws.len() > 0).contains((t.0.last().pos, t.0.last().orientation)),
    decreases s,
{
    let rt = round_trials(ws, pending, s);
    let j = choose|j: int| 0 <= j < rt.len() && rt[j] == t;
    let prev = round_trials(ws, pending, (s - 1) as nat);
    let wt = word_trials(ws, pending, s - 1);
    if j < prev.len() {
        assert(prev[j] == t);
        lemma_round_trials_member(ws, pending, (s - 1) as nat, t);
    } else {
        let c = j - prev.len();
        assert(wt[c] == t);
        let cands = candidates(grid_of(ws), pending[s - 1]@, ws.len() > 0);
        assert(cands[c] == (t.0.last().pos, t.0.last().orientation));
        assert(t.0.drop_last() =~= ws);
    }
}

/// Growth never moves or drops a committed word: the words placed before
/// stay first, in their order, and each round adds at most one word.
pub proof fn law_grow_extends(ws: Seq<Placed>, pending: Seq<&str>, automatic: bool, cs: Seq<Comparator>)
    ensures
        grow(ws, pending, automatic, cs).len() >= ws.len(),
        grow(ws, pending, automatic, cs).len() <= ws.len() + pending.len(),
        grow(ws, pending, automatic, cs).subrange(0, ws.len() as int) == ws,
    decreases pending.len(),
{
    let g = grow(ws, pending, automatic, cs);
    if pending.len() > 0 {
        let ts = round_trials(ws, pending, round_scope(pending, automatic));
        lemma_keep_best_member(cs, ts);
        if let Some(b) = keep_best(cs, ts) {
            if 0 <= b.1 < pending.len() {
                lemma_round_trials_member(ws, pending, round_scope(pending, automatic), b);
                law_grow_extends(b.0, pending.remove(b.1), automatic, cs);
                assert(g.subrange(0, b.0.len() as int).subrange(0, ws.len() as int) =~= g.subrange(0, ws.len() as int));
                assert(b.0.subrange(0, ws.len() as int) =~= ws);
            } else {
                assert(g.subrange(0, ws.len() as int) =~= ws);
            }
        } else {
            assert(g.subrange(0, ws.len() as int) =~= ws);
        }
    } else {
        assert(g.subrange(0, ws.len() as int) =~= ws);
    }
}

/// Every word that growth adds was among the candidates offered for it on
/// the layout of the words before it.
pub proof fn law_grow_from_candidates(ws: Seq<Placed>, pending: Seq<&str>, automatic: bool, cs: Seq<Comparator>)
    ensures
        forall|j: int|
            ws.len() <= j < grow(ws, pending, automatic, cs).len() ==> candidates(
                grid_of(grow(ws, pending, automatic, cs).take(j)),
                (#[trigger] grow(ws, pending, automatic, cs)[j]).word,
                j > 0,
            ).contains((grow(ws, pending, automatic, cs)[j].pos, grow(ws, pending, automatic, cs)[j].orientation)),
    decreases pending.len(),
{
    let g = grow(ws, pending, automatic, cs);
    law_grow_extends(ws, pending, automatic, cs);
    if pending.len() > 0 {
        let ts = round_trials(ws, pending, round_scope(pending, automatic));
        lemma_keep_best_member(cs, ts);
        if let Some(b) = keep_best(cs, ts) {
            if 0 <= b.1 < pending.len() {
                lemma_round_trials_member(ws, pending, round_scope(pending, automatic), b);
                law_grow_from_candidates(b.0, pending.remove(b.1), automatic, cs);
                law_grow_extends(b.0, pending.remove(b.1), automatic, cs);
                assert forall|j: int|
                    ws.len() <= j < g.len() implies candidates(
                        grid_of(g.take(j)),
                        (#[trigger] g[j]).word,
                        j > 0,
                    ).contains((g[j].pos, g[j].orientation)) by {
                    if j == ws.len() {
                        assert(g.take(j) =~= ws);
                        assert(g[j] == g.subrange(0, b.0.len() as int)[j]);
                        assert(b.0[j] == b.0.last());
                    }
                }
            }
        }
    }
}

/// The letters of the words placed after the first `from` of `g`.
pub open spec fn added_words(g: Seq<Placed>, from: int) -> Seq<Seq<char>> {
    g.subrange(from, g.len() as int).map_values(|p: Placed| p.word)
}

/// The letters of the pending words.
pub open spec fn letters_of(pending: Seq<&str>) -> Seq<Seq<char>> {
    pending.map_values(|s: &str| s@)
}

/// Growth places each pending word at most once and places nothing else:
/// the words it adds are a sub-multiset of the pending ones.
#[verifier::rlimit(60)]
pub proof fn law_grow_sub_multiset(ws: Seq<Placed>, pending: Seq<&str>, automatic: bool, cs: Seq<Comparator>)
    ensures
        added_words(grow(ws, pending, automatic, cs), ws.len() as int).to_multiset().subset_of(
            letters_of(pending).to_multiset(),
        ),
    decreases pending.len(),
{
    broadcast use vstd::multiset::group_multiset_axioms, vstd::seq_lib::group_to_multiset_ensures,
        vstd::seq_lib::to_multiset_insert;
    let g = grow(ws, pending, automatic, cs);
    law_grow_extends(ws, pending, automatic, cs);
    let mut done = false;
    if pending.len() > 0 {
        let ts = round_trials(ws, pending, round_scope(pending, automatic));
        lemma_keep_best_member(cs, ts);
        if let Some(b) = keep_best(cs, ts) {
            if 0 <= b.1 < pending.len() {
                let i = b.1;
                lemma_round_trials_member(ws, pending, round_scope(pending, automatic), b);
                law_grow_sub_multiset(b.0, pending.remove(i), automatic, cs);
                law_grow_extends(b.0, pending.remove(i), automatic, cs);
                let rest = added_words(g, b.0.len() as int);
                assert(g[ws.len() as int] == b.0.last());
                assert(added_words(g, ws.len() as int) =~= rest.insert(0, pending[i]@));
                assert(letters_of(pending.remove(i)) =~= letters_of(pending).remove(i));
                assert(letters_of(pending)[i] == pending[i]@);
                let m = letters_of(pending).to_multiset();
                assert(letters_of(pending).contains(pending[i]@));
                assert(m.count(pending[i]@) > 0);
                assert(m.remove(pending[i]@).insert(pending[i]@) =~= m);
                done = true;
            }
        }
    }
    if !done {
        assert(g.subrange(ws.len() as int, g.len() as int).len() == 0);
        assert(added_words(g, ws.len() as int) =~= Seq::<Seq<char>>::empty());
        let e = added_words(g, ws.len() as int);
        assert forall|x: Seq<char>| e.to_multiset().count(x) == 0 by {
            assert(!e.contains(x));
        }
    }
}

/// A round that keeps nothing found no candidate for any pending word in
/// scope that could be tried; growth then stops there.
pub proof fn law_stop_without_candidates(ws: Seq<Placed>, pending: Seq<&str>, automatic: bool, cs: Seq<Comparator>)
    requires
        pending.len() > 0,
        keep_best(cs, round_trials(ws, pending, round_scope(pending, automatic))) is None,
    ensures
        grow(ws, pending, automatic, cs) == ws,
        forall|iw: int|
            0 <= iw < round_scope(pending, automatic) && placeable(ws, #[trigger] pending[iw]@)
                ==> candidates(grid_of(ws), pending[iw]@, ws.len() > 0).len() == 0,
{
    let s = round_scope(pending, automatic);
    lemma_keep_best_member(cs, round_trials(ws, pending, s));
    assert forall|iw: int|
        0 <= iw < s && placeable(ws, #[trigger] pending[iw]@)
            implies candidates(grid_of(ws), pending[iw]@, ws.len() > 0).len() == 0 by {
        lemma_round_trials_len(ws, pending, s, iw);
    }
}

proof fn lemma_round_trials_len(ws: Seq<Placed>, pending: Seq<&str>, s: nat, iw: int)
    requires
        0 <= iw < s,
    ensures
        round_trials(ws, pending, s).len() >= word_trials(ws, pending, iw).len(),
    decreases s,
{
    if iw < s - 1 {
        lemma_round_trials_len(ws, pending, (s - 1) as nat, iw);
    }
}

/// Growing from no word with at least one pending word places at least
/// one word, when the first word in scope can be tried: on an empty layout
/// it has the two starts at the origin.
pub proof fn law_first_word_placed(pending: Seq<&str>, automatic: bool, cs: Seq<Comparator>)
    requires
        pending.len() > 0,
        placeable(Seq::empty(), pending[0]@),
    ensures
        grow(Seq::empty(), pending, automatic, cs).len() >= 1,
{
    let ws = Seq::<Placed>::empty();
    let s = round_scope(pending, automatic);
    let ts = round_trials(ws, pending, s);
    lemma_round_trials_len(ws, pending, s, 0);
    assert(word_trials(ws, pending, 0).len() == 2);
    lemma_keep_best_member(cs, ts);
    let b = keep_best(cs, ts).unwrap();
    lemma_round_trials_member(ws, pending, s, b);
    law_grow_extends(b.0, pending.remove(b.1), automatic, cs);
}

pub enum GeneratorMode {
    /// Automatic mode generates crossword deterministically regardless of the input order.
    /// Ideally, the crossword would be "optimal" w.r.t. to some measure (it's not, it's greedy).
    Automatic,
    /// Build the next state of the Layout based on the order of inputs. This is more useful
    /// for interactive development.
    InputOrder,
}

/// The letters `s` are those of one of `words`.
pub open spec fn from_input(s: Seq<char>, words: Seq<&str>) -> bool {
    exists|j: int| 0 <= j < words.len() && (#[trigger] words[j])@ == s
}

/// Every placed word is one of `words`, each placement at most once per
/// word given.
pub open spec fn placed_from(ws: Seq<Placed>, words: Seq<&str>) -> bool {
    &&& ws.len() <= words.len()
    &&& forall|i: int| 0 <= i < ws.len() ==> from_input(#[trigger] ws[i].word, words)
}

/// `words` ordered from longest to shortest (in bytes), equal lengths in
/// their given order.
fn longest_first<'a>(words: &Vec<&'a str>) -> (r: Vec<&'a str>)
    ensures
        r@.len() == words@.len(),
        forall|i: int, j: int| 0 <= i < j < r@.len() ==> r@[i].len() >= r@[j].len(),
        forall|i: int| 0 <= i < r@.len() ==> from_input((#[trigger] r@[i])@, words@),
        r@.to_multiset() == words@.to_multiset(),
        r@ == longest_first_order(words@),
{
    let mut r: Vec<&'a str> = Vec::new();
    proof {
        broadcast use vstd::seq_lib::to_multiset_build, vstd::seq_lib::to_multiset_insert;
        assert(words@.subrange(0, 0) =~= Seq::<&str>::empty());
        assert(r@ =~= Seq::<&str>::empty());
    }
    let mut i: usize = 0;
    while i < words.len()
        invariant
            i <= words@.len(),
            r@.len() == i,
            forall|a: int, b: int| 0 <= a < b < r@.len() ==> r@[a].len() >= r@[b].len(),
            forall|a: int| 0 <= a < r@.len() ==> from_input((#[trigger] r@[a])@, words@),
            r@.to_multiset() == words@.subrange(0, i as int).to_multiset(),
            r@ == longest_first_order(words@.subrange(0, i as int)),
        decreases words@.len() - i,
    {
        let w = words[i];
        let n = w.len();
        let mut k: usize = 0;
        while k < r.len() && r[k].len() >= n
            invariant
                k <= r@.len(),
                forall|a: int| 0 <= a < k ==> (#[trigger] r@[a]).len() >= n,
                lead(r@, n as nat, k as int) == lead(r@, n as nat, 0),
            decreases r@.len() - k,
        {
            k += 1;
        }
        let ghost before = r@;
        r.insert(k, w);
        proof {
            broadcast use vstd::seq_lib::to_multiset_build, vstd::seq_lib::to_multiset_insert;
            assert(words@.subrange(0, i + 1) =~= words@.subrange(0, i as int).push(w));
            assert(r@ == before.insert(k as int, w));
            assert(lead(before, n as nat, k as int) == k);
            assert(words@.subrange(0, i + 1).drop_last() =~= words@.subrange(0, i as int));
            assert(words@.subrange(0, i + 1).last() == w);
            assert(from_input(w@, words@)) by {
                assert(words@[i as int] == w);
            }
            assert forall|a: int| 0 <= a < r@.len() implies from_input((#[trigger] r@[a])@, words@) by {
                if a < k {
                    assert(r@[a] == before[a]);
                } else if a > k {
                    assert(r@[a] == before[a - 1]);
                }
            }
            assert forall|a: int, b: int| 0 <= a < b < r@.len() implies r@[a].len() >= r@[b].len() by {
                if a < k && b < k {
                    assert(r@[a] == before[a] && r@[b] == before[b]);
                } else if a < k && b == k {
                    assert(r@[a] == before[a]);
                } else if a < k && b > k {
                    assert(r@[a] == before[a] && r@[b] == before[b - 1]);
                } else if a == k && b > k {
                    assert(r@[b] == before[b - 1]);
                    if b - 1 > k {
                        assert(before[k as int].len() >= before[b - 1].len());
                    }
                } else {
                    assert(r@[a] == before[a - 1] && r@[b] == before[b - 1]);
                }
            }
        }
        i += 1;
    }
    assert(words@.subrange(0, words@.len() as int) =~= words@);
    r
}

/// Places words one by one, each time keeping the best trial layout.
pub struct CrosswordGenerator {
    comparators: Vec<Comparator>,
}

impl CrosswordGenerator {
    pub closed spec fn comparators(&self) -> Seq<Comparator> {
        self.comparators@
    }

    pub fn new(comparators: Vec<Comparator>) -> (r: CrosswordGenerator)
        ensures
            r.comparators() == comparators@,
    {
        CrosswordGenerator { comparators }
    }

    /// Ranks `candidate` against `current_best` by the comparators in turn:
    /// the first that tells them apart decides.
    pub fn compare(&self, candidate: &Layout, current_best: &Layout) -> (r: Ordering)
        requires
            candidate.wf(),
            current_best.wf(),
        ensures
            r == rank_all(self.comparators(), candidate.words(), current_best.words()),
    {
        let ghost cs = self.comparators();
        assert(cs.subrange(0, cs.len() as int) =~= cs);
        let mut i: usize = 0;
        while i < self.comparators.len()
            invariant
                i <= cs.len(),
                cs == self.comparators@,
                candidate.wf(),
                current_best.wf(),
                rank_all(cs, candidate.words(), current_best.words()) == rank_all(
                    cs.subrange(i as int, cs.len() as int),
                    candidate.words(),
                    current_best.words(),
                ),
            decreases cs.len() - i,
        {
            let o = match self.comparators[i] {
                Comparator::ByCrossings => compare_crossings(candidate, current_best),
                Comparator::ByArea => compare_area(candidate, current_best),
            };
            let ghost rest = cs.subrange(i as int, cs.len() as int);
            assert(rest[0] == cs[i as int]);
            assert(rest.drop_first() =~= cs.subrange(i + 1, cs.len() as int));
            match o {
                Ordering::Equal => {},
                _ => {
                    return o;
                },
            }
            i += 1;
        }
        Ordering::Equal
    }

    /// Grows a layout greedily. Each round takes the pending words in scope
    /// (all of them in `Automatic` mode, which first orders them longest
    /// first; the first one in `InputOrder` mode), tries every candidate
    /// start of each on a copy of the layout, and keeps the first trial that
    /// no later one beats. The word of the kept trial leaves the pending
    /// words; a round with no trial ends the growth, and the words left are
    /// dropped. The result is moved to the origin when its extent allows.
    #[verifier::rlimit(60)]
    pub fn generate_crossword(&self, words: &Vec<&str>, mode: GeneratorMode) -> (r: Layout)
        ensures
            r.wf(),
            placed_from(r.words(), words@),
            mode is InputOrder ==> forall|i: int|
                0 <= i < r.words().len() ==> #[trigger] r.words()[i].word == words@[i]@,
            normalizable(r.words()) ==> low_x(r.words()) == 0 && low_y(r.words()) == 0,
            !clash_of(r.words()),
            r.words() == finished(grown(words@, mode is Automatic, self.comparators())),
    {
        let ghost in_order = mode is InputOrder;
        let ghost cs = self.comparators();
        let ghost target = grown(words@, mode is Automatic, cs);
        let mut pending: Vec<&str> = match mode {
            GeneratorMode::Automatic => longest_first(words),
            GeneratorMode::InputOrder => {
                let mut p: Vec<&str> = Vec::new();
                assert(words@.subrange(0, 0) =~= Seq::<&str>::empty());
                let mut i: usize = 0;
                while i < words.len()
                    invariant
                        i <= words@.len(),
                        p@ == words@.subrange(0, i as int),
                    decreases words@.len() - i,
                {
                    p.push(words[i]);
                    i += 1;
                }
                proof {
                    assert(p@ =~= words@.subrange(0, i as int));
                    assert(p@ =~= words@);
                    assert forall|a: int| 0 <= a < p@.len() implies from_input((#[trigger] p@[a])@, words@) by {
                        assert(p@[a] == words@[a]);
                    }
                }
                p
            },
        };
        let automatic = match mode {
            GeneratorMode::Automatic => true,
            GeneratorMode::InputOrder => false,
        };
        let mut layout = Layout::new();
        let mut placed_len: usize = 0;
        assert(in_order ==> pending@ =~= words@.subrange(0, words@.len() as int));
        assert(layout.words() =~= Seq::<Placed>::empty());
        while pending.len() > 0
            invariant
                cs == self.comparators@,
                grow(layout.words(), pending@, automatic, cs) == target,
                layout.wf(),
                placed_len == total_len(layout.words()),
                layout.words().len() + pending@.len() == words@.len(),
                forall|a: int| 0 <= a < pending@.len() ==> from_input((#[trigger] pending@[a])@, words@),
                forall|i: int| 0 <= i < layout.words().len() ==> from_input(#[trigger] layout.words()[i].word, words@),
                automatic == !in_order,
                !clash_of(layout.words()),
                in_order ==> pending@ == words@.subrange(layout.words().len() as int, words@.len() as int),
                in_order ==> forall|i: int|
                    0 <= i < layout.words().len() ==> #[trigger] layout.words()[i].word == words@[i]@,
            ensures
                layout.words() == target,
                layout.wf(),
                placed_len == total_len(layout.words()),
                forall|i: int| 0 <= i < layout.words().len() ==> from_input(#[trigger] layout.words()[i].word, words@),
                layout.words().len() <= words@.len(),
                !clash_of(layout.words()),
                in_order ==> forall|i: int|
                    0 <= i < layout.words().len() ==> #[trigger] layout.words()[i].word == words@[i]@,
            decreases pending@.len(),
        {
            let mut best: Option<(Layout, usize, usize)> = None;
            let scope = if automatic {
                pending.len()
            } else {
                1
            };
            let mut iw: usize = 0;
            while iw < scope
                invariant
                    layout.wf(),
                    !clash_of(layout.words()),
                    placed_len == total_len(layout.words()),
                    1 <= scope <= pending@.len(),
                    iw <= scope,
                    scope == round_scope(pending@, automatic),
                    cs == self.comparators@,
                    held(best, keep_best(cs, round_trials(layout.words(), pending@, iw as nat))),
                    best matches Some((b, bi, bt)) ==> {
                        &&& b.wf()
                        &&& !clash_of(b.words())
                        &&& bi < scope
                        &&& bi < pending@.len()
                        &&& bt == total_len(b.words())
                        &&& b.words().len() == layout.words().len() + 1
                        &&& b.words().drop_last() == layout.words()
                        &&& b.words().last().word == pending@[bi as int]@
                    },
                decreases scope - iw,
            {
                let word = pending[iw];
                let n = word.unicode_len();
                if n <= i32::MAX as usize && placed_len <= usize::MAX - n {
                    let cands = layout.get_possible_start_positions(word);
                    let mut c: usize = 0;
                    proof {
                        let wt = word_trials(layout.words(), pending@, iw as int);
                        assert(wt.take(0) =~= Seq::<(Seq<Placed>, int)>::empty());
                        assert(round_trials(layout.words(), pending@, iw as nat) + wt.take(0)
                            =~= round_trials(layout.words(), pending@, iw as nat));
                    }
                    while c < cands.len()
                        invariant
                            layout.wf(),
                            !clash_of(layout.words()),
                            placed_len == total_len(layout.words()),
                            1 <= scope <= pending@.len(),
                            iw < scope,
                            word == pending@[iw as int],
                            cs == self.comparators@,
                            placeable(layout.words(), word@),
                            cands@ == candidates(layout.cells(), word@, layout.words().len() > 0),
                            c <= cands@.len(),
                            held(best, keep_best(cs, round_trials(layout.words(), pending@, iw as nat)
                                + word_trials(layout.words(), pending@, iw as int).take(c as int))),
                            n == word@.len(),
                            n <= i32::MAX,
                            placed_len + n <= usize::MAX,
                            layout.words().len() == 0 ==> cands@ == seq![
                                (XY { x: 0, y: 0 }, Orientation::Horiz),
                                (XY { x: 0, y: 0 }, Orientation::Vert),
                            ],
                            layout.words().len() > 0 ==> forall|j: int|
                                0 <= j < cands@.len() ==> is_candidate(layout.cells(), word@, #[trigger] cands@[j].0, cands@[j].1),
                            best matches Some((b, bi, bt)) ==> {
                                &&& b.wf()
                                &&& !clash_of(b.words())
                                &&& bi < scope
                                &&& bi < pending@.len()
                                &&& bt == total_len(b.words())
                                &&& b.words().len() == layout.words().len() + 1
                                &&& b.words().drop_last() == layout.words()
                                &&& b.words().last().word == pending@[bi as int]@
                            },
                        decreases cands@.len() - c,
                    {
                        let (pos, o) = cands[c];
                        proof {
                            if layout.words().len() == 0 {
                                assert(cands@[c as int] == (pos, o));
                                assert(cands@[0].0 == XY { x: 0, y: 0 });
                                assert(cands@[1].0 == XY { x: 0, y: 0 });
                                assert(pos == XY { x: 0, y: 0 });
                                lemma_cell_at(pos, o, n - 1);
                            } else {
                                assert(is_candidate(layout.cells(), word@, cands@[c as int].0, cands@[c as int].1));
                            }
                        }
                        proof {
                            if layout.words().len() == 0 {
                                assert(!clashes_with(layout.cells(), word@, pos, o)) by {
                                    assert(layout.cells() =~= Seq::<Cell>::empty());
                                    if clashes_with(layout.cells(), word@, pos, o) {
                                        let i = choose|i: int| 0 <= i < word@.len() && #[trigger] is_clash(layout.cells(), cell_at(pos, o, i), word@[i]);
                                        assert(!taken(layout.cells(), cell_at(pos, o, i)));
                                    }
                                }
                            }
                        }
                        let mut trial = layout.snapshot();
                        let _ = trial.insert_at(word, pos, o);
                        proof {
                            assert(trial.words().drop_last() =~= layout.words());
                            assert(trial.words()[trial.words().len() - 1] == trial.words().last());
                            assert(!clash_of(trial.words()));
                        }
                        let ghost before = round_trials(layout.words(), pending@, iw as nat)
                            + word_trials(layout.words(), pending@, iw as int).take(c as int);
                        proof {
                            let wt = word_trials(layout.words(), pending@, iw as int);
                            assert(wt[c as int] == (layout.words().push(Placed { word: word@, pos, orientation: o }), iw as int));
                            assert(round_trials(layout.words(), pending@, iw as nat) + wt.take(c + 1)
                                =~= before.push(wt[c as int]));
                        }
                        let take = match &best {
                            None => true,
                            Some((b, _, _)) => match self.compare(&trial, b) {
                                Ordering::Greater => true,
                                _ => false,
                            },
                        };
                        let ghost t = (trial.words(), iw as int);
                        proof {
                            assert(before.push(t).drop_last() =~= before);
                            assert(before.push(t).last() == t);
                            assert(trial.words() == layout.words().push(Placed { word: word@, pos, orientation: o }));
                        }
                        if take {
                            best = Some((trial, iw, placed_len + n));
                        }
                        proof {
                            assert(keep_best(cs, before.push(t)) == match keep_best(cs, before) {
                                None => Some(t),
                                Some(b) => if rank_all(cs, t.0, b.0) == Ordering::Greater {
                                    Some(t)
                                } else {
                                    Some(b)
                                },
                            });
                        }
                        c += 1;
                    }
                    proof {
                        let wt = word_trials(layout.words(), pending@, iw as int);
                        assert(wt.take(c as int) =~= wt);
                        assert(round_trials(layout.words(), pending@, (iw + 1) as nat)
                            == round_trials(layout.words(), pending@, iw as nat) + wt);
                    }
                } else {
                    proof {
                        assert(!placeable(layout.words(), word@));
                        assert(round_trials(layout.words(), pending@, (iw + 1) as nat)
                            =~= round_trials(layout.words(), pending@, iw as nat));
                    }
                }
                iw += 1;
            }
            match best {
                Some((b, bi, bt)) => {
                    let ghost old_pending = pending@;
                    let ghost old_words = layout.words();
                    assert(grow(old_words, old_pending, automatic, cs) == grow(
                        b.words(),
                        old_pending.remove(bi as int),
                        automatic,
                        cs,
                    ));
                    layout = b;
                    placed_len = bt;
                    pending.remove(bi);
                    proof {
                        assert(from_input(old_pending[bi as int]@, words@));
                        assert forall|i: int| 0 <= i < layout.words().len() implies from_input(#[trigger] layout.words()[i].word, words@) by {
                            if i < old_words.len() {
                                assert(layout.words()[i] == layout.words().drop_last()[i]);
                            }
                        }
                        if in_order {
                            assert(pending@ =~= words@.subrange(layout.words().len() as int, words@.len() as int));
                            assert forall|i: int| 0 <= i < layout.words().len() implies #[trigger] layout.words()[i].word == words@[i]@ by {
                                if i < old_words.len() {
                                    assert(layout.words()[i] == layout.words().drop_last()[i]);
                                } else {
                                    assert(old_pending[0] == words@[i]);
                                }
                            }
                        }
                        assert forall|a: int| 0 <= a < pending@.len() implies from_input((#[trigger] pending@[a])@, words@) by {
                            if a < bi {
                                assert(pending@[a] == old_pending[a]);
                            } else {
                                assert(pending@[a] == old_pending[a + 1]);
                            }
                        }
                    }
                },
                None => {
                    assert(grow(layout.words(), pending@, automatic, cs) == layout.words());
                    break;
                },
            }
        }
        if layout.fits_normalized() {
            let r = layout.normalize();
            proof {
                if layout.words().len() > 0 {
                    lemma_low_shift(layout.words(), low_x(layout.words()), low_y(layout.words()));
                }
                let ws = r.words();
                assert forall|i: int| 0 <= i < ws.len() implies from_input(#[trigger] ws[i].word, words@) by {
                    assert(ws[i].word == layout.words()[i].word);
                }
                assert forall|i: int| in_order && 0 <= i < ws.len() implies #[trigger] ws[i].word == words@[i]@ by {
                    assert(ws[i].word == layout.words()[i].word);
                }
            }
            r
        } else {
            layout
        }
    }
}

/// Grows a layout from `words`: crossings decide in `Automatic` mode;
/// crossings and then a smaller area in `InputOrder` mode.
pub fn generate_crossword(words: &Vec<&str>, mode: GeneratorMode) -> (r: Layout)
    ensures
        r.wf(),
        placed_from(r.words(), words@),
        mode is InputOrder ==> forall|i: int|
            0 <= i < r.words().len() ==> #[trigger] r.words()[i].word == words@[i]@,
        normalizable(r.words()) ==> low_x(r.words()) == 0 && low_y(r.words()) == 0,
        !clash_of(r.words()),
        r.words() == finished(grown(words@, mode is Automatic, mode_comparators(mode is Automatic))),
{
    let comparators = match mode {
        GeneratorMode::Automatic => vec![Comparator::ByCrossings],
        GeneratorMode::InputOrder => vec![Comparator::ByCrossings, Comparator::ByArea],
    };
    assert(comparators@ =~= mode_comparators(mode is Automatic));
    CrosswordGenerator::new(comparators).generate_crossword(words, mode)
}

} // verus!
