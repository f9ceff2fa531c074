//! The grid of 81 cells: seeding, reading and the per-cell updates.
use vstd::prelude::*;
use crate::digit::{is_digit, valid_digit};
use crate::value::{
    lemma_exclude_idempotent, lemma_live_digits_contains, CellState, Rule, Value,
};

verus! {

/// The grid: 81 cells, one per position of the board read row by row.
#[derive(Clone, PartialEq, Eq, Debug)]
pub struct Board {
    pub values: Vec<Value>,
}

/// A grid state has 81 well-formed cells.
pub open spec fn grid_wf(s: Seq<CellState>) -> bool {
    s.len() == 81 && forall|i: int| 0 <= i < 81 ==> (#[trigger] s[i]).wf()
}

/// The grid in which every cell is open with all nine digits live.
pub open spec fn blank_grid() -> Seq<CellState> {
    Seq::new(81, |i: int| CellState::blank())
}

/// The grid `s` after the board string `givens` has been laid over it: a
/// digit at one of the first 81 positions fixes its cell, any other
/// character and any missing position leaves the cell as it is.
pub open spec fn seed(s: Seq<CellState>, givens: Seq<char>) -> Seq<CellState> {
    Seq::new(
        81,
        |i: int|
            if i < givens.len() && is_digit(givens[i]) {
                CellState::Fixed(givens[i])
            } else {
                s[i]
            },
    )
}

/// The board string of a grid: the digit of each fixed cell, `'.'` for each open cell.
pub open spec fn snapshot(s: Seq<CellState>) -> Seq<char> {
    s.map_values(|c: CellState| c.symbol())
}

/// The number of candidates excluded by `rule` in the first `n` cells.
pub open spec fn marks_upto(s: Seq<CellState>, rule: Rule, n: int) -> nat
    decreases n,
{
    if n <= 0 {
        0
    } else {
        marks_upto(s, rule, n - 1) + s[n - 1].marks(rule)
    }
}

/// The number of candidates excluded by `rule` in the whole grid.
pub open spec fn total_marks(s: Seq<CellState>, rule: Rule) -> nat {
    marks_upto(s, rule, s.len() as int)
}

/// The test that picks the cells of `s` in which `d` is a live candidate.
pub open spec fn live_at(s: Seq<CellState>, d: char) -> spec_fn(usize) -> bool {
    |i: usize| s[i as int].live(d)
}

/// Those of `cells`, in their order, in which `d` is a live candidate.
pub open spec fn live_among(s: Seq<CellState>, cells: Seq<usize>, d: char) -> Seq<usize> {
    cells.filter(live_at(s, d))
}

/// The grid `s` with `d` excluded by `rule` from each of `cells` in which it is live.
pub open spec fn exclude_at(s: Seq<CellState>, cells: Seq<usize>, d: char, rule: Rule) -> Seq<
    CellState,
> {
    Seq::new(
        s.len(),
        |j: int|
            if cells.contains(j as usize) {
                s[j].exclude(d, rule)
            } else {
                s[j]
            },
    )
}

/// A cell is among the live cells of a list exactly if it is in the list and `d` is live in it.
pub proof fn lemma_live_among_contains(s: Seq<CellState>, cells: Seq<usize>, d: char, x: usize)
    ensures
        live_among(s, cells, d).contains(x) <==> cells.contains(x) && s[x as int].live(d),
{
    let p = live_at(s, d);
    if cells.filter(p).contains(x) {
        cells.lemma_filter_contains_rev(p, x);
    }
    if cells.contains(x) && p(x) {
        let i = choose|i: int| 0 <= i < cells.len() && cells[i] == x;
        cells.lemma_filter_contains(p, i);
    }
}

/// The first `n` cells hold at most nine marks of a rule each.
pub proof fn lemma_marks_bound(s: Seq<CellState>, rule: Rule, n: int)
    requires
        grid_wf(s),
        0 <= n <= 81,
    ensures
        marks_upto(s, rule, n) <= 9 * n,
    decreases n,
{
    if n > 0 {
        lemma_marks_bound(s, rule, n - 1);
        if let CellState::Open(m) = s[n - 1] {
            m.lemma_filter_len(CellState::mark_pred(rule));
        }
    }
}

impl View for Board {
    type V = Seq<CellState>;

    open spec fn view(&self) -> Seq<CellState> {
        self.values@.map_values(|v: Value| v@)
    }
}

impl Board {
    /// The board has 81 cells, each well-formed.
    pub open spec fn wf(&self) -> bool {
        self.values@.len() == 81 && forall|i: int|
            0 <= i < 81 ==> (#[trigger] self.values@[i]).wf()
    }

    /// The state of a well-formed board is a well-formed grid.
    pub proof fn lemma_wf_view(&self)
        requires
            self.wf(),
        ensures
            grid_wf(self@),
    {
        assert forall|i: int| 0 <= i < 81 implies (#[trigger] self@[i]).wf() by {
            assert(self.values@[i].wf());
        }
    }

    /// Tests whether the board is well-formed.
    pub fn valid(&self) -> (b: bool)
        ensures
            b == self.wf(),
    {
        if self.values.len() != 81 {
            return false;
        }
        let mut i: usize = 0;
        while i < 81
            invariant
                i <= 81,
                self.values@.len() == 81,
                forall|j: int| 0 <= j < i ==> (#[trigger] self.values@[j]).wf(),
            decreases 81 - i,
        {
            if !self.values[i].valid() {
                return false;
            }
            i = i + 1;
        }
        true
    }

    /// A board whose cells are all open with all nine digits live.
    pub fn new() -> (b: Board)
        ensures
            b.wf(),
            b@ == blank_grid(),
    {
        let mut values: Vec<Value> = Vec::new();
        let mut i: usize = 0;
        while i < 81
            invariant
                i <= 81,
                values@.len() == i,
                forall|j: int| 0 <= j < i ==> (#[trigger] values@[j]).wf(),
                forall|j: int| 0 <= j < i ==> (#[trigger] values@[j])@ == CellState::blank(),
            decreases 81 - i,
        {
            values.push(Value::default());
            i = i + 1;
        }
        let b = Board { values };
        b
    }

    /// The board that the board string `givens` stands for: a cell is fixed
    /// where one of the first 81 characters is a digit, and open with all
    /// nine digits live elsewhere.
    pub fn from_givens(givens: &str) -> (b: Board)
        ensures
            b.wf(),
            b@ == seed(blank_grid(), givens@),
    {
        let mut b = Board::new();
        b.choose_all(givens);
        b
    }

    /// Fixes one cell for each digit among the first 81 characters of `givens`.
    pub fn choose_all(&mut self, givens: &str)
        requires
            old(self).wf(),
        ensures
            final(self).wf(),
            final(self)@ == seed(old(self)@, givens@),
    {
        let mut i: usize = 0;
        for given in it: givens.chars()
            invariant
                it.seq() == givens@,
                self.wf(),
                i == if it.index() < 81 { it.index() } else { 81 },
                self@ == seed(old(self)@, givens@.take(i as int)),
        {
            if i < 81 {
                if valid_digit(given) {
                    self.fix(i, given);
                }
                i = i + 1;
            }
        }
    }

    /// Fixes cell `i` to the digit `choice`, whatever the cell held before.
    pub fn fix(&mut self, i: usize, choice: char)
        requires
            old(self).wf(),
            i < 81,
            is_digit(choice),
        ensures
            final(self).wf(),
            final(self)@ == old(self)@.update(i as int, CellState::Fixed(choice)),
    {
        self.values[i] = Value::Given(choice);
    }

    /// The digits that cell `i` can still hold: its digit if it is fixed,
    /// its live candidates in ascending order if it is open.
    pub fn live_digits(&self, i: usize) -> (r: Vec<char>)
        requires
            self.wf(),
            i < 81,
        ensures
            r@ == self@[i as int].candidates(),
    {
        match self.values[i].choices() {
            Some(live) => live,
            None => {
                let mut r: Vec<char> = Vec::new();
                if let Some(g) = self.values[i].given() {
                    r.push(g);
                }
                r
            },
        }
    }

    /// The number of candidates that `rule` has excluded over the whole board.
    pub fn count(&self, rule: &Rule) -> (n: usize)
        requires
            self.wf(),
        ensures
            n == total_marks(self@, *rule),
            n <= 729,
    {
        let mut n: usize = 0;
        let mut i: usize = 0;
        while i < 81
            invariant
                i <= 81,
                self.wf(),
                n == marks_upto(self@, *rule, i as int),
                n <= 9 * i,
            decreases 81 - i,
        {
            n = n + self.values[i].count(rule);
            i = i + 1;
        }
        n
    }

    /// Those cells of `subset`, in its order, that are open with `digit` live.
    pub fn indexes_of(&self, subset: &[usize; 9], digit: char) -> (r: Vec<usize>)
        requires
            self.wf(),
            forall|k: int| 0 <= k < 9 ==> subset@[k] < 81,
        ensures
            r@ == live_among(self@, subset@, digit),
    {
        let mut r: Vec<usize> = Vec::new();
        let mut k: usize = 0;
        while k < 9
            invariant
                k <= 9,
                self.wf(),
                forall|j: int| 0 <= j < 9 ==> subset@[j] < 81,
                r@ == live_among(self@, subset@.take(k as int), digit),
            decreases 9 - k,
        {
            let i = subset[k];
            proof {
                assert(subset@.take(k + 1) == subset@.take(k as int).push(i));
                subset@.take(k as int).lemma_filter_push(i, live_at(self@, digit));
            }
            let live = match self.values[i].choices() {
                Some(cs) => {
                    proof {
                        lemma_live_digits_contains(self@[i as int], digit);
                    }
                    contains_digit(&cs, digit)
                },
                None => false,
            };
            if live {
                r.push(i);
            }
            k = k + 1;
        }
        proof {
            assert(subset@.take(9) == subset@);
        }
        r
    }

    /// Excludes `digit` by `rule` from each of the cells `indexes` in which it is live.
    pub fn eliminate(&mut self, indexes: Vec<usize>, digit: char, rule: Rule)
        requires
            old(self).wf(),
            forall|k: int| 0 <= k < indexes@.len() ==> indexes@[k] < 81,
        ensures
            final(self).wf(),
            final(self)@ == exclude_at(old(self)@, indexes@, digit, rule),
    {
        let n = indexes.len();
        let mut k: usize = 0;
        proof {
            self.lemma_wf_view();
        }
        while k < n
            invariant
                k <= n,
                n == indexes@.len(),
                self.wf(),
                grid_wf(old(self)@),
                forall|j: int| 0 <= j < n ==> indexes@[j] < 81,
                self@ == exclude_at(old(self)@, indexes@.take(k as int), digit, rule),
            decreases n - k,
        {
            let i = indexes[k];
            let ghost before = self@;
            self.values[i].eliminate(digit, rule);
            proof {
                let seen = indexes@.take(k as int);
                let next = indexes@.take(k + 1);
                assert forall|j: int| 0 <= j < 81 implies #[trigger] self@[j] == exclude_at(
                    old(self)@,
                    next,
                    digit,
                    rule,
                )[j] by {
                    assert(next.contains(j as usize) <==> seen.contains(j as usize) || j == i) by {
                        if seen.contains(j as usize) {
                            let x = choose|x: int| 0 <= x < seen.len() && seen[x] == j as usize;
                            assert(next[x] == j as usize);
                        }
                        if j == i {
                            assert(next[k as int] == i);
                        }
                    }
                    if j == i {
                        assert(self@[j] == before[j].exclude(digit, rule));
                        lemma_exclude_idempotent(old(self)@[j], digit, rule);
                    }
                }
            }
            k = k + 1;
        }
        proof {
            assert(indexes@.take(n as int) == indexes@);
        }
    }

    /// The board string: the digit of each fixed cell, `'.'` for each open cell.
    pub fn givens(&self) -> (r: Vec<char>)
        requires
            self.wf(),
        ensures
            r@ == snapshot(self@),
    {
        let mut r: Vec<char> = Vec::new();
        let mut i: usize = 0;
        while i < 81
            invariant
                i <= 81,
                self.wf(),
                r@.len() == i,
                forall|j: int| 0 <= j < i ==> r@[j] == (#[trigger] self@[j]).symbol(),
            decreases 81 - i,
        {
            let c = match self.values[i].given() {
                Some(g) => g,
                None => '.',
            };
            r.push(c);
            i = i + 1;
        }
        r
    }

    /// The board string that this board would have with cell `i` fixed to
    /// `digit`. The board itself is not changed.
    pub fn next_givens(&self, i: usize, digit: char) -> (r: Vec<char>)
        requires
            self.wf(),
            i < 81,
            is_digit(digit),
        ensures
            r@ == snapshot(self@.update(i as int, CellState::Fixed(digit))),
    {
        let mut r = self.givens();
        r[i] = digit;
        r
    }
}

/// Whether `digit` occurs in `digits`.
pub fn contains_digit(digits: &Vec<char>, digit: char) -> (b: bool)
    ensures
        b == digits@.contains(digit),
{
    let mut k: usize = 0;
    while k < digits.len()
        invariant
            k <= digits@.len(),
            forall|j: int| 0 <= j < k ==> digits@[j] != digit,
        decreases digits@.len() - k,
    {
        if digits[k] == digit {
            return true;
        }
        k = k + 1;
    }
    false
}

} // verus!
