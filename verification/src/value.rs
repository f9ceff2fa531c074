//! One cell of the grid: its executable form and its mathematical state.
use vstd::prelude::*;
use crate::digit::{
    digit_at, digit_index, digit_of, digits, is_digit, lemma_digit_positions, position_of,
    valid_digit,
};
use crate::narrow::{cell_narrows_to, lemma_exclude_narrows, lemma_keep_narrows};

verus! {

/// The deduction rule that excluded a candidate.
#[derive(Clone, Copy, PartialEq, Eq, Structural, Debug)]
pub enum Rule {
    AtMostOne,
    AtLeastOne,
}

/// One candidate digit of an open cell with the rule that excluded it, if any.
#[derive(Clone, Copy, PartialEq, Eq, Debug)]
pub struct Choice {
    pub digit: char,
    pub reason: Option<Rule>,
}

/// A cell: open with nine candidates, or fixed to a digit.
#[derive(Clone, PartialEq, Eq, Debug)]
pub enum Value {
    Choices(Vec<Choice>),
    Given(char),
}

/// The state of a cell. An open cell maps the position of each digit to the
/// rule that excluded it; `None` marks a digit that is still live.
pub enum CellState {
    Fixed(char),
    Open(Seq<Option<Rule>>),
}

impl CellState {
    /// A fixed cell holds a digit; an open cell has a status for each of the nine digits.
    pub open spec fn wf(self) -> bool {
        match self {
            CellState::Fixed(d) => is_digit(d),
            CellState::Open(m) => m.len() == 9,
        }
    }

    /// An open cell with all nine digits live.
    pub open spec fn blank() -> CellState {
        CellState::Open(Seq::new(9, |k: int| None))
    }

    /// The character that stands for the cell in a board string: its digit
    /// if fixed, `'.'` if open.
    pub open spec fn symbol(self) -> char {
        match self {
            CellState::Fixed(d) => d,
            CellState::Open(_) => '.',
        }
    }

    /// Whether `d` is a live candidate: the cell is open and `d` is a digit
    /// that no rule has excluded.
    pub open spec fn live(self, d: char) -> bool {
        self matches CellState::Open(m) && is_digit(d) && m[digit_index(d)] is None
    }

    /// The rule that excluded `d` from an open cell, `None` while `d` is live.
    pub open spec fn status(self, d: char) -> Option<Rule>
        recommends
            self is Open,
            is_digit(d),
    {
        self->Open_0[digit_index(d)]
    }

    /// Whether `d` is the only live candidate of the cell.
    pub open spec fn only_live(self, d: char) -> bool {
        self.live(d) && forall|e: char| is_digit(e) && e != d ==> !(#[trigger] self.live(e))
    }

    /// The test that picks the live digits of the cell.
    pub open spec fn live_pred(self) -> spec_fn(char) -> bool {
        |d: char| self.live(d)
    }

    /// The live candidates in ascending order.
    pub open spec fn live_digits(self) -> Seq<char> {
        digits().filter(self.live_pred())
    }

    /// The digits that the cell can still hold: its digit if it is fixed,
    /// its live candidates in ascending order if it is open.
    pub open spec fn candidates(self) -> Seq<char> {
        match self {
            CellState::Fixed(d) => seq![d],
            CellState::Open(_) => self.live_digits(),
        }
    }

    /// The test that picks the statuses that carry the mark of `rule`.
    pub open spec fn mark_pred(rule: Rule) -> spec_fn(Option<Rule>) -> bool {
        |s: Option<Rule>| s == Some(rule)
    }

    /// The number of digits that `rule` has excluded from the cell.
    pub open spec fn marks(self, rule: Rule) -> nat {
        match self {
            CellState::Fixed(_) => 0,
            CellState::Open(m) => m.filter(Self::mark_pred(rule)).len(),
        }
    }

    /// The cell with `d` excluded by `rule` if `d` is live, the cell itself otherwise.
    pub open spec fn exclude(self, d: char, rule: Rule) -> CellState {
        match self {
            CellState::Open(m) if self.live(d) => CellState::Open(
                m.update(digit_index(d), Some(rule)),
            ),
            _ => self,
        }
    }

    /// The cell with every live digit other than `d` excluded by `rule`.
    /// A fixed cell stays as it is.
    pub open spec fn keep(self, d: char, rule: Rule) -> CellState {
        match self {
            CellState::Open(m) => CellState::Open(
                Seq::new(
                    m.len(),
                    |k: int|
                        if m[k] is None && digit_at(k) != d {
                            Some(rule)
                        } else {
                            m[k]
                        },
                ),
            ),
            CellState::Fixed(_) => self,
        }
    }
}

/// A digit is among the live digits of a cell exactly if it is live in it.
pub proof fn lemma_live_digits_contains(c: CellState, d: char)
    ensures
        c.live_digits().contains(d) <==> c.live(d),
{
    lemma_digit_positions();
    let p = c.live_pred();
    if digits().filter(p).contains(d) {
        digits().lemma_filter_contains_rev(p, d);
    }
    if c.live(d) {
        digits().lemma_filter_contains(p, digit_index(d));
    }
}

/// A digit is the only live candidate of a cell exactly if it alone makes up
/// the live digits of the cell.
pub proof fn lemma_only_live(c: CellState, d: char)
    ensures
        c.only_live(d) <==> c.live_digits() == seq![d],
{
    lemma_digit_positions();
    let p = c.live_pred();
    let live = c.live_digits();
    if live == seq![d] {
        assert(live[0] == d);
        lemma_live_digits_contains(c, d);
        assert forall|e: char| is_digit(e) && e != d implies !(#[trigger] c.live(e)) by {
            lemma_live_digits_contains(c, e);
        }
    }
    if c.only_live(d) {
        let k = digit_index(d);
        let low = digits().take(k);
        let high = digits().skip(k + 1);
        assert(digits() == low + seq![d] + high);
        assert(low.all(|x: char| !p(x)));
        assert(high.all(|x: char| !p(x)));
        low.lemma_all_neg_filter_empty(p);
        high.lemma_all_neg_filter_empty(p);
        Seq::filter_distributes_over_add(low + seq![d], high, p);
        Seq::filter_distributes_over_add(low, seq![d], p);
        Seq::<char>::empty().lemma_filter_push(d, p);
        assert(seq![d] == Seq::<char>::empty().push(d));
        assert(Seq::<char>::empty().filter(p).len() == 0) by {
            Seq::<char>::empty().lemma_filter_len(p);
        }
        assert(live =~= seq![d]);
    }
}

/// Excluding a digit twice is excluding it once.
pub proof fn lemma_exclude_idempotent(c: CellState, d: char, rule: Rule)
    requires
        c.wf(),
    ensures
        c.exclude(d, rule).wf(),
        !c.exclude(d, rule).live(d),
        c.exclude(d, rule).exclude(d, rule) == c.exclude(d, rule),
{
}

impl View for Value {
    type V = CellState;

    open spec fn view(&self) -> CellState {
        match *self {
            Value::Given(g) => CellState::Fixed(g),
            Value::Choices(cs) => CellState::Open(cs@.map_values(|c: Choice| c.reason)),
        }
    }
}

impl Value {
    /// A fixed cell holds a digit; an open cell lists the nine digits in order.
    pub open spec fn wf(&self) -> bool {
        match *self {
            Value::Given(g) => is_digit(g),
            Value::Choices(cs) => cs@.len() == 9 && forall|k: int|
                0 <= k < 9 ==> (#[trigger] cs@[k]).digit == digit_at(k),
        }
    }

    /// Tests whether the cell is well-formed.
    pub fn valid(&self) -> (b: bool)
        ensures
            b == self.wf(),
    {
        match self {
            Value::Given(g) => valid_digit(*g),
            Value::Choices(cs) => {
                if cs.len() != 9 {
                    return false;
                }
                let mut k: usize = 0;
                while k < 9
                    invariant
                        k <= 9,
                        cs@.len() == 9,
                        *self == Value::Choices(*cs),
                        forall|j: int| 0 <= j < k ==> (#[trigger] cs@[j]).digit == digit_at(j),
                    decreases 9 - k,
                {
                    if cs[k].digit != digit_of(k) {
                        return false;
                    }
                    k = k + 1;
                }
                true
            },
        }
    }

    /// The live candidates of an open cell in ascending order, `None` for a fixed cell.
    pub fn choices(&self) -> (r: Option<Vec<char>>)
        requires
            self.wf(),
        ensures
            match r {
                Some(v) => self@ is Open && v@ == self@.live_digits(),
                None => self@ is Fixed,
            },
    {
        match self {
            Value::Choices(cs) => {
                let mut out: Vec<char> = Vec::new();
                let mut k: usize = 0;
                while k < 9
                    invariant
                        k <= 9,
                        self.wf(),
                        *self == Value::Choices(*cs),
                        out@ == digits().take(k as int).filter(self@.live_pred()),
                    decreases 9 - k,
                {
                    proof {
                        lemma_digit_positions();
                        let seen = digits().take(k as int);
                        assert(digits().take(k + 1) == seen.push(digit_at(k as int)));
                        seen.lemma_filter_push(digit_at(k as int), self@.live_pred());
                    }
                    if cs[k].reason.is_none() {
                        out.push(cs[k].digit);
                    }
                    k = k + 1;
                }
                proof {
                    assert(digits().take(9) == digits());
                }
                Some(out)
            },
            Value::Given(_) => None,
        }
    }

    /// The number of candidates that `rule` has excluded; zero for a fixed cell.
    pub fn count(&self, rule: &Rule) -> (n: usize)
        requires
            self.wf(),
        ensures
            n == self@.marks(*rule),
            n <= 9,
    {
        match self {
            Value::Choices(cs) => {
                let ghost m = cs@.map_values(|c: Choice| c.reason);
                let mut n: usize = 0;
                let mut k: usize = 0;
                while k < 9
                    invariant
                        k <= 9,
                        cs@.len() == 9,
                        m == cs@.map_values(|c: Choice| c.reason),
                        n == m.take(k as int).filter(CellState::mark_pred(*rule)).len(),
                        n <= k,
                    decreases 9 - k,
                {
                    proof {
                        let seen = m.take(k as int);
                        assert(m.take(k + 1) == seen.push(m[k as int]));
                        seen.lemma_filter_push(m[k as int], CellState::mark_pred(*rule));
                    }
                    let hit = match cs[k].reason {
                        Some(r) => r == *rule,
                        None => false,
                    };
                    if hit {
                        n = n + 1;
                    }
                    k = k + 1;
                }
                proof {
                    assert(m.take(9) == m);
                }
                n
            },
            Value::Given(_) => 0,
        }
    }

    /// The digit of a fixed cell, `None` for an open cell.
    pub fn given(&self) -> (r: Option<char>)
        ensures
            match r {
                Some(g) => self@ == CellState::Fixed(g),
                None => self@ is Open,
            },
    {
        match self {
            Value::Given(g) => Some(*g),
            _ => None,
        }
    }

    /// Excludes `digit` by `rule` if the cell is open and `digit` is live in
    /// it. A fixed cell and a digit that is already excluded stay as they are.
    pub fn eliminate(&mut self, digit: char, rule: Rule)
        requires
            old(self).wf(),
        ensures
            final(self).wf(),
            final(self)@ == old(self)@.exclude(digit, rule),
            cell_narrows_to(old(self)@, final(self)@),
    {
        proof {
            lemma_exclude_narrows(old(self)@, digit, rule);
        }
        if !valid_digit(digit) {
            return ;
        }
        let k = position_of(digit);
        if let Value::Choices(cs) = self {
            if cs[k].reason.is_none() {
                cs[k].reason = Some(rule);
                proof {
                    let m0 = old(self)@->Open_0;
                    assert(cs@.map_values(|c: Choice| c.reason) == m0.update(k as int, Some(rule)));
                }
            }
        }
    }

    /// Excludes by `rule` every live candidate other than `digit`. A fixed
    /// cell, `digit` itself and the digits that are already excluded stay as
    /// they are.
    pub fn keep(&mut self, digit: char, rule: Rule)
        requires
            old(self).wf(),
        ensures
            final(self).wf(),
            final(self)@ == old(self)@.keep(digit, rule),
            cell_narrows_to(old(self)@, final(self)@),
    {
        proof {
            lemma_keep_narrows(old(self)@, digit, rule);
        }
        if let Value::Choices(cs) = self {
            let ghost m0 = old(self)@->Open_0;
            let mut k: usize = 0;
            while k < 9
                invariant
                    k <= 9,
                    cs@.len() == 9,
                    m0.len() == 9,
                    forall|j: int| 0 <= j < 9 ==> (#[trigger] cs@[j]).digit == digit_at(j),
                    forall|j: int|
                        0 <= j < k ==> (#[trigger] cs@[j]).reason == if m0[j] is None && digit_at(j)
                            != digit {
                            Some(rule)
                        } else {
                            m0[j]
                        },
                    forall|j: int| k <= j < 9 ==> (#[trigger] cs@[j]).reason == m0[j],
                decreases 9 - k,
            {
                if cs[k].reason.is_none() && cs[k].digit != digit {
                    cs[k].reason = Some(rule);
                }
                k = k + 1;
            }
            proof {
                let kept = old(self)@.keep(digit, rule);
                assert(cs@.map_values(|c: Choice| c.reason) == kept->Open_0);
            }
        }
    }
}

impl Default for Value {
    /// An open cell with all nine digits live.
    fn default() -> (v: Value)
        ensures
            v.wf(),
            v@ == CellState::blank(),
    {
        let mut cs: Vec<Choice> = Vec::new();
        let mut k: usize = 0;
        while k < 9
            invariant
                k <= 9,
                cs@.len() == k,
                forall|j: int|
                    0 <= j < k ==> (#[trigger] cs@[j]) == (Choice {
                        digit: digit_at(j),
                        reason: None,
                    }),
            decreases 9 - k,
        {
            cs.push(Choice { digit: digit_of(k), reason: None });
            k = k + 1;
        }
        proof {
            assert(cs@.map_values(|c: Choice| c.reason) == CellState::blank()->Open_0);
        }
        Value::Choices(cs)
    }
}

} // verus!
