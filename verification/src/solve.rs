//! The solving loop: fix what has a single candidate, run a pass, and stop
//! when a pass excludes nothing or after ten rounds.
use vstd::prelude::*;
use crate::board::{blank_grid, grid_wf, lemma_marks_bound, seed, total_marks, Board};
use crate::digit::{digits, is_digit};
use crate::laws::{lemma_at_most_one_narrows, lemma_pass_narrows, lemma_restricted_cell};
use crate::narrow::{cell_narrows_to, lemma_total_marks_equal, lemma_total_marks_grow};
use crate::rules::{apply_at_most_one, single_pass};
use crate::value::{lemma_only_live, CellState, Rule};

verus! {

/// The most rounds that solving runs.
pub const MAX_ROUNDS: usize = 10;

/// An open cell with exactly one live digit becomes fixed to it; any other cell stays.
pub open spec fn resolved(c: CellState) -> CellState {
    if c is Open && c.live_digits().len() == 1 {
        CellState::Fixed(c.live_digits()[0])
    } else {
        c
    }
}

/// The grid with every open cell that has a single live digit fixed to it.
pub open spec fn resolve_all(s: Seq<CellState>) -> Seq<CellState> {
    s.map_values(|c: CellState| resolved(c))
}

/// The number of candidates that a single pass on `s` excludes by `rule`.
pub open spec fn new_marks(s: Seq<CellState>, rule: Rule) -> int {
    total_marks(single_pass(s), rule) - total_marks(s, rule)
}

/// Whether a single pass on `s` excludes nothing.
pub open spec fn at_rest(s: Seq<CellState>) -> bool {
    new_marks(s, Rule::AtMostOne) == 0 && new_marks(s, Rule::AtLeastOne) == 0
}

/// The grid after one round: resolve, then a single pass.
pub open spec fn round(s: Seq<CellState>) -> Seq<CellState> {
    single_pass(resolve_all(s))
}

/// The grid after solving with at most `n` rounds. Solving stops after the
/// first round whose pass excludes nothing.
pub open spec fn solved(s: Seq<CellState>, n: nat) -> Seq<CellState>
    decreases n,
{
    if n == 0 {
        s
    } else if at_rest(resolve_all(s)) {
        round(s)
    } else {
        solved(round(s), (n - 1) as nat)
    }
}

/// For each round that solving with at most `n` rounds runs, the number of
/// candidates that its pass excluded by the at-most-one rule and by the
/// at-least-one rule.
pub open spec fn solve_log(s: Seq<CellState>, n: nat) -> Seq<(usize, usize)>
    decreases n,
{
    if n == 0 {
        Seq::empty()
    } else {
        let r = resolve_all(s);
        let entry = (
            new_marks(r, Rule::AtMostOne) as usize,
            new_marks(r, Rule::AtLeastOne) as usize,
        );
        if at_rest(r) {
            seq![entry]
        } else {
            seq![entry] + solve_log(round(s), (n - 1) as nat)
        }
    }
}

/// Resolving fixes an open cell exactly if the cell has a single live digit,
/// and fixes it to that digit.
pub proof fn lemma_resolved(c: CellState, d: char)
    ensures
        c.only_live(d) ==> resolved(c) == CellState::Fixed(d),
        c is Open && resolved(c) == CellState::Fixed(d) ==> c.only_live(d),
{
    lemma_only_live(c, d);
    if c is Open && resolved(c) == CellState::Fixed(d) {
        assert(c.live_digits() =~= seq![d]);
    }
}

/// A cell that the at-least-one rule has changed in a pass is fixed by the
/// resolving that follows the pass.
pub proof fn lemma_restricted_then_fixed(s: Seq<CellState>, c: int)
    requires
        grid_wf(s),
        0 <= c < 81,
        single_pass(s)[c] != apply_at_most_one(s)[c],
    ensures
        resolve_all(single_pass(s))[c] is Fixed,
{
    lemma_at_most_one_narrows(s);
    lemma_restricted_cell(apply_at_most_one(s), c);
    let d = choose|d: char| is_digit(d) && #[trigger] single_pass(s)[c].only_live(d);
    lemma_resolved(single_pass(s)[c], d);
    lemma_pass_narrows(s);
}

/// Resolving keeps a grid well-formed and leaves every fixed cell as it is.
pub proof fn lemma_resolve_keeps_fixed(s: Seq<CellState>)
    requires
        grid_wf(s),
    ensures
        grid_wf(resolve_all(s)),
        forall|i: int| 0 <= i < 81 && (#[trigger] s[i]) is Fixed ==> resolve_all(s)[i] == s[i],
{
    assert forall|i: int| 0 <= i < 81 implies (#[trigger] resolve_all(s)[i]).wf() by {
        let c = s[i];
        if c is Open && c.live_digits().len() == 1 {
            digits().lemma_filter_pred(c.live_pred(), 0);
        }
    }
}

/// A pass never removes a mark, and it excludes nothing exactly if it
/// leaves the grid as it is.
pub proof fn lemma_at_rest(s: Seq<CellState>)
    requires
        grid_wf(s),
    ensures
        0 <= new_marks(s, Rule::AtMostOne) <= 729,
        0 <= new_marks(s, Rule::AtLeastOne) <= 729,
        at_rest(s) <==> single_pass(s) == s,
{
    lemma_pass_narrows(s);
    lemma_marks_bound(single_pass(s), Rule::AtMostOne, 81);
    lemma_marks_bound(single_pass(s), Rule::AtLeastOne, 81);
    lemma_total_marks_grow(s, single_pass(s), Rule::AtMostOne);
    lemma_total_marks_grow(s, single_pass(s), Rule::AtLeastOne);
    if at_rest(s) {
        lemma_total_marks_equal(s, single_pass(s));
    }
}

/// Resolve monotonicity, for one round. A round keeps a grid well-formed and
/// leaves every fixed cell fixed to the digit it had.
pub proof fn lemma_round_keeps_fixed(s: Seq<CellState>)
    requires
        grid_wf(s),
    ensures
        grid_wf(round(s)),
        forall|i: int| 0 <= i < 81 && (#[trigger] s[i]) is Fixed ==> round(s)[i] == s[i],
{
    let r = resolve_all(s);
    lemma_resolve_keeps_fixed(s);
    lemma_pass_narrows(r);
    assert forall|i: int| 0 <= i < 81 && (#[trigger] s[i]) is Fixed implies round(s)[i]
        == s[i] by {
        assert(cell_narrows_to(r[i], single_pass(r)[i]));
    }
}

/// Resolve monotonicity. Over all the rounds of solving, the set of fixed
/// cells only grows and no fixed cell changes its digit.
pub proof fn lemma_solve_keeps_fixed(s: Seq<CellState>, n: nat)
    requires
        grid_wf(s),
    ensures
        grid_wf(solved(s, n)),
        forall|i: int| 0 <= i < 81 && (#[trigger] s[i]) is Fixed ==> solved(s, n)[i] == s[i],
    decreases n,
{
    if n > 0 {
        lemma_round_keeps_fixed(s);
        if !at_rest(resolve_all(s)) {
            lemma_solve_keeps_fixed(round(s), (n - 1) as nat);
        }
    }
}

/// Termination. Solving with at most `n` rounds runs at least one round and
/// at most `n`; it runs fewer than `n` only if the pass of its last round
/// excluded nothing.
pub proof fn lemma_solve_rounds(s: Seq<CellState>, n: nat)
    requires
        n > 0,
    ensures
        1 <= solve_log(s, n).len() <= n,
        solve_log(s, n).len() < n ==> solve_log(s, n).last() == (0usize, 0usize),
    decreases n,
{
    if !at_rest(resolve_all(s)) {
        if n > 1 {
            lemma_solve_rounds(round(s), (n - 1) as nat);
        } else {
            assert(solve_log(round(s), 0).len() == 0);
        }
    }
}

/// Resolving twice is resolving once.
pub proof fn lemma_resolve_idempotent(s: Seq<CellState>)
    ensures
        resolve_all(resolve_all(s)) == resolve_all(s),
{
}

/// A round whose pass excludes nothing ends in a grid that no further round changes.
pub proof fn lemma_rest_is_stable(s: Seq<CellState>)
    requires
        grid_wf(s),
        at_rest(resolve_all(s)),
    ensures
        round(s) == resolve_all(s),
        round(round(s)) == round(s),
{
    lemma_resolve_keeps_fixed(s);
    lemma_at_rest(resolve_all(s));
    lemma_resolve_idempotent(s);
}

impl Board {
    /// Fixes every open cell that has exactly one live digit to that digit.
    pub fn resolve(&mut self)
        requires
            old(self).wf(),
        ensures
            final(self).wf(),
            final(self)@ == resolve_all(old(self)@),
    {
        let mut i: usize = 0;
        while i < 81
            invariant
                i <= 81,
                self.wf(),
                old(self)@.len() == 81,
                forall|j: int| 0 <= j < i ==> #[trigger] self@[j] == resolved(old(self)@[j]),
                forall|j: int| i <= j < 81 ==> #[trigger] self@[j] == old(self)@[j],
            decreases 81 - i,
        {
            if let Some(live) = self.values[i].choices() {
                if live.len() == 1 {
                    proof {
                        digits().lemma_filter_pred(self@[i as int].live_pred(), 0);
                    }
                    self.fix(i, live[0]);
                }
            }
            i = i + 1;
        }
    }

    /// Solves as far as the two rules reach. Each round fixes the open cells
    /// that have a single live digit and then runs a single pass; solving
    /// stops after the first round whose pass excludes nothing, and after ten
    /// rounds at the latest. Returns, for each round, how many candidates its
    /// pass excluded by the at-most-one rule and by the at-least-one rule.
    pub fn solve(&mut self) -> (log: Vec<(usize, usize)>)
        requires
            old(self).wf(),
        ensures
            final(self).wf(),
            final(self)@ == solved(old(self)@, MAX_ROUNDS as nat),
            log@ == solve_log(old(self)@, MAX_ROUNDS as nat),
            1 <= log@.len() <= MAX_ROUNDS,
            log@.len() < MAX_ROUNDS ==> log@.last() == (0usize, 0usize),
            forall|i: int|
                0 <= i < 81 && (#[trigger] old(self)@[i]) is Fixed ==> final(self)@[i] == old(
                    self,
                )@[i],
            log@.last() == (0usize, 0usize) ==> round(final(self)@) == final(self)@,
    {
        let mut log: Vec<(usize, usize)> = Vec::new();
        let mut n: usize = 0;
        let mut done = false;
        proof {
            self.lemma_wf_view();
        }
        while n < MAX_ROUNDS && !done
            invariant
                n <= MAX_ROUNDS,
                self.wf(),
                log@.len() == n,
                grid_wf(old(self)@),
                !done && n > 0 ==> log@.last() != (0usize, 0usize),
                done ==> n > 0 && log@.last() == (0usize, 0usize) && round(self@) == self@,
                done ==> self@ == solved(old(self)@, MAX_ROUNDS as nat) && log@ == solve_log(
                    old(self)@,
                    MAX_ROUNDS as nat,
                ),
                !done ==> solved(self@, (MAX_ROUNDS - n) as nat) == solved(
                    old(self)@,
                    MAX_ROUNDS as nat,
                ),
                !done ==> log@ + solve_log(self@, (MAX_ROUNDS - n) as nat) == solve_log(
                    old(self)@,
                    MAX_ROUNDS as nat,
                ),
            decreases MAX_ROUNDS - n + if done { 0int } else { 1int },
        {
            let ghost start = self@;
            let ghost so_far = log@;
            self.resolve();
            let ghost r = self@;
            let before1 = self.count(&Rule::AtMostOne);
            let before2 = self.count(&Rule::AtLeastOne);
            proof {
                self.lemma_wf_view();
                lemma_at_rest(r);
            }
            self.eval();
            let count1 = self.count(&Rule::AtMostOne) - before1;
            let count2 = self.count(&Rule::AtLeastOne) - before2;
            log.push((count1, count2));
            n = n + 1;
            if count1 == 0 && count2 == 0 {
                done = true;
            }
            proof {
                let left = (MAX_ROUNDS - (n - 1)) as nat;
                let entry = (count1, count2);
                assert(entry == (
                    new_marks(r, Rule::AtMostOne) as usize,
                    new_marks(r, Rule::AtLeastOne) as usize,
                ));
                if done {
                    lemma_rest_is_stable(start);
                } else {
                    assert(solve_log(start, left) == seq![entry] + solve_log(
                        self@,
                        (left - 1) as nat,
                    ));
                    assert(log@ + solve_log(self@, (left - 1) as nat) == so_far + solve_log(
                        start,
                        left,
                    ));
                }
            }
        }
        proof {
            lemma_solve_keeps_fixed(old(self)@, MAX_ROUNDS as nat);
        }
        log
    }
}

/// Seeds a fresh board from the board string `givens` and runs a single
/// pass on it, or the solving loop if `solving` is set. Returns the board
/// and, for the solving loop, what each round excluded. Every board string
/// is accepted, and solving ends within ten rounds on each.
pub fn run(givens: &str, solving: bool) -> (r: (Board, Vec<(usize, usize)>))
    ensures
        r.0.wf(),
        solving ==> r.0@ == solved(seed(blank_grid(), givens@), MAX_ROUNDS as nat) && r.1@
            == solve_log(seed(blank_grid(), givens@), MAX_ROUNDS as nat),
        solving ==> 1 <= r.1@.len() <= MAX_ROUNDS,
        !solving ==> r.0@ == single_pass(seed(blank_grid(), givens@)) && r.1@.len() == 0,
{
    let mut board = Board::from_givens(givens);
    if solving {
        let log = board.solve();
        (board, log)
    } else {
        board.eval();
        (board, Vec::new())
    }
}

} // verus!
