//! The two deduction rules and the single pass that applies one after the other.
use vstd::prelude::*;
use crate::board::{exclude_at, grid_wf, lemma_live_among_contains, live_among, Board};
use crate::digit::{digit_at, digit_of, lemma_digit_positions};
use crate::geometry::{
    col_of, group_cell, group_cells, in_group, lemma_group_cell, lemma_group_members,
    lemma_in_group, peers, place_in_group, row_of, square_of,
};
use crate::laws::{
    lemma_at_least_one_upto_narrows, lemma_at_most_one_narrows, lemma_fixed_peer_excludes,
    lemma_pass_narrows,
};
use crate::narrow::narrows_to;
use crate::value::{CellState, Rule};

verus! {

/// Whether `d` is fixed in a cell that shares a row, a column or a square with cell `j`.
pub open spec fn blocked(s: Seq<CellState>, j: int, d: char) -> bool {
    exists|i: int| 0 <= i < 81 && peers(i, j) && #[trigger] s[i] == CellState::Fixed(d)
}

/// The grid after the at-most-one rule: in every open cell, each live digit
/// that is fixed in a peer is excluded by that rule. Nothing else changes.
pub open spec fn apply_at_most_one(s: Seq<CellState>) -> Seq<CellState> {
    Seq::new(
        81,
        |j: int|
            match s[j] {
                CellState::Open(m) => CellState::Open(
                    Seq::new(
                        9,
                        |k: int|
                            if m[k] is None && blocked(s, j, digit_at(k)) {
                                Some(Rule::AtMostOne)
                            } else {
                                m[k]
                            },
                    ),
                ),
                CellState::Fixed(_) => s[j],
            },
    )
}

/// The grid after the at-least-one rule has looked at digit `d` in group `g`:
/// if `d` is live in exactly one cell of the group, every other live digit
/// of that cell is excluded by the rule.
pub open spec fn at_least_one_step(s: Seq<CellState>, g: int, d: char) -> Seq<CellState> {
    let found = live_among(s, group_cells(g), d);
    if found.len() == 1 {
        s.update(found[0] as int, s[found[0] as int].keep(d, Rule::AtLeastOne))
    } else {
        s
    }
}

/// The grid after the first `t` steps of the at-least-one rule. The rule
/// takes the groups in order and, within a group, the digits in ascending
/// order; each step sees what the steps before it have excluded.
pub open spec fn at_least_one_upto(s: Seq<CellState>, t: int) -> Seq<CellState>
    decreases t,
{
    if t <= 0 {
        s
    } else {
        at_least_one_step(at_least_one_upto(s, t - 1), (t - 1) / 9, digit_at((t - 1) % 9))
    }
}

/// The grid after the at-least-one rule has looked at every digit in every group.
pub open spec fn apply_at_least_one(s: Seq<CellState>) -> Seq<CellState> {
    at_least_one_upto(s, 243)
}

/// The grid after a single pass: the at-most-one rule, then the at-least-one rule.
pub open spec fn single_pass(s: Seq<CellState>) -> Seq<CellState> {
    apply_at_least_one(apply_at_most_one(s))
}

/// Whether a step of the at-least-one rule has nothing to do for digit `d`
/// in group `g`: if `d` is live in exactly one cell of the group, that cell
/// has no other live digit.
pub open spec fn step_at_rest(s: Seq<CellState>, g: int, d: char) -> bool {
    let found = live_among(s, group_cells(g), d);
    found.len() == 1 ==> s[found[0] as int].only_live(d)
}

/// Whether the at-least-one rule has nothing to do in any group for any digit.
pub open spec fn settled(s: Seq<CellState>) -> bool {
    forall|g: int, k: int| 0 <= g < 27 && 0 <= k < 9 ==> #[trigger] step_at_rest(s, g, digit_at(k))
}

/// Whether `d` is fixed in one of the first `t` cells of the groups that hold
/// cell `j`, the cells of all groups counted group by group.
spec fn blocked_before(s: Seq<CellState>, j: int, d: char, t: int) -> bool {
    exists|u: int|
        0 <= u < t && in_group(u / 9, j) && #[trigger] s[group_cell(u / 9, u % 9)]
            == CellState::Fixed(d)
}

/// The grid after the at-most-one rule has looked at the first `t` cells of the groups.
spec fn at_most_one_upto(s: Seq<CellState>, t: int) -> Seq<CellState> {
    Seq::new(
        81,
        |j: int|
            match s[j] {
                CellState::Open(m) => CellState::Open(
                    Seq::new(
                        9,
                        |k: int|
                            if m[k] is None && blocked_before(s, j, digit_at(k), t) {
                                Some(Rule::AtMostOne)
                            } else {
                                m[k]
                            },
                    ),
                ),
                CellState::Fixed(_) => s[j],
            },
    )
}

/// What one more cell adds to `blocked_before`.
proof fn lemma_blocked_step(s: Seq<CellState>, j: int, d: char, t: int)
    requires
        0 <= t,
    ensures
        blocked_before(s, j, d, t + 1) <==> blocked_before(s, j, d, t) || (in_group(t / 9, j)
            && s[group_cell(t / 9, t % 9)] == CellState::Fixed(d)),
{
    if blocked_before(s, j, d, t) {
        let u = choose|u: int|
            0 <= u < t && in_group(u / 9, j) && #[trigger] s[group_cell(u / 9, u % 9)]
                == CellState::Fixed(d);
        assert(0 <= u < t + 1);
    }
    if in_group(t / 9, j) && s[group_cell(t / 9, t % 9)] == CellState::Fixed(d) {
        assert(0 <= t < t + 1);
    }
}

/// Once every cell of every group has been looked at, `blocked_before` is `blocked`.
proof fn lemma_blocked_all(s: Seq<CellState>, j: int, d: char)
    requires
        grid_wf(s),
        0 <= j < 81,
        s[j] is Open,
    ensures
        blocked_before(s, j, d, 243) <==> blocked(s, j, d),
{
    if blocked_before(s, j, d, 243) {
        let u = choose|u: int|
            0 <= u < 243 && in_group(u / 9, j) && #[trigger] s[group_cell(u / 9, u % 9)]
                == CellState::Fixed(d);
        let i = group_cell(u / 9, u % 9);
        lemma_group_cell(u / 9, u % 9);
        assert(peers(i, j));
        assert(s[i] == CellState::Fixed(d));
    }
    if blocked(s, j, d) {
        let i = choose|i: int| 0 <= i < 81 && peers(i, j) && #[trigger] s[i] == CellState::Fixed(d);
        let g = if row_of(i) == row_of(j) {
            row_of(i)
        } else if col_of(i) == col_of(j) {
            9 + col_of(i)
        } else {
            18 + square_of(i)
        };
        assert(0 <= g < 27);
        assert(in_group(g, i) && in_group(g, j));
        lemma_in_group(g, i);
        let u = 9 * g + place_in_group(g, i);
        assert(u / 9 == g && u % 9 == place_in_group(g, i));
        assert(s[group_cell(u / 9, u % 9)] == CellState::Fixed(d));
    }
}

/// Once every cell of every group has been looked at, the rule is done.
proof fn lemma_at_most_one_all(s: Seq<CellState>)
    requires
        grid_wf(s),
    ensures
        at_most_one_upto(s, 243) == apply_at_most_one(s),
{
    assert forall|j: int| 0 <= j < 81 implies #[trigger] at_most_one_upto(s, 243)[j]
        == apply_at_most_one(s)[j] by {
        if let CellState::Open(m) = s[j] {
            assert forall|k: int| 0 <= k < 9 implies blocked_before(s, j, digit_at(k), 243)
                == blocked(s, j, digit_at(k)) by {
                lemma_blocked_all(s, j, digit_at(k));
            }
            assert(at_most_one_upto(s, 243)[j]->Open_0 =~= apply_at_most_one(s)[j]->Open_0);
        }
    }
}

/// Before the rule has looked at any cell, the grid is as it was.
proof fn lemma_at_most_one_none(s: Seq<CellState>)
    requires
        grid_wf(s),
    ensures
        at_most_one_upto(s, 0) == s,
{
    assert forall|j: int| 0 <= j < 81 implies #[trigger] at_most_one_upto(s, 0)[j] == s[j] by {
        if let CellState::Open(m) = s[j] {
            assert(at_most_one_upto(s, 0)[j]->Open_0 =~= m);
        }
    }
}

/// Looking at an open cell changes nothing.
proof fn lemma_at_most_one_skip(s: Seq<CellState>, t: int)
    requires
        grid_wf(s),
        0 <= t < 243,
        s[group_cell(t / 9, t % 9)] is Open,
    ensures
        at_most_one_upto(s, t + 1) == at_most_one_upto(s, t),
{
    assert forall|j: int| 0 <= j < 81 implies #[trigger] at_most_one_upto(s, t + 1)[j]
        == at_most_one_upto(s, t)[j] by {
        if let CellState::Open(m) = s[j] {
            assert forall|k: int| 0 <= k < 9 implies blocked_before(s, j, digit_at(k), t + 1)
                == blocked_before(s, j, digit_at(k), t) by {
                lemma_blocked_step(s, j, digit_at(k), t);
            }
            assert(at_most_one_upto(s, t + 1)[j]->Open_0 =~= at_most_one_upto(s, t)[j]->Open_0);
        }
    }
}

/// Looking at a fixed cell excludes its digit from the open cells of its
/// group in which the digit is live.
proof fn lemma_at_most_one_step(
    s: Seq<CellState>,
    before: Seq<CellState>,
    after: Seq<CellState>,
    cells: Seq<usize>,
    t: int,
    d: char,
)
    requires
        grid_wf(s),
        0 <= t < 243,
        s[group_cell(t / 9, t % 9)] == CellState::Fixed(d),
        cells == group_cells(t / 9),
        before == at_most_one_upto(s, t),
        after == exclude_at(before, live_among(before, cells, d), d, Rule::AtMostOne),
    ensures
        after == at_most_one_upto(s, t + 1),
{
    let g = t / 9;
    lemma_digit_positions();
    assert forall|j: int| 0 <= j < 81 implies #[trigger] after[j] == at_most_one_upto(
        s,
        t + 1,
    )[j] by {
        lemma_live_among_contains(before, cells, d, j as usize);
        lemma_group_members(g, j);
        assert(cells.contains(j as usize) <==> in_group(g, j)) by {
            if cells.contains(j as usize) {
                let x = choose|x: int| 0 <= x < 9 && cells[x] == j as usize;
                lemma_group_cell(g, x);
            }
            if in_group(g, j) {
                lemma_in_group(g, j);
                assert(cells[place_in_group(g, j)] == j as usize);
            }
        }
        match s[j] {
            CellState::Open(m) => {
                let n = after[j]->Open_0;
                let w = at_most_one_upto(s, t + 1)[j]->Open_0;
                assert forall|k: int| 0 <= k < 9 implies n[k] == w[k] by {
                    lemma_blocked_step(s, j, digit_at(k), t);
                }
                assert(n =~= w);
            },
            CellState::Fixed(_) => {},
        }
    }
}

impl Board {
    /// Applies the at-most-one rule: a digit that is fixed in a cell is
    /// excluded from every open cell of that cell's row, column and square.
    pub fn at_most_one(&mut self)
        requires
            old(self).wf(),
        ensures
            final(self).wf(),
            final(self)@ == apply_at_most_one(old(self)@),
            narrows_to(old(self)@, final(self)@),
    {
        let groups = self.subsets();
        proof {
            self.lemma_wf_view();
            lemma_at_most_one_none(self@);
        }
        let mut g: usize = 0;
        while g < 27
            invariant
                g <= 27,
                self.wf(),
                grid_wf(old(self)@),
                groups@.len() == 27,
                forall|h: int| 0 <= h < 27 ==> (#[trigger] groups@[h])@ == group_cells(h),
                self@ == at_most_one_upto(old(self)@, 9 * g),
            decreases 27 - g,
        {
            let mut a: usize = 0;
            while a < 9
                invariant
                    g < 27,
                    a <= 9,
                    self.wf(),
                    grid_wf(old(self)@),
                    groups@.len() == 27,
                    forall|h: int| 0 <= h < 27 ==> (#[trigger] groups@[h])@ == group_cells(h),
                    self@ == at_most_one_upto(old(self)@, 9 * g + a),
                decreases 9 - a,
            {
                let ghost t = 9 * g + a;
                let ghost before = self@;
                proof {
                    lemma_group_cell(g as int, a as int);
                    assert forall|k: int| 0 <= k < 9 implies groups@[g as int]@[k] < 81 by {
                        lemma_group_cell(g as int, k);
                    }
                }
                let i = groups[g][a];
                proof {
                    assert(before[i as int] == at_most_one_upto(old(self)@, t)[i as int]);
                }
                if let Some(d) = self.values[i].given() {
                    let indexes = self.indexes_of(&groups[g], d);
                    proof {
                        assert forall|k: int| 0 <= k < indexes@.len() implies indexes@[k] < 81 by {
                            lemma_live_among_contains(before, groups@[g as int]@, d, indexes@[k]);
                            let x = choose|x: int|
                                0 <= x < 9 && groups@[g as int]@[x] == indexes@[k];
                            lemma_group_cell(g as int, x);
                        }
                    }
                    self.eliminate(indexes, d, Rule::AtMostOne);
                    proof {
                        lemma_at_most_one_step(old(self)@, before, self@, groups@[g as int]@, t, d);
                    }
                } else {
                    proof {
                        lemma_at_most_one_skip(old(self)@, t);
                    }
                }
                a = a + 1;
            }
            g = g + 1;
        }
        proof {
            lemma_at_most_one_all(old(self)@);
            lemma_at_most_one_narrows(old(self)@);
        }
    }

    /// Applies the at-least-one rule: group by group and digit by digit, a
    /// digit that is live in a single open cell of the group pushes out the
    /// other candidates of that cell.
    pub fn at_least_one(&mut self)
        requires
            old(self).wf(),
        ensures
            final(self).wf(),
            final(self)@ == apply_at_least_one(old(self)@),
            narrows_to(old(self)@, final(self)@),
    {
        let groups = self.subsets();
        let mut g: usize = 0;
        proof {
            self.lemma_wf_view();
            lemma_at_least_one_upto_narrows(self@, 0, 243);
        }
        while g < 27
            invariant
                g <= 27,
                self.wf(),
                groups@.len() == 27,
                forall|h: int| 0 <= h < 27 ==> (#[trigger] groups@[h])@ == group_cells(h),
                self@ == at_least_one_upto(old(self)@, 9 * g),
            decreases 27 - g,
        {
            let mut k: usize = 0;
            while k < 9
                invariant
                    g < 27,
                    k <= 9,
                    self.wf(),
                    groups@.len() == 27,
                    forall|h: int| 0 <= h < 27 ==> (#[trigger] groups@[h])@ == group_cells(h),
                    self@ == at_least_one_upto(old(self)@, 9 * g + k),
                decreases 9 - k,
            {
                let ghost before = self@;
                proof {
                    assert forall|x: int| 0 <= x < 9 implies groups@[g as int]@[x] < 81 by {
                        lemma_group_cell(g as int, x);
                    }
                }
                let digit = digit_of(k);
                let indexes = self.indexes_of(&groups[g], digit);
                if indexes.len() == 1 {
                    let i = indexes[0];
                    proof {
                        lemma_live_among_contains(before, groups@[g as int]@, digit, i);
                        let x = choose|x: int| 0 <= x < 9 && groups@[g as int]@[x] == i;
                        lemma_group_cell(g as int, x);
                    }
                    self.values[i].keep(digit, Rule::AtLeastOne);
                    proof {
                        assert(self@ == before.update(
                            i as int,
                            before[i as int].keep(digit, Rule::AtLeastOne),
                        ));
                    }
                }
                k = k + 1;
            }
            g = g + 1;
        }
    }

    /// Runs a single pass: the at-most-one rule, then the at-least-one rule.
    /// The pass fixes no cell and only narrows the open ones. After it, a
    /// digit that is fixed in a cell is live in no cell that shares a row, a
    /// column or a square with it.
    pub fn eval(&mut self)
        requires
            old(self).wf(),
        ensures
            final(self).wf(),
            final(self)@ == single_pass(old(self)@),
            narrows_to(old(self)@, final(self)@),
            forall|i: int, j: int, d: char|
                #![trigger peers(i, j), final(self)@[j].live(d)]
                0 <= i < 81 && 0 <= j < 81 && peers(i, j) && final(self)@[i] == CellState::Fixed(d)
                    ==> !final(self)@[j].live(d),
    {
        self.at_most_one();
        self.at_least_one();
        proof {
            old(self).lemma_wf_view();
            lemma_pass_narrows(old(self)@);
            assert forall|i: int, j: int, d: char|
                #![trigger peers(i, j), self@[j].live(d)]
                0 <= i < 81 && 0 <= j < 81 && peers(i, j) && self@[i] == CellState::Fixed(
                    d,
                ) implies !self@[j].live(d) by {
                lemma_fixed_peer_excludes(old(self)@, i, j, d);
            }
        }
    }
}

} // verus!
