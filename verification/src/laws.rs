//! What holds of the two rules and of a single pass, for every grid.
use vstd::prelude::*;
use crate::board::{grid_wf, lemma_live_among_contains, live_among};
use crate::digit::{digit_at, digit_index, is_digit, lemma_digit_positions};
use crate::geometry::{group_cells, in_group, lemma_group_cell, peers};
use crate::narrow::{
    cell_narrows_to, lemma_keep_narrows, lemma_narrows_antisym, lemma_narrows_refl,
    lemma_narrows_trans, narrows_to,
};
use crate::rules::{
    apply_at_least_one, apply_at_most_one, at_least_one_step, at_least_one_upto, blocked,
    settled, single_pass, step_at_rest,
};
use crate::value::{CellState, Rule};

verus! {

/// The at-most-one rule narrows a grid: it fixes no cell, leaves every fixed
/// cell and every mark as it is, and only excludes live digits.
pub proof fn lemma_at_most_one_narrows(s: Seq<CellState>)
    requires
        grid_wf(s),
    ensures
        grid_wf(apply_at_most_one(s)),
        narrows_to(s, apply_at_most_one(s)),
{
    let t = apply_at_most_one(s);
    assert forall|i: int| 0 <= i < 81 implies (#[trigger] t[i]).wf() && cell_narrows_to(
        s[i],
        t[i],
    ) by {
        assert(s[i].wf());
    }
}

/// The cell that a step of the at-least-one rule acts on is a cell of the
/// grid, and it belongs to the group that the step looks at.
pub proof fn lemma_sole_cell(s: Seq<CellState>, g: int, d: char)
    requires
        0 <= g < 27,
        live_among(s, group_cells(g), d).len() == 1,
    ensures
        0 <= live_among(s, group_cells(g), d)[0] < 81,
        in_group(g, live_among(s, group_cells(g), d)[0] as int),
        s[live_among(s, group_cells(g), d)[0] as int].live(d),
{
    let found = live_among(s, group_cells(g), d);
    let c = found[0];
    lemma_live_among_contains(s, group_cells(g), d, c);
    let x = choose|x: int| 0 <= x < 9 && group_cells(g)[x] == c;
    lemma_group_cell(g, x);
}

/// One step of the at-least-one rule narrows a grid.
pub proof fn lemma_at_least_one_step_narrows(s: Seq<CellState>, g: int, d: char)
    requires
        grid_wf(s),
        0 <= g < 27,
    ensures
        grid_wf(at_least_one_step(s, g, d)),
        narrows_to(s, at_least_one_step(s, g, d)),
{
    let found = live_among(s, group_cells(g), d);
    let t = at_least_one_step(s, g, d);
    if found.len() == 1 {
        let c = found[0] as int;
        lemma_sole_cell(s, g, d);
        lemma_keep_narrows(s[c], d, Rule::AtLeastOne);
        assert forall|i: int| 0 <= i < 81 implies (#[trigger] t[i]).wf() && cell_narrows_to(
            s[i],
            t[i],
        ) by {
            assert(s[i].wf());
        }
    } else {
        lemma_narrows_refl(s);
    }
}

/// The at-least-one rule narrows a grid from each of its steps to each later one.
pub proof fn lemma_at_least_one_upto_narrows(s: Seq<CellState>, t1: int, t2: int)
    requires
        grid_wf(s),
        0 <= t1 <= t2 <= 243,
    ensures
        grid_wf(at_least_one_upto(s, t1)),
        grid_wf(at_least_one_upto(s, t2)),
        narrows_to(at_least_one_upto(s, t1), at_least_one_upto(s, t2)),
    decreases t2,
{
    if t1 == t2 {
        if t1 > 0 {
            lemma_at_least_one_upto_narrows(s, 0, t1 - 1);
            lemma_at_least_one_step_narrows(
                at_least_one_upto(s, t1 - 1),
                (t1 - 1) / 9,
                digit_at((t1 - 1) % 9),
            );
        }
        lemma_narrows_refl(at_least_one_upto(s, t1));
    } else {
        lemma_at_least_one_upto_narrows(s, t1, t2 - 1);
        let u = at_least_one_upto(s, t2 - 1);
        lemma_at_least_one_step_narrows(u, (t2 - 1) / 9, digit_at((t2 - 1) % 9));
        lemma_narrows_trans(at_least_one_upto(s, t1), u, at_least_one_upto(s, t2));
    }
}

/// A single pass narrows a grid. Within a pass a fixed cell keeps its digit,
/// an open cell stays open, and a digit excluded by either rule stays
/// excluded by that rule.
pub proof fn lemma_pass_narrows(s: Seq<CellState>)
    requires
        grid_wf(s),
    ensures
        grid_wf(single_pass(s)),
        narrows_to(s, single_pass(s)),
{
    let a = apply_at_most_one(s);
    lemma_at_most_one_narrows(s);
    lemma_at_least_one_upto_narrows(a, 0, 243);
    lemma_narrows_trans(s, a, single_pass(s));
}

/// At-most-one soundness. After a single pass, a digit that is fixed in a
/// cell of a group is live in no other cell of that group.
pub proof fn lemma_at_most_one_sound(s: Seq<CellState>, g: int, i: int, j: int, d: char)
    requires
        grid_wf(s),
        0 <= g < 27,
        0 <= i < 81,
        0 <= j < 81,
        i != j,
        in_group(g, i),
        in_group(g, j),
        single_pass(s)[i] == CellState::Fixed(d),
    ensures
        !single_pass(s)[j].live(d),
{
    lemma_fixed_peer_excludes(s, i, j, d);
}

/// After a single pass, a digit that is fixed in a cell is live in no cell
/// that shares a row, a column or a square with it.
pub proof fn lemma_fixed_peer_excludes(s: Seq<CellState>, i: int, j: int, d: char)
    requires
        grid_wf(s),
        0 <= i < 81,
        0 <= j < 81,
        peers(i, j),
        single_pass(s)[i] == CellState::Fixed(d),
    ensures
        !single_pass(s)[j].live(d),
{
    let a = apply_at_most_one(s);
    let p = single_pass(s);
    lemma_at_most_one_narrows(s);
    lemma_at_least_one_upto_narrows(a, 0, 243);
    assert(cell_narrows_to(s[i], a[i]) && cell_narrows_to(a[i], p[i]));
    assert(cell_narrows_to(s[j], a[j]) && cell_narrows_to(a[j], p[j]));
    assert(s[i] == CellState::Fixed(d));
    if p[j].live(d) {
        lemma_digit_positions();
        assert(blocked(s, j, d));
        assert(a[j]->Open_0[digit_index(d)] is Some);
    }
}

/// A step of the at-least-one rule leaves a cell with a single live digit as it is.
pub proof fn lemma_step_spares_single(s: Seq<CellState>, g: int, d: char, c: int, only: char)
    requires
        grid_wf(s),
        0 <= g < 27,
        0 <= c < 81,
        s[c].only_live(only),
    ensures
        at_least_one_step(s, g, d)[c] == s[c],
{
    lemma_digit_positions();
    let found = live_among(s, group_cells(g), d);
    if found.len() == 1 {
        lemma_sole_cell(s, g, d);
        if found[0] as int == c {
            let m = s[c]->Open_0;
            assert forall|k: int| 0 <= k < 9 && m[k] is None implies digit_at(k) == d by {
                assert(s[c].live(digit_at(k)));
            }
            assert(s[c].keep(d, Rule::AtLeastOne)->Open_0 =~= m);
        }
    }
}

/// The at-least-one rule leaves a cell with a single live digit as it is.
pub proof fn lemma_single_candidate_stays(s: Seq<CellState>, c: int, only: char, t: int)
    requires
        grid_wf(s),
        0 <= c < 81,
        0 <= t <= 243,
        s[c].only_live(only),
    ensures
        at_least_one_upto(s, t)[c] == s[c],
    decreases t,
{
    if t > 0 {
        lemma_single_candidate_stays(s, c, only, t - 1);
        lemma_at_least_one_upto_narrows(s, 0, t - 1);
        lemma_step_spares_single(
            at_least_one_upto(s, t - 1),
            (t - 1) / 9,
            digit_at((t - 1) % 9),
            c,
            only,
        );
    }
}

/// Once a step of the at-least-one rule has found its digit live in exactly
/// one cell of its group, that digit is the only live one of the cell and no
/// later step changes the cell.
pub proof fn lemma_sole_stays(s: Seq<CellState>, t: int, n: int)
    requires
        grid_wf(s),
        0 <= t < n <= 243,
        live_among(at_least_one_upto(s, t), group_cells(t / 9), digit_at(t % 9)).len() == 1,
    ensures
        ({
            let before = at_least_one_upto(s, t);
            let c = live_among(before, group_cells(t / 9), digit_at(t % 9))[0] as int;
            &&& at_least_one_upto(s, n)[c] == before[c].keep(digit_at(t % 9), Rule::AtLeastOne)
            &&& at_least_one_upto(s, n)[c].only_live(digit_at(t % 9))
        }),
    decreases n,
{
    lemma_digit_positions();
    let d = digit_at(t % 9);
    let before = at_least_one_upto(s, t);
    let c = live_among(before, group_cells(t / 9), d)[0] as int;
    lemma_at_least_one_upto_narrows(s, 0, t);
    lemma_sole_cell(before, t / 9, d);
    if n > t + 1 {
        let u = at_least_one_upto(s, n - 1);
        lemma_sole_stays(s, t, n - 1);
        lemma_at_least_one_upto_narrows(s, 0, n - 1);
        lemma_step_spares_single(u, (n - 1) / 9, digit_at((n - 1) % 9), c, d);
    }
}

/// A cell that one of the first `n` steps of the at-least-one rule has
/// changed has a single live digit after the rule.
proof fn lemma_changed_cell(s: Seq<CellState>, c: int, n: int)
    requires
        grid_wf(s),
        0 <= c < 81,
        0 <= n <= 243,
        at_least_one_upto(s, n)[c] != s[c],
    ensures
        exists|d: char| is_digit(d) && #[trigger] apply_at_least_one(s)[c].only_live(d),
    decreases n,
{
    let u = at_least_one_upto(s, n - 1);
    if u[c] != s[c] {
        lemma_changed_cell(s, c, n - 1);
    } else {
        lemma_digit_positions();
        lemma_at_least_one_upto_narrows(s, 0, n - 1);
        lemma_sole_cell(u, (n - 1) / 9, digit_at((n - 1) % 9));
        lemma_sole_stays(s, n - 1, 243);
        assert(apply_at_least_one(s)[c].only_live(digit_at((n - 1) % 9)));
    }
}

/// A cell that the at-least-one rule has changed has a single live digit
/// after the rule.
pub proof fn lemma_restricted_cell(s: Seq<CellState>, c: int)
    requires
        grid_wf(s),
        0 <= c < 81,
        apply_at_least_one(s)[c] != s[c],
    ensures
        exists|d: char| is_digit(d) && #[trigger] apply_at_least_one(s)[c].only_live(d),
{
    lemma_changed_cell(s, c, 243);
}

/// At-least-one soundness. Let a single pass reach the step of the
/// at-least-one rule for a digit and a group, and let the digit then be live
/// in exactly one cell of the group. The step excludes every other live
/// digit of that cell by the at-least-one rule, and the cell is the same
/// after the pass: the digit is live in it and no other digit is.
pub proof fn lemma_at_least_one_sound(s: Seq<CellState>, t: int)
    requires
        grid_wf(s),
        0 <= t < 243,
        live_among(
            at_least_one_upto(apply_at_most_one(s), t),
            group_cells(t / 9),
            digit_at(t % 9),
        ).len() == 1,
    ensures
        ({
            let d = digit_at(t % 9);
            let before = at_least_one_upto(apply_at_most_one(s), t);
            let c = live_among(before, group_cells(t / 9), d)[0] as int;
            &&& 0 <= c < 81
            &&& in_group(t / 9, c)
            &&& single_pass(s)[c] == before[c].keep(d, Rule::AtLeastOne)
            &&& single_pass(s)[c].only_live(d)
            &&& forall|e: char|
                is_digit(e) && e != d && #[trigger] before[c].live(e) ==> single_pass(
                    s,
                )[c].status(e) == Some(Rule::AtLeastOne)
        }),
{
    let a = apply_at_most_one(s);
    let d = digit_at(t % 9);
    let before = at_least_one_upto(a, t);
    lemma_digit_positions();
    lemma_at_most_one_narrows(s);
    lemma_at_least_one_upto_narrows(a, 0, t);
    lemma_sole_stays(a, t, 243);
    lemma_sole_cell(before, t / 9, d);
}

/// A step of the at-least-one rule leaves the grid as it is exactly if it
/// has nothing to do.
pub proof fn lemma_step_at_rest(s: Seq<CellState>, g: int, d: char)
    requires
        grid_wf(s),
        0 <= g < 27,
        is_digit(d),
    ensures
        at_least_one_step(s, g, d) == s <==> step_at_rest(s, g, d),
{
    lemma_digit_positions();
    let found = live_among(s, group_cells(g), d);
    if found.len() == 1 {
        let c = found[0] as int;
        lemma_sole_cell(s, g, d);
        let m = s[c]->Open_0;
        let kept = s[c].keep(d, Rule::AtLeastOne);
        if step_at_rest(s, g, d) {
            assert forall|k: int| 0 <= k < 9 implies kept->Open_0[k] == m[k] by {
                if digit_at(k) != d {
                    assert(!s[c].live(digit_at(k)));
                }
            }
            assert(kept->Open_0 =~= m);
            assert(at_least_one_step(s, g, d) =~= s);
        } else {
            let e = choose|e: char| is_digit(e) && e != d && #[trigger] s[c].live(e);
            assert(kept->Open_0[digit_index(e)] is Some);
        }
    }
}

/// The at-most-one rule leaves a grid as it is if no live digit of an open
/// cell is fixed in a peer of that cell.
pub proof fn lemma_at_most_one_at_rest(s: Seq<CellState>)
    requires
        grid_wf(s),
        forall|j: int, k: int|
            0 <= j < 81 && 0 <= k < 9 && s[j].live(digit_at(k)) ==> !#[trigger] blocked(
                s,
                j,
                digit_at(k),
            ),
    ensures
        apply_at_most_one(s) == s,
{
    lemma_digit_positions();
    assert forall|j: int| 0 <= j < 81 implies #[trigger] apply_at_most_one(s)[j] == s[j] by {
        if let CellState::Open(m) = s[j] {
            assert forall|k: int| 0 <= k < 9 && m[k] is None implies !blocked(
                s,
                j,
                digit_at(k),
            ) by {
                assert(s[j].live(digit_at(k)));
            }
            assert(apply_at_most_one(s)[j]->Open_0 =~= m);
        }
    }
}

/// The at-most-one rule has nothing left to do after a single pass.
pub proof fn lemma_at_most_one_done(s: Seq<CellState>)
    requires
        grid_wf(s),
    ensures
        apply_at_most_one(single_pass(s)) == single_pass(s),
{
    let p = single_pass(s);
    lemma_pass_narrows(s);
    assert forall|j: int, k: int|
        0 <= j < 81 && 0 <= k < 9 && p[j].live(digit_at(k)) implies !#[trigger] blocked(
        p,
        j,
        digit_at(k),
    ) by {
        if blocked(p, j, digit_at(k)) {
            let i = choose|i: int|
                0 <= i < 81 && peers(i, j) && #[trigger] p[i] == CellState::Fixed(digit_at(k));
            lemma_fixed_peer_excludes(s, i, j, digit_at(k));
        }
    }
    lemma_at_most_one_at_rest(p);
}

/// The at-least-one rule leaves a settled grid as it is, at every step.
pub proof fn lemma_settled_stays(s: Seq<CellState>, t: int)
    requires
        grid_wf(s),
        settled(s),
        0 <= t <= 243,
    ensures
        at_least_one_upto(s, t) == s,
    decreases t,
{
    if t > 0 {
        lemma_settled_stays(s, t - 1);
        lemma_digit_positions();
        lemma_step_at_rest(s, (t - 1) / 9, digit_at((t - 1) % 9));
    }
}

/// Idempotence of a single pass. A second pass right after the first leaves
/// the grid as the first left it exactly if the first left it settled: with
/// no digit live in a single cell of a group that still has another live
/// digit. A pass can leave a grid unsettled, because a step of the
/// at-least-one rule may empty a group that an earlier step has already
/// looked at.
pub proof fn lemma_pass_idempotent(s: Seq<CellState>)
    requires
        grid_wf(s),
    ensures
        single_pass(single_pass(s)) == single_pass(s) <==> settled(single_pass(s)),
{
    let p = single_pass(s);
    lemma_pass_narrows(s);
    lemma_at_most_one_done(s);
    if settled(p) {
        lemma_settled_stays(p, 243);
    } else {
        let (g, k) = choose|g: int, k: int|
            0 <= g < 27 && 0 <= k < 9 && !#[trigger] step_at_rest(p, g, digit_at(k));
        let t = 9 * g + k;
        lemma_digit_positions();
        if at_least_one_upto(p, 243) == p {
            lemma_at_least_one_upto_narrows(p, 0, t);
            lemma_at_least_one_upto_narrows(p, t, 243);
            lemma_narrows_antisym(p, at_least_one_upto(p, t));
            lemma_at_least_one_upto_narrows(p, 0, t + 1);
            lemma_at_least_one_upto_narrows(p, t + 1, 243);
            lemma_narrows_antisym(p, at_least_one_upto(p, t + 1));
            lemma_step_at_rest(p, g, digit_at(k));
            assert(at_least_one_upto(p, t + 1) == at_least_one_step(
                at_least_one_upto(p, t),
                g,
                digit_at(k),
            ));
        }
    }
}

} // verus!
