//! Narrowing: the order in which the rules move a grid. A rule may turn a
//! live digit into an excluded one; it never touches a fixed cell, never
//! fixes an open one, and never changes or removes a mark.
use vstd::prelude::*;
use crate::board::{marks_upto, total_marks};
use crate::value::{CellState, Rule};

verus! {

/// Whether `b` is `a` with some live digits excluded.
pub open spec fn cell_narrows_to(a: CellState, b: CellState) -> bool {
    match a {
        CellState::Fixed(_) => b == a,
        CellState::Open(m) => b matches CellState::Open(n) && n.len() == m.len() && forall|k: int|
            0 <= k < m.len() && (#[trigger] m[k]) is Some ==> n[k] == m[k],
    }
}

/// Whether `t` is `s` with some live digits excluded in some open cells.
pub open spec fn narrows_to(s: Seq<CellState>, t: Seq<CellState>) -> bool {
    t.len() == s.len() && forall|i: int|
        0 <= i < s.len() ==> cell_narrows_to(#[trigger] s[i], t[i])
}

/// Narrowing is reflexive.
pub proof fn lemma_narrows_refl(s: Seq<CellState>)
    ensures
        narrows_to(s, s),
{
}

/// Narrowing is transitive.
pub proof fn lemma_narrows_trans(s: Seq<CellState>, t: Seq<CellState>, u: Seq<CellState>)
    requires
        narrows_to(s, t),
        narrows_to(t, u),
    ensures
        narrows_to(s, u),
{
    assert forall|i: int| 0 <= i < s.len() implies cell_narrows_to(#[trigger] s[i], u[i]) by {
        assert(cell_narrows_to(s[i], t[i]) && cell_narrows_to(t[i], u[i]));
    }
}

/// Two grids that narrow to each other are the same grid.
pub proof fn lemma_narrows_antisym(s: Seq<CellState>, t: Seq<CellState>)
    requires
        narrows_to(s, t),
        narrows_to(t, s),
    ensures
        s == t,
{
    assert forall|i: int| 0 <= i < s.len() implies #[trigger] s[i] == t[i] by {
        assert(cell_narrows_to(s[i], t[i]) && cell_narrows_to(t[i], s[i]));
        if let CellState::Open(m) = s[i] {
            assert(m =~= t[i]->Open_0);
        }
    }
}

/// Excluding a digit narrows a cell and keeps it well-formed.
pub proof fn lemma_exclude_narrows(c: CellState, d: char, rule: Rule)
    requires
        c.wf(),
    ensures
        c.exclude(d, rule).wf(),
        cell_narrows_to(c, c.exclude(d, rule)),
{
}

/// Keeping one digit narrows a cell and keeps it well-formed.
pub proof fn lemma_keep_narrows(c: CellState, d: char, rule: Rule)
    requires
        c.wf(),
    ensures
        c.keep(d, rule).wf(),
        cell_narrows_to(c, c.keep(d, rule)),
{
}

/// A narrowed cell holds at least the marks it held before.
pub proof fn lemma_cell_marks_grow(a: CellState, b: CellState, rule: Rule)
    requires
        cell_narrows_to(a, b),
    ensures
        a.marks(rule) <= b.marks(rule),
{
    if let CellState::Open(m) = a {
        lemma_marks_grow(m, b->Open_0, rule);
    }
}

/// Statuses that only gain marks hold at least as many marks of a rule as before.
proof fn lemma_marks_grow(m: Seq<Option<Rule>>, n: Seq<Option<Rule>>, rule: Rule)
    requires
        m.len() == n.len(),
        forall|k: int| 0 <= k < m.len() && (#[trigger] m[k]) is Some ==> n[k] == m[k],
    ensures
        m.filter(CellState::mark_pred(rule)).len() <= n.filter(CellState::mark_pred(rule)).len(),
    decreases m.len(),
{
    let p = CellState::mark_pred(rule);
    if m.len() > 0 {
        let m0 = m.drop_last();
        let n0 = n.drop_last();
        lemma_marks_grow(m0, n0, rule);
        assert(m == m0.push(m.last()));
        assert(n == n0.push(n.last()));
        m0.lemma_filter_push(m.last(), p);
        n0.lemma_filter_push(n.last(), p);
    }
}

/// Statuses that only gain marks, and hold as many of each rule as before,
/// have not changed.
proof fn lemma_marks_equal(m: Seq<Option<Rule>>, n: Seq<Option<Rule>>)
    requires
        m.len() == n.len(),
        forall|k: int| 0 <= k < m.len() && (#[trigger] m[k]) is Some ==> n[k] == m[k],
        forall|rule: Rule|
            m.filter(CellState::mark_pred(rule)).len() == n.filter(
                #[trigger] CellState::mark_pred(rule),
            ).len(),
    ensures
        m == n,
    decreases m.len(),
{
    if m.len() > 0 {
        let m0 = m.drop_last();
        let n0 = n.drop_last();
        assert(m == m0.push(m.last()));
        assert(n == n0.push(n.last()));
        assert forall|rule: Rule|
            m0.filter(CellState::mark_pred(rule)).len() == n0.filter(
                #[trigger] CellState::mark_pred(rule),
            ).len() && (m.last() == Some(rule) <==> n.last() == Some(rule)) by {
            let p = CellState::mark_pred(rule);
            lemma_marks_grow(m0, n0, rule);
            m0.lemma_filter_push(m.last(), p);
            n0.lemma_filter_push(n.last(), p);
        }
        lemma_marks_equal(m0, n0);
        if n.last() is Some {
            assert(CellState::mark_pred(n.last()->0)(n.last()));
        }
    }
}

/// A narrowed cell that holds as many marks of each rule as before has not changed.
pub proof fn lemma_cell_marks_equal(a: CellState, b: CellState)
    requires
        cell_narrows_to(a, b),
        forall|rule: Rule| a.marks(rule) == #[trigger] b.marks(rule),
    ensures
        a == b,
{
    if let CellState::Open(m) = a {
        let n = b->Open_0;
        assert forall|rule: Rule|
            m.filter(CellState::mark_pred(rule)).len() == n.filter(
                #[trigger] CellState::mark_pred(rule),
            ).len() by {
            assert(a.marks(rule) == b.marks(rule));
        }
        lemma_marks_equal(m, n);
    }
}

/// A narrowed grid holds at least the marks it held before, in every prefix.
pub proof fn lemma_marks_upto_grow(s: Seq<CellState>, t: Seq<CellState>, rule: Rule, n: int)
    requires
        narrows_to(s, t),
        0 <= n <= s.len(),
    ensures
        marks_upto(s, rule, n) <= marks_upto(t, rule, n),
    decreases n,
{
    if n > 0 {
        lemma_marks_upto_grow(s, t, rule, n - 1);
        lemma_cell_marks_grow(s[n - 1], t[n - 1], rule);
    }
}

/// Where a narrowed grid holds as many marks of a rule in its first `n`
/// cells as before, each of these cells holds as many as before.
proof fn lemma_marks_upto_equal(s: Seq<CellState>, t: Seq<CellState>, rule: Rule, n: int)
    requires
        narrows_to(s, t),
        0 <= n <= s.len(),
        marks_upto(s, rule, n) == marks_upto(t, rule, n),
    ensures
        forall|i: int| 0 <= i < n ==> (#[trigger] s[i]).marks(rule) == t[i].marks(rule),
    decreases n,
{
    if n > 0 {
        lemma_marks_upto_grow(s, t, rule, n - 1);
        lemma_cell_marks_grow(s[n - 1], t[n - 1], rule);
        lemma_marks_upto_equal(s, t, rule, n - 1);
    }
}

/// Narrowing never lowers the number of marks of a rule.
pub proof fn lemma_total_marks_grow(s: Seq<CellState>, t: Seq<CellState>, rule: Rule)
    requires
        narrows_to(s, t),
    ensures
        total_marks(s, rule) <= total_marks(t, rule),
{
    lemma_marks_upto_grow(s, t, rule, s.len() as int);
}

/// A narrowed grid with as many marks of either rule as before is the grid it came from.
pub proof fn lemma_total_marks_equal(s: Seq<CellState>, t: Seq<CellState>)
    requires
        narrows_to(s, t),
        total_marks(s, Rule::AtMostOne) == total_marks(t, Rule::AtMostOne),
        total_marks(s, Rule::AtLeastOne) == total_marks(t, Rule::AtLeastOne),
    ensures
        s == t,
{
    lemma_marks_upto_equal(s, t, Rule::AtMostOne, s.len() as int);
    lemma_marks_upto_equal(s, t, Rule::AtLeastOne, s.len() as int);
    assert forall|i: int| 0 <= i < s.len() implies #[trigger] s[i] == t[i] by {
        assert forall|rule: Rule| s[i].marks(rule) == #[trigger] t[i].marks(rule) by {
            match rule {
                Rule::AtMostOne => {},
                Rule::AtLeastOne => {},
            }
        }
        lemma_cell_marks_equal(s[i], t[i]);
    }
}

} // verus!
