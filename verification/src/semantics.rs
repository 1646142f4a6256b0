//! The mathematical account of a grammar: well-formedness, the three build-time
//! checks, anchored matching with span capture, and derivability of a string
//! from a rule.
//!
//! Matching and derivability are stated as interpreters over a `fuel` bound on
//! the nesting depth of rule references. `None` means the bound was reached
//! before the question was settled; the answer for any sufficient bound is
//! unique (see the monotonicity law in `laws`).

use vstd::prelude::*;

use crate::ast::AtomView;
use crate::ast::RuleView;

verus! {

/// Index of the first rule at or after `i` called `name`, if any.
pub open spec fn find_from(g: Seq<RuleView>, name: Seq<char>, i: int) -> Option<int>
    decreases g.len() - i,
{
    if i < 0 || i >= g.len() {
        None
    } else if g[i].name == name {
        Some(i)
    } else {
        find_from(g, name, i + 1)
    }
}

/// Whether some rule is called `name`.
pub open spec fn has_rule(g: Seq<RuleView>, name: Seq<char>) -> bool {
    find_from(g, name, 0) is Some
}

pub proof fn lemma_find_from(g: Seq<RuleView>, name: Seq<char>, i: int)
    requires
        0 <= i,
    ensures
        match find_from(g, name, i) {
            Some(j) => i <= j < g.len() && g[j].name == name && (forall|k: int|
                i <= k < j ==> g[k].name != name),
            None => forall|k: int| i <= k < g.len() && k >= 0 ==> g[k].name != name,
        },
    decreases g.len() - i,
{
    if 0 <= i < g.len() && g[i].name != name {
        lemma_find_from(g, name, i + 1);
    }
}

/// No two rules share a name.
pub open spec fn unique_names(g: Seq<RuleView>) -> bool {
    forall|i: int, j: int|
        0 <= i < j < g.len() ==> (#[trigger] g[i]).name != (#[trigger] g[j]).name
}

/// An atom either is a terminal or refers to a declared rule.
pub open spec fn atom_defined(g: Seq<RuleView>, a: AtomView) -> bool {
    match a {
        AtomView::Terminal { content } => true,
        AtomView::NonTerminal { name } => has_rule(g, name),
    }
}

/// Every non-terminal across the whole rule set refers to a declared rule.
pub open spec fn nonterminals_defined(g: Seq<RuleView>) -> bool {
    forall|i: int, vi: int, ai: int|
        0 <= i < g.len() && 0 <= vi < g[i].variants.len() && 0 <= ai < g[i].variants[vi].len()
            ==> atom_defined(g, #[trigger] g[i].variants[vi][ai])
}

/// The structural shape the parser guarantees: every rule has at least one
/// variant and every variant at least one atom.
pub open spec fn structurally_formed(g: Seq<RuleView>) -> bool {
    &&& forall|i: int| 0 <= i < g.len() ==> (#[trigger] g[i]).variants.len() >= 1
    &&& forall|i: int, vi: int|
        0 <= i < g.len() && 0 <= vi < g[i].variants.len() ==> (#[trigger] g[i].variants[vi]).len()
            >= 1
}

/// What holds of every grammar wrapped into an engine.
pub open spec fn wf_grammar(g: Seq<RuleView>) -> bool {
    &&& unique_names(g)
    &&& nonterminals_defined(g)
    &&& structurally_formed(g)
}

// ------------------------------------------------------------------
// The three build-time checks.
// ------------------------------------------------------------------
/// Whether one of the first `upto` rules is called `name`.
pub open spec fn name_among(g: Seq<RuleView>, name: Seq<char>, upto: int) -> bool {
    exists|j: int| 0 <= j < upto && j < g.len() && (#[trigger] g[j]).name == name
}

/// The duplicate names reported for the first `i` rules, in scan order: each
/// rule whose name already appeared earlier contributes one entry.
pub open spec fn dups_upto(g: Seq<RuleView>, i: int) -> Seq<Seq<char>>
    decreases i,
{
    if i <= 0 || i > g.len() {
        Seq::empty()
    } else {
        dups_upto(g, i - 1) + if name_among(g, g[i - 1].name, i - 1) {
            seq![g[i - 1].name]
        } else {
            Seq::empty()
        }
    }
}

/// The full duplicate-name report for a rule set.
pub open spec fn spec_dups(g: Seq<RuleView>) -> Seq<Seq<char>> {
    dups_upto(g, g.len() as int)
}

/// The name an atom refers to without a matching declaration, if any.
pub open spec fn undef_in_atom(g: Seq<RuleView>, a: AtomView) -> Option<Seq<char>> {
    match a {
        AtomView::Terminal { content } => None,
        AtomView::NonTerminal { name } => if has_rule(g, name) {
            None
        } else {
            Some(name)
        },
    }
}

/// First undeclared reference in one variant, scanning atoms from `ai`.
pub open spec fn first_undef_items(g: Seq<RuleView>, items: Seq<AtomView>, ai: int) -> Option<
    Seq<char>,
>
    decreases items.len() - ai,
{
    if ai < 0 || ai >= items.len() {
        None
    } else {
        match undef_in_atom(g, items[ai]) {
            Some(n) => Some(n),
            None => first_undef_items(g, items, ai + 1),
        }
    }
}

/// First undeclared reference in one rule, scanning variants from `vi`.
pub open spec fn first_undef_variants(g: Seq<RuleView>, vs: Seq<Seq<AtomView>>, vi: int) -> Option<
    Seq<char>,
>
    decreases vs.len() - vi,
{
    if vi < 0 || vi >= vs.len() {
        None
    } else {
        match first_undef_items(g, vs[vi], 0) {
            Some(n) => Some(n),
            None => first_undef_variants(g, vs, vi + 1),
        }
    }
}

/// First undeclared reference in the rule set, scanning rules from `i`:
/// the defining rule's name paired with the missing name.
pub open spec fn first_undef_rules(g: Seq<RuleView>, i: int) -> Option<(Seq<char>, Seq<char>)>
    decreases g.len() - i,
{
    if i < 0 || i >= g.len() {
        None
    } else {
        match first_undef_variants(g, g[i].variants, 0) {
            Some(n) => Some((g[i].name, n)),
            None => first_undef_rules(g, i + 1),
        }
    }
}

/// The undeclared-reference report for a rule set.
pub open spec fn spec_first_undef(g: Seq<RuleView>) -> Option<(Seq<char>, Seq<char>)> {
    first_undef_rules(g, 0)
}

/// One leg of the depth-first search below: does a cycle show from variant
/// `vi` of rule `i` on, the search stack being `st`? A variant shows one when
/// its leading atom refers to a rule that is already on the stack (with `i`
/// just pushed) or from which the search finds one.
pub open spec fn cycle_from_vars(g: Seq<RuleView>, i: int, vi: int, st: Set<int>) -> bool
    decreases g.len() - st.len(), 1int, g[i].variants.len() - vi,
        when st.finite() && 0 <= i < g.len() && st.subset_of(vstd::set_lib::set_int_range(0, g.len() as int)) && !st.contains(i)
{
    if vi < 0 || vi >= g[i].variants.len() {
        false
    } else {
        let here = if g[i].variants[vi].len() > 0 {
            match g[i].variants[vi][0] {
                AtomView::NonTerminal { name } => match find_from(g, name, 0) {
                    Some(j) => if st.insert(i).contains(j) {
                        true
                    } else {
                        proof {
                            lemma_find_from(g, name, 0);
                            vstd::set_lib::lemma_int_range(0, g.len() as int);
                            vstd::set_lib::lemma_len_subset(
                                st.insert(i),
                                vstd::set_lib::set_int_range(0, g.len() as int),
                            );
                            vstd::set::axiom_set_insert_len(st, i);
                        }
                        reaches_cycle(g, j, st.insert(i))
                    },
                    None => false,
                },
                AtomView::Terminal { content } => false,
            }
        } else {
            false
        };
        here || cycle_from_vars(g, i, vi + 1, st)
    }
}

/// Depth-first search along the leading atom of each variant: does some chain
/// of leading non-terminal references starting at rule `i` come back to a rule
/// already on the search stack `st` (or to `i` itself)?
///
/// Only the first atom of a variant is inspected; recursion behind a leading
/// terminal is out of this check's deliberately narrow scope.
pub open spec fn reaches_cycle(g: Seq<RuleView>, i: int, st: Set<int>) -> bool
    decreases g.len() - st.len(), 2int, 0int,
        when st.finite() && 0 <= i < g.len() && st.subset_of(vstd::set_lib::set_int_range(0, g.len() as int)) && !st.contains(i)
{
    cycle_from_vars(g, i, 0, st)
}

/// One atom's leg of the full-graph search below: does the atom refer to a
/// rule that is already on the search stack (with `i` just pushed) or from
/// which the search finds a cycle — or does some later atom of the same
/// variant, from `ai` on?
pub open spec fn cycle_any_items(g: Seq<RuleView>, i: int, vi: int, ai: int, st: Set<int>) -> bool
    decreases g.len() - st.len(), 1int, 0int, g[i].variants[vi].len() - ai,
        when st.finite() && 0 <= i < g.len() && st.subset_of(vstd::set_lib::set_int_range(0, g.len() as int)) && !st.contains(i)
{
    if ai < 0 || ai >= g[i].variants[vi].len() {
        false
    } else {
        let here = match g[i].variants[vi][ai] {
            AtomView::NonTerminal { name } => match find_from(g, name, 0) {
                Some(j) => if st.insert(i).contains(j) {
                    true
                } else {
                    proof {
                        lemma_find_from(g, name, 0);
                        vstd::set_lib::lemma_int_range(0, g.len() as int);
                        vstd::set_lib::lemma_len_subset(
                            st.insert(i),
                            vstd::set_lib::set_int_range(0, g.len() as int),
                        );
                        vstd::set::axiom_set_insert_len(st, i);
                    }
                    reaches_cycle_any(g, j, st.insert(i))
                },
                None => false,
            },
            AtomView::Terminal { content } => false,
        };
        here || cycle_any_items(g, i, vi, ai + 1, st)
    }
}

/// The variants' leg of the full-graph search below, from variant `vi` on.
pub open spec fn cycle_any_vars(g: Seq<RuleView>, i: int, vi: int, st: Set<int>) -> bool
    decreases g.len() - st.len(), 2int, g[i].variants.len() - vi, 0int,
        when st.finite() && 0 <= i < g.len() && st.subset_of(vstd::set_lib::set_int_range(0, g.len() as int)) && !st.contains(i)
{
    if vi < 0 || vi >= g[i].variants.len() {
        false
    } else {
        cycle_any_items(g, i, vi, 0, st) || cycle_any_vars(g, i, vi + 1, st)
    }
}

/// Depth-first search along every atom of every variant (the full reference
/// graph, unlike the build-time check above, which follows leading atoms
/// only): does some chain of references starting at rule `i` come back to a
/// rule already on the search stack `st` (or to `i` itself)?
///
/// A rule from which no such chain exists can only nest expansions as deep
/// as there are rules, so random expansion of it is owed success.
pub open spec fn reaches_cycle_any(g: Seq<RuleView>, i: int, st: Set<int>) -> bool
    decreases g.len() - st.len(), 3int, 0int, 0int,
        when st.finite() && 0 <= i < g.len() && st.subset_of(vstd::set_lib::set_int_range(0, g.len() as int)) && !st.contains(i)
{
    cycle_any_vars(g, i, 0, st)
}

/// When the full-graph search finds nothing from the first variant on, it
/// finds nothing from any single variant either.
pub proof fn lemma_cycle_any_vars_covers(g: Seq<RuleView>, i: int, vi: int, st: Set<int>)
    requires
        st.finite(),
        0 <= i < g.len(),
        st.subset_of(vstd::set_lib::set_int_range(0, g.len() as int)),
        !st.contains(i),
        !cycle_any_vars(g, i, 0, st),
        0 <= vi < g[i].variants.len(),
    ensures
        !cycle_any_vars(g, i, vi, st),
        !cycle_any_items(g, i, vi, 0, st),
    decreases vi,
{
    if vi > 0 {
        lemma_cycle_any_vars_covers(g, i, vi - 1, st);
        assert(cycle_any_vars(g, i, vi - 1, st) == (cycle_any_items(g, i, vi - 1, 0, st)
            || cycle_any_vars(g, i, vi, st)));
    }
    assert(cycle_any_vars(g, i, vi, st) == (cycle_any_items(g, i, vi, 0, st) || cycle_any_vars(
        g,
        i,
        vi + 1,
        st,
    )));
}

/// Index of the first rule from which the depth-first search above finds a
/// cycle, if any: the rule the build reports.
pub open spec fn first_cyclic_from(g: Seq<RuleView>, i: int) -> Option<int>
    decreases g.len() - i,
{
    if i < 0 || i >= g.len() {
        None
    } else if reaches_cycle(g, i, Set::empty()) {
        Some(i)
    } else {
        first_cyclic_from(g, i + 1)
    }
}

/// The left-recursion report for a rule set.
pub open spec fn spec_first_cyclic(g: Seq<RuleView>) -> Option<int> {
    first_cyclic_from(g, 0)
}

/// Whether `name` is borne by more than one rule.
pub open spec fn occurs_multiply(g: Seq<RuleView>, name: Seq<char>) -> bool {
    exists|a: int, b: int|
        0 <= a < b < g.len() && (#[trigger] g[a]).name == name && (#[trigger] g[b]).name == name
}

/// Whether the rule named `rn` refers somewhere to a rule `mn` that no rule
/// declares.
pub open spec fn references_undefined(g: Seq<RuleView>, rn: Seq<char>, mn: Seq<char>) -> bool {
    !has_rule(g, mn) && exists|i: int, vi: int, ai: int|
        {
            &&& 0 <= i < g.len()
            &&& 0 <= vi < g[i].variants.len()
            &&& 0 <= ai < g[i].variants[vi].len()
            &&& (#[trigger] g[i].variants[vi][ai]) matches AtomView::NonTerminal { name: n } && n
                == mn
            &&& g[i].name == rn
        }
}

// ------------------------------------------------------------------
// The matcher's argument checks.
// ------------------------------------------------------------------
/// The images of a list of strings.
pub open spec fn strings_view(s: Seq<String>) -> Seq<Seq<char>> {
    s.map_values(|x: String| x@)
}

/// The first name in the watch list, from `k` on, that no rule declares.
pub open spec fn first_bad_watch_from(g: Seq<RuleView>, ws: Seq<Seq<char>>, k: int) -> Option<
    Seq<char>,
>
    decreases ws.len() - k,
{
    if k < 0 || k >= ws.len() {
        None
    } else if !has_rule(g, ws[k]) {
        Some(ws[k])
    } else {
        first_bad_watch_from(g, ws, k + 1)
    }
}

/// The first undeclared name in the watch list, if any.
pub open spec fn spec_first_bad_watch(g: Seq<RuleView>, ws: Seq<Seq<char>>) -> Option<Seq<char>> {
    first_bad_watch_from(g, ws, 0)
}

/// The bound both engine operations place on the nesting depth of rule
/// references: so large that a run reaching it would have exhausted the
/// machine's stack long before, but a bound nonetheless, reported as its own
/// error rather than by crashing.
pub open spec fn depth_limit() -> nat {
    u64::MAX as nat
}

// ------------------------------------------------------------------
// Anchored matching with span capture.
// ------------------------------------------------------------------
/// The image of a list of machine-sized spans.
pub open spec fn spans_view(s: Seq<(usize, usize)>) -> Seq<(int, int)> {
    s.map_values(|p: (usize, usize)| (p.0 as int, p.1 as int))
}

/// Settled result of matching one rule or one atom sequence: failure, or the
/// number of characters consumed together with the captured spans in report
/// order (a watched rule's own span first, then its descendants' spans in
/// left-to-right atom order).
pub enum MatchOutcome {
    Fail,
    Match { used: int, spans: Seq<(int, int)> },
}

/// Match rule `i` against `t` at position `pos`: try the variants in
/// declaration order, the first full success deciding. `None` when the fuel
/// bound on rule nesting is reached first.
pub open spec fn sm_rule(
    g: Seq<RuleView>,
    w: Seq<Seq<char>>,
    i: int,
    t: Seq<char>,
    pos: int,
    fuel: nat,
) -> Option<MatchOutcome>
    decreases fuel, 2int, 0int, 0int,
{
    if fuel == 0 {
        None
    } else {
        sm_vars(g, w, i, 0, t, pos, fuel)
    }
}

/// Try the variants of rule `i` from index `vi` on.
pub open spec fn sm_vars(
    g: Seq<RuleView>,
    w: Seq<Seq<char>>,
    i: int,
    vi: int,
    t: Seq<char>,
    pos: int,
    fuel: nat,
) -> Option<MatchOutcome>
    decreases fuel, 1int, g[i].variants.len() - vi, 0int,
{
    if fuel == 0 {
        None
    } else if vi < 0 || vi >= g[i].variants.len() {
        Some(MatchOutcome::Fail)
    } else {
        match sm_seq(g, w, i, vi, 0, t, pos, fuel) {
            None => None,
            Some(MatchOutcome::Fail) => sm_vars(g, w, i, vi + 1, t, pos, fuel),
            Some(MatchOutcome::Match { used, spans }) => Some(
                MatchOutcome::Match {
                    used,
                    spans: (if w.contains(g[i].name) {
                        seq![(pos, pos + used)]
                    } else {
                        Seq::empty()
                    }) + spans,
                },
            ),
        }
    }
}

/// Match the atoms of variant `vi` of rule `i` from atom `ai` on, the cursor
/// standing at `pos`.
pub open spec fn sm_seq(
    g: Seq<RuleView>,
    w: Seq<Seq<char>>,
    i: int,
    vi: int,
    ai: int,
    t: Seq<char>,
    pos: int,
    fuel: nat,
) -> Option<MatchOutcome>
    decreases fuel, 0int, 0int, g[i].variants[vi].len() - ai,
{
    if fuel == 0 {
        None
    } else if ai < 0 || ai >= g[i].variants[vi].len() {
        Some(MatchOutcome::Match { used: 0, spans: Seq::empty() })
    } else {
        match g[i].variants[vi][ai] {
            AtomView::Terminal { content } => {
                if pos + content.len() <= t.len() && t.subrange(pos, pos + content.len())
                    == content {
                    match sm_seq(g, w, i, vi, ai + 1, t, pos + content.len(), fuel) {
                        None => None,
                        Some(MatchOutcome::Fail) => Some(MatchOutcome::Fail),
                        Some(MatchOutcome::Match { used, spans }) => Some(
                            MatchOutcome::Match { used: content.len() + used, spans },
                        ),
                    }
                } else {
                    Some(MatchOutcome::Fail)
                }
            },
            AtomView::NonTerminal { name } => {
                match find_from(g, name, 0) {
                    None => Some(MatchOutcome::Fail),
                    Some(j) => match sm_rule(g, w, j, t, pos, (fuel - 1) as nat) {
                        None => None,
                        Some(MatchOutcome::Fail) => Some(MatchOutcome::Fail),
                        Some(MatchOutcome::Match { used: u1, spans: s1 }) => {
                            match sm_seq(g, w, i, vi, ai + 1, t, pos + u1, fuel) {
                                None => None,
                                Some(MatchOutcome::Fail) => Some(MatchOutcome::Fail),
                                Some(MatchOutcome::Match { used: u2, spans: s2 }) => Some(
                                    MatchOutcome::Match { used: u1 + u2, spans: s1 + s2 },
                                ),
                            }
                        },
                    },
                }
            },
        }
    }
}

// ------------------------------------------------------------------
// Derivability: which strings a rule can expand to.
// ------------------------------------------------------------------
/// A witness that a rule expands to a string: the variant chosen at each
/// step, the piece of the string each atom of that variant contributes, and
/// one subtree per atom (a placeholder leaf at terminal positions).
pub enum DerivTree {
    Leaf,
    Node { vi: int, parts: Seq<Seq<char>>, kids: Seq<DerivTree> },
}

/// Whether `t` witnesses that rule `i` expands to exactly `s`.
pub open spec fn deriv_rule_ok(g: Seq<RuleView>, i: int, s: Seq<char>, t: DerivTree) -> bool
    decreases t, 0int,
{
    match t {
        DerivTree::Leaf => false,
        DerivTree::Node { vi, parts, kids } => {
            &&& 0 <= i < g.len()
            &&& 0 <= vi < g[i].variants.len()
            &&& s == parts.flatten()
            &&& deriv_items_ok(g, i, vi, 0, parts, kids)
        },
    }
}

/// Whether each atom of variant `vi` of rule `i`, from atom `ai` on,
/// contributes exactly its piece of `parts` (the pieces and subtrees are
/// aligned with the atoms from `ai` on): a terminal contributes its content,
/// a non-terminal a string the referenced rule expands to.
pub open spec fn deriv_items_ok(
    g: Seq<RuleView>,
    i: int,
    vi: int,
    ai: int,
    parts: Seq<Seq<char>>,
    kids: Seq<DerivTree>,
) -> bool
    decreases kids, 0int,
{
    &&& parts.len() == kids.len()
    &&& ai + parts.len() == g[i].variants[vi].len()
    &&& if parts.len() == 0 {
        true
    } else {
        let here = match g[i].variants[vi][ai] {
            AtomView::Terminal { content } => parts[0] == content,
            AtomView::NonTerminal { name } => match find_from(g, name, 0) {
                Some(j) => deriv_rule_ok(g, j, parts[0], kids[0]),
                None => false,
            },
        };
        here && deriv_items_ok(g, i, vi, ai + 1, parts.drop_first(), kids.drop_first())
    }
}

/// The nesting depth of rule expansions in a derivation witness.
pub open spec fn ht_rule(t: DerivTree) -> nat
    decreases t, 0int,
{
    match t {
        DerivTree::Leaf => 0,
        DerivTree::Node { vi, parts, kids } => 1 + ht_kids(kids),
    }
}

/// The largest nesting depth among the subtrees in `kids`.
pub open spec fn ht_kids(kids: Seq<DerivTree>) -> nat
    decreases kids, 0int,
{
    if kids.len() == 0 {
        0
    } else {
        let h = ht_rule(kids[0]);
        let rest = ht_kids(kids.drop_first());
        if h > rest {
            h
        } else {
            rest
        }
    }
}

/// Whether rule `i` can expand to exactly `s`, through some choice of
/// variants.
pub open spec fn derives(g: Seq<RuleView>, i: int, s: Seq<char>) -> bool {
    exists|t: DerivTree| deriv_rule_ok(g, i, s, t)
}

} // verus!
