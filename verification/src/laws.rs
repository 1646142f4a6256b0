//! General properties of the build-time checks and of matching and
//! generation, stated over the definitions in `semantics` and proved once and
//! for all.

use vstd::prelude::*;

use crate::ast::AtomView;
use crate::ast::RuleView;
use crate::semantics::atom_defined;
use crate::semantics::dups_upto;
use crate::semantics::first_undef_items;
use crate::semantics::first_undef_rules;
use crate::semantics::first_undef_variants;
use crate::semantics::has_rule;
use crate::semantics::nonterminals_defined;
use crate::semantics::occurs_multiply;
use crate::semantics::references_undefined;
use crate::semantics::spec_dups;
use crate::semantics::spec_first_undef;
use crate::semantics::DerivTree;
use crate::semantics::MatchOutcome;
use crate::semantics::depth_limit;
use crate::semantics::deriv_items_ok;
use crate::semantics::deriv_rule_ok;
use crate::semantics::find_from;
use crate::semantics::ht_kids;
use crate::semantics::ht_rule;
use crate::semantics::lemma_find_from;
use crate::semantics::sm_rule;
use crate::semantics::sm_seq;
use crate::semantics::sm_vars;
use crate::semantics::wf_grammar;
use crate::semantics::unique_names;

verus! {

/// One step of the duplicate-name scan: membership in the report over the
/// first `i` rules means exactly that the name is borne by two of them.
proof fn lemma_dups_member(g: Seq<RuleView>, name: Seq<char>, i: int)
    requires
        0 <= i <= g.len(),
    ensures
        dups_upto(g, i).contains(name) <==> exists|a: int, b: int|
            0 <= a < b < i && (#[trigger] g[a]).name == name && (#[trigger] g[b]).name == name,
    decreases i,
{
    if i <= 0 {
    } else {
        lemma_dups_member(g, name, i - 1);
        let prev = dups_upto(g, i - 1);
        let whole = dups_upto(g, i);
        if crate::semantics::name_among(g, g[i - 1].name, i - 1) {
            assert(whole == prev + seq![g[i - 1].name]);
            if whole.contains(name) {
                let idx = choose|idx: int| 0 <= idx < whole.len() && whole[idx] == name;
                if idx < prev.len() {
                    assert(prev[idx] == name);
                    assert(prev.contains(name));
                } else {
                    assert(name == g[i - 1].name);
                    let a = choose|a: int|
                        0 <= a < i - 1 && a < g.len() && (#[trigger] g[a]).name == g[i - 1].name;
                    assert(0 <= a < i - 1 < i && g[a].name == name && g[i - 1].name == name);
                }
            }
            if exists|a: int, b: int|
                0 <= a < b < i && (#[trigger] g[a]).name == name && (#[trigger] g[b]).name
                    == name {
                let (a, b) = choose|a: int, b: int|
                    0 <= a < b < i && (#[trigger] g[a]).name == name && (#[trigger] g[b]).name
                        == name;
                if b < i - 1 {
                    assert(prev.contains(name));
                    let idx = choose|idx: int| 0 <= idx < prev.len() && prev[idx] == name;
                    assert(whole[idx] == name);
                } else {
                    assert(whole[prev.len() as int] == name);
                }
                assert(whole.contains(name));
            }
        } else {
            assert(whole =~= prev);
            if whole.contains(name) {
            }
            if exists|a: int, b: int|
                0 <= a < b < i && (#[trigger] g[a]).name == name && (#[trigger] g[b]).name
                    == name {
                let (a, b) = choose|a: int, b: int|
                    0 <= a < b < i && (#[trigger] g[a]).name == name && (#[trigger] g[b]).name
                        == name;
                if b == i - 1 {
                    assert(crate::semantics::name_among(g, g[i - 1].name, i - 1));
                }
            }
        }
    }
}

/// The duplicate-name report contains a name exactly when more than one rule
/// bears it — independently of where in the list the copies stand.
pub proof fn lemma_duplicated_names_exact(g: Seq<RuleView>, name: Seq<char>)
    ensures
        spec_dups(g).contains(name) <==> occurs_multiply(g, name),
{
    lemma_dups_member(g, name, g.len() as int);
}

/// The duplicate-name report is empty exactly when all rule names are
/// pairwise distinct.
pub proof fn lemma_dups_empty_iff_unique(g: Seq<RuleView>)
    ensures
        spec_dups(g).len() == 0 <==> unique_names(g),
{
    if spec_dups(g).len() == 0 {
        assert forall|i: int, j: int| 0 <= i < j < g.len() implies (#[trigger] g[i]).name != (
        #[trigger] g[j]).name by {
            if g[i].name == g[j].name {
                lemma_duplicated_names_exact(g, g[i].name);
                assert(occurs_multiply(g, g[i].name));
                assert(spec_dups(g).contains(g[i].name));
            }
        }
    }
    if unique_names(g) && spec_dups(g).len() > 0 {
        let x = spec_dups(g)[0];
        assert(spec_dups(g).contains(x));
        lemma_duplicated_names_exact(g, x);
        let (a, b) = choose|a: int, b: int|
            0 <= a < b < g.len() && (#[trigger] g[a]).name == x && (#[trigger] g[b]).name == x;
        assert(g[a].name != g[b].name);
    }
}

proof fn lemma_undef_items(g: Seq<RuleView>, items: Seq<AtomView>, ai: int)
    requires
        0 <= ai,
    ensures
        match first_undef_items(g, items, ai) {
            None => forall|k: int| ai <= k < items.len() ==> atom_defined(g, #[trigger] items[k]),
            Some(n) => !has_rule(g, n) && exists|k: int|
                ai <= k < items.len() && ((#[trigger] items[k]) matches AtomView::NonTerminal {
                    name,
                } && name == n),
        },
    decreases items.len() - ai,
{
    if ai < items.len() {
        lemma_undef_items(g, items, ai + 1);
    }
}

proof fn lemma_undef_variants(g: Seq<RuleView>, vs: Seq<Seq<AtomView>>, vi: int)
    requires
        0 <= vi,
    ensures
        match first_undef_variants(g, vs, vi) {
            None => forall|v: int, k: int|
                vi <= v < vs.len() && 0 <= k < vs[v].len() ==> atom_defined(
                    g,
                    #[trigger] vs[v][k],
                ),
            Some(n) => !has_rule(g, n) && exists|v: int, k: int|
                vi <= v < vs.len() && 0 <= k < vs[v].len() && ((#[trigger] vs[v][k]) matches AtomView::NonTerminal {
                    name,
                } && name == n),
        },
    decreases vs.len() - vi,
{
    if 0 <= vi < vs.len() {
        lemma_undef_items(g, vs[vi], 0);
        lemma_undef_variants(g, vs, vi + 1);
    }
}

proof fn lemma_undef_rules(g: Seq<RuleView>, i: int)
    requires
        0 <= i,
    ensures
        match first_undef_rules(g, i) {
            None => forall|r: int, v: int, k: int|
                i <= r < g.len() && 0 <= v < g[r].variants.len() && 0 <= k
                    < g[r].variants[v].len() ==> atom_defined(g, #[trigger] g[r].variants[v][k]),
            Some(pair) => !has_rule(g, pair.1) && exists|r: int, v: int, k: int|
                {
                    &&& i <= r < g.len()
                    &&& 0 <= v < g[r].variants.len()
                    &&& 0 <= k < g[r].variants[v].len()
                    &&& (#[trigger] g[r].variants[v][k]) matches AtomView::NonTerminal { name }
                        && name == pair.1
                    &&& g[r].name == pair.0
                },
        },
    decreases g.len() - i,
{
    if 0 <= i < g.len() {
        lemma_undef_variants(g, g[i].variants, 0);
        lemma_undef_rules(g, i + 1);
    }
}

/// The undeclared-reference report is empty exactly when every non-terminal
/// refers to a declared rule; when it is not, the reported pair really is a
/// rule of the set and a name it references that no rule declares.
pub proof fn lemma_inexistent_exact(g: Seq<RuleView>)
    ensures
        (spec_first_undef(g) is None <==> nonterminals_defined(g)),
        spec_first_undef(g) matches Some(pair) ==> references_undefined(g, pair.0, pair.1),
{
    lemma_undef_rules(g, 0);
    match spec_first_undef(g) {
        None => {
            assert(nonterminals_defined(g));
        },
        Some(pair) => {
            assert(references_undefined(g, pair.0, pair.1));
            let (r, v, k) = choose|r: int, v: int, k: int|
                {
                    &&& 0 <= r < g.len()
                    &&& 0 <= v < g[r].variants.len()
                    &&& 0 <= k < g[r].variants[v].len()
                    &&& (#[trigger] g[r].variants[v][k]) matches AtomView::NonTerminal { name }
                        && name == pair.1
                    &&& g[r].name == pair.0
                };
            assert(!atom_defined(g, g[r].variants[v][k]));
            assert(!nonterminals_defined(g));
        },
    }
}


// ------------------------------------------------------------------
// The depth bound is benign: a settled match answer never changes when
// the bound grows.
// ------------------------------------------------------------------
proof fn lemma_sm_vars_mono(
    g: Seq<RuleView>,
    w: Seq<Seq<char>>,
    i: int,
    vi: int,
    t: Seq<char>,
    pos: int,
    f1: nat,
    f2: nat,
)
    requires
        f1 <= f2,
        crate::semantics::sm_vars(g, w, i, vi, t, pos, f1) is Some,
    ensures
        crate::semantics::sm_vars(g, w, i, vi, t, pos, f2) == crate::semantics::sm_vars(
            g,
            w,
            i,
            vi,
            t,
            pos,
            f1,
        ),
    decreases f1, 1int, g[i].variants.len() - vi, 0int,
{
    if !(vi < 0 || vi >= g[i].variants.len()) {
        lemma_sm_seq_mono(g, w, i, vi, 0, t, pos, f1, f2);
        match sm_seq(g, w, i, vi, 0, t, pos, f1) {
            None => {},
            Some(MatchOutcome::Fail) => {
                lemma_sm_vars_mono(g, w, i, vi + 1, t, pos, f1, f2);
            },
            Some(MatchOutcome::Match { used, spans }) => {},
        }
    }
}

proof fn lemma_sm_seq_mono(
    g: Seq<RuleView>,
    w: Seq<Seq<char>>,
    i: int,
    vi: int,
    ai: int,
    t: Seq<char>,
    pos: int,
    f1: nat,
    f2: nat,
)
    requires
        f1 <= f2,
        sm_seq(g, w, i, vi, ai, t, pos, f1) is Some,
    ensures
        sm_seq(g, w, i, vi, ai, t, pos, f2) == sm_seq(g, w, i, vi, ai, t, pos, f1),
    decreases f1, 0int, 0int, g[i].variants[vi].len() - ai,
{
    if !(ai < 0 || ai >= g[i].variants[vi].len()) {
        match g[i].variants[vi][ai] {
            AtomView::Terminal { content } => {
                if pos + content.len() <= t.len() && t.subrange(pos, pos + content.len())
                    == content {
                    lemma_sm_seq_mono(g, w, i, vi, ai + 1, t, pos + content.len(), f1, f2);
                }
            },
            AtomView::NonTerminal { name } => {
                match find_from(g, name, 0) {
                    None => {},
                    Some(j) => {
                        match sm_rule(g, w, j, t, pos, (f1 - 1) as nat) {
                            None => {},
                            Some(MatchOutcome::Fail) => {
                                lemma_match_fuel_monotone(
                                    g,
                                    w,
                                    j,
                                    t,
                                    pos,
                                    (f1 - 1) as nat,
                                    (f2 - 1) as nat,
                                );
                            },
                            Some(MatchOutcome::Match { used: u1, spans: s1 }) => {
                                lemma_match_fuel_monotone(
                                    g,
                                    w,
                                    j,
                                    t,
                                    pos,
                                    (f1 - 1) as nat,
                                    (f2 - 1) as nat,
                                );
                                lemma_sm_seq_mono(g, w, i, vi, ai + 1, t, pos + u1, f1, f2);
                            },
                        }
                    },
                }
            },
        }
    }
}

/// A settled match answer is stable: if the matcher resolves a rule at some
/// depth bound, every larger bound resolves it to the same answer. The
/// engine's fixed bound therefore returns the one true answer whenever any
/// bound at all would settle the question.
pub proof fn lemma_match_fuel_monotone(
    g: Seq<RuleView>,
    w: Seq<Seq<char>>,
    i: int,
    t: Seq<char>,
    pos: int,
    f1: nat,
    f2: nat,
)
    requires
        f1 <= f2,
        sm_rule(g, w, i, t, pos, f1) is Some,
    ensures
        sm_rule(g, w, i, t, pos, f2) == sm_rule(g, w, i, t, pos, f1),
    decreases f1, 2int, 0int, 0int,
{
    lemma_sm_vars_mono(g, w, i, 0, t, pos, f1, f2);
}

// ------------------------------------------------------------------
// Round trip: what the generator derives, the matcher accepts.
// ------------------------------------------------------------------
/// Every rule of the grammar has exactly one variant, so that expansion and
/// matching have no choices to disagree on.
pub open spec fn single_variant(g: Seq<RuleView>) -> bool {
    forall|i: int| 0 <= i < g.len() ==> (#[trigger] g[i]).variants.len() == 1
}

/// No variant of any rule references the rule at index `root`.
pub open spec fn unreferenced(g: Seq<RuleView>, root: int) -> bool {
    forall|j: int, vi: int, ai: int|
        0 <= j < g.len() && 0 <= vi < g[j].variants.len() && 0 <= ai < g[j].variants[vi].len()
            ==> match #[trigger] g[j].variants[vi][ai] {
            AtomView::NonTerminal { name } => name != g[root].name,
            AtomView::Terminal { content } => true,
        }
}

/// The watch list names no rule but possibly the one at index `root`.
spec fn watch_only(g: Seq<RuleView>, w: Seq<Seq<char>>, root: int) -> bool {
    forall|j: int| 0 <= j < g.len() && j != root ==> !w.contains((#[trigger] g[j]).name)
}

proof fn rt_items(
    g: Seq<RuleView>,
    w: Seq<Seq<char>>,
    root: int,
    i: int,
    vi: int,
    ai: int,
    parts: Seq<Seq<char>>,
    kids: Seq<DerivTree>,
    text: Seq<char>,
    pos: int,
    fuel: nat,
)
    requires
        wf_grammar(g),
        single_variant(g),
        unreferenced(g, root),
        watch_only(g, w, root),
        0 <= i < g.len(),
        0 <= vi < g[i].variants.len(),
        0 <= ai,
        deriv_items_ok(g, i, vi, ai, parts, kids),
        0 <= pos,
        pos + parts.flatten().len() <= text.len(),
        text.subrange(pos, pos + parts.flatten().len() as int) == parts.flatten(),
        fuel >= ht_kids(kids) + 1,
    ensures
        sm_seq(g, w, i, vi, ai, text, pos, fuel) == Some(
            MatchOutcome::Match {
                used: parts.flatten().len() as int,
                spans: Seq::<(int, int)>::empty(),
            },
        ),
    decreases fuel, 0int, parts.len(),
{
    let flat = parts.flatten();
    if parts.len() == 0 {
        assert(flat =~= Seq::<char>::empty());
        assert(ai >= g[i].variants[vi].len());
    } else {
        let c0 = parts[0];
        let rest = parts.drop_first();
        let restflat = rest.flatten();
        assert(parts.first() == c0);
        assert(flat == c0 + restflat);
        assert(flat.len() == c0.len() + restflat.len());
        assert forall|k: int| 0 <= k < flat.len() implies text[pos + k] == flat[k] by {
            assert(text.subrange(pos, pos + flat.len() as int)[k] == text[pos + k]);
        }
        assert forall|k: int| 0 <= k < c0.len() implies text.subrange(
            pos,
            pos + c0.len() as int,
        )[k] == c0[k] by {
            assert(text[pos + k] == flat[k]);
            assert(flat[k] == c0[k]);
        }
        assert(text.subrange(pos, pos + c0.len() as int) =~= c0);
        assert forall|k: int| 0 <= k < restflat.len() implies text.subrange(
            pos + c0.len(),
            pos + flat.len() as int,
        )[k] == restflat[k] by {
            assert(text.subrange(pos + c0.len(), pos + flat.len() as int)[k] == text[pos + (
            c0.len() + k)]);
            assert(text[pos + (c0.len() + k)] == flat[c0.len() + k]);
            assert(flat[c0.len() + k] == restflat[k]);
        }
        assert(text.subrange(pos + c0.len(), pos + flat.len() as int) =~= restflat);
        assert(ht_kids(kids) >= ht_rule(kids[0]) && ht_kids(kids) >= ht_kids(kids.drop_first()));
        match g[i].variants[vi][ai] {
            AtomView::Terminal { content } => {
                assert(c0 == content);
                rt_items(
                    g,
                    w,
                    root,
                    i,
                    vi,
                    ai + 1,
                    rest,
                    kids.drop_first(),
                    text,
                    pos + c0.len() as int,
                    fuel,
                );
                assert(sm_seq(g, w, i, vi, ai, text, pos, fuel) == Some(
                    MatchOutcome::Match {
                        used: flat.len() as int,
                        spans: Seq::<(int, int)>::empty() + Seq::<(int, int)>::empty(),
                    },
                ));
                assert(Seq::<(int, int)>::empty() + Seq::<(int, int)>::empty() =~= Seq::<
                    (int, int),
                >::empty());
            },
            AtomView::NonTerminal { name } => {
                let j = find_from(g, name, 0)->Some_0;
                lemma_find_from(g, name, 0);
                assert(g[j].name == name);
                assert(j != root);
                assert(!w.contains(g[j].name));
                rt_rule(g, w, root, j, c0, kids[0], text, pos, (fuel - 1) as nat);
                rt_items(
                    g,
                    w,
                    root,
                    i,
                    vi,
                    ai + 1,
                    rest,
                    kids.drop_first(),
                    text,
                    pos + c0.len() as int,
                    fuel,
                );
                assert(sm_seq(g, w, i, vi, ai, text, pos, fuel) == Some(
                    MatchOutcome::Match {
                        used: flat.len() as int,
                        spans: Seq::<(int, int)>::empty() + Seq::<(int, int)>::empty(),
                    },
                ));
                assert(Seq::<(int, int)>::empty() + Seq::<(int, int)>::empty() =~= Seq::<
                    (int, int),
                >::empty());
            },
        }
    }
}

proof fn rt_rule(
    g: Seq<RuleView>,
    w: Seq<Seq<char>>,
    root: int,
    i: int,
    s: Seq<char>,
    t: DerivTree,
    text: Seq<char>,
    pos: int,
    fuel: nat,
)
    requires
        wf_grammar(g),
        single_variant(g),
        unreferenced(g, root),
        watch_only(g, w, root),
        0 <= i < g.len(),
        deriv_rule_ok(g, i, s, t),
        0 <= pos,
        pos + s.len() <= text.len(),
        text.subrange(pos, pos + s.len() as int) == s,
        fuel >= ht_rule(t),
    ensures
        sm_rule(g, w, i, text, pos, fuel) == Some(
            MatchOutcome::Match {
                used: s.len() as int,
                spans: if w.contains(g[i].name) {
                    seq![(pos, pos + s.len() as int)]
                } else {
                    Seq::<(int, int)>::empty()
                },
            },
        ),
    decreases fuel, 1int, 0int,
{
    match t {
        DerivTree::Leaf => {},
        DerivTree::Node { vi, parts, kids } => {
            assert(vi == 0);
            assert(fuel >= 1 + ht_kids(kids));
            rt_items(g, w, root, i, 0, 0, parts, kids, text, pos, fuel);
            assert(sm_vars(g, w, i, 0, text, pos, fuel) == Some(
                MatchOutcome::Match {
                    used: s.len() as int,
                    spans: (if w.contains(g[i].name) {
                        seq![(pos, pos + s.len() as int)]
                    } else {
                        Seq::<(int, int)>::empty()
                    }) + Seq::<(int, int)>::empty(),
                },
            ));
            assert((if w.contains(g[i].name) {
                seq![(pos, pos + s.len() as int)]
            } else {
                Seq::<(int, int)>::empty()
            }) + Seq::<(int, int)>::empty() =~= (if w.contains(g[i].name) {
                seq![(pos, pos + s.len() as int)]
            } else {
                Seq::<(int, int)>::empty()
            }));
        },
    }
}

/// Round trip: in a grammar whose rules each have exactly one variant and
/// whose start rule no rule references, any string the start rule derives
/// (within the engine's depth bound) is matched back, anchored at its start,
/// as one single span covering the whole string, when exactly the start rule
/// is watched.
pub proof fn lemma_generate_match_round_trip(g: Seq<RuleView>, i: int, s: Seq<char>)
    requires
        wf_grammar(g),
        single_variant(g),
        unreferenced(g, i),
        0 <= i < g.len(),
        exists|t: DerivTree| deriv_rule_ok(g, i, s, t) && ht_rule(t) <= depth_limit(),
    ensures
        sm_rule(g, seq![g[i].name], i, s, 0, depth_limit()) == Some(
            MatchOutcome::Match { used: s.len() as int, spans: seq![(0int, s.len() as int)] },
        ),
{
    let t = choose|t: DerivTree| deriv_rule_ok(g, i, s, t) && ht_rule(t) <= depth_limit();
    let w = seq![g[i].name];
    assert forall|j: int| 0 <= j < g.len() && j != i implies !w.contains(
        (#[trigger] g[j]).name,
    ) by {
        if w.contains(g[j].name) {
            let q = choose|q: int| 0 <= q < w.len() && w[q] == g[j].name;
            assert(w[0] == g[i].name);
            assert(g[j].name == g[i].name);
        }
    }
    assert(w.contains(g[i].name)) by {
        assert(w[0] == g[i].name);
    }
    assert(s.subrange(0, s.len() as int) =~= s);
    rt_rule(g, w, i, i, s, t, s, 0, depth_limit());
}

} // verus!
