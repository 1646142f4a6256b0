//! The grammar engine: building (with the three static checks), anchored
//! matching with span capture, and random expansion.

use vstd::prelude::*;

use crate::ast::Atom;
use crate::ast::AtomView;
use crate::ast::Rule;
use crate::ast::RuleVariant;
use crate::ast::RuleView;
use crate::ast::rules_view;
use crate::laws::lemma_dups_empty_iff_unique;
use crate::laws::lemma_inexistent_exact;
use crate::semantics::dups_upto;
use crate::semantics::find_from;
use crate::semantics::first_cyclic_from;
use crate::semantics::first_undef_items;
use crate::semantics::first_undef_rules;
use crate::semantics::first_undef_variants;
use crate::semantics::has_rule;
use crate::semantics::cycle_any_items;
use crate::semantics::cycle_any_vars;
use crate::semantics::cycle_from_vars;
use crate::semantics::lemma_cycle_any_vars_covers;
use crate::semantics::reaches_cycle_any;
use crate::semantics::name_among;
use crate::semantics::reaches_cycle;
use crate::semantics::depth_limit;
use crate::semantics::deriv_items_ok;
use crate::semantics::deriv_rule_ok;
use crate::semantics::derives;
use crate::semantics::ht_kids;
use crate::semantics::ht_rule;
use crate::semantics::sm_rule;
use crate::semantics::sm_seq;
use crate::semantics::sm_vars;
use crate::semantics::spans_view;
use crate::semantics::spec_dups;
use crate::semantics::spec_first_bad_watch;
use crate::semantics::DerivTree;
use crate::semantics::MatchOutcome;
use crate::semantics::spec_first_cyclic;
use crate::semantics::spec_first_undef;
use crate::semantics::strings_view;
use crate::semantics::structurally_formed;
use crate::semantics::undef_in_atom;
use crate::semantics::unique_names;
use crate::semantics::wf_grammar;
use crate::text::str_eq;
use crate::text::to_chars;
use vstd::pervasive::VecAdditionalExecFns;
use vstd::set_lib::lemma_int_range;
use vstd::set_lib::lemma_len_subset;
use vstd::set_lib::set_int_range;
use vstd::string::StrSliceExecFns;

verus! {

/// Failure of a random expansion.
#[derive(Debug)]
pub enum GenerateError {
    /// The requested rule is not part of the grammar.
    BadRule(String),
    /// The expansion nested rules deeper than the engine's depth bound.
    DepthLimit,
}

/// Failure of a match.
#[derive(Debug)]
pub enum MatchError {
    /// The rule the match was to start from is not part of the grammar.
    BadInitialRule(String),
    /// A watched rule name is not part of the grammar.
    BadWatchRule(String),
    /// The initial rule does not match at the start of the text.
    NoMatches,
    /// The search nested rules deeper than the engine's depth bound.
    DepthLimit,
}

/// Failure of a build: the first of the three static checks that rejected the
/// rule set.
#[derive(Debug)]
pub enum BuildError {
    /// Every rule name that more than one rule bears, in scan order.
    DuplicatedNames(Vec<String>),
    /// A rule (first component) references a rule name (second component)
    /// that no rule declares.
    InexistentNonTerminals(String, String),
    /// The named rule can reach itself along leading non-terminal atoms.
    InfinityRecursion(String),
}

/// A validated, read-only grammar, ready for matching and generation.
pub struct Engine {
    rules: Vec<Rule>,
    debug: bool,
}

impl View for Engine {
    type V = Seq<RuleView>;

    closed spec fn view(&self) -> Seq<RuleView> {
        rules_view(self.rules@)
    }
}

/// The search stack of the cycle check, as a set of rule indices.
pub open spec fn marks_set(s: Seq<bool>) -> Set<int> {
    Set::new(|k: int| 0 <= k < s.len() && s[k])
}

proof fn lemma_marks_set_bounds(s: Seq<bool>)
    ensures
        marks_set(s).finite(),
        marks_set(s).len() <= s.len(),
        marks_set(s).subset_of(set_int_range(0, s.len() as int)),
{
    lemma_int_range(0, s.len() as int);
    assert(marks_set(s).subset_of(set_int_range(0, s.len() as int)));
    lemma_len_subset(marks_set(s), set_int_range(0, s.len() as int));
}

/// Index of the first rule bearing `name`, if any.
fn find_rule_idx(rules: &[Rule], name: &str) -> (r: Option<usize>)
    ensures
        match r {
            Some(j) => j < rules@.len() && find_from(rules_view(rules@), name@, 0) == Some(
                j as int,
            ),
            None => find_from(rules_view(rules@), name@, 0) is None,
        },
{
    let ghost g = rules_view(rules@);
    let mut i: usize = 0;
    while i < rules.len()
        invariant
            i <= rules@.len(),
            find_from(g, name@, 0) == find_from(g, name@, i as int),
            g == rules_view(rules@),
        decreases rules@.len() - i,
    {
        if str_eq(rules[i].name.as_str(), name) {
            assert(g[i as int].name == name@);
            return Some(i);
        }
        assert(find_from(g, name@, i as int) == find_from(g, name@, i + 1 as int));
        i += 1;
    }
    None
}

/// Whether one of the first `upto` rules bears `name`.
fn contains_name_upto(rules: &[Rule], upto: usize, name: &str) -> (r: bool)
    requires
        upto <= rules@.len(),
    ensures
        r == name_among(rules_view(rules@), name@, upto as int),
{
    let ghost g = rules_view(rules@);
    let mut j: usize = 0;
    while j < upto
        invariant
            j <= upto <= rules@.len(),
            !name_among(g, name@, j as int),
            g == rules_view(rules@),
        decreases upto - j,
    {
        if str_eq(rules[j].name.as_str(), name) {
            assert(g[j as int].name == name@);
            assert(name_among(g, name@, upto as int));
            return true;
        }
        assert forall|k: int| 0 <= k < j + 1 && k < g.len() implies (#[trigger] g[k]).name
            != name@ by {
            if k < j {
                assert(!name_among(g, name@, j as int));
            }
        }
        j += 1;
    }
    false
}

/// A structural copy of an atom.
fn clone_atom(a: &Atom) -> (r: Atom)
    ensures
        r@ == a@,
{
    match a {
        Atom::Terminal { content } => Atom::Terminal { content: content.clone() },
        Atom::NonTerminal { name } => Atom::NonTerminal { name: name.clone() },
    }
}

/// A structural copy of a variant.
fn clone_variant(v: &RuleVariant) -> (r: RuleVariant)
    ensures
        r@ == v@,
{
    let mut items: Vec<Atom> = Vec::new();
    let mut i: usize = 0;
    while i < v.items.len()
        invariant
            i <= v.items@.len(),
            items@.len() == i,
            forall|k: int| 0 <= k < i ==> items@[k]@ == v.items@[k]@,
        decreases v.items@.len() - i,
    {
        items.push(clone_atom(&v.items[i]));
        i += 1;
    }
    let r = RuleVariant { items };
    proof {
        assert(r@ =~= v@);
    }
    r
}

/// A structural copy of a rule.
fn clone_rule(r0: &Rule) -> (r: Rule)
    ensures
        r@ == r0@,
{
    let mut variants: Vec<RuleVariant> = Vec::new();
    let mut i: usize = 0;
    while i < r0.variants.len()
        invariant
            i <= r0.variants@.len(),
            variants@.len() == i,
            forall|k: int| 0 <= k < i ==> variants@[k]@ == r0.variants@[k]@,
        decreases r0.variants@.len() - i,
    {
        variants.push(clone_variant(&r0.variants[i]));
        i += 1;
    }
    let r = Rule { name: r0.name.clone(), variants };
    proof {
        assert(r@.variants =~= r0@.variants);
    }
    r
}

/// A structural copy of a whole rule list.
fn clone_rules(rules: &[Rule]) -> (r: Vec<Rule>)
    ensures
        rules_view(r@) == rules_view(rules@),
{
    let mut out: Vec<Rule> = Vec::new();
    let mut i: usize = 0;
    while i < rules.len()
        invariant
            i <= rules@.len(),
            out@.len() == i,
            forall|k: int| 0 <= k < i ==> out@[k]@ == rules@[k]@,
        decreases rules@.len() - i,
    {
        out.push(clone_rule(&rules[i]));
        i += 1;
    }
    proof {
        assert(rules_view(out@) =~= rules_view(rules@));
    }
    out
}

/// Depth-first search for a cycle of leading non-terminal references,
/// starting at rule `idx`, with `in_stack` marking the rules on the current
/// search path. On a negative answer the marks are left as they were found.
fn check_recursion(rules: &[Rule], idx: usize, in_stack: &mut Vec<bool>) -> (r: bool)
    requires
        old(in_stack)@.len() == rules@.len(),
        idx < rules@.len(),
        !old(in_stack)@[idx as int],
    ensures
        r == reaches_cycle(rules_view(rules@), idx as int, marks_set(old(in_stack)@)),
        final(in_stack)@.len() == old(in_stack)@.len(),
        !r ==> final(in_stack)@ == old(in_stack)@,
    decreases rules@.len() - marks_set(old(in_stack)@).len(),
{
    let ghost g = rules_view(rules@);
    let ghost orig = in_stack@;
    let ghost st0 = marks_set(orig);
    proof {
        lemma_marks_set_bounds(orig);
    }
    in_stack.set(idx, true);
    proof {
        assert(marks_set(in_stack@) =~= st0.insert(idx as int));
    }
    let mut vi: usize = 0;
    while vi < rules[idx].variants.len()
        invariant
            g == rules_view(rules@),
            idx < g.len(),
            orig == old(in_stack)@,
            orig.len() == g.len(),
            !orig[idx as int],
            st0 == marks_set(orig),
            st0.finite(),
            st0.subset_of(set_int_range(0, g.len() as int)),
            !st0.contains(idx as int),
            in_stack@ == orig.update(idx as int, true),
            vi <= g[idx as int].variants.len(),
            cycle_from_vars(g, idx as int, 0, st0) == cycle_from_vars(g, idx as int, vi as int, st0),
        decreases g[idx as int].variants.len() - vi,
    {
        proof {
            assert(marks_set(in_stack@) =~= st0.insert(idx as int));
        }
        let items = &rules[idx].variants[vi].items;
        if items.len() > 0 {
            match &items[0] {
                Atom::Terminal { content } => {
                    proof {
                        assert(g[idx as int].variants[vi as int][0]
                            matches AtomView::Terminal { .. });
                        assert(cycle_from_vars(g, idx as int, vi as int, st0) == cycle_from_vars(
                            g,
                            idx as int,
                            vi + 1 as int,
                            st0,
                        ));
                    }
                },
                Atom::NonTerminal { name } => {
                    proof {
                        assert(g[idx as int].variants[vi as int][0] == AtomView::NonTerminal {
                            name: name@,
                        });
                    }
                    let found = find_rule_idx(rules, name.as_str());
                    match found {
                        None => {
                            proof {
                                assert(cycle_from_vars(g, idx as int, vi as int, st0)
                                    == cycle_from_vars(g, idx as int, vi + 1 as int, st0));
                            }
                        },
                        Some(j0) => {
                            if in_stack[j0] {
                                proof {
                                    assert(in_stack@[j0 as int]);
                                    assert(st0.insert(idx as int).contains(j0 as int));
                                    assert(cycle_from_vars(g, idx as int, vi as int, st0));
                                    assert(reaches_cycle(g, idx as int, st0));
                                }
                                return true;
                            }
                            proof {
                                assert(!in_stack@[j0 as int]);
                                lemma_marks_set_bounds(in_stack@);
                                assert(marks_set(in_stack@) =~= st0.insert(idx as int));
                                assert(st0.insert(idx as int).len() == st0.len() + 1) by {
                                    vstd::set::axiom_set_insert_len(st0, idx as int);
                                }
                            }
                            let rec = check_recursion(rules, j0, in_stack);
                            if rec {
                                proof {
                                    assert(reaches_cycle(g, j0 as int, st0.insert(idx as int)));
                                    assert(cycle_from_vars(g, idx as int, vi as int, st0));
                                    assert(reaches_cycle(g, idx as int, st0));
                                }
                                return true;
                            }
                            proof {
                                assert(!reaches_cycle(g, j0 as int, st0.insert(idx as int)));
                                assert(cycle_from_vars(g, idx as int, vi as int, st0)
                                    == cycle_from_vars(g, idx as int, vi + 1 as int, st0));
                            }
                        },
                    }
                },
            }
        } else {
            proof {
                assert(g[idx as int].variants[vi as int].len() == 0);
                assert(cycle_from_vars(g, idx as int, vi as int, st0) == cycle_from_vars(
                    g,
                    idx as int,
                    vi + 1 as int,
                    st0,
                ));
            }
        }
        vi += 1;
    }
    in_stack.set(idx, false);
    proof {
        assert(in_stack@ =~= orig);
        assert(!cycle_from_vars(g, idx as int, vi as int, st0));
        assert(!reaches_cycle(g, idx as int, st0));
    }
    false
}

/// Whether one of the strings in `w` reads `name`.
fn contains_str(w: &[String], name: &str) -> (r: bool)
    ensures
        r == strings_view(w@).contains(name@),
{
    let mut k: usize = 0;
    while k < w.len()
        invariant
            k <= w@.len(),
            forall|q: int| 0 <= q < k ==> (#[trigger] w@[q])@ != name@,
        decreases w@.len() - k,
    {
        if str_eq(w[k].as_str(), name) {
            proof {
                assert(strings_view(w@)[k as int] == name@);
            }
            return true;
        }
        k += 1;
    }
    proof {
        if strings_view(w@).contains(name@) {
            let q = choose|q: int|
                0 <= q < strings_view(w@).len() && strings_view(w@)[q] == name@;
            assert(w@[q]@ == name@);
        }
    }
    false
}

/// Whether the text, from position `pos` on, starts with `pat`.
fn prefix_matches(t: &Vec<char>, pos: usize, pat: &str) -> (b: bool)
    requires
        pos <= t@.len(),
    ensures
        b == (pos + pat@.len() <= t@.len() && t@.subrange(pos as int, pos + pat@.len()) == pat@),
{
    let n = pat.unicode_len();
    if n > t.len() - pos {
        return false;
    }
    let mut k: usize = 0;
    while k < n
        invariant
            n == pat@.len(),
            pos + n <= t@.len(),
            t@.len() <= usize::MAX,
            k <= n,
            forall|q: int| 0 <= q < k ==> t@[pos + q] == pat@[q],
        decreases n - k,
    {
        if t[pos + k] != pat.get_char(k) {
            proof {
                if t@.subrange(pos as int, pos + pat@.len()) == pat@ {
                    assert(t@.subrange(pos as int, pos + pat@.len())[k as int] == t@[pos + k]);
                }
            }
            return false;
        }
        k += 1;
    }
    proof {
        assert(t@.subrange(pos as int, pos + pat@.len()) =~= pat@);
    }
    true
}

/// Relies on rand's `Rng::gen_range`: for the nonempty range `0..n` it
/// returns a uniformly distributed value of the range, so strictly below `n`.
#[verifier::external_body]
fn rand_index(n: usize) -> (r: usize)
    requires
        n >= 1,
    ensures
        r < n,
{
    rand::Rng::gen_range(&mut rand::thread_rng(), 0..n)
}

/// Expand rule `i` into a random string, choosing a variant uniformly at
/// each step, with rule references nested at most `fuel` deep; `None` when
/// the bound was reached. The ghost result witnesses the derivation.
/// The bookkeeping the generator's proof carries: the rules already being
/// expanded form a finite set of in-range indices not containing the current
/// one.
spec fn gen_stack_ok(g: Seq<RuleView>, st: Set<int>, i: int) -> bool {
    &&& st.finite()
    &&& st.subset_of(set_int_range(0, g.len() as int))
    &&& !st.contains(i)
}

fn g_rule(rules: &[Rule], i: usize, fuel: u64, Ghost(st): Ghost<Set<int>>) -> (r: (
    Option<String>,
    Ghost<DerivTree>,
))
    requires
        wf_grammar(rules_view(rules@)),
        i < rules@.len(),
    ensures
        r.0 matches Some(s) ==> deriv_rule_ok(rules_view(rules@), i as int, s@, r.1@) && ht_rule(
            r.1@,
        ) <= fuel as nat,
        gen_stack_ok(rules_view(rules@), st, i as int) && !reaches_cycle_any(
            rules_view(rules@),
            i as int,
            st,
        ) && rules_view(rules@).len() - st.len() <= fuel as int ==> r.0 is Some,
    decreases fuel, 1int, 0int,
{
    let ghost g = rules_view(rules@);
    if fuel == 0 {
        proof {
            // A rule not on the stack leaves the depth budget at least one.
            if gen_stack_ok(g, st, i as int) && g.len() - st.len() <= fuel as int {
                lemma_int_range(0, g.len() as int);
                assert(st.insert(i as int).subset_of(set_int_range(0, g.len() as int)));
                lemma_len_subset(st.insert(i as int), set_int_range(0, g.len() as int));
                vstd::set::axiom_set_insert_len(st, i as int);
                assert(false);
            }
        }
        return (None, Ghost(DerivTree::Leaf));
    }
    let vcount = rules[i].variants.len();
    proof {
        assert(g[i as int].variants.len() >= 1);
    }
    let vi = rand_index(vcount);
    proof {
        if gen_stack_ok(g, st, i as int) && !reaches_cycle_any(g, i as int, st) {
            assert(!cycle_any_vars(g, i as int, 0, st));
            lemma_cycle_any_vars_covers(g, i as int, vi as int, st);
            assert(!cycle_any_items(g, i as int, vi as int, 0, st));
        }
    }
    let (s, gparts, gkids) = g_seq(rules, i, vi, 0, fuel, Ghost(st));
    match s {
        None => (None, Ghost(DerivTree::Leaf)),
        Some(s) => {
            let ghost t = DerivTree::Node { vi: vi as int, parts: gparts@, kids: gkids@ };
            proof {
                assert(deriv_rule_ok(g, i as int, s@, t));
                assert(ht_rule(t) == 1 + ht_kids(gkids@));
            }
            (Some(s), Ghost(t))
        },
    }
}

/// Expand the atoms of variant `vi` of rule `i`, from atom `ai` on, in
/// order, concatenating the pieces. The ghost results give each atom's piece
/// and, at non-terminal positions, the subtree deriving it.
fn g_seq(rules: &[Rule], i: usize, vi: usize, ai: usize, fuel: u64, Ghost(st): Ghost<
    Set<int>,
>) -> (r: (Option<String>, Ghost<Seq<Seq<char>>>, Ghost<Seq<DerivTree>>))
    requires
        wf_grammar(rules_view(rules@)),
        i < rules@.len(),
        vi < rules_view(rules@)[i as int].variants.len(),
        ai <= rules_view(rules@)[i as int].variants[vi as int].len(),
        fuel >= 1,
    ensures
        r.0 matches Some(s) ==> {
            &&& deriv_items_ok(rules_view(rules@), i as int, vi as int, ai as int, r.1@, r.2@)
            &&& s@ == r.1@.flatten()
            &&& ht_kids(r.2@) <= (fuel - 1) as nat
        },
        gen_stack_ok(rules_view(rules@), st, i as int) && !cycle_any_items(
            rules_view(rules@),
            i as int,
            vi as int,
            ai as int,
            st,
        ) && rules_view(rules@).len() - st.len() <= fuel as int ==> r.0 is Some,
    decreases fuel, 0int, rules_view(rules@)[i as int].variants[vi as int].len() - ai,
{
    let ghost g = rules_view(rules@);
    let items = &rules[i].variants[vi].items;
    proof {
        assert(g[i as int].variants[vi as int].len() == items@.len());
    }
    if ai == items.len() {
        let r = (
            Some(String::new()),
            Ghost(Seq::<Seq<char>>::empty()),
            Ghost(Seq::<DerivTree>::empty()),
        );
        proof {
            assert(Seq::<Seq<char>>::empty().flatten() =~= Seq::<char>::empty());
            assert(deriv_items_ok(g, i as int, vi as int, ai as int, Seq::empty(), Seq::empty()));
        }
        return r;
    }
    match &items[ai] {
        Atom::Terminal { content } => {
            proof {
                assert(g[i as int].variants[vi as int][ai as int] == AtomView::Terminal {
                    content: content@,
                });
            }
            proof {
                if gen_stack_ok(g, st, i as int) && !cycle_any_items(
                    g,
                    i as int,
                    vi as int,
                    ai as int,
                    st,
                ) {
                    assert(!cycle_any_items(g, i as int, vi as int, ai + 1 as int, st));
                }
            }
            let (rest, gparts, gkids) = g_seq(rules, i, vi, ai + 1, fuel, Ghost(st));
            match rest {
                None => (None, Ghost(Seq::empty()), Ghost(Seq::empty())),
                Some(rest) => {
                    let mut s = content.clone();
                    s.append(rest.as_str());
                    let ghost parts = seq![content@] + gparts@;
                    let ghost kids = seq![DerivTree::Leaf] + gkids@;
                    proof {
                        assert(parts.drop_first() =~= gparts@);
                        assert(kids.drop_first() =~= gkids@);
                        assert(parts[0] == content@);
                        assert(deriv_items_ok(g, i as int, vi as int, ai as int, parts, kids));
                        assert(parts.flatten() == parts.first().add(parts.drop_first().flatten()));
                        assert(s@ =~= parts.flatten());
                        assert(kids[0] == DerivTree::Leaf);
                        assert(ht_rule(DerivTree::Leaf) == 0);
                        assert(ht_kids(kids) <= (fuel - 1) as nat);
                    }
                    (Some(s), Ghost(parts), Ghost(kids))
                },
            }
        },
        Atom::NonTerminal { name } => {
            proof {
                assert(g[i as int].variants[vi as int][ai as int] == AtomView::NonTerminal {
                    name: name@,
                });
            }
            match find_rule_idx(rules, name.as_str()) {
                None => {
                    proof {
                        assert(crate::semantics::atom_defined(
                            g,
                            g[i as int].variants[vi as int][ai as int],
                        ));
                        assert(false);
                    }
                    (None, Ghost(Seq::empty()), Ghost(Seq::empty()))
                },
                Some(j) => {
                    proof {
                        if gen_stack_ok(g, st, i as int) && !cycle_any_items(
                            g,
                            i as int,
                            vi as int,
                            ai as int,
                            st,
                        ) && g.len() - st.len() <= fuel as int {
                            // The atom's own leg of the search found nothing:
                            // `j` is neither on the stack nor reaches a cycle,
                            // so the descent into it keeps the bookkeeping.
                            assert(!st.insert(i as int).contains(j as int));
                            assert(!reaches_cycle_any(g, j as int, st.insert(i as int)));
                            assert(st.insert(i as int).subset_of(
                                set_int_range(0, g.len() as int),
                            ));
                            vstd::set::axiom_set_insert_len(st, i as int);
                            assert(gen_stack_ok(g, st.insert(i as int), j as int));
                            assert(!cycle_any_items(g, i as int, vi as int, ai + 1 as int, st));
                        }
                    }
                    let (sub, gt) = g_rule(rules, j, fuel - 1, Ghost(st.insert(i as int)));
                    match sub {
                        None => (None, Ghost(Seq::empty()), Ghost(Seq::empty())),
                        Some(sub) => {
                            let (rest, gparts, gkids) = g_seq(rules, i, vi, ai + 1, fuel, Ghost(st));
                            match rest {
                                None => (None, Ghost(Seq::empty()), Ghost(Seq::empty())),
                                Some(rest) => {
                                    let ghost subv = sub@;
                                    let mut s = sub;
                                    s.append(rest.as_str());
                                    let ghost parts = seq![subv] + gparts@;
                                    let ghost kids = seq![gt@] + gkids@;
                                    proof {
                                        assert(parts.drop_first() =~= gparts@);
                                        assert(kids.drop_first() =~= gkids@);
                                        assert(parts[0] == subv);
                                        assert(kids[0] == gt@);
                                        assert(deriv_items_ok(
                                            g,
                                            i as int,
                                            vi as int,
                                            ai as int,
                                            parts,
                                            kids,
                                        ));
                                        assert(parts.flatten() == parts.first().add(
                                            parts.drop_first().flatten(),
                                        ));
                                        assert(s@ =~= parts.flatten());
                                        assert(ht_kids(kids) <= (fuel - 1) as nat);
                                    }
                                    (Some(s), Ghost(parts), Ghost(kids))
                                },
                            }
                        },
                    }
                },
            }
        },
    }
}

/// Working result of one step of the matcher: the depth bound was reached,
/// the piece failed to match, or it matched consuming `used` characters and
/// capturing `spans`.
enum MatchStep {
    NoFuel,
    Fail,
    Found { used: usize, spans: Vec<(usize, usize)> },
}

/// The image of a working result in the mathematical matcher.
spec fn step_view(m: &MatchStep) -> Option<MatchOutcome> {
    match m {
        MatchStep::NoFuel => None,
        MatchStep::Fail => Some(MatchOutcome::Fail),
        MatchStep::Found { used, spans } => Some(
            MatchOutcome::Match { used: *used as int, spans: spans_view(spans@) },
        ),
    }
}

/// Match rule `i` against the text at `pos`: first fully matching variant
/// wins.
fn m_rule(rules: &[Rule], w: &[String], i: usize, t: &Vec<char>, pos: usize, fuel: u64) -> (r:
    MatchStep)
    requires
        wf_grammar(rules_view(rules@)),
        i < rules@.len(),
        pos <= t@.len(),
        t@.len() <= usize::MAX,
    ensures
        step_view(&r) == sm_rule(
            rules_view(rules@),
            strings_view(w@),
            i as int,
            t@,
            pos as int,
            fuel as nat,
        ),
        r matches MatchStep::Found { used, .. } ==> pos + used <= t@.len(),
    decreases fuel, 2int, 0int, 0int,
{
    if fuel == 0 {
        return MatchStep::NoFuel;
    }
    m_vars(rules, w, i, 0, t, pos, fuel)
}

/// Try the variants of rule `i` from `vi` on.
fn m_vars(rules: &[Rule], w: &[String], i: usize, vi: usize, t: &Vec<char>, pos: usize, fuel: u64) -> (r:
    MatchStep)
    requires
        wf_grammar(rules_view(rules@)),
        i < rules@.len(),
        vi <= rules_view(rules@)[i as int].variants.len(),
        pos <= t@.len(),
        t@.len() <= usize::MAX,
        fuel >= 1,
    ensures
        step_view(&r) == sm_vars(
            rules_view(rules@),
            strings_view(w@),
            i as int,
            vi as int,
            t@,
            pos as int,
            fuel as nat,
        ),
        r matches MatchStep::Found { used, .. } ==> pos + used <= t@.len(),
    decreases fuel, 1int, rules_view(rules@)[i as int].variants.len() - vi, 0int,
{
    let ghost g = rules_view(rules@);
    let ghost sw = strings_view(w@);
    if vi == rules[i].variants.len() {
        return MatchStep::Fail;
    }
    match m_seq(rules, w, i, vi, 0, t, pos, fuel) {
        MatchStep::NoFuel => MatchStep::NoFuel,
        MatchStep::Fail => m_vars(rules, w, i, vi + 1, t, pos, fuel),
        MatchStep::Found { used, spans } => {
            let mut spans = spans;
            let mut out: Vec<(usize, usize)> = Vec::new();
            if contains_str(w, rules[i].name.as_str()) {
                out.push((pos, pos + used));
            }
            proof {
                assert(g[i as int].name == rules@[i as int].name@);
                if sw.contains(g[i as int].name) {
                    assert(spans_view(out@) =~= seq![(pos as int, pos + used as int)]);
                } else {
                    assert(spans_view(out@) =~= Seq::<(int, int)>::empty());
                }
            }
            let ghost own = spans_view(out@);
            let ghost tail = spans_view(spans@);
            out.append(&mut spans);
            proof {
                assert(spans_view(out@) =~= own + tail);
            }
            MatchStep::Found { used, spans: out }
        },
    }
}

/// Match the atoms of variant `vi` of rule `i` from atom `ai` on, the cursor
/// standing at `pos`.
fn m_seq(
    rules: &[Rule],
    w: &[String],
    i: usize,
    vi: usize,
    ai: usize,
    t: &Vec<char>,
    pos: usize,
    fuel: u64,
) -> (r: MatchStep)
    requires
        wf_grammar(rules_view(rules@)),
        i < rules@.len(),
        vi < rules_view(rules@)[i as int].variants.len(),
        ai <= rules_view(rules@)[i as int].variants[vi as int].len(),
        pos <= t@.len(),
        t@.len() <= usize::MAX,
        fuel >= 1,
    ensures
        step_view(&r) == sm_seq(
            rules_view(rules@),
            strings_view(w@),
            i as int,
            vi as int,
            ai as int,
            t@,
            pos as int,
            fuel as nat,
        ),
        r matches MatchStep::Found { used, .. } ==> pos + used <= t@.len(),
    decreases fuel, 0int, 0int, rules_view(rules@)[i as int].variants[vi as int].len() - ai,
{
    let ghost g = rules_view(rules@);
    let ghost sw = strings_view(w@);
    let items = &rules[i].variants[vi].items;
    proof {
        assert(g[i as int].variants[vi as int].len() == items@.len());
    }
    if ai == items.len() {
        let r = MatchStep::Found { used: 0, spans: Vec::new() };
        proof {
            assert(spans_view(Seq::<(usize, usize)>::empty()) =~= Seq::<(int, int)>::empty());
        }
        return r;
    }
    match &items[ai] {
        Atom::Terminal { content } => {
            proof {
                assert(g[i as int].variants[vi as int][ai as int] == AtomView::Terminal {
                    content: content@,
                });
            }
            if prefix_matches(t, pos, content.as_str()) {
                let clen = content.as_str().unicode_len();
                match m_seq(rules, w, i, vi, ai + 1, t, pos + clen, fuel) {
                    MatchStep::NoFuel => MatchStep::NoFuel,
                    MatchStep::Fail => MatchStep::Fail,
                    MatchStep::Found { used, spans } => MatchStep::Found {
                        used: clen + used,
                        spans,
                    },
                }
            } else {
                MatchStep::Fail
            }
        },
        Atom::NonTerminal { name } => {
            proof {
                assert(g[i as int].variants[vi as int][ai as int] == AtomView::NonTerminal {
                    name: name@,
                });
            }
            match find_rule_idx(rules, name.as_str()) {
                None => MatchStep::Fail,
                Some(j) => {
                    match m_rule(rules, w, j, t, pos, fuel - 1) {
                        MatchStep::NoFuel => MatchStep::NoFuel,
                        MatchStep::Fail => MatchStep::Fail,
                        MatchStep::Found { used: u1, spans: s1 } => {
                            match m_seq(rules, w, i, vi, ai + 1, t, pos + u1, fuel) {
                                MatchStep::NoFuel => MatchStep::NoFuel,
                                MatchStep::Fail => MatchStep::Fail,
                                MatchStep::Found { used: u2, spans: s2 } => {
                                    let mut s1 = s1;
                                    let mut s2 = s2;
                                    let ghost vs1 = spans_view(s1@);
                                    let ghost vs2 = spans_view(s2@);
                                    s1.append(&mut s2);
                                    proof {
                                        assert(spans_view(s1@) =~= vs1 + vs2);
                                    }
                                    MatchStep::Found { used: u1 + u2, spans: s1 }
                                },
                            }
                        },
                    }
                },
            }
        },
    }
}

impl Engine {
    /// What holds of every engine a successful build returns.
    pub open spec fn wf(&self) -> bool {
        wf_grammar(self@)
    }

    /// Expand the rule so named into a random string: at each step one
    /// variant of the current rule is chosen uniformly at random and its
    /// atoms are expanded in order. Every returned string is one the rule
    /// derives.
    ///
    /// Expansion nests rule references at most
    /// [`crate::semantics::depth_limit()`] deep; an expansion that would go
    /// deeper reports [`GenerateError::DepthLimit`].
    pub fn gen_random(&self, rule: &str) -> (r: Result<String, GenerateError>)
        requires
            self.wf(),
        ensures
            match r {
                Err(GenerateError::BadRule(n)) => !has_rule(self@, rule@) && n@ == rule@,
                Err(GenerateError::DepthLimit) => {
                    &&& has_rule(self@, rule@)
                    &&& (find_from(self@, rule@, 0) matches Some(i0) && reaches_cycle_any(
                        self@,
                        i0,
                        Set::empty(),
                    ))
                },
                Ok(s) => {
                    &&& has_rule(self@, rule@)
                    &&& (find_from(self@, rule@, 0) matches Some(i0) && derives(self@, i0, s@)
                        && exists|t: DerivTree|
                        deriv_rule_ok(self@, i0, s@, t) && ht_rule(t) <= depth_limit())
                },
            },
    {
        let rules = self.rules.as_slice();
        let nrules = rules.len();
        let nrules64: u64 = nrules as u64;
        match find_rule_idx(rules, rule) {
            None => Err(GenerateError::BadRule(rule.to_owned())),
            Some(i0) => {
                let (s, gt) = g_rule(rules, i0, u64::MAX, Ghost(Set::empty()));
                match s {
                    None => {
                        proof {
                            // An expansion that can never come back to a rule
                            // it is already expanding stays within the depth
                            // bound, so exhaustion names a reachable cycle.
                            let st0 = Set::<int>::empty();
                            assert(st0.subset_of(set_int_range(0, self@.len() as int)));
                            assert(gen_stack_ok(self@, st0, i0 as int));
                            assert(nrules64 as int == nrules as int);
                            assert(self@.len() - st0.len() <= u64::MAX as int);
                            assert(reaches_cycle_any(self@, i0 as int, st0));
                        }
                        Err(GenerateError::DepthLimit)
                    },
                    Some(s) => {
                        proof {
                            assert(deriv_rule_ok(self@, i0 as int, s@, gt@) && ht_rule(gt@)
                                <= depth_limit());
                            assert(derives(self@, i0 as int, s@));
                        }
                        Ok(s)
                    },
                }
            },
        }
    }

    /// Match the text against the rule named `initial`, anchored at the
    /// start of the text, and report the spans of every match of a rule
    /// named in `to_watch`, each span before those of its descendants and
    /// descendants in left-to-right order.
    ///
    /// The search commits to the first variant of a rule that matches and
    /// nests rule references at most [`crate::semantics::depth_limit()`]
    /// deep; a search that would go deeper reports
    /// [`MatchError::DepthLimit`].
    pub fn match_rule(&self, initial: &str, to_watch: &[String], data: &str) -> (r: Result<
        Vec<(usize, usize)>,
        MatchError,
    >)
        requires
            self.wf(),
        ensures
            match r {
                Err(MatchError::BadInitialRule(n)) => !has_rule(self@, initial@) && n@ == initial@,
                Err(MatchError::BadWatchRule(n)) => has_rule(self@, initial@)
                    && spec_first_bad_watch(self@, strings_view(to_watch@)) == Some(n@),
                Err(MatchError::NoMatches) => {
                    &&& has_rule(self@, initial@)
                    &&& spec_first_bad_watch(self@, strings_view(to_watch@)) is None
                    &&& (find_from(self@, initial@, 0) matches Some(i0) && sm_rule(
                        self@,
                        strings_view(to_watch@),
                        i0,
                        data@,
                        0,
                        depth_limit(),
                    ) == Some(MatchOutcome::Fail))
                },
                Err(MatchError::DepthLimit) => {
                    &&& has_rule(self@, initial@)
                    &&& spec_first_bad_watch(self@, strings_view(to_watch@)) is None
                    &&& (find_from(self@, initial@, 0) matches Some(i0) && sm_rule(
                        self@,
                        strings_view(to_watch@),
                        i0,
                        data@,
                        0,
                        depth_limit(),
                    ) is None)
                },
                Ok(v) => {
                    &&& has_rule(self@, initial@)
                    &&& spec_first_bad_watch(self@, strings_view(to_watch@)) is None
                    &&& (find_from(self@, initial@, 0) matches Some(i0) && sm_rule(
                        self@,
                        strings_view(to_watch@),
                        i0,
                        data@,
                        0,
                        depth_limit(),
                    ) matches Some(MatchOutcome::Match { used, spans }) && spans == spans_view(
                        v@,
                    ))
                },
            },
    {
        let rules = self.rules.as_slice();
        let i0 = match find_rule_idx(rules, initial) {
            Some(i0) => i0,
            None => {
                return Err(MatchError::BadInitialRule(initial.to_owned()));
            },
        };
        let ghost g = self@;
        let ghost w = strings_view(to_watch@);
        let mut k: usize = 0;
        while k < to_watch.len()
            invariant
                k <= to_watch@.len(),
                g == rules_view(self.rules@),
                rules@ == self.rules@,
                has_rule(g, initial@),
                w == strings_view(to_watch@),
                crate::semantics::first_bad_watch_from(g, w, 0)
                    == crate::semantics::first_bad_watch_from(g, w, k as int),
            decreases to_watch@.len() - k,
        {
            proof {
                assert(w[k as int] == to_watch@[k as int]@);
            }
            match find_rule_idx(rules, to_watch[k].as_str()) {
                Some(_) => {
                    proof {
                        assert(has_rule(g, w[k as int]));
                    }
                },
                None => {
                    proof {
                        assert(!has_rule(g, w[k as int]));
                        assert(crate::semantics::first_bad_watch_from(g, w, k as int) == Some(
                            w[k as int],
                        ));
                    }
                    return Err(MatchError::BadWatchRule(to_watch[k].clone()));
                },
            }
            k += 1;
        }
        proof {
            assert(spec_first_bad_watch(g, w) is None);
        }
        let text = to_chars(data);
        proof {
            assert(u64::MAX as nat == depth_limit());
        }
        match m_rule(rules, to_watch, i0, &text, 0, u64::MAX) {
            MatchStep::NoFuel => Err(MatchError::DepthLimit),
            MatchStep::Fail => Err(MatchError::NoMatches),
            MatchStep::Found { used, spans } => Ok(spans),
        }
    }

    /// Validate a rule set and wrap it into an engine.
    ///
    /// Three checks run in order, the first failure deciding: duplicated rule
    /// names (all of them reported), references to undeclared rules (the
    /// first one reported), and cycles along leading non-terminal atoms (the
    /// first rule reaching one reported). The `debug` flag is kept for
    /// callers that trace engine use; the engine itself never prints.
    pub fn build(ast: &[Rule], debug: bool) -> (r: Result<Engine, BuildError>)
        requires
            structurally_formed(rules_view(ast@)),
        ensures
            match r {
                Ok(e) => {
                    &&& spec_dups(rules_view(ast@)).len() == 0
                    &&& spec_first_undef(rules_view(ast@)) is None
                    &&& spec_first_cyclic(rules_view(ast@)) is None
                    &&& e@ == rules_view(ast@)
                    &&& e.wf()
                },
                Err(BuildError::DuplicatedNames(d)) => {
                    &&& strings_view(d@) == spec_dups(rules_view(ast@))
                    &&& spec_dups(rules_view(ast@)).len() > 0
                },
                Err(BuildError::InexistentNonTerminals(rn, mn)) => {
                    &&& spec_dups(rules_view(ast@)).len() == 0
                    &&& spec_first_undef(rules_view(ast@)) == Some((rn@, mn@))
                },
                Err(BuildError::InfinityRecursion(n)) => {
                    &&& spec_dups(rules_view(ast@)).len() == 0
                    &&& spec_first_undef(rules_view(ast@)) is None
                    &&& spec_first_cyclic(rules_view(ast@)) matches Some(ci) && n@ == rules_view(
                        ast@,
                    )[ci].name
                },
            },
    {
        let ghost g = rules_view(ast@);
        // First check: duplicated names.
        let mut dup: Vec<String> = Vec::new();
        let mut i: usize = 0;
        while i < ast.len()
            invariant
                i <= ast@.len(),
                g == rules_view(ast@),
                strings_view(dup@) == dups_upto(g, i as int),
            decreases ast@.len() - i,
        {
            if contains_name_upto(ast, i, ast[i].name.as_str()) {
                dup.push(ast[i].name.clone());
                proof {
                    assert(strings_view(dup@) =~= dups_upto(g, i as int) + seq![
                        g[i as int].name,
                    ]);
                    assert(strings_view(dup@) == dups_upto(g, i + 1 as int));
                }
            } else {
                proof {
                    assert(dups_upto(g, i + 1 as int) =~= dups_upto(g, i as int));
                }
            }
            i += 1;
        }
        if dup.len() > 0 {
            proof {
                assert(spec_dups(g).len() == strings_view(dup@).len());
            }
            return Err(BuildError::DuplicatedNames(dup));
        }
        proof {
            assert(strings_view(dup@).len() == 0);
            lemma_dups_empty_iff_unique(g);
        }
        // Second check: every non-terminal refers to a declared rule.
        let mut i: usize = 0;
        while i < ast.len()
            invariant
                i <= ast@.len(),
                g == rules_view(ast@),
                spec_dups(g).len() == 0,
                first_undef_rules(g, 0) == first_undef_rules(g, i as int),
            decreases ast@.len() - i,
        {
            let rule = &ast[i];
            let mut vi: usize = 0;
            while vi < rule.variants.len()
                invariant
                    i < ast@.len(),
                    vi <= rule.variants@.len(),
                    g == rules_view(ast@),
                    spec_dups(g).len() == 0,
                    first_undef_rules(g, 0) == first_undef_rules(g, i as int),
                    rule == &ast[i as int],
                    first_undef_variants(g, g[i as int].variants, 0) == first_undef_variants(
                        g,
                        g[i as int].variants,
                        vi as int,
                    ),
                decreases rule.variants@.len() - vi,
            {
                let items = &rule.variants[vi].items;
                let ghost sitems = g[i as int].variants[vi as int];
                let mut ai: usize = 0;
                while ai < items.len()
                    invariant
                        i < ast@.len(),
                        vi < rule.variants@.len(),
                        ai <= items@.len(),
                        g == rules_view(ast@),
                        spec_dups(g).len() == 0,
                        first_undef_rules(g, 0) == first_undef_rules(g, i as int),
                        first_undef_variants(g, g[i as int].variants, 0) == first_undef_variants(
                            g,
                            g[i as int].variants,
                            vi as int,
                        ),
                        rule == &ast[i as int],
                        items == &ast[i as int].variants[vi as int].items,
                        sitems == g[i as int].variants[vi as int],
                        sitems.len() == items@.len(),
                        first_undef_items(g, sitems, 0) == first_undef_items(
                            g,
                            sitems,
                            ai as int,
                        ),
                    decreases items@.len() - ai,
                {
                    proof {
                        assert(sitems[ai as int] == items@[ai as int]@);
                    }
                    match &items[ai] {
                        Atom::Terminal { content } => {
                            proof {
                                assert(undef_in_atom(g, sitems[ai as int]) is None);
                            }
                        },
                        Atom::NonTerminal { name } => {
                            match find_rule_idx(ast, name.as_str()) {
                                Some(_) => {
                                    proof {
                                        assert(has_rule(g, name@));
                                        assert(undef_in_atom(g, sitems[ai as int]) is None);
                                    }
                                },
                                None => {
                                    proof {
                                        assert(!has_rule(g, name@));
                                        assert(undef_in_atom(g, sitems[ai as int]) == Some(
                                            name@,
                                        ));
                                        assert(first_undef_items(g, sitems, ai as int) == Some(
                                            name@,
                                        ));
                                        assert(first_undef_variants(
                                            g,
                                            g[i as int].variants,
                                            vi as int,
                                        ) == Some(name@));
                                        assert(first_undef_rules(g, i as int) == Some(
                                            (g[i as int].name, name@),
                                        ));
                                    }
                                    return Err(
                                        BuildError::InexistentNonTerminals(
                                            rule.name.clone(),
                                            name.clone(),
                                        ),
                                    );
                                },
                            }
                        },
                    }
                    ai += 1;
                }
                proof {
                    assert(first_undef_items(g, sitems, ai as int) is None);
                    assert(first_undef_variants(g, g[i as int].variants, vi as int)
                        == first_undef_variants(g, g[i as int].variants, vi + 1 as int));
                }
                vi += 1;
            }
            proof {
                assert(first_undef_variants(g, g[i as int].variants, vi as int) is None);
                assert(first_undef_rules(g, i as int) == first_undef_rules(g, i + 1 as int));
            }
            i += 1;
        }
        proof {
            assert(spec_first_undef(g) is None);
        }
        // Third check: no cycle along leading non-terminal atoms.
        let mut in_stack: Vec<bool> = Vec::new();
        let mut k: usize = 0;
        while k < ast.len()
            invariant
                k <= ast@.len(),
                in_stack@.len() == k,
                forall|t: int| 0 <= t < k ==> !in_stack@[t],
            decreases ast@.len() - k,
        {
            in_stack.push(false);
            k += 1;
        }
        let mut idx: usize = 0;
        while idx < ast.len()
            invariant
                idx <= ast@.len(),
                g == rules_view(ast@),
                unique_names(g),
                spec_dups(g).len() == 0,
                spec_first_undef(g) is None,
                in_stack@.len() == ast@.len(),
                forall|t: int| 0 <= t < in_stack@.len() ==> !in_stack@[t],
                first_cyclic_from(g, 0) == first_cyclic_from(g, idx as int),
            decreases ast@.len() - idx,
        {
            proof {
                assert(marks_set(in_stack@) =~= Set::<int>::empty());
            }
            if check_recursion(ast, idx, &mut in_stack) {
                proof {
                    assert(reaches_cycle(g, idx as int, Set::empty()));
                    assert(first_cyclic_from(g, idx as int) == Some(idx as int));
                }
                return Err(BuildError::InfinityRecursion(ast[idx].name.clone()));
            }
            proof {
                assert(!reaches_cycle(g, idx as int, Set::empty()));
                assert(first_cyclic_from(g, idx as int) == first_cyclic_from(g, idx + 1 as int));
            }
            idx += 1;
        }
        proof {
            assert(spec_first_cyclic(g) is None);
            lemma_inexistent_exact(g);
            assert(wf_grammar(g));
        }
        let rules = clone_rules(ast);
        Ok(Engine { rules, debug })
    }
}

} // verus!
