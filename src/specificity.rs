//! Selectors whose specificity descends: a later selector with the same tail
//! selector as an earlier one, but a lower specificity.
use vstd::prelude::*;
use vstd::set_lib::lemma_len_subset;
use rustc_hash::{FxHashMap, FxHashSet};

use crate::fx_hash::{get_tail, insert_rule_id, insert_tail, new_tail_map, tail_entries};
use crate::diagnostic::{decimal_digits, push_decimal, RuleDiagnostic};
use crate::text_range::TextRange;

verus! {

/// A selector's specificity: id count, class/attribute/pseudo-class count, type count.
#[derive(Clone, Copy, Debug, PartialEq, Eq, Structural)]
pub struct Specificity(pub u32, pub u32, pub u32);

/// `(a, b, c)`: the three counts of `s` in decimal.
pub open spec fn specificity_text(s: Specificity) -> Seq<char> {
    "("@ + decimal_digits(s.0 as nat) + ", "@ + decimal_digits(s.1 as nat) + ", "@ + decimal_digits(
        s.2 as nat,
    ) + ")"@
}

impl Specificity {
    /// The specificity as `(a, b, c)`.
    pub fn to_text(&self) -> (r: String)
        ensures
            r@ == specificity_text(*self),
    {
        let mut r = String::from_str("(");
        push_decimal(&mut r, self.0);
        r.append(", ");
        push_decimal(&mut r, self.1);
        r.append(", ");
        push_decimal(&mut r, self.2);
        r.append(")");
        r
    }

    /// Lexicographic comparison of the three counts.
    pub open spec fn spec_greater(self, other: Specificity) -> bool {
        ||| self.0 > other.0
        ||| (self.0 == other.0 && self.1 > other.1)
        ||| (self.0 == other.0 && self.1 == other.1 && self.2 > other.2)
    }

    pub fn is_greater_than(&self, other: &Specificity) -> (r: bool)
        ensures
            r == self.spec_greater(*other),
    {
        if self.0 != other.0 {
            self.0 > other.0
        } else if self.1 != other.1 {
            self.1 > other.1
        } else {
            self.2 > other.2
        }
    }
}

/// The shapes of selector that the rule tells apart.
#[derive(Debug)]
pub enum AnyCssSelector {
    /// A compound selector: an optional simple selector (trimmed text) followed by
    /// its sub-selectors (trimmed text).
    CssCompoundSelector { simple_selector: Option<String>, sub_selectors: String },
    /// A complex selector: `left combinator right`; only the right side matters here.
    CssComplexSelector { right: Option<Box<AnyCssSelector>> },
    /// Any other or malformed selector.
    CssBogusSelector,
}

/// The tail selector of `s`: the text of its rightmost compound selector.
pub open spec fn tail_key(s: AnyCssSelector) -> Option<Seq<char>>
    decreases s,
{
    match s {
        AnyCssSelector::CssCompoundSelector { simple_selector, sub_selectors } => Some(
            match simple_selector {
                Some(t) => t@,
                None => seq![],
            } + sub_selectors@,
        ),
        AnyCssSelector::CssComplexSelector { right } => match right {
            Some(r) => tail_key(*r),
            None => None,
        },
        AnyCssSelector::CssBogusSelector => None,
    }
}

/// Finds the tail selector of `selector`:
/// in `a b:hover`, `b:hover`.
pub fn find_tail_selector_str(selector: &AnyCssSelector) -> (r: Option<String>)
    ensures
        match r {
            Some(t) => tail_key(*selector) == Some(t@),
            None => tail_key(*selector) is None,
        },
    decreases selector,
{
    match selector {
        AnyCssSelector::CssCompoundSelector { simple_selector, sub_selectors } => {
            let mut last_selector = match simple_selector {
                Some(t) => t.clone(),
                None => String::new(),
            };
            last_selector.append(sub_selectors.as_str());
            Some(last_selector)
        },
        AnyCssSelector::CssComplexSelector { right } => match right {
            Some(r) => find_tail_selector_str(r),
            None => None,
        },
        AnyCssSelector::CssBogusSelector => None,
    }
}

/// A selector of a rule, with its source range and specificity.
#[derive(Debug)]
pub struct CssSelector {
    pub node: AnyCssSelector,
    pub range: TextRange,
    pub specificity: Specificity,
}

/// A style rule: its selectors in source order and the ids of its nested rules.
#[derive(Debug)]
pub struct CssRule {
    pub selectors: Vec<CssSelector>,
    pub child_ids: Vec<usize>,
}

/// The semantic model of a style sheet: every rule, its id being its index, and
/// the ids of the top-level rules in source order.
#[derive(Debug)]
pub struct SemanticModel {
    pub rules: Vec<CssRule>,
    pub root_ids: Vec<usize>,
}

impl SemanticModel {
    /// The rule with the given id, if there is one.
    pub fn get_rule_by_id(&self, id: usize) -> (r: Option<&CssRule>)
        ensures
            r == (if id < self.rules@.len() { Some(&self.rules@[id as int]) } else { None }),
    {
        if id < self.rules.len() {
            Some(&self.rules[id])
        } else {
            None
        }
    }
}

/// A higher-specificity selector followed by a lower one with the same tail.
#[derive(Clone, Copy, Debug, PartialEq, Eq)]
pub struct DescendingSelector {
    pub high: (TextRange, Specificity),
    pub low: (TextRange, Specificity),
}

/// What the traversal remembers of the last selector with a given tail.
pub type Seen = (TextRange, Specificity);

/// Handles one selector: where an earlier selector with the same tail has a greater
/// specificity, a finding is added and the entry is kept; otherwise the selector
/// becomes the entry for its tail. A selector without a tail changes nothing.
pub open spec fn record_selector(
    seen: Map<Seq<char>, Seen>,
    found: Seq<DescendingSelector>,
    sel: CssSelector,
) -> (Map<Seq<char>, Seen>, Seq<DescendingSelector>) {
    match tail_key(sel.node) {
        None => (seen, found),
        Some(k) => if seen.contains_key(k) && seen[k].1.spec_greater(sel.specificity) {
            (seen, found.push(DescendingSelector { high: seen[k], low: (sel.range, sel.specificity) }))
        } else {
            (seen.insert(k, (sel.range, sel.specificity)), found)
        },
    }
}

/// Handles the selectors `sels` in order.
pub open spec fn record_selectors(
    sels: Seq<CssSelector>,
    seen: Map<Seq<char>, Seen>,
    found: Seq<DescendingSelector>,
) -> (Map<Seq<char>, Seen>, Seq<DescendingSelector>)
    decreases sels.len(),
{
    if sels.len() == 0 {
        (seen, found)
    } else {
        let (s, f) = record_selectors(sels.drop_last(), seen, found);
        record_selector(s, f, sels.last())
    }
}

/// The ids below `n`.
pub open spec fn index_set(n: nat) -> Set<usize> {
    Set::new(|i: usize| i < n)
}

pub proof fn lemma_index_set(n: nat)
    requires
        n <= usize::MAX + 1,
    ensures
        index_set(n).finite(),
        index_set(n).len() == n,
    decreases n,
{
    if n == 0 {
        assert(index_set(n) =~= Set::empty());
    } else {
        lemma_index_set((n - 1) as nat);
        assert(index_set(n) =~= index_set((n - 1) as nat).insert((n - 1) as usize));
    }
}

/// Depth-first traversal with an explicit stack whose top is its last element: a
/// rule is handled once, its selectors first, then its children in order; ids
/// without a rule are skipped.
pub open spec fn traverse(
    rules: Seq<CssRule>,
    stack: Seq<usize>,
    visited: Set<usize>,
    seen: Map<Seq<char>, Seen>,
    found: Seq<DescendingSelector>,
) -> (Set<usize>, Map<Seq<char>, Seen>, Seq<DescendingSelector>)
    decreases rules.len() - visited.len(), stack.len(),
    when visited.subset_of(index_set(rules.len())) && rules.len() <= usize::MAX
    via traverse_decreases
{
    if stack.len() == 0 {
        (visited, seen, found)
    } else {
        let id = stack.last();
        let rest = stack.drop_last();
        if id >= rules.len() || visited.contains(id) {
            traverse(rules, rest, visited, seen, found)
        } else {
            let (s, f) = record_selectors(rules[id as int].selectors@, seen, found);
            traverse(rules, rest + rules[id as int].child_ids@.reverse(), visited.insert(id), s, f)
        }
    }
}

#[via_fn]
proof fn traverse_decreases(
    rules: Seq<CssRule>,
    stack: Seq<usize>,
    visited: Set<usize>,
    seen: Map<Seq<char>, Seen>,
    found: Seq<DescendingSelector>,
) {
    lemma_index_set(rules.len());
    lemma_len_subset(visited, index_set(rules.len()));
    if stack.len() > 0 {
        let id = stack.last();
        if !(id >= rules.len() || visited.contains(id)) {
            lemma_len_subset(visited.insert(id), index_set(rules.len()));
        }
    }
}

/// The selectors that the traversal handles, in the order it handles them, and the
/// rules it has visited at the end.
pub open spec fn visit_order(rules: Seq<CssRule>, stack: Seq<usize>, visited: Set<usize>) -> (
    Set<usize>,
    Seq<CssSelector>,
)
    decreases rules.len() - visited.len(), stack.len(),
    when visited.subset_of(index_set(rules.len())) && rules.len() <= usize::MAX
    via visit_order_decreases
{
    if stack.len() == 0 {
        (visited, seq![])
    } else {
        let id = stack.last();
        let rest = stack.drop_last();
        if id >= rules.len() || visited.contains(id) {
            visit_order(rules, rest, visited)
        } else {
            let (v, o) = visit_order(rules, rest + rules[id as int].child_ids@.reverse(), visited.insert(id));
            (v, rules[id as int].selectors@ + o)
        }
    }
}

#[via_fn]
proof fn visit_order_decreases(rules: Seq<CssRule>, stack: Seq<usize>, visited: Set<usize>) {
    lemma_index_set(rules.len());
    lemma_len_subset(visited, index_set(rules.len()));
    if stack.len() > 0 {
        let id = stack.last();
        if !(id >= rules.len() || visited.contains(id)) {
            lemma_len_subset(visited.insert(id), index_set(rules.len()));
        }
    }
}

/// Handling `a` then `b` is handling `a + b`.
pub proof fn lemma_record_selectors_concat(
    a: Seq<CssSelector>,
    b: Seq<CssSelector>,
    seen: Map<Seq<char>, Seen>,
    found: Seq<DescendingSelector>,
)
    ensures
        record_selectors(a + b, seen, found) == record_selectors(
            b,
            record_selectors(a, seen, found).0,
            record_selectors(a, seen, found).1,
        ),
    decreases b.len(),
{
    if b.len() == 0 {
        assert(a + b =~= a);
    } else {
        lemma_record_selectors_concat(a, b.drop_last(), seen, found);
        assert((a + b).drop_last() =~= a + b.drop_last());
        assert((a + b).last() == b.last());
    }
}

/// The traversal handles the selectors of `visit_order` in that order, and visits
/// only rules of the model.
pub proof fn lemma_traverse_follows_visit_order(
    rules: Seq<CssRule>,
    stack: Seq<usize>,
    visited: Set<usize>,
    seen: Map<Seq<char>, Seen>,
    found: Seq<DescendingSelector>,
)
    requires
        visited.subset_of(index_set(rules.len())),
        rules.len() <= usize::MAX,
    ensures
        ({
            let (v, o) = visit_order(rules, stack, visited);
            let (s, f) = record_selectors(o, seen, found);
            &&& traverse(rules, stack, visited, seen, found) == (v, s, f)
            &&& v.subset_of(index_set(rules.len()))
        }),
    decreases rules.len() - visited.len(), stack.len(),
{
    lemma_index_set(rules.len());
    lemma_len_subset(visited, index_set(rules.len()));
    if stack.len() == 0 {
        assert(record_selectors(Seq::<CssSelector>::empty(), seen, found) == (seen, found));
    } else {
        let id = stack.last();
        let rest = stack.drop_last();
        if id >= rules.len() || visited.contains(id) {
            lemma_traverse_follows_visit_order(rules, rest, visited, seen, found);
        } else {
            let v1 = visited.insert(id);
            lemma_len_subset(v1, index_set(rules.len()));
            let sels = rules[id as int].selectors@;
            let (s1, f1) = record_selectors(sels, seen, found);
            let next = rest + rules[id as int].child_ids@.reverse();
            lemma_traverse_follows_visit_order(rules, next, v1, s1, f1);
            let (v, o) = visit_order(rules, next, v1);
            lemma_record_selectors_concat(sels, o, seen, found);
        }
    }
}

/// The selectors handled from each top-level rule in turn, in order, and the rules
/// visited at the end.
pub open spec fn roots_order(rules: Seq<CssRule>, roots: Seq<usize>) -> (Set<usize>, Seq<CssSelector>)
    decreases roots.len(),
{
    if roots.len() == 0 {
        (Set::empty(), seq![])
    } else {
        let (v, o) = roots_order(rules, roots.drop_last());
        let (v2, o2) = visit_order(rules, seq![roots.last()], v);
        (v2, o + o2)
    }
}

/// The findings of the rule over a whole model are those of handling its selectors
/// one by one in traversal order: each rule once, its selectors in source order
/// before its children, the top-level rules in order. With
/// [`lemma_descending_iff_earlier_greater`] this says that a selector is reported
/// exactly when an earlier selector in that order with the same tail has a strictly
/// greater specificity.
pub proof fn lemma_findings_follow_traversal_order(rules: Seq<CssRule>, roots: Seq<usize>)
    requires
        rules.len() <= usize::MAX,
    ensures
        traverse_roots(rules, roots) == ({
            let (v, o) = roots_order(rules, roots);
            let (s, f) = record_selectors(o, Map::empty(), seq![]);
            (v, s, f)
        }),
        roots_order(rules, roots).0.subset_of(index_set(rules.len())),
        descending_selectors(rules, roots) == record_selectors(
            roots_order(rules, roots).1,
            Map::empty(),
            seq![],
        ).1,
    decreases roots.len(),
{
    if roots.len() == 0 {
        assert(record_selectors(Seq::<CssSelector>::empty(), Map::empty(), seq![]) == (
            Map::<Seq<char>, Seen>::empty(),
            Seq::<DescendingSelector>::empty(),
        ));
        assert(Set::<usize>::empty().subset_of(index_set(rules.len())));
    } else {
        let init = roots.drop_last();
        lemma_findings_follow_traversal_order(rules, init);
        let (v, o) = roots_order(rules, init);
        let (s, f) = record_selectors(o, Map::empty(), seq![]);
        lemma_traverse_follows_visit_order(rules, seq![roots.last()], v, s, f);
        let (v2, o2) = visit_order(rules, seq![roots.last()], v);
        lemma_record_selectors_concat(o, o2, Map::empty(), seq![]);
    }
}

/// Runs the traversal from each top-level rule in turn, with the visited rules, the
/// entries per tail and the findings shared between them.
pub open spec fn traverse_roots(rules: Seq<CssRule>, roots: Seq<usize>) -> (
    Set<usize>,
    Map<Seq<char>, Seen>,
    Seq<DescendingSelector>,
)
    decreases roots.len(),
{
    if roots.len() == 0 {
        (Set::empty(), Map::empty(), seq![])
    } else {
        let (v, s, f) = traverse_roots(rules, roots.drop_last());
        traverse(rules, seq![roots.last()], v, s, f)
    }
}

/// Every descending selector of the model, in traversal order.
pub open spec fn descending_selectors(rules: Seq<CssRule>, roots: Seq<usize>) -> Seq<DescendingSelector> {
    traverse_roots(rules, roots).2
}

/// Checks the rules reachable from `root` that were not visited yet, and records
/// each selector whose specificity is lower than that of an earlier selector with
/// the same tail.
fn find_descending_selector(
    root: usize,
    model: &SemanticModel,
    visited_rules: &mut FxHashSet<usize>,
    visited_selectors: &mut FxHashMap<String, Seen>,
    descending_selectors: &mut Vec<DescendingSelector>,
)
    requires
        old(visited_rules)@.subset_of(index_set(model.rules@.len())),
    ensures
        final(visited_rules)@.subset_of(index_set(model.rules@.len())),
        (final(visited_rules)@, tail_entries(*final(visited_selectors)), final(descending_selectors)@)
            == traverse(
            model.rules@,
            seq![root],
            old(visited_rules)@,
            tail_entries(*old(visited_selectors)),
            old(descending_selectors)@,
        ),
{
    let ghost rules = model.rules@;
    let n = model.rules.len();
    let mut stack: Vec<usize> = Vec::new();
    stack.push(root);
    assert(stack@ =~= seq![root]);
    while stack.len() > 0
        invariant
            n == rules.len(),
            rules == model.rules@,
            visited_rules@.subset_of(index_set(n as nat)),
            traverse(
                rules,
                seq![root],
                old(visited_rules)@,
                tail_entries(*old(visited_selectors)),
                old(descending_selectors)@,
            ) == traverse(
                rules,
                stack@,
                visited_rules@,
                tail_entries(*visited_selectors),
                descending_selectors@,
            ),
        decreases n - visited_rules@.len(), stack.len(),
    {
        proof {
            lemma_index_set(n as nat);
            lemma_len_subset(visited_rules@, index_set(n as nat));
        }
        let ghost whole = stack@;
        let id = stack.pop().unwrap();
        assert(stack@ == whole.drop_last());
        let rule = match model.get_rule_by_id(id) {
            Some(r) => r,
            None => {
                continue;
            },
        };
        let ghost visited_before = visited_rules@;
        if !insert_rule_id(visited_rules, id) {
            assert(visited_rules@ =~= visited_before);
            continue;
        }
        proof {
            lemma_len_subset(visited_rules@, index_set(n as nat));
        }
        let ghost sels = rule.selectors@;
        let ghost seen0 = tail_entries(*visited_selectors);
        let ghost found0 = descending_selectors@;
        let mut i: usize = 0;
        while i < rule.selectors.len()
            invariant
                sels == rule.selectors@,
                i <= sels.len(),
                (tail_entries(*visited_selectors), descending_selectors@) == record_selectors(
                    sels.subrange(0, i as int),
                    seen0,
                    found0,
                ),
            decreases rule.selectors.len() - i,
        {
            let selector = &rule.selectors[i];
            assert(sels.subrange(0, i + 1).drop_last() =~= sels.subrange(0, i as int));
            match find_tail_selector_str(&selector.node) {
                None => {},
                Some(tail_selector_str) => {
                    match get_tail(visited_selectors, &tail_selector_str) {
                        Some(last) => {
                            if last.1.is_greater_than(&selector.specificity) {
                                descending_selectors.push(
                                    DescendingSelector {
                                        high: last,
                                        low: (selector.range, selector.specificity),
                                    },
                                );
                            } else {
                                insert_tail(
                                    visited_selectors,
                                    tail_selector_str,
                                    (selector.range, selector.specificity),
                                );
                            }
                        },
                        None => {
                            insert_tail(
                                visited_selectors,
                                tail_selector_str,
                                (selector.range, selector.specificity),
                            );
                        },
                    }
                },
            }
            i += 1;
        }
        assert(sels.subrange(0, i as int) =~= sels);
        let ghost rest = stack@;
        let ghost children = rule.child_ids@;
        let mut j: usize = rule.child_ids.len();
        assert(children.subrange(j as int, children.len() as int).reverse() =~= seq![]);
        assert(rest + seq![] =~= rest);
        while j > 0
            invariant
                children == rule.child_ids@,
                j <= children.len(),
                stack@ == rest + children.subrange(j as int, children.len() as int).reverse(),
            decreases j,
        {
            j -= 1;
            stack.push(rule.child_ids[j]);
            assert(children.subrange(j as int, children.len() as int).reverse() =~= children.subrange(
                j + 1,
                children.len() as int,
            ).reverse().push(children[j as int]));
        }
        assert(children.subrange(0, children.len() as int) =~= children);
    }
}

/// Of two selectors with the same tail handled one after the other, where the first
/// becomes the entry for that tail, the second is reported against the first exactly
/// when the first has the strictly greater specificity; equal or ascending
/// specificities report nothing.
pub proof fn lemma_specificity_ordering(
    a: CssSelector,
    b: CssSelector,
    seen: Map<Seq<char>, Seen>,
    found: Seq<DescendingSelector>,
)
    requires
        tail_key(a.node) is Some,
        tail_key(b.node) == tail_key(a.node),
        !(seen.contains_key(tail_key(a.node)->0) && seen[tail_key(a.node)->0].1.spec_greater(
            a.specificity,
        )),
    ensures
        a.specificity.spec_greater(b.specificity) ==> record_selectors(seq![a, b], seen, found).1
            == found.push(
            DescendingSelector { high: (a.range, a.specificity), low: (b.range, b.specificity) },
        ),
        !a.specificity.spec_greater(b.specificity) ==> record_selectors(seq![a, b], seen, found).1
            == found,
{
    let k = tail_key(a.node)->0;
    assert(seq![a, b].drop_last() =~= seq![a]);
    assert(seq![a].drop_last() =~= Seq::<CssSelector>::empty());
    assert(record_selectors(Seq::<CssSelector>::empty(), seen, found) == (seen, found));
    let (s1, f1) = record_selector(seen, found, a);
    assert(record_selectors(seq![a], seen, found) == (s1, f1));
    assert(s1 == seen.insert(k, (a.range, a.specificity)) && f1 == found);
    assert(s1.contains_key(k) && s1[k] == (a.range, a.specificity));
    assert(record_selectors(seq![a, b], seen, found) == record_selector(s1, f1, b));
}

/// A rule reached again, through a second parent or a second top-level entry, is
/// not handled again: taking an already visited id off the stack changes nothing else.
pub proof fn lemma_revisit_is_skipped(
    rules: Seq<CssRule>,
    stack: Seq<usize>,
    visited: Set<usize>,
    seen: Map<Seq<char>, Seen>,
    found: Seq<DescendingSelector>,
    id: usize,
)
    requires
        visited.contains(id),
        visited.subset_of(index_set(rules.len())),
        rules.len() <= usize::MAX,
    ensures
        traverse(rules, stack.push(id), visited, seen, found) == traverse(
            rules,
            stack,
            visited,
            seen,
            found,
        ),
{
    assert(stack.push(id).drop_last() =~= stack);
}

/// A top-level rule that was already reached from an earlier one is not handled
/// again: starting the traversal from it changes nothing.
pub proof fn lemma_visited_root_changes_nothing(
    rules: Seq<CssRule>,
    visited: Set<usize>,
    seen: Map<Seq<char>, Seen>,
    found: Seq<DescendingSelector>,
    root: usize,
)
    requires
        visited.contains(root),
        visited.subset_of(index_set(rules.len())),
        rules.len() <= usize::MAX,
    ensures
        traverse(rules, seq![root], visited, seen, found) == (visited, seen, found),
{
    lemma_revisit_is_skipped(rules, Seq::<usize>::empty(), visited, seen, found, root);
    assert(Seq::<usize>::empty().push(root) =~= seq![root]);
}

/// Whether some selector of `p` has the tail `k`.
pub open spec fn has_tail(p: Seq<CssSelector>, k: Seq<char>) -> bool {
    exists|i: int| 0 <= i < p.len() && tail_key((#[trigger] p[i]).node) == Some(k)
}

/// After the selectors `p`, the entry for a tail is there exactly when some selector
/// of `p` has that tail; it is one of them, and none of them has a greater
/// specificity.
pub proof fn lemma_entry_is_running_maximum(p: Seq<CssSelector>, k: Seq<char>)
    ensures
        ({
            let seen = record_selectors(p, Map::empty(), seq![]).0;
            &&& seen.contains_key(k) <==> has_tail(p, k)
            &&& seen.contains_key(k) ==> exists|i: int|
                0 <= i < p.len() && tail_key((#[trigger] p[i]).node) == Some(k) && seen[k] == (
                    p[i].range,
                    p[i].specificity,
                )
            &&& seen.contains_key(k) ==> forall|i: int|
                0 <= i < p.len() && tail_key((#[trigger] p[i]).node) == Some(k)
                    ==> !p[i].specificity.spec_greater(seen[k].1)
        }),
    decreases p.len(),
{
    if p.len() > 0 {
        let init = p.drop_last();
        let cur = p.last();
        lemma_entry_is_running_maximum(init, k);
        let old_seen = record_selectors(init, Map::empty(), seq![]).0;
        let seen = record_selectors(p, Map::empty(), seq![]).0;
        assert forall|i: int| 0 <= i < init.len() implies #[trigger] init[i] == p[i] by {}
        if has_tail(init, k) {
            let i = choose|i: int| 0 <= i < init.len() && tail_key((#[trigger] init[i]).node) == Some(k);
            assert(p[i] == init[i]);
        }
        if has_tail(p, k) && tail_key(cur.node) != Some(k) {
            let i = choose|i: int| 0 <= i < p.len() && tail_key((#[trigger] p[i]).node) == Some(k);
            assert(i < init.len());
            assert(init[i] == p[i]);
        }
        if old_seen.contains_key(k) {
            let i = choose|i: int|
                0 <= i < init.len() && tail_key((#[trigger] init[i]).node) == Some(k) && old_seen[k]
                    == (init[i].range, init[i].specificity);
            assert(p[i] == init[i]);
        }
        if seen.contains_key(k) {
            assert forall|i: int|
                0 <= i < p.len() && tail_key((#[trigger] p[i]).node) == Some(k) implies !p[i].specificity.spec_greater(
                seen[k].1,
            ) by {
                if i < init.len() {
                    assert(init[i] == p[i]);
                }
            }
            if tail_key(cur.node) == Some(k) && seen[k] == (cur.range, cur.specificity) {
                assert(p[p.len() - 1] == cur);
            }
        }
    }
}

/// A selector `cur` handled after the selectors `p` is reported exactly when an
/// earlier selector with the same tail has a strictly greater specificity; the
/// finding then pairs it with the greatest such earlier selector. Otherwise nothing
/// is reported, so equal or ascending specificities never are.
pub proof fn lemma_descending_iff_earlier_greater(p: Seq<CssSelector>, cur: CssSelector)
    requires
        tail_key(cur.node) is Some,
    ensures
        ({
            let k = tail_key(cur.node)->0;
            let before = record_selectors(p, Map::empty(), seq![]).1;
            let after = record_selectors(p.push(cur), Map::empty(), seq![]).1;
            let earlier_greater = exists|i: int|
                0 <= i < p.len() && tail_key((#[trigger] p[i]).node) == Some(k)
                    && p[i].specificity.spec_greater(cur.specificity);
            &&& earlier_greater ==> after.len() == before.len() + 1 && after.drop_last() == before
                && after.last().low == (cur.range, cur.specificity)
                && (exists|i: int|
                0 <= i < p.len() && tail_key((#[trigger] p[i]).node) == Some(k) && after.last().high
                    == (p[i].range, p[i].specificity))
                && (forall|i: int|
                0 <= i < p.len() && tail_key((#[trigger] p[i]).node) == Some(k)
                    ==> !p[i].specificity.spec_greater(after.last().high.1))
            &&& !earlier_greater ==> after == before
        }),
{
    let k = tail_key(cur.node)->0;
    lemma_entry_is_running_maximum(p, k);
    assert(p.push(cur).drop_last() =~= p);
    let seen = record_selectors(p, Map::empty(), seq![]).0;
    if exists|i: int|
        0 <= i < p.len() && tail_key((#[trigger] p[i]).node) == Some(k)
            && p[i].specificity.spec_greater(cur.specificity) {
        let i = choose|i: int|
            0 <= i < p.len() && tail_key((#[trigger] p[i]).node) == Some(k)
                && p[i].specificity.spec_greater(cur.specificity);
        assert(seen.contains_key(k));
        assert(!p[i].specificity.spec_greater(seen[k].1));
    } else if seen.contains_key(k) {
        let i = choose|i: int|
            0 <= i < p.len() && tail_key((#[trigger] p[i]).node) == Some(k) && seen[k] == (
                p[i].range,
                p[i].specificity,
            );
    }
}

/// The ids of the rules that the traversal visits, in order.
pub open spec fn visit_ids(rules: Seq<CssRule>, stack: Seq<usize>, visited: Set<usize>) -> Seq<usize>
    decreases rules.len() - visited.len(), stack.len(),
    when visited.subset_of(index_set(rules.len())) && rules.len() <= usize::MAX
    via visit_ids_decreases
{
    if stack.len() == 0 {
        seq![]
    } else {
        let id = stack.last();
        let rest = stack.drop_last();
        if id >= rules.len() || visited.contains(id) {
            visit_ids(rules, rest, visited)
        } else {
            seq![id] + visit_ids(rules, rest + rules[id as int].child_ids@.reverse(), visited.insert(id))
        }
    }
}

#[via_fn]
proof fn visit_ids_decreases(rules: Seq<CssRule>, stack: Seq<usize>, visited: Set<usize>) {
    lemma_index_set(rules.len());
    lemma_len_subset(visited, index_set(rules.len()));
    if stack.len() > 0 {
        let id = stack.last();
        if !(id >= rules.len() || visited.contains(id)) {
            lemma_len_subset(visited.insert(id), index_set(rules.len()));
        }
    }
}

/// The selectors of the rules `ids`, rule after rule.
pub open spec fn selectors_of(rules: Seq<CssRule>, ids: Seq<usize>) -> Seq<CssSelector>
    decreases ids.len(),
{
    if ids.len() == 0 {
        seq![]
    } else {
        rules[ids[0] as int].selectors@ + selectors_of(rules, ids.drop_first())
    }
}

/// The traversal visits each rule at most once, never one visited before, and
/// handles exactly the selectors of the rules it visits, so a rule reached through
/// several parents, or through a cycle, is handled at its first depth-first
/// occurrence only.
pub proof fn lemma_each_rule_visited_once(rules: Seq<CssRule>, stack: Seq<usize>, visited: Set<usize>)
    requires
        visited.subset_of(index_set(rules.len())),
        rules.len() <= usize::MAX,
    ensures
        ({
            let ids = visit_ids(rules, stack, visited);
            &&& ids.no_duplicates()
            &&& forall|j: int| 0 <= j < ids.len() ==> !visited.contains(#[trigger] ids[j]) && ids[j]
                < rules.len()
            &&& visit_order(rules, stack, visited).0 == visited + ids.to_set()
            &&& visit_order(rules, stack, visited).1 == selectors_of(rules, ids)
        }),
    decreases rules.len() - visited.len(), stack.len(),
{
    lemma_index_set(rules.len());
    lemma_len_subset(visited, index_set(rules.len()));
    if stack.len() == 0 {
        assert(visited + Seq::<usize>::empty().to_set() =~= visited);
    } else {
        let id = stack.last();
        let rest = stack.drop_last();
        if id >= rules.len() || visited.contains(id) {
            lemma_each_rule_visited_once(rules, rest, visited);
        } else {
            let v1 = visited.insert(id);
            lemma_len_subset(v1, index_set(rules.len()));
            let next = rest + rules[id as int].child_ids@.reverse();
            lemma_each_rule_visited_once(rules, next, v1);
            let tail = visit_ids(rules, next, v1);
            let ids = seq![id] + tail;
            assert(ids.drop_first() =~= tail);
            assert(ids[0] == id);
            assert forall|j: int| 0 <= j < ids.len() implies !visited.contains(#[trigger] ids[j])
                && ids[j] < rules.len() by {
                if j > 0 {
                    assert(ids[j] == tail[j - 1]);
                }
            }
            assert forall|a: int, b: int| 0 <= a < b < ids.len() implies ids[a] != ids[b] by {
                assert(ids[b] == tail[b - 1]);
                if a > 0 {
                    assert(ids[a] == tail[a - 1]);
                }
            }
            assert(ids.to_set() =~= tail.to_set().insert(id)) by {
                assert forall|x: usize| ids.to_set().contains(x) <==> tail.to_set().insert(id).contains(x) by {
                    if ids.to_set().contains(x) {
                        let j = choose|j: int| 0 <= j < ids.len() && ids[j] == x;
                        if j > 0 {
                            assert(ids[j] == tail[j - 1]);
                        }
                    }
                    if tail.to_set().contains(x) {
                        let j = choose|j: int| 0 <= j < tail.len() && tail[j] == x;
                        assert(ids[j + 1] == tail[j]);
                    }
                    if x == id {
                        assert(ids[0] == id);
                    }
                }
            }
            assert(visit_order(rules, stack, visited).0 =~= visited + ids.to_set());
        }
    }
}

/// Disallows a lower specificity selector after a higher specificity selector with
/// the same tail.
pub struct NoDescendingSpecificity;

impl NoDescendingSpecificity {
    /// Every descending selector of the model: the top-level rules are traversed in
    /// order, depth first, each rule once.
    /// The report of a finding: at the later selector, with the earlier one as detail.
    pub fn diagnostic(node: &DescendingSelector) -> (r: RuleDiagnostic)
        ensures
            r.range == node.low.0,
            r.message@ == "Descending specificity selector found. This selector specificity is "@
                + specificity_text(node.low.1),
            match r.detail {
                Some((range, text)) => range == node.high.0 && text@ == "This selector specificity is "@
                    + specificity_text(node.high.1),
                None => false,
            },
            r.note is Some,
            r.note->0@ == "Descending specificity selector may not applied. Consider rearranging the order of the selectors. See MDN web docs for more details."@,
    {
        let mut message = String::from_str(
            "Descending specificity selector found. This selector specificity is ",
        );
        message.append(node.low.1.to_text().as_str());
        let mut detail = String::from_str("This selector specificity is ");
        detail.append(node.high.1.to_text().as_str());
        RuleDiagnostic {
            range: node.low.0,
            message,
            detail: Some((node.high.0, detail)),
            note: Some(
                String::from_str(
                    "Descending specificity selector may not applied. Consider rearranging the order of the selectors. See MDN web docs for more details.",
                ),
            ),
        }
    }

    pub fn run(model: &SemanticModel) -> (r: Vec<DescendingSelector>)
        ensures
            r@ == descending_selectors(model.rules@, model.root_ids@),
    {
        let mut visited_rules: FxHashSet<usize> = FxHashSet::default();
        let mut visited_selectors = new_tail_map();
        let mut descending_selectors: Vec<DescendingSelector> = Vec::new();
        let ghost roots = model.root_ids@;
        assert(visited_rules@ =~= Set::empty());
        assert(tail_entries(visited_selectors) =~= Map::empty());
        let mut k: usize = 0;
        while k < model.root_ids.len()
            invariant
                roots == model.root_ids@,
                k <= roots.len(),
                visited_rules@.subset_of(index_set(model.rules@.len())),
                traverse_roots(model.rules@, roots.subrange(0, k as int)) == (
                    visited_rules@,
                    tail_entries(visited_selectors),
                    descending_selectors@,
                ),
            decreases model.root_ids.len() - k,
        {
            assert(roots.subrange(0, k + 1).drop_last() =~= roots.subrange(0, k as int));
            find_descending_selector(
                model.root_ids[k],
                model,
                &mut visited_rules,
                &mut visited_selectors,
                &mut descending_selectors,
            );
            k += 1;
        }
        assert(roots.subrange(0, k as int) =~= roots);
        descending_selectors
    }
}

} // verus!
