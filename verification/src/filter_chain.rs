//! An ordered chain of filter rules: the most urgent rule that matches wins.

use crate::process_filter::{filter_matches, priority_rank, Priority, ProcessFilter};
use crate::text::same_text;
use vstd::prelude::*;

verus! {

/// A filter with a priority and an optional label that names it.
#[derive(Debug, Clone)]
pub struct FilterRule {
    pub filter: ProcessFilter,
    pub priority: Priority,
    pub label: Option<String>,
}

impl FilterRule {
    /// An unlabelled rule.
    pub fn new(filter: ProcessFilter, priority: Priority) -> (r: Self)
        ensures
            r.filter == filter,
            r.priority == priority,
            r.label is None,
    {
        FilterRule { filter, priority, label: None }
    }

    /// The same rule, labelled `label`.
    pub fn with_label(self, label: &str) -> (r: Self)
        ensures
            r.filter == self.filter,
            r.priority == self.priority,
            r.label matches Some(l) && l@ == label@,
    {
        FilterRule { filter: self.filter, priority: self.priority, label: Some(label.to_owned()) }
    }
}

/// Whether `rule` lets the process named `name` through.
pub open spec fn rule_matches(rule: FilterRule, name: Seq<char>) -> bool {
    filter_matches(rule.filter, name)
}

/// Whether `rule` carries the label `label`.
pub open spec fn has_label(rule: FilterRule, label: Seq<char>) -> bool {
    match rule.label {
        Some(l) => l@ == label,
        None => false,
    }
}

/// The rank of a rule's priority.
pub open spec fn rule_rank(rule: FilterRule) -> nat {
    priority_rank(rule.priority)
}

/// Rules in order of priority, most urgent first.
pub open spec fn rules_sorted(s: Seq<FilterRule>) -> bool {
    forall|i: int, j: int| 0 <= i < j < s.len() ==> rule_rank(#[trigger] s[i]) >= rule_rank(#[trigger] s[j])
}

/// The rules of `s` that let the process named `name` through, in order.
pub open spec fn matching_rules(s: Seq<FilterRule>, name: Seq<char>) -> Seq<FilterRule> {
    s.filter(|x: FilterRule| rule_matches(x, name))
}

/// The rules of `s` that do not carry the label `label`, in order.
pub open spec fn rules_without(s: Seq<FilterRule>, label: Seq<char>) -> Seq<FilterRule> {
    s.filter(|x: FilterRule| !has_label(x, label))
}

/// `s` with `rule` placed after every rule at least as urgent and before every
/// less urgent one, given that `s` is in order: where a stable sort by
/// priority puts a rule appended to `s`.
pub open spec fn placed(s: Seq<FilterRule>, rule: FilterRule, result: Seq<FilterRule>) -> bool {
    exists|k: int|
        0 <= k <= s.len() && result == s.insert(k, rule) && (forall|i: int|
            0 <= i < k ==> rule_rank(#[trigger] s[i]) >= rule_rank(rule)) && (forall|i: int|
            k <= i < s.len() ==> rule_rank(#[trigger] s[i]) < rule_rank(rule))
}

/// Rules kept in order of priority; the first that matches decides.
#[derive(Debug)]
pub struct FilterChain {
    rules: Vec<FilterRule>,
}

impl FilterChain {
    /// The rules, most urgent first.
    pub closed spec fn spec_rules(&self) -> Seq<FilterRule> {
        self.rules@
    }

    /// The chain keeps its rules in order of priority.
    pub open spec fn wf(&self) -> bool {
        rules_sorted(self.spec_rules())
    }

    /// An empty chain.
    pub fn new() -> (r: Self)
        ensures
            r.wf(),
            r.spec_rules() == Seq::<FilterRule>::empty(),
    {
        FilterChain { rules: Vec::new() }
    }

    /// Adds a rule after every rule at least as urgent as it and before every
    /// less urgent one.
    pub fn add_rule(&mut self, rule: FilterRule)
        requires
            old(self).wf(),
        ensures
            final(self).wf(),
            placed(old(self).spec_rules(), rule, final(self).spec_rules()),
    {
        let rank = rule.priority.rank();
        let mut k: usize = 0;
        while k < self.rules.len() && self.rules[k].priority.rank() >= rank
            invariant
                k <= self.rules.len(),
                rank == rule_rank(rule),
                forall|i: int| 0 <= i < k ==> rule_rank(#[trigger] self.rules@[i]) >= rank,
            decreases self.rules.len() - k,
        {
            k = k + 1;
        }
        let ghost before = self.rules@;
        proof {
            assert forall|i: int| k <= i < before.len() implies rule_rank(#[trigger] before[i])
                < rank by {
                assert(rule_rank(before[k as int]) < rank);
                if i > k {
                    assert(rule_rank(before[k as int]) >= rule_rank(before[i]));
                }
            }
        }
        self.rules.insert(k, rule);
        proof {
            let after = self.rules@;
            assert(after == before.insert(k as int, rule));
            assert forall|i: int, j: int| 0 <= i < j < after.len() implies rule_rank(
                #[trigger] after[i],
            ) >= rule_rank(#[trigger] after[j]) by {
                if i < k && j < k {
                    assert(after[i] == before[i] && after[j] == before[j]);
                } else if i < k && j == k {
                    assert(after[i] == before[i]);
                } else if i < k {
                    assert(after[i] == before[i] && after[j] == before[j - 1]);
                    assert(rule_rank(before[i]) >= rule_rank(before[j - 1]));
                } else if i == k {
                    assert(after[j] == before[j - 1]);
                } else {
                    assert(after[i] == before[i - 1] && after[j] == before[j - 1]);
                    assert(rule_rank(before[i - 1]) >= rule_rank(before[j - 1]));
                }
            }
        }
    }

    /// Removes every rule labelled `label`; whether there was one.
    pub fn remove_rule(&mut self, label: &str) -> (r: bool)
        requires
            old(self).wf(),
        ensures
            final(self).wf(),
            final(self).spec_rules() == rules_without(old(self).spec_rules(), label@),
            r == exists|i: int|
                0 <= i < old(self).spec_rules().len() && has_label(
                    #[trigger] old(self).spec_rules()[i],
                    label@,
                ),
    {
        let ghost before = self.rules@;
        let ghost keep = |x: FilterRule| !has_label(x, label@);
        let mut i: usize = self.rules.len();
        let mut removed = false;
        proof {
            assert(before.skip(i as int) =~= Seq::<FilterRule>::empty());
            reveal(Seq::filter);
            assert(before.skip(i as int).filter(keep) =~= Seq::<FilterRule>::empty());
            assert(before.take(i as int) =~= before);
        }
        while i > 0
            invariant
                i <= before.len(),
                keep == (|x: FilterRule| !has_label(x, label@)),
                self.rules@ == before.take(i as int) + before.skip(i as int).filter(keep),
                removed == exists|j: int| i <= j < before.len() && has_label(#[trigger] before[j], label@),
            decreases i,
        {
            i = i - 1;
            let ghost tail = before.skip(i as int + 1);
            proof {
                assert(before.skip(i as int) =~= seq![before[i as int]] + tail);
                tail.lemma_filter_prepend(before[i as int], keep);
                assert(before.take(i as int + 1) =~= before.take(i as int).push(before[i as int]));
            }
            let drop = match &self.rules[i].label {
                Some(l) => same_text(l.as_str(), label),
                None => false,
            };
            assert(self.rules@[i as int] == before[i as int]);
            if drop {
                self.rules.remove(i);
                removed = true;
                proof {
                    assert(self.rules@ =~= before.take(i as int) + before.skip(i as int).filter(keep));
                }
            } else {
                proof {
                    assert(self.rules@ =~= before.take(i as int) + before.skip(i as int).filter(keep));
                }
            }
        }
        proof {
            assert(before.take(0) =~= Seq::<FilterRule>::empty());
            assert(before.skip(0) =~= before);
            assert(self.rules@ =~= before.filter(keep));
            let after = self.rules@;
            assert forall|a: int, b: int| 0 <= a < b < after.len() implies rule_rank(
                #[trigger] after[a],
            ) >= rule_rank(#[trigger] after[b]) by {
                lemma_filter_keeps_order(before, keep, a, b);
            }
        }
        removed
    }

    /// The first (most urgent) rule that lets the process through.
    pub fn evaluate(&self, process_name: &str, pid: u32) -> (r: Option<&FilterRule>)
        ensures
            r is None <==> forall|i: int|
                0 <= i < self.spec_rules().len() ==> !rule_matches(
                    #[trigger] self.spec_rules()[i],
                    process_name@,
                ),
            r matches Some(x) ==> exists|i: int|
                0 <= i < self.spec_rules().len() && *x == self.spec_rules()[i] && rule_matches(
                    self.spec_rules()[i],
                    process_name@,
                ) && forall|j: int|
                    0 <= j < i ==> !rule_matches(#[trigger] self.spec_rules()[j], process_name@),
    {
        let mut i: usize = 0;
        while i < self.rules.len()
            invariant
                i <= self.rules.len(),
                forall|j: int| 0 <= j < i ==> !rule_matches(#[trigger] self.rules@[j], process_name@),
            decreases self.rules.len() - i,
        {
            if self.rules[i].filter.matches(process_name, pid) {
                proof {
                    assert(rule_matches(self.spec_rules()[i as int], process_name@));
                }
                return Some(&self.rules[i]);
            }
            i = i + 1;
        }
        None
    }

    /// Every rule that lets the process through, most urgent first.
    pub fn evaluate_all(&self, process_name: &str, pid: u32) -> (r: Vec<&FilterRule>)
        ensures
            r@.len() == matching_rules(self.spec_rules(), process_name@).len(),
            forall|i: int|
                0 <= i < r@.len() ==> *r@[i] == #[trigger] matching_rules(
                    self.spec_rules(),
                    process_name@,
                )[i],
    {
        let ghost pred = |x: FilterRule| rule_matches(x, process_name@);
        let mut out: Vec<&FilterRule> = Vec::new();
        let mut i: usize = 0;
        proof {
            reveal(Seq::filter);
            assert(self.rules@.take(0).filter(pred) =~= Seq::<FilterRule>::empty());
        }
        while i < self.rules.len()
            invariant
                i <= self.rules.len(),
                pred == (|x: FilterRule| rule_matches(x, process_name@)),
                out@.len() == self.rules@.take(i as int).filter(pred).len(),
                forall|j: int|
                    0 <= j < out@.len() ==> *out@[j] == #[trigger] self.rules@.take(i as int).filter(
                        pred,
                    )[j],
            decreases self.rules.len() - i,
        {
            proof {
                assert(self.rules@.take(i as int + 1) =~= self.rules@.take(i as int).push(
                    self.rules@[i as int],
                ));
                self.rules@.take(i as int).lemma_filter_push(self.rules@[i as int], pred);
            }
            if self.rules[i].filter.matches(process_name, pid) {
                out.push(&self.rules[i]);
            }
            i = i + 1;
        }
        proof {
            assert(self.rules@.take(i as int) =~= self.rules@);
        }
        out
    }

    /// How many rules the chain holds.
    pub fn rule_count(&self) -> (r: usize)
        ensures
            r == self.spec_rules().len(),
    {
        self.rules.len()
    }

    /// Removes every rule.
    pub fn clear(&mut self)
        ensures
            final(self).wf(),
            final(self).spec_rules() == Seq::<FilterRule>::empty(),
    {
        self.rules.clear();
    }

    /// The rules, most urgent first.
    pub fn rules(&self) -> (r: &[FilterRule])
        ensures
            r@ == self.spec_rules(),
    {
        self.rules.as_slice()
    }
}

impl Default for FilterChain {
    fn default() -> (r: Self)
        ensures
            r.wf(),
            r.spec_rules() == Seq::<FilterRule>::empty(),
    {
        Self::new()
    }
}

/// In a chain kept in order, the first rule that matches a process is at
/// least as urgent as every other rule that matches it, and it heads the
/// list of all matching rules.
pub proof fn lemma_first_match_is_most_urgent(s: Seq<FilterRule>, name: Seq<char>, i: int)
    requires
        rules_sorted(s),
        0 <= i < s.len(),
        rule_matches(s[i], name),
        forall|j: int| 0 <= j < i ==> !rule_matches(#[trigger] s[j], name),
    ensures
        forall|j: int| 0 <= j < s.len() && rule_matches(#[trigger] s[j], name) ==> rule_rank(s[i])
            >= rule_rank(s[j]),
        matching_rules(s, name).len() > 0,
        matching_rules(s, name)[0] == s[i],
{
    let p = |x: FilterRule| rule_matches(x, name);
    assert forall|j: int| 0 <= j < s.len() && rule_matches(#[trigger] s[j], name) implies rule_rank(s[i])
        >= rule_rank(s[j]) by {
        if j < i {
            assert(!rule_matches(s[j], name));
        }
    }
    // split at the first match: nothing before it is kept
    let pre = s.take(i);
    let post = s.skip(i);
    assert(s =~= pre + post);
    Seq::filter_distributes_over_add(pre, post, p);
    lemma_filter_none(pre, p);
    assert(post =~= seq![s[i]] + post.skip(1));
    post.skip(1).lemma_filter_prepend(s[i], p);
    assert(pre.filter(p) =~= Seq::<FilterRule>::empty());
    assert(matching_rules(s, name) == pre.filter(p) + post.filter(p));
    assert(post.filter(p) == seq![s[i]] + post.skip(1).filter(p));
}

/// No rule of a chain matches a process exactly when the list of matching
/// rules is empty.
pub proof fn lemma_no_match_iff_none_listed(s: Seq<FilterRule>, name: Seq<char>)
    ensures
        (forall|j: int| 0 <= j < s.len() ==> !rule_matches(#[trigger] s[j], name)) <==> matching_rules(
            s,
            name,
        ).len() == 0,
{
    let p = |x: FilterRule| rule_matches(x, name);
    if forall|j: int| 0 <= j < s.len() ==> !rule_matches(#[trigger] s[j], name) {
        lemma_filter_none(s, p);
    } else {
        let j = choose|j: int| 0 <= j < s.len() && rule_matches(#[trigger] s[j], name);
        s.lemma_filter_contains(p, j);
    }
}

/// After the rules labelled `label` are removed, no rule carries that label,
/// and every rule without it is still there.
pub proof fn lemma_removed_label_gone(s: Seq<FilterRule>, label: Seq<char>)
    ensures
        forall|i: int|
            0 <= i < rules_without(s, label).len() ==> !has_label(#[trigger] rules_without(s, label)[i], label),
        forall|i: int|
            0 <= i < s.len() && !has_label(s[i], label) ==> #[trigger] rules_without(s, label).contains(s[i]),
{
    let p = |x: FilterRule| !has_label(x, label);
    assert forall|i: int| 0 <= i < rules_without(s, label).len() implies !has_label(
        #[trigger] rules_without(s, label)[i],
        label,
    ) by {
        s.lemma_filter_pred(p, i);
    }
    assert forall|i: int| 0 <= i < s.len() && !has_label(s[i], label) implies #[trigger] rules_without(
        s,
        label,
    ).contains(s[i]) by {
        s.lemma_filter_contains(p, i);
    }
}

/// A filter keeps nothing of a sequence none of whose entries it accepts.
proof fn lemma_filter_none(s: Seq<FilterRule>, p: spec_fn(FilterRule) -> bool)
    requires
        forall|j: int| 0 <= j < s.len() ==> !p(#[trigger] s[j]),
    ensures
        s.filter(p).len() == 0,
    decreases s.len(),
{
    reveal(Seq::filter);
    if s.len() > 0 {
        assert(!p(s[s.len() - 1]));
        lemma_filter_none(s.drop_last(), p);
    }
}

/// Filtering keeps the order of what it keeps: two kept entries stand in the
/// result in the order they stood in `s`, so a sorted sequence stays sorted.
proof fn lemma_filter_keeps_order(s: Seq<FilterRule>, p: spec_fn(FilterRule) -> bool, a: int, b: int)
    requires
        rules_sorted(s),
        0 <= a < b < s.filter(p).len(),
    ensures
        rule_rank(s.filter(p)[a]) >= rule_rank(s.filter(p)[b]),
    decreases s.len(),
{
    reveal(Seq::filter);
    let sub = s.drop_last().filter(p);
    s.drop_last().lemma_filter_len(p);
    assert(rules_sorted(s.drop_last()));
    if p(s.last()) {
        assert(s.filter(p) == sub.push(s.last()));
        if b < sub.len() {
            lemma_filter_keeps_order(s.drop_last(), p, a, b);
        } else {
            // the last entry of the result is the last of `s`, ranked no
            // higher than anything before it
            assert(sub.contains(sub[a]));
            s.drop_last().lemma_filter_contains_rev(p, sub[a]);
            let j = choose|j: int| 0 <= j < s.drop_last().len() && s.drop_last()[j] == sub[a];
            assert(s[j] == sub[a]);
            assert(rule_rank(s[j]) >= rule_rank(s[s.len() - 1]));
        }
    } else {
        assert(s.filter(p) == sub);
        lemma_filter_keeps_order(s.drop_last(), p, a, b);
    }
}

} // verus!
