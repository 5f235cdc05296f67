//! Reports listing the labels of processes, sorted by label key.

use crate::label::{LabelSelector, LabelSet};
use crate::label_manager::{effective_labels, picked, LabelManager};
use crate::text::{joined, lemma_sorted_listing_unique, push_text, sort_texts, texts_of, texts_sorted};
use vstd::prelude::*;

verus! {

/// The labels of one process, as (key, value) pairs sorted by key.
pub struct LabelReport {
    pub process: String,
    pub labels: Vec<(String, String)>,
}

/// The keys of some label pairs.
pub open spec fn pair_keys(pairs: Seq<(String, String)>) -> Seq<Seq<char>> {
    pairs.map_values(|p: (String, String)| p.0@)
}

/// The `key=value` texts of some label pairs.
pub open spec fn pair_texts(pairs: Seq<(String, String)>) -> Seq<Seq<char>> {
    pairs.map_values(|p: (String, String)| p.0@ + "="@ + p.1@)
}

/// Whether `rep` lists exactly the labels `labels` of `process`, sorted by
/// key.
pub open spec fn describes(rep: LabelReport, process: Seq<char>, labels: Map<Seq<char>, Seq<char>>) -> bool {
    &&& rep.process@ == process
    &&& rep.labels@.len() == labels.len()
    &&& pair_keys(rep.labels@).to_set() == labels.dom()
    &&& texts_sorted(pair_keys(rep.labels@))
    &&& forall|j: int|
        0 <= j < rep.labels@.len() ==> labels.contains_key(#[trigger] rep.labels@[j].0@) && labels[rep.labels@[j].0@]
            == rep.labels@[j].1@
}

/// The (key, value) texts of some label pairs.
pub open spec fn pair_views(pairs: Seq<(String, String)>) -> Seq<(Seq<char>, Seq<char>)> {
    pairs.map_values(|p: (String, String)| (p.0@, p.1@))
}

/// Two reports that describe the same labels of the same process list the
/// same (key, value) pairs in the same order: a report is fixed by what it
/// describes.
pub proof fn lemma_describes_unique(
    r1: LabelReport,
    r2: LabelReport,
    process: Seq<char>,
    labels: Map<Seq<char>, Seq<char>>,
)
    requires
        describes(r1, process, labels),
        describes(r2, process, labels),
    ensures
        r1.process@ == r2.process@,
        pair_views(r1.labels@) == pair_views(r2.labels@),
{
    let k1 = pair_keys(r1.labels@);
    let k2 = pair_keys(r2.labels@);
    k1.lemma_no_dup_set_cardinality();
    k2.lemma_no_dup_set_cardinality();
    assert forall|x: Seq<char>| k1.contains(x) <==> k2.contains(x) by {
        assert(k1.to_set().contains(x) == k1.contains(x));
        assert(k2.to_set().contains(x) == k2.contains(x));
    }
    lemma_sorted_listing_unique(k1, k2);
    assert forall|j: int| 0 <= j < r1.labels@.len() implies #[trigger] pair_views(r1.labels@)[j] == pair_views(
        r2.labels@,
    )[j] by {
        assert(k1[j] == k2[j]);
        assert(r1.labels@[j].0@ == r2.labels@[j].0@);
    }
    assert(pair_views(r1.labels@) =~= pair_views(r2.labels@));
}

/// What [`LabelReporter::report_matching`] returns on `manager` and a
/// selector that picks by `selector`: one report per picked process, in
/// order of process name, each on the process's labels merged with the
/// defaults.
pub open spec fn matching_reports(
    manager: LabelManager,
    selector: Map<Seq<char>, Seq<char>>,
    r: Seq<LabelReport>,
) -> bool {
    let names = manager.spec_processes().filter(picked(manager.spec_store(), manager.spec_defaults(), selector));
    &&& r.len() == names.len()
    &&& r.map_values(|rep: LabelReport| rep.process@).to_set() == names.to_set()
    &&& texts_sorted(r.map_values(|rep: LabelReport| rep.process@))
    &&& forall|j: int|
        0 <= j < r.len() ==> describes(
            #[trigger] r[j],
            r[j].process@,
            effective_labels(manager.spec_defaults(), manager.own_labels(r[j].process@)),
        )
}

/// The formatted line of a report: `[process] k1=v1, k2=v2`.
pub open spec fn report_line(rep: LabelReport) -> Seq<char> {
    "["@ + rep.process@ + "] "@ + joined(pair_texts(rep.labels@), ", "@)
}

impl LabelReport {
    /// The report on the labels `set` of `process`.
    pub fn from_label_set(process: &str, set: &LabelSet) -> (r: Self)
        requires
            set.wf(),
        ensures
            describes(r, process@, set@),
    {
        let pairs = set.iter();
        let mut keys: Vec<&str> = Vec::new();
        let n = pairs.len();
        let mut i: usize = 0;
        while i < n
            invariant
                n == pairs@.len(),
                i <= n,
                texts_of(keys@) == pairs@.map_values(|p: (&String, &String)| p.0@).take(i as int),
            decreases n - i,
        {
            let ghost before = keys@;
            keys.push(pairs[i].0.as_str());
            proof {
                assert(texts_of(keys@) =~= texts_of(before).push(pairs@[i as int].0@));
                assert(pairs@.map_values(|p: (&String, &String)| p.0@).take(i + 1) =~= pairs@.map_values(
                    |p: (&String, &String)| p.0@,
                ).take(i as int).push(pairs@[i as int].0@));
            }
            i = i + 1;
        }
        proof {
            assert(pairs@.map_values(|p: (&String, &String)| p.0@).take(n as int) =~= pairs@.map_values(
                |p: (&String, &String)| p.0@,
            ));
        }
        let sorted = sort_texts(&keys);
        let mut labels: Vec<(String, String)> = Vec::new();
        let m = sorted.len();
        let mut j: usize = 0;
        proof {
            set.lemma_len_keys();
        }
        while j < m
            invariant
                set.wf(),
                m == sorted@.len(),
                j <= m,
                texts_of(keys@) == set.spec_keys(),
                texts_of(sorted@).to_set() == texts_of(keys@).to_set(),
                pair_keys(labels@) == texts_of(sorted@).take(j as int),
                forall|t: int|
                    0 <= t < labels@.len() ==> set@.contains_key(#[trigger] labels@[t].0@) && set@[labels@[t].0@]
                        == labels@[t].1@,
            decreases m - j,
        {
            let k = sorted[j];
            proof {
                assert(texts_of(sorted@)[j as int] == k@);
                assert(texts_of(sorted@).to_set().contains(k@));
                set.lemma_keys_dom();
            }
            let v = match set.get(k) {
                Some(v) => v,
                None => {
                    proof {
                        assert(false);
                    }
                    ""
                },
            };
            let ghost before = labels@;
            labels.push((k.to_owned(), v.to_owned()));
            proof {
                assert(pair_keys(labels@) =~= pair_keys(before).push(k@));
                assert(texts_of(sorted@).take(j + 1) =~= texts_of(sorted@).take(j as int).push(k@));
                assert forall|t: int|
                    0 <= t < labels@.len() implies set@.contains_key(#[trigger] labels@[t].0@) && set@[labels@[t].0@]
                        == labels@[t].1@ by {
                    if t < before.len() {
                        assert(labels@[t] == before[t]);
                    }
                }
            }
            j = j + 1;
        }
        proof {
            assert(texts_of(sorted@).take(m as int) =~= texts_of(sorted@));
            set.lemma_keys_dom();
            assert(pair_keys(labels@).to_set() =~= set@.dom());
            set.lemma_len_keys();
        }
        LabelReport { process: process.to_owned(), labels }
    }

    /// The report as one line (see [`report_line`]).
    pub fn format(&self) -> (r: String)
        ensures
            r@ == report_line(*self),
    {
        let mut s = String::new();
        push_text(&mut s, "[");
        push_text(&mut s, self.process.as_str());
        push_text(&mut s, "] ");
        let ghost prefix = s@;
        let ghost parts = pair_texts(self.labels@);
        let n = self.labels.len();
        let mut i: usize = 0;
        while i < n
            invariant
                n == self.labels@.len(),
                parts == pair_texts(self.labels@),
                i <= n,
                s@ == prefix + joined(parts.take(i as int), ", "@),
            decreases n - i,
        {
            proof {
                assert(parts.take(i + 1).drop_last() =~= parts.take(i as int));
            }
            if i > 0 {
                push_text(&mut s, ", ");
            }
            push_text(&mut s, self.labels[i].0.as_str());
            push_text(&mut s, "=");
            push_text(&mut s, self.labels[i].1.as_str());
            i = i + 1;
            proof {
                if i == 1 {
                    assert(joined(parts.take(1), ", "@) == parts.take(1)[0]);
                }
                assert(s@ =~= prefix + joined(parts.take(i as int), ", "@));
            }
        }
        proof {
            assert(parts.take(n as int) =~= parts);
            assert(s@ =~= report_line(*self));
        }
        s
    }
}

/// The reports on the processes a selector picks are, in order, the reports
/// `LabelReport::from_label_set` makes on the picked process names sorted
/// ascending: where `names` lists the picked processes in order, each once,
/// and `others[j]` describes the labels of `names[j]` merged with the
/// defaults, the reports name `names` in turn and list the same pairs as
/// `others`.
pub proof fn lemma_matching_reports_in_name_order(
    manager: LabelManager,
    selector: Map<Seq<char>, Seq<char>>,
    r: Seq<LabelReport>,
    names: Seq<Seq<char>>,
    others: Seq<LabelReport>,
)
    requires
        manager.wf(),
        matching_reports(manager, selector, r),
        texts_sorted(names),
        names.no_duplicates(),
        forall|p: Seq<char>|
            #[trigger] names.contains(p) <==> picked(manager.spec_store(), manager.spec_defaults(), selector)(p),
        others.len() == names.len(),
        forall|j: int|
            0 <= j < names.len() ==> describes(
                #[trigger] others[j],
                names[j],
                effective_labels(manager.spec_defaults(), manager.own_labels(names[j])),
            ),
    ensures
        r.map_values(|rep: LabelReport| rep.process@) == names,
        forall|j: int| 0 <= j < r.len() ==> pair_views(#[trigger] r[j].labels@) == pair_views(others[j].labels@),
{
    let pred = picked(manager.spec_store(), manager.spec_defaults(), selector);
    let found = manager.spec_processes().filter(pred);
    let listed = r.map_values(|rep: LabelReport| rep.process@);
    manager.lemma_matching_listing(selector);
    manager.lemma_key_order();
    found.unique_seq_to_set();
    listed.lemma_no_dup_set_cardinality();
    assert forall|x: Seq<char>| listed.contains(x) <==> names.contains(x) by {
        assert(listed.to_set().contains(x) == listed.contains(x));
        assert(found.to_set().contains(x) == found.contains(x));
        if found.contains(x) {
            assert(manager.spec_processes().contains(x));
        }
    }
    lemma_sorted_listing_unique(listed, names);
    assert forall|j: int| 0 <= j < r.len() implies pair_views(#[trigger] r[j].labels@) == pair_views(
        others[j].labels@,
    ) by {
        assert(listed[j] == names[j]);
        lemma_describes_unique(
            r[j],
            others[j],
            names[j],
            effective_labels(manager.spec_defaults(), manager.own_labels(names[j])),
        );
    }
}

/// Builds label reports from a label manager.
pub struct LabelReporter;

impl LabelReporter {
    /// Reports on every process whose labels (merged with the defaults) the
    /// selector picks, ordered by process name.
    pub fn report_matching(manager: &LabelManager, selector: &LabelSelector) -> (r: Vec<LabelReport>)
        requires
            manager.wf(),
            selector.wf(),
        ensures
            matching_reports(*manager, selector@, r@),
    {
        let matches = manager.find_matching(selector);
        let sorted = sort_texts(&matches);
        let mut out: Vec<LabelReport> = Vec::new();
        let n = sorted.len();
        let mut i: usize = 0;
        while i < n
            invariant
                manager.wf(),
                n == sorted@.len(),
                i <= n,
                out@.map_values(|rep: LabelReport| rep.process@) == texts_of(sorted@).take(i as int),
                forall|j: int|
                    0 <= j < out@.len() ==> describes(
                        #[trigger] out@[j],
                        out@[j].process@,
                        effective_labels(manager.spec_defaults(), manager.own_labels(out@[j].process@)),
                    ),
            decreases n - i,
        {
            let name = sorted[i];
            let set = manager.get_labels(name);
            let rep = LabelReport::from_label_set(name, &set);
            let ghost before = out@;
            out.push(rep);
            proof {
                assert(out@.map_values(|rep: LabelReport| rep.process@) =~= before.map_values(
                    |rep: LabelReport| rep.process@,
                ).push(name@));
                assert(texts_of(sorted@).take(i + 1) =~= texts_of(sorted@).take(i as int).push(name@));
                assert forall|j: int| 0 <= j < out@.len() implies describes(
                    #[trigger] out@[j],
                    out@[j].process@,
                    effective_labels(manager.spec_defaults(), manager.own_labels(out@[j].process@)),
                ) by {
                    if j < before.len() {
                        assert(out@[j] == before[j]);
                    }
                }
            }
            i = i + 1;
        }
        proof {
            assert(texts_of(sorted@).take(n as int) =~= texts_of(sorted@));
            assert(texts_of(matches@) == manager.spec_processes().filter(
                picked(manager.spec_store(), manager.spec_defaults(), selector@),
            ));
        }
        out
    }

    /// The report on `process`: its labels merged with the defaults.
    pub fn report_process(manager: &LabelManager, process: &str) -> (r: LabelReport)
        requires
            manager.wf(),
        ensures
            describes(r, process@, effective_labels(manager.spec_defaults(), manager.own_labels(process@))),
    {
        let set = manager.get_labels(process);
        LabelReport::from_label_set(process, &set)
    }
}

} // verus!
