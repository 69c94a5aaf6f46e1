//! What holds of every account's indexes once they are built.
use vstd::prelude::*;
use crate::index::{
    DatedEntry, dated_index, dated_wf, lemma_dated_wf, lemma_slot_of, lookup, slot_of,
    newest_first, date_at,
};
use crate::account::{
    Account, caches_built, cutoff, discrete_entries, medication_entries, same_records,
};
use crate::index::{
    filed, items_under, lemma_filed_lookup, lemma_dated_complete, lemma_dated_distinct,
    keys_distinct, lemma_filed_keys_distinct, lemma_dated_keys_distinct,
};
use crate::model::{
    Timestamp, CdiAlert, CdiAlertLink, alert_same, link_same, CACDocument, CodeReference,
    CodeReferenceWithDocument,
};
use crate::account::{code_items, document_code_items, reference_items};
use crate::reconcile::{
    StoredField, alert_items, alert_key, field_pos, record_fields, results_changed,
};

verus! {

proof fn lemma_lookup_in_index(e: Seq<DatedEntry>, n: int, k: Seq<char>)
    requires
        0 <= n <= e.len(),
        e.len() <= usize::MAX,
    ensures
        forall|x: int|
            #![trigger lookup(dated_index(e, n), k)[x]]
            0 <= x < lookup(dated_index(e, n), k).len() ==> {
                let i = lookup(dated_index(e, n), k)[x] as int;
                &&& i < n
                &&& e[i] is Some
                &&& (e[i]->0).0 == k
            },
        newest_first(lookup(dated_index(e, n), k), e),
{
    let idx = dated_index(e, n);
    lemma_dated_wf(e, n);
    lemma_slot_of(idx, k);
    let s = slot_of(idx, k);
    if s >= 0 {
        assert forall|x: int|
            #![trigger lookup(idx, k)[x]]
            0 <= x < lookup(idx, k).len() implies {
            let i = lookup(idx, k)[x] as int;
            &&& i < n
            &&& e[i] is Some
            &&& (e[i]->0).0 == k
        } by {
            assert(lookup(idx, k)[x] == idx[s].1[x]);
        }
        assert(newest_first(idx[s].1, e));
    }
}

/// A discrete value dated before the retention window is found under no name,
/// though it stays among the account's discrete values.
pub proof fn lemma_expired_discrete_value_absent(
    a: Account,
    now: Timestamp,
    dv_days_back: u32,
    med_days_back: u32,
    i: int,
    name: Seq<char>,
)
    requires
        caches_built(a, now, dv_days_back, med_days_back),
        0 <= i < a.discrete_values.len(),
        a.discrete_values[i].result_date is Some,
        (a.discrete_values[i].result_date->0) < cutoff(now, dv_days_back),
    ensures
        !lookup(a.hashed_discrete_values@, name).contains(i as usize),
{
    let vs = a.discrete_values@;
    let e = discrete_entries(vs, cutoff(now, dv_days_back));
    lemma_lookup_in_index(e, vs.len() as int, name);
    let g = lookup(a.hashed_discrete_values@, name);
    if g.contains(i as usize) {
        let x = choose|x: int| 0 <= x < g.len() && g[x] == i as usize;
        assert(e[g[x] as int] is Some);
        assert(e[i] is None);
    }
}

/// A medication started before the retention window is found under no
/// category, though it stays among the account's medications.
pub proof fn lemma_expired_medication_absent(
    a: Account,
    now: Timestamp,
    dv_days_back: u32,
    med_days_back: u32,
    i: int,
    category: Seq<char>,
)
    requires
        caches_built(a, now, dv_days_back, med_days_back),
        0 <= i < a.medications.len(),
        a.medications[i].start_date is Some,
        (a.medications[i].start_date->0) < cutoff(now, med_days_back),
    ensures
        !lookup(a.hashed_medications@, category).contains(i as usize),
{
    let ms = a.medications@;
    let e = medication_entries(ms, cutoff(now, med_days_back));
    lemma_lookup_in_index(e, ms.len() as int, category);
    let g = lookup(a.hashed_medications@, category);
    if g.contains(i as usize) {
        let x = choose|x: int| 0 <= x < g.len() && g[x] == i as usize;
        assert(e[g[x] as int] is Some);
        assert(e[i] is None);
    }
}

/// The discrete values found under a name all bear that name and a result
/// date in the window, and run from newest to oldest; two of one date keep
/// the order of the account's list. Where no two of them share a date, the
/// dates fall strictly.
pub proof fn lemma_discrete_values_newest_first(
    a: Account,
    now: Timestamp,
    dv_days_back: u32,
    med_days_back: u32,
    name: Seq<char>,
)
    requires
        caches_built(a, now, dv_days_back, med_days_back),
    ensures
        ({
            let g = lookup(a.hashed_discrete_values@, name);
            let vs = a.discrete_values@;
            &&& forall|x: int|
                #![trigger g[x]]
                0 <= x < g.len() ==> {
                    &&& g[x] < vs.len()
                    &&& vs[g[x] as int].name is Some
                    &&& (vs[g[x] as int].name->0)@ == name
                    &&& vs[g[x] as int].result_date is Some
                    &&& (vs[g[x] as int].result_date->0) >= cutoff(now, dv_days_back)
                }
            &&& forall|x: int, y: int|
                #![trigger g[x], g[y]]
                0 <= x < y < g.len() ==> {
                    let dx = vs[g[x] as int].result_date->0;
                    let dy = vs[g[y] as int].result_date->0;
                    dx > dy || (dx == dy && g[x] < g[y])
                }
            &&& (forall|x: int, y: int|
                #![trigger g[x], g[y]]
                0 <= x < y < g.len() ==> vs[g[x] as int].result_date != vs[g[y] as int].result_date)
                ==> forall|x: int, y: int|
                #![trigger g[x], g[y]]
                0 <= x < y < g.len() ==> (vs[g[x] as int].result_date->0) > (vs[g[y] as int].result_date->0)
        }),
{
    let vs = a.discrete_values@;
    let e = discrete_entries(vs, cutoff(now, dv_days_back));
    assert(vs.len() == a.discrete_values.len());
    lemma_lookup_in_index(e, vs.len() as int, name);
    let g = lookup(a.hashed_discrete_values@, name);
    assert forall|x: int| 0 <= x < g.len() implies #[trigger] date_at(e, g[x] as int)
        == (vs[g[x] as int].result_date->0) by {
        assert(e[g[x] as int] is Some);
    }
}

/// The medications found under a category all bear that category and a start
/// date in the window, and run from newest to oldest; two of one date keep
/// the order of the account's list. Where no two of them share a date, the
/// dates fall strictly.
pub proof fn lemma_medications_newest_first(
    a: Account,
    now: Timestamp,
    dv_days_back: u32,
    med_days_back: u32,
    category: Seq<char>,
)
    requires
        caches_built(a, now, dv_days_back, med_days_back),
    ensures
        ({
            let g = lookup(a.hashed_medications@, category);
            let ms = a.medications@;
            &&& forall|x: int|
                #![trigger g[x]]
                0 <= x < g.len() ==> {
                    &&& g[x] < ms.len()
                    &&& ms[g[x] as int].category is Some
                    &&& (ms[g[x] as int].category->0)@ == category
                    &&& ms[g[x] as int].start_date is Some
                    &&& (ms[g[x] as int].start_date->0) >= cutoff(now, med_days_back)
                }
            &&& forall|x: int, y: int|
                #![trigger g[x], g[y]]
                0 <= x < y < g.len() ==> {
                    let dx = ms[g[x] as int].start_date->0;
                    let dy = ms[g[y] as int].start_date->0;
                    dx > dy || (dx == dy && g[x] < g[y])
                }
            &&& (forall|x: int, y: int|
                #![trigger g[x], g[y]]
                0 <= x < y < g.len() ==> ms[g[x] as int].start_date != ms[g[y] as int].start_date)
                ==> forall|x: int, y: int|
                #![trigger g[x], g[y]]
                0 <= x < y < g.len() ==> (ms[g[x] as int].start_date->0) > (ms[g[y] as int].start_date->0)
        }),
{
    let ms = a.medications@;
    let e = medication_entries(ms, cutoff(now, med_days_back));
    assert(ms.len() == a.medications.len());
    lemma_lookup_in_index(e, ms.len() as int, category);
    let g = lookup(a.hashed_medications@, category);
    assert forall|x: int| 0 <= x < g.len() implies #[trigger] date_at(e, g[x] as int)
        == (ms[g[x] as int].start_date->0) by {
        assert(e[g[x] as int] is Some);
    }
}

/// A discrete value is found under a name exactly when it bears that name,
/// the name is not empty, and its result date lies in the window; it is
/// found there once.
pub proof fn lemma_discrete_values_exact(
    a: Account,
    now: Timestamp,
    dv_days_back: u32,
    med_days_back: u32,
    name: Seq<char>,
)
    requires
        caches_built(a, now, dv_days_back, med_days_back),
    ensures
        forall|i: int|
            0 <= i < a.discrete_values.len() ==> (#[trigger] lookup(
                a.hashed_discrete_values@,
                name,
            ).contains(i as usize) <==> {
                &&& a.discrete_values[i].name is Some
                &&& (a.discrete_values[i].name->0)@ == name
                &&& name.len() > 0
                &&& a.discrete_values[i].result_date is Some
                &&& (a.discrete_values[i].result_date->0) >= cutoff(now, dv_days_back)
            }),
        lookup(a.hashed_discrete_values@, name).no_duplicates(),
{
    let vs = a.discrete_values@;
    let e = discrete_entries(vs, cutoff(now, dv_days_back));
    assert(vs.len() == a.discrete_values.len());
    lemma_lookup_in_index(e, vs.len() as int, name);
    lemma_dated_complete(e, vs.len() as int);
    lemma_dated_distinct(e, vs.len() as int, name);
    let g = lookup(a.hashed_discrete_values@, name);
    assert forall|i: int| 0 <= i < a.discrete_values.len() implies (#[trigger] g.contains(i as usize)
        <==> {
        &&& a.discrete_values[i].name is Some
        &&& (a.discrete_values[i].name->0)@ == name
        &&& name.len() > 0
        &&& a.discrete_values[i].result_date is Some
        &&& (a.discrete_values[i].result_date->0) >= cutoff(now, dv_days_back)
    }) by {
        assert(e[i] == crate::account::keyed_entry(vs[i].name, vs[i].result_date, cutoff(now, dv_days_back)));
        if g.contains(i as usize) {
            let x = choose|x: int| 0 <= x < g.len() && g[x] == i as usize;
            assert(e[g[x] as int] is Some);
        }
        if e[i] is Some {
            assert(lookup(a.hashed_discrete_values@, (e[i]->0).0).contains(i as usize));
        }
    }
}

/// A medication is found under a category exactly when it bears that
/// category, the category is not empty, and its start date lies in the
/// window; it is found there once.
pub proof fn lemma_medications_exact(
    a: Account,
    now: Timestamp,
    dv_days_back: u32,
    med_days_back: u32,
    category: Seq<char>,
)
    requires
        caches_built(a, now, dv_days_back, med_days_back),
    ensures
        forall|i: int|
            0 <= i < a.medications.len() ==> (#[trigger] lookup(
                a.hashed_medications@,
                category,
            ).contains(i as usize) <==> {
                &&& a.medications[i].category is Some
                &&& (a.medications[i].category->0)@ == category
                &&& category.len() > 0
                &&& a.medications[i].start_date is Some
                &&& (a.medications[i].start_date->0) >= cutoff(now, med_days_back)
            }),
        lookup(a.hashed_medications@, category).no_duplicates(),
{
    let ms = a.medications@;
    let e = medication_entries(ms, cutoff(now, med_days_back));
    assert(ms.len() == a.medications.len());
    lemma_lookup_in_index(e, ms.len() as int, category);
    lemma_dated_complete(e, ms.len() as int);
    lemma_dated_distinct(e, ms.len() as int, category);
    let g = lookup(a.hashed_medications@, category);
    assert forall|i: int| 0 <= i < a.medications.len() implies (#[trigger] g.contains(i as usize)
        <==> {
        &&& a.medications[i].category is Some
        &&& (a.medications[i].category->0)@ == category
        &&& category.len() > 0
        &&& a.medications[i].start_date is Some
        &&& (a.medications[i].start_date->0) >= cutoff(now, med_days_back)
    }) by {
        assert(e[i] == crate::account::keyed_entry(ms[i].category, ms[i].start_date, cutoff(now, med_days_back)));
        if g.contains(i as usize) {
            let x = choose|x: int| 0 <= x < g.len() && g[x] == i as usize;
            assert(e[g[x] as int] is Some);
        }
        if e[i] is Some {
            assert(lookup(a.hashed_medications@, (e[i]->0).0).contains(i as usize));
        }
    }
}

/// Each index of a built account holds every key once, so the keys that the
/// `get_unique_*` lookups list are distinct.
pub proof fn lemma_index_keys_distinct(
    a: Account,
    now: Timestamp,
    dv_days_back: u32,
    med_days_back: u32,
)
    requires
        caches_built(a, now, dv_days_back, med_days_back),
    ensures
        keys_distinct(a.hashed_discrete_values@),
        keys_distinct(a.hashed_medications@),
        keys_distinct(a.hashed_documents@),
        keys_distinct(a.hashed_code_references@),
{
    let vs = a.discrete_values@;
    let ms = a.medications@;
    assert(vs.len() == a.discrete_values.len());
    assert(ms.len() == a.medications.len());
    lemma_dated_keys_distinct(discrete_entries(vs, cutoff(now, dv_days_back)), vs.len() as int);
    lemma_dated_keys_distinct(medication_entries(ms, cutoff(now, med_days_back)), ms.len() as int);
    lemma_filed_keys_distinct(crate::account::document_items(a.documents@));
    lemma_filed_keys_distinct(code_items(a.documents@));
}

/// Building the indexes twice from the same records, with windows ending at
/// the same time, gives the same indexes.
pub proof fn lemma_build_caches_idempotent(
    a: Account,
    b: Account,
    now: Timestamp,
    dv_days_back: u32,
    med_days_back: u32,
)
    requires
        same_records(a, b),
        caches_built(a, now, dv_days_back, med_days_back),
        caches_built(b, now, dv_days_back, med_days_back),
    ensures
        a.hashed_discrete_values@ == b.hashed_discrete_values@,
        a.hashed_medications@ == b.hashed_medications@,
        a.hashed_documents@ == b.hashed_documents@,
        a.hashed_code_references@ == b.hashed_code_references@,
{
}

/// Every link is deeply equal to itself.
pub proof fn lemma_link_same_reflexive(a: CdiAlertLink)
    ensures
        link_same(a, a),
    decreases a,
{
    assert forall|i: int| 0 <= i < a.links.len() implies link_same(
        #[trigger] a.links[i],
        a.links[i],
    ) by {
        lemma_link_same_reflexive(a.links[i]);
    }
}

/// Every alert is deeply equal to itself.
pub proof fn lemma_alert_same_reflexive(a: CdiAlert)
    ensures
        alert_same(a, a),
{
    assert forall|i: int| 0 <= i < a.links.len() implies link_same(
        #[trigger] a.links[i],
        a.links[i],
    ) by {
        lemma_link_same_reflexive(a.links[i]);
    }
}

proof fn lemma_unique_key_items(alerts: Seq<CdiAlert>, n: int, i: int)
    requires
        0 <= i < alerts.len(),
        0 <= n <= alerts.len(),
        alerts.len() <= usize::MAX,
        forall|x: int, y: int|
            0 <= x < alerts.len() && 0 <= y < alerts.len() && x != y ==> alert_key(
                #[trigger] alerts[x],
            ) != alert_key(#[trigger] alerts[y]),
    ensures
        items_under(alert_items(alerts).take(n), alert_key(alerts[i])) == if i < n {
            seq![i as usize]
        } else {
            Seq::<usize>::empty()
        },
    decreases n,
{
    let items = alert_items(alerts).take(n);
    if n > 0 {
        lemma_unique_key_items(alerts, n - 1, i);
        assert(items.drop_last() =~= alert_items(alerts).take(n - 1));
        assert(items.last() == (alert_key(alerts[n - 1]), (n - 1) as usize));
        if i == n - 1 {
            assert(Seq::<usize>::empty().push(i as usize) =~= seq![i as usize]);
        }
    } else {
        assert(items.len() == 0);
    }
}

/// Where the stored record is the one that would be written for the same
/// alerts (no two of them under one key), the alerts count as unchanged:
/// nothing is stored and nobody is notified.
pub proof fn lemma_identical_results_not_saved(
    fields: Seq<StoredField>,
    alerts: Seq<CdiAlert>,
    workflow_url: Seq<char>,
)
    requires
        alerts.len() <= usize::MAX,
        forall|x: int, y: int|
            0 <= x < alerts.len() && 0 <= y < alerts.len() && x != y ==> alert_key(
                #[trigger] alerts[x],
            ) != alert_key(#[trigger] alerts[y]),
        fields.len() == record_fields(alerts).len(),
        forall|j: int|
            0 <= j < fields.len() ==> (#[trigger] fields[j]).name@ == record_fields(alerts)[j].0
                && fields[j].alert == Some(alerts[record_fields(alerts)[j].1 as int]),
    ensures
        !results_changed(Some(fields), alerts),
        !(results_changed(Some(fields), alerts) && workflow_url.len() > 0),
{
    let items = alert_items(alerts);
    let idx = filed(items);
    assert forall|i: int| 0 <= i < alerts.len() implies crate::reconcile::stored_match(
        fields,
        #[trigger] alerts[i],
    ) by {
        let k = alert_key(alerts[i]);
        lemma_filed_lookup(items, k);
        lemma_unique_key_items(alerts, alerts.len() as int, i);
        assert(items.take(alerts.len() as int) =~= items);
        assert(items_under(items, k) == seq![i as usize]);
        assert(crate::index::lookup(idx, k) == seq![i as usize]);
        lemma_slot_of(idx, k);
        let s = slot_of(idx, k);
        assert(s >= 0);
        assert(idx[s].1 == seq![i as usize]);
        assert forall|j: int| 0 <= j < fields.len() implies #[trigger] fields[j].name@ == idx[j].0 by {
            assert(record_fields(alerts)[j].0 == idx[j].0);
        }
        lemma_field_pos_is(fields, k, s);
        assert(record_fields(alerts)[s].1 == i as usize);
        lemma_alert_same_reflexive(alerts[i]);
    }
}

proof fn lemma_field_pos_is(fields: Seq<StoredField>, key: Seq<char>, p: int)
    requires
        -1 <= p < fields.len(),
        p >= 0 ==> fields[p].name@ == key,
        forall|j: int| 0 <= j < fields.len() && (p < 0 || j < p) ==> fields[j].name@ != key,
    ensures
        field_pos(fields, key) == p,
    decreases fields.len(),
{
    if fields.len() > 0 && fields[0].name@ != key {
        let rest = fields.drop_first();
        assert forall|j: int|
            0 <= j < rest.len() && (p - 1 < 0 || j < p - 1) implies rest[j].name@ != key by {
            assert(rest[j] == fields[j + 1]);
        }
        if p >= 0 {
            assert(rest[p - 1] == fields[p]);
        }
        lemma_field_pos_is(rest, key, if p < 0 { -1 } else { p - 1 });
    }
}

/// Where the stored alert under some alert's key reads, but its tree of links
/// differs from that alert's at any depth, the alerts count as changed: they
/// are stored and the workflow notified, wherever a target is configured.
pub proof fn lemma_changed_links_saved(
    fields: Seq<StoredField>,
    alerts: Seq<CdiAlert>,
    i: int,
    workflow_url: Seq<char>,
)
    requires
        0 <= i < alerts.len(),
        field_pos(fields, alert_key(alerts[i])) >= 0,
        fields[field_pos(fields, alert_key(alerts[i]))].alert is Some,
        ({
            let stored = fields[field_pos(fields, alert_key(alerts[i]))].alert->0;
            !(stored.links.len() == alerts[i].links.len() && forall|k: int|
                0 <= k < stored.links.len() ==> link_same(
                    #[trigger] stored.links[k],
                    alerts[i].links[k],
                ))
        }),
        workflow_url.len() > 0,
    ensures
        results_changed(Some(fields), alerts) && workflow_url.len() > 0,
{
    assert(!crate::reconcile::stored_match(fields, alerts[i]));
}

/// The reference that `loc` points at among `docs`, if it points at one.
pub open spec fn reference_at(docs: Seq<CACDocument>, loc: CodeReferenceWithDocument) -> Option<
    CodeReference,
> {
    if loc.document < docs.len() {
        let d = docs[loc.document as int];
        let refs = if loc.abstraction {
            d.abstraction_references@
        } else {
            d.code_references@
        };
        if loc.reference < refs.len() {
            Some(refs[loc.reference as int])
        } else {
            None
        }
    } else {
        None
    }
}

/// `loc` points at a reference to code `c`.
pub open spec fn refers_to(docs: Seq<CACDocument>, loc: CodeReferenceWithDocument, c: Seq<char>) -> bool {
    &&& reference_at(docs, loc) is Some
    &&& (reference_at(docs, loc)->0).code@ == c
}

proof fn lemma_items_under_contains<T>(items: Seq<(Seq<char>, T)>, k: Seq<char>, y: T)
    ensures
        items_under(items, k).contains(y) <==> exists|x: int|
            0 <= x < items.len() && #[trigger] items[x] == (k, y),
    decreases items.len(),
{
    if items.len() > 0 {
        let prev = items.drop_last();
        lemma_items_under_contains(prev, k, y);
        let u = items_under(items, k);
        let up = items_under(prev, k);
        if u.contains(y) {
            if !up.contains(y) {
                assert(items.last().0 == k);
                assert(u == up.push(items.last().1));
                let z = choose|z: int| 0 <= z < u.len() && u[z] == y;
                assert(z == up.len());
                assert(items[items.len() - 1] == (k, y));
            } else {
                let x = choose|x: int| 0 <= x < prev.len() && #[trigger] prev[x] == (k, y);
                assert(items[x] == prev[x]);
            }
        }
        if exists|x: int| 0 <= x < items.len() && #[trigger] items[x] == (k, y) {
            let x = choose|x: int| 0 <= x < items.len() && #[trigger] items[x] == (k, y);
            if x < items.len() - 1 {
                assert(prev[x] == items[x]);
                assert(up.contains(y));
                let z = choose|z: int| 0 <= z < up.len() && up[z] == y;
                if items.last().0 == k {
                    assert(u[z] == y);
                } else {
                    assert(u == up);
                }
            } else {
                assert(u == up.push(y));
                assert(u[up.len() as int] == y);
            }
        }
    }
}

proof fn lemma_items_under_distinct<T>(items: Seq<(Seq<char>, T)>, k: Seq<char>)
    requires
        forall|x: int, z: int| 0 <= x < z < items.len() ==> #[trigger] items[x].1 != #[trigger] items[z].1,
    ensures
        items_under(items, k).no_duplicates(),
    decreases items.len(),
{
    if items.len() > 0 {
        let prev = items.drop_last();
        assert forall|x: int, z: int| 0 <= x < z < prev.len() implies #[trigger] prev[x].1
            != #[trigger] prev[z].1 by {
            assert(prev[x] == items[x] && prev[z] == items[z]);
        }
        lemma_items_under_distinct(prev, k);
        let up = items_under(prev, k);
        if items.last().0 == k {
            let y = items.last().1;
            lemma_items_under_contains(prev, k, y);
            assert(!up.contains(y)) by {
                if up.contains(y) {
                    let x = choose|x: int| 0 <= x < prev.len() && #[trigger] prev[x] == (k, y);
                    assert(items[x] == prev[x]);
                    assert(items[x].1 != items[items.len() - 1].1);
                }
            }
            let u = up.push(y);
            assert(u == items_under(items, k));
            assert forall|a: int, b: int| 0 <= a < u.len() && 0 <= b < u.len() && a != b implies u[a]
                != u[b] by {
                if a == up.len() {
                    assert(u[b] == up[b]);
                    assert(up.contains(up[b]));
                } else if b == up.len() {
                    assert(u[a] == up[a]);
                    assert(up.contains(up[a]));
                } else {
                    assert(u[a] == up[a] && u[b] == up[b]);
                }
            }
        }
    }
}

/// The code references of `docs` are exactly the references of their lists,
/// each once, each under its own code.
proof fn lemma_code_items(docs: Seq<CACDocument>)
    requires
        docs.len() <= usize::MAX,
        forall|i: int|
            0 <= i < docs.len() ==> (#[trigger] docs[i]).code_references@.len() <= usize::MAX
                && docs[i].abstraction_references@.len() <= usize::MAX,
    ensures
        forall|x: int|
            0 <= x < code_items(docs).len() ==> refers_to(
                docs,
                (#[trigger] code_items(docs)[x]).1,
                code_items(docs)[x].0,
            ),
        forall|loc: CodeReferenceWithDocument|
            #[trigger] reference_at(docs, loc) is Some ==> exists|x: int|
                0 <= x < code_items(docs).len() && (#[trigger] code_items(docs)[x]).1 == loc,
        forall|x: int, z: int|
            0 <= x < z < code_items(docs).len() ==> (#[trigger] code_items(docs)[x]).1 != (
            #[trigger] code_items(docs)[z]).1,
    decreases docs.len(),
{
    if docs.len() > 0 {
        let prev = docs.drop_last();
        let d = docs.len() - 1;
        let last = docs.last();
        assert forall|i: int| 0 <= i < prev.len() implies (#[trigger] prev[i]).code_references@.len()
            <= usize::MAX && prev[i].abstraction_references@.len() <= usize::MAX by {
            assert(prev[i] == docs[i]);
        }
        lemma_code_items(prev);
        let pi = code_items(prev);
        let coded = reference_items(last.code_references@, d, false);
        let abs = reference_items(last.abstraction_references@, d, true);
        let di = document_code_items(last, d);
        let items = code_items(docs);
        assert(items == pi + di);
        assert forall|loc: CodeReferenceWithDocument|
            #[trigger] reference_at(prev, loc) is Some implies reference_at(docs, loc) == reference_at(
                prev,
                loc,
            ) && loc.document < d by {
            assert(prev[loc.document as int] == docs[loc.document as int]);
        }
        assert forall|x: int| 0 <= x < items.len() implies refers_to(
            docs,
            (#[trigger] items[x]).1,
            items[x].0,
        ) by {
            if x < pi.len() {
                assert(items[x] == pi[x]);
                assert(reference_at(prev, pi[x].1) is Some);
            } else if x < pi.len() + coded.len() {
                assert(items[x] == coded[x - pi.len()]);
            } else {
                assert(items[x] == abs[x - pi.len() - coded.len()]);
            }
        }
        assert forall|loc: CodeReferenceWithDocument|
            #[trigger] reference_at(docs, loc) is Some implies exists|x: int|
                0 <= x < items.len() && (#[trigger] items[x]).1 == loc by {
            if loc.document < d {
                assert(prev[loc.document as int] == docs[loc.document as int]);
                assert(reference_at(prev, loc) is Some);
                let x = choose|x: int| 0 <= x < pi.len() && (#[trigger] pi[x]).1 == loc;
                assert(items[x] == pi[x]);
            } else if !loc.abstraction {
                let x = pi.len() + loc.reference;
                assert(items[x] == coded[loc.reference as int]);
                assert(items[x].1 == loc);
            } else {
                let x = pi.len() + coded.len() + loc.reference;
                assert(items[x] == abs[loc.reference as int]);
                assert(items[x].1 == loc);
            }
        }
        assert forall|x: int, z: int| 0 <= x < z < items.len() implies (#[trigger] items[x]).1 != (
        #[trigger] items[z]).1 by {
            if z < pi.len() {
                assert(items[x] == pi[x] && items[z] == pi[z]);
            } else if x < pi.len() {
                assert(items[x] == pi[x]);
                assert(reference_at(prev, pi[x].1) is Some);
                assert(items[x].1.document < d);
                if z < pi.len() + coded.len() {
                    assert(items[z] == coded[z - pi.len()]);
                } else {
                    assert(items[z] == abs[z - pi.len() - coded.len()]);
                }
            } else if z < pi.len() + coded.len() {
                assert(items[x] == coded[x - pi.len()] && items[z] == coded[z - pi.len()]);
            } else if x < pi.len() + coded.len() {
                assert(items[x] == coded[x - pi.len()]);
                assert(items[z] == abs[z - pi.len() - coded.len()]);
            } else {
                assert(items[x] == abs[x - pi.len() - coded.len()]);
                assert(items[z] == abs[z - pi.len() - coded.len()]);
            }
        }
    }
}

/// The references found under a code are exactly the references to that code
/// in the coded and abstraction lists of every document, each once: a code
/// in two documents is found once for each of them.
pub proof fn lemma_code_references_exact(
    a: Account,
    now: Timestamp,
    dv_days_back: u32,
    med_days_back: u32,
    code: Seq<char>,
)
    requires
        caches_built(a, now, dv_days_back, med_days_back),
    ensures
        forall|loc: CodeReferenceWithDocument|
            #[trigger] lookup(a.hashed_code_references@, code).contains(loc) <==> refers_to(
                a.documents@,
                loc,
                code,
            ),
        lookup(a.hashed_code_references@, code).no_duplicates(),
{
    let docs = a.documents@;
    assert forall|i: int| 0 <= i < docs.len() implies (#[trigger] docs[i]).code_references@.len()
        <= usize::MAX && docs[i].abstraction_references@.len() <= usize::MAX by {
        assert(docs[i].code_references@.len() == docs[i].code_references.len());
        assert(docs[i].abstraction_references@.len() == docs[i].abstraction_references.len());
    }
    assert(docs.len() == a.documents.len());
    lemma_code_items(docs);
    let items = code_items(docs);
    lemma_filed_lookup(items, code);
    lemma_items_under_distinct(items, code);
    assert forall|loc: CodeReferenceWithDocument|
        #[trigger] lookup(a.hashed_code_references@, code).contains(loc) <==> refers_to(
            docs,
            loc,
            code,
        ) by {
        lemma_items_under_contains(items, code, loc);
        if refers_to(docs, loc, code) {
            assert(reference_at(docs, loc) is Some);
            let x = choose|x: int| 0 <= x < items.len() && (#[trigger] items[x]).1 == loc;
            assert(refers_to(docs, items[x].1, items[x].0));
            assert(items[x] == (code, loc));
        }
    }
}

} // verus!
