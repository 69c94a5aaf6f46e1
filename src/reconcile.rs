//! Reconciling freshly computed alerts with the results stored for an account:
//! deciding whether anything changed, what to store, where to notify, and
//! when to queue the account again.
use vstd::prelude::*;
use crate::index::{KeyedIndex, filed, file_all, pairs_view, lemma_slot_of, slot_of};
use crate::model::{CdiAlert, EvaluationQueueEntry, Timestamp, alert_same, alert_equal};

verus! {

/// One field of a stored result record: its name, and the alert it holds, or
/// `None` where its value does not read as an alert.
#[derive(Debug)]
pub struct StoredField {
    pub name: String,
    pub alert: Option<CdiAlert>,
}

/// Position of the first field named `key`, or -1 where there is none.
pub open spec fn field_pos(fields: Seq<StoredField>, key: Seq<char>) -> int
    decreases fields.len(),
{
    if fields.len() == 0 {
        -1
    } else if fields[0].name@ == key {
        0
    } else {
        let r = field_pos(fields.drop_first(), key);
        if r < 0 {
            -1
        } else {
            r + 1
        }
    }
}

proof fn lemma_field_pos(fields: Seq<StoredField>, key: Seq<char>)
    ensures
        -1 <= field_pos(fields, key) < fields.len(),
        field_pos(fields, key) >= 0 ==> fields[field_pos(fields, key)].name@ == key,
        forall|j: int|
            0 <= j < fields.len() && (field_pos(fields, key) < 0 || j < field_pos(fields, key))
                ==> fields[j].name@ != key,
    decreases fields.len(),
{
    if fields.len() > 0 && fields[0].name@ != key {
        let rest = fields.drop_first();
        lemma_field_pos(rest, key);
        assert forall|j: int|
            0 <= j < fields.len() && (field_pos(fields, key) < 0 || j < field_pos(fields, key))
                implies fields[j].name@ != key by {
            if j > 0 {
                assert(fields[j] == rest[j - 1]);
            }
        }
    }
}

/// The key under which an alert is stored: the name of its script.
pub open spec fn alert_key(a: CdiAlert) -> Seq<char> {
    a.script_name@
}

/// The stored record holds, under the alert's key, a readable alert deeply
/// equal to it.
pub open spec fn stored_match(fields: Seq<StoredField>, a: CdiAlert) -> bool {
    let p = field_pos(fields, alert_key(a));
    &&& p >= 0
    &&& fields[p].alert is Some
    &&& alert_same(fields[p].alert->0, a)
}

/// The alerts differ from the stored record: there is no record, or some
/// alert has no readable, deeply equal counterpart in it.
pub open spec fn results_changed(existing: Option<Seq<StoredField>>, alerts: Seq<CdiAlert>) -> bool {
    match existing {
        None => true,
        Some(f) => exists|i: int| 0 <= i < alerts.len() && !stored_match(f, #[trigger] alerts[i]),
    }
}

/// The fields of a stored record, if there is one.
pub open spec fn existing_view(existing: Option<Vec<StoredField>>) -> Option<Seq<StoredField>> {
    match existing {
        Some(v) => Some(v@),
        None => None,
    }
}

fn matches_stored(fields: &Vec<StoredField>, a: &CdiAlert) -> (r: bool)
    ensures
        r == stored_match(fields@, *a),
{
    let key = a.script_name.clone();
    proof {
        lemma_field_pos(fields@, key@);
    }
    let mut j: usize = 0;
    while j < fields.len()
        invariant
            j <= fields.len(),
            key@ == alert_key(*a),
            forall|jj: int| 0 <= jj < j ==> fields@[jj].name@ != key@,
        decreases fields.len() - j,
    {
        if crate::text::str_equals(fields[j].name.as_str(), key.as_str()) {
            assert(field_pos(fields@, key@) == j) by {
                lemma_field_pos(fields@, key@);
                let p = field_pos(fields@, key@);
                assert(!(p >= 0 && p < j));
                assert(!(p < 0 || p > j));
            }
            return match &fields[j].alert {
                Some(stored) => alert_equal(stored, a),
                None => false,
            };
        }
        j += 1;
    }
    assert(field_pos(fields@, key@) < 0) by {
        lemma_field_pos(fields@, key@);
        let p = field_pos(fields@, key@);
        if p >= 0 {
            assert(fields@[p].name@ == key@);
        }
    }
    false
}

/// Whether the alerts differ from the stored record (see [`results_changed`]).
pub fn alerts_changed(existing: &Option<Vec<StoredField>>, alerts: &Vec<CdiAlert>) -> (r: bool)
    ensures
        r == results_changed(existing_view(*existing), alerts@),
{
    match existing {
        None => true,
        Some(fields) => {
            let mut i: usize = 0;
            assert(existing_view(*existing) == Some(fields@));
            while i < alerts.len()
                invariant
                    i <= alerts.len(),
                    existing_view(*existing) == Some(fields@),
                    forall|ii: int| 0 <= ii < i ==> stored_match(fields@, #[trigger] alerts@[ii]),
                decreases alerts.len() - i,
            {
                if !matches_stored(fields, &alerts[i]) {
                    assert(!stored_match(fields@, alerts@[i as int]));
                    return true;
                }
                i += 1;
            }
            false
        },
    }
}

/// Whether the results are to be stored and the workflow notified: only where
/// they changed and a notification target is configured.
pub fn should_persist(
    existing: &Option<Vec<StoredField>>,
    alerts: &Vec<CdiAlert>,
    workflow_url: &str,
) -> (r: bool)
    ensures
        r == (results_changed(existing_view(*existing), alerts@) && workflow_url@.len() > 0),
{
    if workflow_url.is_empty() {
        false
    } else {
        alerts_changed(existing, alerts)
    }
}

/// Each alert's position, under its key.
pub open spec fn alert_items(alerts: Seq<CdiAlert>) -> Seq<(Seq<char>, usize)> {
    Seq::new(alerts.len(), |i: int| (alert_key(alerts[i]), i as usize))
}

/// The fields to store: one per key, in the order in which the keys first
/// occur, each holding the position of the last alert with that key.
pub open spec fn record_fields(alerts: Seq<CdiAlert>) -> Seq<(Seq<char>, usize)> {
    filed(alert_items(alerts)).map_values(|e: (Seq<char>, Seq<usize>)| (e.0, e.1.last()))
}

proof fn lemma_filed_groups_nonempty<T>(items: Seq<(Seq<char>, T)>)
    ensures
        forall|j: int| 0 <= j < filed(items).len() ==> #[trigger] filed(items)[j].1.len() > 0,
    decreases items.len(),
{
    if items.len() > 0 {
        let prev = filed(items.drop_last());
        lemma_filed_groups_nonempty(items.drop_last());
        lemma_slot_of(prev, items.last().0);
        let cur = filed(items);
        assert forall|j: int| 0 <= j < cur.len() implies #[trigger] cur[j].1.len() > 0 by {
            if j < prev.len() && j != slot_of(prev, items.last().0) {
                assert(cur[j] == prev[j]);
            }
        }
    }
}

/// The fields of the record to store for `alerts` (see [`record_fields`]),
/// each with the position of the alert that it holds.
pub fn result_fields(alerts: &Vec<CdiAlert>) -> (r: Vec<(String, usize)>)
    ensures
        pairs_view(r@) == record_fields(alerts@),
{
    let mut items: Vec<(String, usize)> = Vec::new();
    let mut i: usize = 0;
    while i < alerts.len()
        invariant
            i <= alerts.len(),
            items.len() == i,
            pairs_view(items@) =~= alert_items(alerts@).take(i as int),
        decreases alerts.len() - i,
    {
        let ghost prev = items@;
        items.push((alerts[i].script_name.clone(), i));
        proof {
            assert forall|x: int| 0 <= x <= i implies #[trigger] pairs_view(items@)[x]
                == alert_items(alerts@).take(i as int + 1)[x] by {
                if x < i {
                    assert(items@[x] == prev[x]);
                    assert(pairs_view(prev)[x] == alert_items(alerts@).take(i as int)[x]);
                }
            }
        }
        i += 1;
    }
    assert(alert_items(alerts@).take(alerts.len() as int) =~= alert_items(alerts@));
    let idx = file_all(items);
    proof {
        lemma_filed_groups_nonempty(alert_items(alerts@));
    }
    let ghost want = record_fields(alerts@);
    let mut r: Vec<(String, usize)> = Vec::new();
    let mut j: usize = 0;
    while j < idx.entries.len()
        invariant
            j <= idx.entries.len(),
            idx@ == filed(alert_items(alerts@)),
            want == record_fields(alerts@),
            forall|x: int| 0 <= x < idx@.len() ==> #[trigger] idx@[x].1.len() > 0,
            r.len() == j,
            forall|x: int| 0 <= x < j ==> #[trigger] pairs_view(r@)[x] == want[x],
        decreases idx.entries.len() - j,
    {
        let n = idx.entries[j].1.len();
        assert(idx@[j as int].1.len() > 0);
        let last = idx.entries[j].1[n - 1];
        let ghost prev = r@;
        r.push((idx.entries[j].0.clone(), last));
        proof {
            assert forall|x: int| 0 <= x <= j implies #[trigger] pairs_view(r@)[x] == want[x] by {
                if x < j {
                    assert(r@[x] == prev[x]);
                    assert(pairs_view(prev)[x] == want[x]);
                }
            }
        }
        j += 1;
    }
    assert(pairs_view(r@) =~= want);
    r
}

/// The address that notifies the workflow of account `account_id`.
pub fn notification_url(base_url: &str, account_id: &str) -> (r: String)
    ensures
        r@ == base_url@ + seq!['/'] + account_id@,
{
    let r = String::from_str(base_url).concat("/").concat(account_id);
    proof {
        reveal_strlit("/");
    }
    r
}

/// Whether a notification succeeded: a response with a 2xx status. `None`
/// stands for a failure to reach the endpoint.
pub fn notification_succeeded(status: Option<u16>) -> (r: bool)
    ensures
        r == (status is Some && 200 <= status->0 < 300),
{
    match status {
        Some(code) => 200 <= code && code < 300,
        None => false,
    }
}

/// The work item that queues account `account_id` again at `now`.
pub open spec fn requeue_entry(e: EvaluationQueueEntry, account_id: Seq<char>, now: Timestamp) -> bool {
    &&& e.id@ == account_id
    &&& e.time_queued == now
    &&& e.source@ == seq!['R', 'e', 'q', 'u', 'e', 'u', 'e']
}

/// What follows a notification with outcome `status` (see
/// [`notification_succeeded`]): nothing after a success; after a failure, one
/// work item that queues the account again, from source `"Requeue"`.
pub fn requeue_after_notification(account_id: &str, status: Option<u16>, now: Timestamp) -> (r:
    Option<EvaluationQueueEntry>)
    ensures
        r is Some <==> !(status is Some && 200 <= status->0 < 300),
        r is Some ==> requeue_entry(r->0, account_id@, now),
{
    if notification_succeeded(status) {
        None
    } else {
        let source = String::from_str("Requeue");
        proof {
            reveal_strlit("Requeue");
            assert(source@ =~= seq!['R', 'e', 'q', 'u', 'e', 'u', 'e']);
        }
        Some(EvaluationQueueEntry { id: String::from_str(account_id), time_queued: now, source })
    }
}

/// The outcomes of the scripts that produced an alert, in order.
pub open spec fn present_outcomes(outcomes: Seq<(String, Option<CdiAlert>)>) -> Seq<
    (Seq<char>, CdiAlert),
>
    decreases outcomes.len(),
{
    if outcomes.len() == 0 {
        Seq::empty()
    } else {
        let rest = present_outcomes(outcomes.drop_last());
        match outcomes.last().1 {
            Some(a) => rest.push((outcomes.last().0@, a)),
            None => rest,
        }
    }
}

/// Groups the outcomes of one pass, each an account id with the alert that a
/// script produced for it or `None` where the script failed, by account. A
/// failed script contributes nothing; an account without any alert is absent.
pub fn group_by_account(outcomes: Vec<(String, Option<CdiAlert>)>) -> (r: KeyedIndex<CdiAlert>)
    ensures
        r@ == filed(present_outcomes(outcomes@)),
{
    let ghost all = outcomes@;
    let mut rest = outcomes;
    let mut kept: Vec<(String, CdiAlert)> = Vec::new();
    let ghost mut n: int = 0;
    while rest.len() > 0
        invariant
            0 <= n <= all.len(),
            rest@ =~= all.skip(n),
            pairs_view(kept@) == present_outcomes(all.take(n)),
        decreases rest.len(),
    {
        let (id, outcome) = rest.remove(0);
        proof {
            assert(all.take(n + 1).drop_last() =~= all.take(n));
            assert(all.take(n + 1).last() == (id, outcome));
        }
        match outcome {
            Some(a) => {
                kept.push((id, a));
                assert(pairs_view(kept@) =~= present_outcomes(all.take(n + 1)));
            },
            None => {},
        }
        proof {
            n = n + 1;
        }
    }
    assert(all.take(n) =~= all);
    file_all(kept)
}

} // verus!
