//! An account and the keyed indexes that rules read it through.
use vstd::prelude::*;
use crate::index::{
    KeyedIndex, DatedEntry, dated_index, dated_view, entry_view, filed, lookup, pairs_view,
    cache_by_date, file_all,
};
use crate::model::{
    Timestamp, Patient, CACDocument, Medication, DiscreteValue, CdiAlert, CodeReference,
    CodeReferenceWithDocument, AccountWorkingHistoryEntry,
};

verus! {

/// Milliseconds in a day.
pub const DAY_MS: i64 = 86400000;

/// The oldest date kept by a retention window of `days` days ending at `now`.
pub open spec fn cutoff(now: Timestamp, days: u32) -> int {
    now - days * DAY_MS
}

/// The entry of a record with an optional key and date: present where the key
/// is present and not empty and the date is present and no older than `cut`.
pub open spec fn keyed_entry(key: Option<String>, date: Option<Timestamp>, cut: int) -> DatedEntry {
    match key {
        Some(k) => match date {
            Some(d) => if k@.len() > 0 && d >= cut {
                Some((k@, d))
            } else {
                None
            },
            None => None,
        },
        None => None,
    }
}

/// The entries of discrete values: keyed by name, dated by result date.
pub open spec fn discrete_entries(vs: Seq<DiscreteValue>, cut: int) -> Seq<DatedEntry> {
    vs.map_values(|v: DiscreteValue| keyed_entry(v.name, v.result_date, cut))
}

/// The entries of medications: keyed by category, dated by start date.
pub open spec fn medication_entries(ms: Seq<Medication>, cut: int) -> Seq<DatedEntry> {
    ms.map_values(|m: Medication| keyed_entry(m.category, m.start_date, cut))
}

/// The key of a document in the index by type: its type, or the empty string.
pub open spec fn type_key(d: CACDocument) -> Seq<char> {
    match d.document_type {
        Some(t) => t@,
        None => Seq::empty(),
    }
}

/// Each document's position, under its type.
pub open spec fn document_items(docs: Seq<CACDocument>) -> Seq<(Seq<char>, usize)> {
    Seq::new(docs.len(), |i: int| (type_key(docs[i]), i as usize))
}

/// The references of one list of document `d`, each under its code.
pub open spec fn reference_items(refs: Seq<CodeReference>, d: int, abstraction: bool) -> Seq<
    (Seq<char>, CodeReferenceWithDocument),
> {
    Seq::new(
        refs.len(),
        |r: int|
            (
                refs[r].code@,
                CodeReferenceWithDocument {
                    document: d as usize,
                    abstraction: abstraction,
                    reference: r as usize,
                },
            ),
    )
}

/// The code references of document `d`: its coded references, then its
/// abstraction references.
pub open spec fn document_code_items(doc: CACDocument, d: int) -> Seq<
    (Seq<char>, CodeReferenceWithDocument),
> {
    reference_items(doc.code_references@, d, false) + reference_items(
        doc.abstraction_references@,
        d,
        true,
    )
}

/// The code references of all documents, document by document.
pub open spec fn code_items(docs: Seq<CACDocument>) -> Seq<(Seq<char>, CodeReferenceWithDocument)>
    decreases docs.len(),
{
    if docs.len() == 0 {
        Seq::empty()
    } else {
        code_items(docs.drop_last()) + document_code_items(docs.last(), docs.len() - 1)
    }
}

/// The case record of one patient encounter.
#[derive(Debug)]
pub struct Account {
    /// Account number
    pub id: String,
    pub admit_date_time: Option<Timestamp>,
    pub discharge_date_time: Option<Timestamp>,
    pub patient: Option<Patient>,
    pub patient_type: Option<String>,
    pub admit_source: Option<String>,
    pub admit_type: Option<String>,
    pub hospital_service: Option<String>,
    pub building: Option<String>,
    pub documents: Vec<CACDocument>,
    pub medications: Vec<Medication>,
    pub discrete_values: Vec<DiscreteValue>,
    pub cdi_alerts: Vec<CdiAlert>,
    pub working_history: Vec<AccountWorkingHistoryEntry>,
    /// Code references by code: positions into the documents' lists.
    pub hashed_code_references: KeyedIndex<CodeReferenceWithDocument>,
    /// Discrete values by name, newest first: positions into `discrete_values`.
    pub hashed_discrete_values: KeyedIndex<usize>,
    /// Medications by category, newest first: positions into `medications`.
    pub hashed_medications: KeyedIndex<usize>,
    /// Documents by type: positions into `documents`.
    pub hashed_documents: KeyedIndex<usize>,
}

/// Two accounts hold the same records; their indexes may differ.
pub open spec fn same_records(a: Account, b: Account) -> bool {
    &&& a.id == b.id
    &&& a.admit_date_time == b.admit_date_time
    &&& a.discharge_date_time == b.discharge_date_time
    &&& a.patient == b.patient
    &&& a.patient_type == b.patient_type
    &&& a.admit_source == b.admit_source
    &&& a.admit_type == b.admit_type
    &&& a.hospital_service == b.hospital_service
    &&& a.building == b.building
    &&& a.documents == b.documents
    &&& a.medications == b.medications
    &&& a.discrete_values == b.discrete_values
    &&& a.cdi_alerts == b.cdi_alerts
    &&& a.working_history == b.working_history
}

/// The index of discrete values that a window of `dv_days` days ending at `now` keeps.
pub open spec fn discrete_index(vs: Seq<DiscreteValue>, now: Timestamp, dv_days: u32) -> Seq<
    (Seq<char>, Seq<usize>),
> {
    dated_index(discrete_entries(vs, cutoff(now, dv_days)), vs.len() as int)
}

/// The index of medications that a window of `med_days` days ending at `now` keeps.
pub open spec fn medication_index(ms: Seq<Medication>, now: Timestamp, med_days: u32) -> Seq<
    (Seq<char>, Seq<usize>),
> {
    dated_index(medication_entries(ms, cutoff(now, med_days)), ms.len() as int)
}

/// The indexes of `a` are those of its records, for windows ending at `now`.
pub open spec fn caches_built(a: Account, now: Timestamp, dv_days: u32, med_days: u32) -> bool {
    &&& a.hashed_discrete_values@ == discrete_index(a.discrete_values@, now, dv_days)
    &&& a.hashed_medications@ == medication_index(a.medications@, now, med_days)
    &&& a.hashed_documents@ == filed(document_items(a.documents@))
    &&& a.hashed_code_references@ == filed(code_items(a.documents@))
}

/// The oldest time that a retention window of `days` days ending at `now` keeps.
pub fn window_start(now: Timestamp, days: u32) -> (r: i128)
    ensures
        r as int == cutoff(now, days),
{
    let span: i128 = (days as i128) * (DAY_MS as i128);
    assert(0 <= span <= 4294967295 * 86400000) by (nonlinear_arith)
        requires
            span == (days as i128) * 86400000,
            0 <= days <= 4294967295,
    ;
    now as i128 - span
}

fn entry_of(key: &Option<String>, date: Option<Timestamp>, cut: i128) -> (r: Option<(String, i64)>)
    ensures
        entry_view(r) == keyed_entry(*key, date, cut as int),
{
    match key {
        Some(k) => match date {
            Some(d) => {
                if !k.as_str().is_empty() && d as i128 >= cut {
                    Some((k.clone(), d))
                } else {
                    None
                }
            },
            None => None,
        },
        None => None,
    }
}

fn discrete_entry_list(vs: &Vec<DiscreteValue>, cut: i128) -> (r: Vec<Option<(String, i64)>>)
    ensures
        dated_view(r@) == discrete_entries(vs@, cut as int),
        r.len() == vs.len(),
{
    let mut r: Vec<Option<(String, i64)>> = Vec::new();
    let mut i: usize = 0;
    while i < vs.len()
        invariant
            i <= vs.len(),
            r.len() == i,
            dated_view(r@) =~= discrete_entries(vs@, cut as int).take(i as int),
        decreases vs.len() - i,
    {
        let e = entry_of(&vs[i].name, vs[i].result_date, cut);
        let ghost prev = r@;
        r.push(e);
        proof {
            assert forall|x: int| 0 <= x <= i implies #[trigger] dated_view(r@)[x]
                == discrete_entries(vs@, cut as int).take(i as int + 1)[x] by {
                if x < i {
                    assert(r@[x] == prev[x]);
                    assert(dated_view(prev)[x] == discrete_entries(vs@, cut as int).take(i as int)[x]);
                }
            }
        }
        i += 1;
    }
    assert(discrete_entries(vs@, cut as int).take(vs.len() as int) =~= discrete_entries(vs@, cut as int));
    r
}

fn medication_entry_list(ms: &Vec<Medication>, cut: i128) -> (r: Vec<Option<(String, i64)>>)
    ensures
        dated_view(r@) == medication_entries(ms@, cut as int),
        r.len() == ms.len(),
{
    let mut r: Vec<Option<(String, i64)>> = Vec::new();
    let mut i: usize = 0;
    while i < ms.len()
        invariant
            i <= ms.len(),
            r.len() == i,
            dated_view(r@) =~= medication_entries(ms@, cut as int).take(i as int),
        decreases ms.len() - i,
    {
        let e = entry_of(&ms[i].category, ms[i].start_date, cut);
        let ghost prev = r@;
        r.push(e);
        proof {
            assert forall|x: int| 0 <= x <= i implies #[trigger] dated_view(r@)[x]
                == medication_entries(ms@, cut as int).take(i as int + 1)[x] by {
                if x < i {
                    assert(r@[x] == prev[x]);
                    assert(dated_view(prev)[x] == medication_entries(ms@, cut as int).take(i as int)[x]);
                }
            }
        }
        i += 1;
    }
    assert(medication_entries(ms@, cut as int).take(ms.len() as int) =~= medication_entries(ms@, cut as int));
    r
}

fn document_item_list(docs: &Vec<CACDocument>) -> (r: Vec<(String, usize)>)
    ensures
        pairs_view(r@) == document_items(docs@),
{
    let mut r: Vec<(String, usize)> = Vec::new();
    let mut i: usize = 0;
    while i < docs.len()
        invariant
            i <= docs.len(),
            r.len() == i,
            pairs_view(r@) =~= document_items(docs@).take(i as int),
        decreases docs.len() - i,
    {
        let key = match &docs[i].document_type {
            Some(t) => t.clone(),
            None => String::new(),
        };
        let ghost prev = r@;
        r.push((key, i));
        proof {
            assert forall|x: int| 0 <= x <= i implies #[trigger] pairs_view(r@)[x]
                == document_items(docs@).take(i as int + 1)[x] by {
                if x < i {
                    assert(r@[x] == prev[x]);
                    assert(pairs_view(prev)[x] == document_items(docs@).take(i as int)[x]);
                }
            }
        }
        i += 1;
    }
    assert(document_items(docs@).take(docs.len() as int) =~= document_items(docs@));
    r
}

fn push_reference_items(
    r: &mut Vec<(String, CodeReferenceWithDocument)>,
    refs: &Vec<CodeReference>,
    d: usize,
    abstraction: bool,
)
    ensures
        pairs_view(final(r)@) == pairs_view(old(r)@) + reference_items(refs@, d as int, abstraction),
{
    let ghost start = pairs_view(r@);
    let mut i: usize = 0;
    while i < refs.len()
        invariant
            i <= refs.len(),
            r.len() == start.len() + i,
            pairs_view(r@) =~= start + reference_items(refs@, d as int, abstraction).take(i as int),
        decreases refs.len() - i,
    {
        let at = CodeReferenceWithDocument { document: d, abstraction: abstraction, reference: i };
        let ghost prev = r@;
        r.push((refs[i].code.clone(), at));
        proof {
            let want = start + reference_items(refs@, d as int, abstraction).take(i as int + 1);
            assert forall|x: int| 0 <= x < r.len() implies #[trigger] pairs_view(r@)[x] == want[x] by {
                if x < r.len() - 1 {
                    assert(r@[x] == prev[x]);
                    assert(pairs_view(prev)[x] == (start + reference_items(refs@, d as int, abstraction).take(i as int))[x]);
                }
            }
        }
        i += 1;
    }
    assert(reference_items(refs@, d as int, abstraction).take(refs.len() as int)
        =~= reference_items(refs@, d as int, abstraction));
}

fn code_item_list(docs: &Vec<CACDocument>) -> (r: Vec<(String, CodeReferenceWithDocument)>)
    ensures
        pairs_view(r@) == code_items(docs@),
{
    let mut r: Vec<(String, CodeReferenceWithDocument)> = Vec::new();
    let mut i: usize = 0;
    assert(pairs_view(r@) =~= code_items(docs@.take(0)));
    while i < docs.len()
        invariant
            i <= docs.len(),
            pairs_view(r@) == code_items(docs@.take(i as int)),
        decreases docs.len() - i,
    {
        push_reference_items(&mut r, &docs[i].code_references, i, false);
        push_reference_items(&mut r, &docs[i].abstraction_references, i, true);
        proof {
            let t = docs@.take(i as int + 1);
            assert(t.drop_last() =~= docs@.take(i as int));
            assert(t.last() == docs@[i as int]);
            assert(pairs_view(r@) =~= code_items(t));
        }
        i += 1;
    }
    assert(docs@.take(docs.len() as int) =~= docs@);
    r
}

impl Account {
    /// An account with the given id and no records.
    pub fn new(id: String) -> (r: Account)
        ensures
            r.id == id,
            r.admit_date_time is None,
            r.discharge_date_time is None,
            r.patient is None,
            r.patient_type is None,
            r.admit_source is None,
            r.admit_type is None,
            r.hospital_service is None,
            r.building is None,
            r.documents@.len() == 0,
            r.medications@.len() == 0,
            r.discrete_values@.len() == 0,
            r.cdi_alerts@.len() == 0,
            r.working_history@.len() == 0,
            r.hashed_code_references@.len() == 0,
            r.hashed_discrete_values@.len() == 0,
            r.hashed_medications@.len() == 0,
            r.hashed_documents@.len() == 0,
    {
        Account {
            id,
            admit_date_time: None,
            discharge_date_time: None,
            patient: None,
            patient_type: None,
            admit_source: None,
            admit_type: None,
            hospital_service: None,
            building: None,
            documents: Vec::new(),
            medications: Vec::new(),
            discrete_values: Vec::new(),
            cdi_alerts: Vec::new(),
            working_history: Vec::new(),
            hashed_code_references: KeyedIndex::new(),
            hashed_discrete_values: KeyedIndex::new(),
            hashed_medications: KeyedIndex::new(),
            hashed_documents: KeyedIndex::new(),
        }
    }

    /// Rebuilds every index from the records, with retention windows of
    /// `dv_days_back` days for discrete values and `med_days_back` days for
    /// medications, both ending at `now`. The records are left as they are.
    pub fn build_caches_at(&mut self, now: Timestamp, dv_days_back: u32, med_days_back: u32)
        ensures
            same_records(*final(self), *old(self)),
            caches_built(*final(self), now, dv_days_back, med_days_back),
    {
        let dv_entries = discrete_entry_list(&self.discrete_values, window_start(now, dv_days_back));
        let med_entries = medication_entry_list(&self.medications, window_start(now, med_days_back));
        let documents = file_all(document_item_list(&self.documents));
        let codes = file_all(code_item_list(&self.documents));
        self.hashed_discrete_values = cache_by_date(&dv_entries);
        self.hashed_medications = cache_by_date(&med_entries);
        self.hashed_documents = documents;
        self.hashed_code_references = codes;
    }

    /// Rebuilds every index from the records, with retention windows ending
    /// at the present time.
    pub fn build_caches(&mut self, dv_days_back: u32, med_days_back: u32)
        ensures
            same_records(*final(self), *old(self)),
            exists|now: Timestamp| caches_built(*final(self), now, dv_days_back, med_days_back),
    {
        let now = crate::clock::now_millis();
        self.build_caches_at(now, dv_days_back, med_days_back);
    }

    /// The discrete values named `name` within the retention window, newest
    /// first, as positions into `discrete_values`.
    pub fn find_discrete_values(&self, name: &str) -> (r: &[usize])
        ensures
            r@ == lookup(self.hashed_discrete_values@, name@),
    {
        self.hashed_discrete_values.get(name)
    }

    /// The medications of `category` within the retention window, newest
    /// first, as positions into `medications`.
    pub fn find_medications(&self, category: &str) -> (r: &[usize])
        ensures
            r@ == lookup(self.hashed_medications@, category@),
    {
        self.hashed_medications.get(category)
    }

    /// The documents of type `document_type`, as positions into `documents`.
    pub fn find_documents(&self, document_type: &str) -> (r: &[usize])
        ensures
            r@ == lookup(self.hashed_documents@, document_type@),
    {
        self.hashed_documents.get(document_type)
    }

    /// The references to `code` on every document.
    pub fn find_code_references(&self, code: &str) -> (r: &[CodeReferenceWithDocument])
        ensures
            r@ == lookup(self.hashed_code_references@, code@),
    {
        self.hashed_code_references.get(code)
    }

    /// Every code under which a reference is indexed.
    pub fn get_unique_code_references(&self) -> (r: Vec<String>)
        ensures
            r.len() == self.hashed_code_references@.len(),
            forall|x: int| 0 <= x < r.len() ==> #[trigger] r@[x]@ == self.hashed_code_references@[x].0,
    {
        self.hashed_code_references.keys()
    }

    /// Every name under which a discrete value is indexed.
    pub fn get_unique_discrete_values(&self) -> (r: Vec<String>)
        ensures
            r.len() == self.hashed_discrete_values@.len(),
            forall|x: int| 0 <= x < r.len() ==> #[trigger] r@[x]@ == self.hashed_discrete_values@[x].0,
    {
        self.hashed_discrete_values.keys()
    }

    /// Every category under which a medication is indexed.
    pub fn get_unique_medications(&self) -> (r: Vec<String>)
        ensures
            r.len() == self.hashed_medications@.len(),
            forall|x: int| 0 <= x < r.len() ==> #[trigger] r@[x]@ == self.hashed_medications@[x].0,
    {
        self.hashed_medications.keys()
    }

    /// Every type under which a document is indexed.
    pub fn get_unique_documents(&self) -> (r: Vec<String>)
        ensures
            r.len() == self.hashed_documents@.len(),
            forall|x: int| 0 <= x < r.len() ==> #[trigger] r@[x]@ == self.hashed_documents@[x].0,
    {
        self.hashed_documents.keys()
    }

    /// Whether an earlier encounter holds the diagnosis code `code`.
    pub fn is_diagnosis_code_in_working_history(&self, code: &str) -> (r: bool)
        ensures
            r == exists|h: int, c: int|
                0 <= h < self.working_history.len() && 0 <= c
                    < self.working_history[h].diagnoses.len() && (#[trigger] self.working_history[h].diagnoses[c]).code@
                    == code@,
    {
        let mut h: usize = 0;
        while h < self.working_history.len()
            invariant
                h <= self.working_history.len(),
                forall|hh: int, c: int|
                    0 <= hh < h && 0 <= c < self.working_history[hh].diagnoses.len() ==> (
                    #[trigger] self.working_history[hh].diagnoses[c]).code@ != code@,
            decreases self.working_history.len() - h,
        {
            let entry = &self.working_history[h];
            let mut c: usize = 0;
            while c < entry.diagnoses.len()
                invariant
                    c <= entry.diagnoses.len(),
                    h < self.working_history.len(),
                    entry == self.working_history[h as int],
                    forall|hh: int, c: int|
                        0 <= hh < h && 0 <= c < self.working_history[hh].diagnoses.len() ==> (
                        #[trigger] self.working_history[hh].diagnoses[c]).code@ != code@,
                    forall|cc: int| 0 <= cc < c ==> (#[trigger] entry.diagnoses[cc]).code@ != code@,
                decreases entry.diagnoses.len() - c,
            {
                if crate::text::str_equals(entry.diagnoses[c].code.as_str(), code) {
                    assert(self.working_history[h as int].diagnoses[c as int].code@ == code@);
                    return true;
                }
                c += 1;
            }
            h += 1;
        }
        false
    }

    /// Whether an earlier encounter holds the procedure code `code`.
    pub fn is_procedure_code_in_working_history(&self, code: &str) -> (r: bool)
        ensures
            r == exists|h: int, c: int|
                0 <= h < self.working_history.len() && 0 <= c
                    < self.working_history[h].procedures.len() && (#[trigger] self.working_history[h].procedures[c]).code@
                    == code@,
    {
        let mut h: usize = 0;
        while h < self.working_history.len()
            invariant
                h <= self.working_history.len(),
                forall|hh: int, c: int|
                    0 <= hh < h && 0 <= c < self.working_history[hh].procedures.len() ==> (
                    #[trigger] self.working_history[hh].procedures[c]).code@ != code@,
            decreases self.working_history.len() - h,
        {
            let entry = &self.working_history[h];
            let mut c: usize = 0;
            while c < entry.procedures.len()
                invariant
                    c <= entry.procedures.len(),
                    h < self.working_history.len(),
                    entry == self.working_history[h as int],
                    forall|hh: int, c: int|
                        0 <= hh < h && 0 <= c < self.working_history[hh].procedures.len() ==> (
                        #[trigger] self.working_history[hh].procedures[c]).code@ != code@,
                    forall|cc: int| 0 <= cc < c ==> (#[trigger] entry.procedures[cc]).code@ != code@,
                decreases entry.procedures.len() - c,
            {
                if crate::text::str_equals(entry.procedures[c].code.as_str(), code) {
                    assert(self.working_history[h as int].procedures[c as int].code@ == code@);
                    return true;
                }
                c += 1;
            }
            h += 1;
        }
        false
    }
}

/// `b` is `a` with `extra` appended to its discrete values; its indexes may differ.
pub open spec fn extended_records(b: Account, a: Account, extra: Seq<DiscreteValue>) -> bool {
    &&& b.id == a.id
    &&& b.admit_date_time == a.admit_date_time
    &&& b.discharge_date_time == a.discharge_date_time
    &&& b.patient == a.patient
    &&& b.patient_type == a.patient_type
    &&& b.admit_source == a.admit_source
    &&& b.admit_type == a.admit_type
    &&& b.hospital_service == a.hospital_service
    &&& b.building == a.building
    &&& b.documents == a.documents
    &&& b.medications == a.medications
    &&& b.discrete_values@ == a.discrete_values@ + extra
    &&& b.cdi_alerts == a.cdi_alerts
    &&& b.working_history == a.working_history
}

/// Completes the loading of an account: where the store held one, appends the
/// discrete values kept elsewhere for it and builds its indexes, with windows
/// ending at `now`. Where it held none, there is no account.
pub fn complete_account(
    found: Option<Account>,
    supplementary: Vec<DiscreteValue>,
    now: Timestamp,
    dv_days_back: u32,
    med_days_back: u32,
) -> (r: Option<Account>)
    ensures
        found is None <==> r is None,
        r is Some ==> extended_records(r->0, found->0, supplementary@),
        r is Some ==> caches_built(r->0, now, dv_days_back, med_days_back),
{
    match found {
        None => None,
        Some(account) => {
            let mut account = account;
            let mut extra = supplementary;
            account.discrete_values.append(&mut extra);
            account.build_caches_at(now, dv_days_back, med_days_back);
            Some(account)
        },
    }
}

/// Rebuilds the indexes of `account` from its records (see
/// [`Account::build_caches`]).
pub fn build_account_caches(account: &mut Account, dv_days_back: u32, med_days_back: u32)
    ensures
        same_records(*final(account), *old(account)),
        exists|now: Timestamp| caches_built(*final(account), now, dv_days_back, med_days_back),
{
    account.build_caches(dv_days_back, med_days_back);
}

} // verus!
