//! The records of an account, as the rules see them.
use vstd::prelude::*;

verus! {

/// A point in time: milliseconds since the Unix epoch.
pub type Timestamp = i64;

/// The whole seconds since the Unix epoch of a time no earlier than it.
pub fn system_time_t(time: Timestamp) -> (r: u64)
    requires
        time >= 0,
    ensures
        r == time / 1000,
{
    (time / 1000) as u64
}

/// An optional string seen as its characters.
pub open spec fn opt_chars(o: Option<String>) -> Option<Seq<char>> {
    match o {
        Some(s) => Some(s@),
        None => None,
    }
}

/// Whether two optional strings hold the same characters.
pub fn opt_str_equals(a: &Option<String>, b: &Option<String>) -> (r: bool)
    ensures
        r == (opt_chars(*a) == opt_chars(*b)),
{
    match (a, b) {
        (Some(x), Some(y)) => crate::text::str_equals(x.as_str(), y.as_str()),
        (None, None) => true,
        _ => false,
    }
}

/// A structured citation on an alert, pointing at supporting evidence. It may
/// hold further links of its own.
#[derive(Debug)]
pub struct CdiAlertLink {
    /// The text to display for the link
    pub link_text: String,
    /// The document id to link to
    pub document_id: Option<String>,
    /// The code to link to
    pub code: Option<String>,
    /// The discrete value id to link to
    pub discrete_value_id: Option<String>,
    /// The discrete value name to link to
    pub discrete_value_name: Option<String>,
    /// The medication id to link to
    pub medication_id: Option<String>,
    /// The medication name to link to
    pub medication_name: Option<String>,
    /// The latest discrete value to link to
    pub latest_discrete_value_id: Option<String>,
    /// Whether the link has been validated by a user
    pub is_validated: bool,
    /// User notes for the link
    pub user_notes: Option<String>,
    /// A list of sublinks
    pub links: Vec<CdiAlertLink>,
    /// The sequence number of the link
    pub sequence: i32,
    /// Whether the link is hidden
    pub hidden: bool,
}

/// The fields of two links, other than their sublinks, agree.
pub open spec fn link_fields_match(a: CdiAlertLink, b: CdiAlertLink) -> bool {
    &&& a.link_text@ == b.link_text@
    &&& opt_chars(a.document_id) == opt_chars(b.document_id)
    &&& opt_chars(a.code) == opt_chars(b.code)
    &&& opt_chars(a.discrete_value_id) == opt_chars(b.discrete_value_id)
    &&& opt_chars(a.discrete_value_name) == opt_chars(b.discrete_value_name)
    &&& opt_chars(a.medication_id) == opt_chars(b.medication_id)
    &&& opt_chars(a.medication_name) == opt_chars(b.medication_name)
    &&& opt_chars(a.latest_discrete_value_id) == opt_chars(b.latest_discrete_value_id)
    &&& a.is_validated == b.is_validated
    &&& opt_chars(a.user_notes) == opt_chars(b.user_notes)
    &&& a.sequence == b.sequence
    &&& a.hidden == b.hidden
}

/// Two links are deeply equal: their fields agree, and so do their sublinks,
/// one by one, at every depth.
pub open spec fn link_same(a: CdiAlertLink, b: CdiAlertLink) -> bool
    decreases a,
{
    &&& link_fields_match(a, b)
    &&& a.links.len() == b.links.len()
    &&& forall|i: int| 0 <= i < a.links.len() ==> link_same(#[trigger] a.links[i], b.links[i])
}

/// Whether two links are deeply equal.
pub fn link_equal(a: &CdiAlertLink, b: &CdiAlertLink) -> (r: bool)
    ensures
        r == link_same(*a, *b),
    decreases a,
{
    if !(crate::text::str_equals(a.link_text.as_str(), b.link_text.as_str())
        && opt_str_equals(&a.document_id, &b.document_id) && opt_str_equals(&a.code, &b.code)
        && opt_str_equals(&a.discrete_value_id, &b.discrete_value_id) && opt_str_equals(
        &a.discrete_value_name,
        &b.discrete_value_name,
    ) && opt_str_equals(&a.medication_id, &b.medication_id) && opt_str_equals(
        &a.medication_name,
        &b.medication_name,
    ) && opt_str_equals(&a.latest_discrete_value_id, &b.latest_discrete_value_id)
        && a.is_validated == b.is_validated && opt_str_equals(&a.user_notes, &b.user_notes)
        && a.sequence == b.sequence && a.hidden == b.hidden) {
        return false;
    }
    if a.links.len() != b.links.len() {
        return false;
    }
    let mut i: usize = 0;
    while i < a.links.len()
        invariant
            i <= a.links.len(),
            a.links.len() == b.links.len(),
            forall|j: int| 0 <= j < i ==> link_same(#[trigger] a.links[j], b.links[j]),
        decreases a.links.len() - i,
    {
        if !link_equal(&a.links[i], &b.links[i]) {
            return false;
        }
        i += 1;
    }
    true
}

/// The verdict that one rule script computed for one account.
#[derive(Debug)]
pub struct CdiAlert {
    /// The name of the script that generated the alert: its file name,
    /// without directory and without extension (see
    /// [`crate::names::script_name`]). Results are stored under it.
    pub script_name: String,
    /// Whether the alert passed or failed
    pub passed: bool,
    /// A list of links to display in the alert
    pub links: Vec<CdiAlertLink>,
    /// Whether the alert has been validated by a user or autoclosed
    pub validated: bool,
    /// A subtitle to display in the alert
    pub subtitle: Option<String>,
    /// The outcome of the alert
    pub outcome: Option<String>,
    /// The reason for the alert
    pub reason: Option<String>,
    /// The weight of the alert, as the bit pattern of an IEEE 754 double
    pub weight: Option<u64>,
    /// The sequence number of the alert
    pub sequence: Option<i32>,
}

/// Two alerts are deeply equal, their whole trees of links included.
pub open spec fn alert_same(a: CdiAlert, b: CdiAlert) -> bool {
    &&& a.script_name@ == b.script_name@
    &&& a.passed == b.passed
    &&& a.validated == b.validated
    &&& opt_chars(a.subtitle) == opt_chars(b.subtitle)
    &&& opt_chars(a.outcome) == opt_chars(b.outcome)
    &&& opt_chars(a.reason) == opt_chars(b.reason)
    &&& a.weight == b.weight
    &&& a.sequence == b.sequence
    &&& a.links.len() == b.links.len()
    &&& forall|i: int| 0 <= i < a.links.len() ==> link_same(#[trigger] a.links[i], b.links[i])
}

/// Whether two alerts are deeply equal.
pub fn alert_equal(a: &CdiAlert, b: &CdiAlert) -> (r: bool)
    ensures
        r == alert_same(*a, *b),
{
    let same_weight = match (a.weight, b.weight) {
        (Some(x), Some(y)) => x == y,
        (None, None) => true,
        _ => false,
    };
    let same_sequence = match (a.sequence, b.sequence) {
        (Some(x), Some(y)) => x == y,
        (None, None) => true,
        _ => false,
    };
    if !(crate::text::str_equals(a.script_name.as_str(), b.script_name.as_str()) && a.passed
        == b.passed && a.validated == b.validated && opt_str_equals(&a.subtitle, &b.subtitle)
        && opt_str_equals(&a.outcome, &b.outcome) && opt_str_equals(&a.reason, &b.reason)
        && same_weight && same_sequence) {
        return false;
    }
    if a.links.len() != b.links.len() {
        return false;
    }
    let mut i: usize = 0;
    while i < a.links.len()
        invariant
            i <= a.links.len(),
            a.links.len() == b.links.len(),
            forall|j: int| 0 <= j < i ==> link_same(#[trigger] a.links[j], b.links[j]),
        decreases a.links.len() - i,
    {
        if !link_equal(&a.links[i], &b.links[i]) {
            return false;
        }
        i += 1;
    }
    true
}

/// A reference to a code on a document.
#[derive(Clone, Debug, PartialEq)]
pub struct CodeReference {
    pub code: String,
    pub value: Option<String>,
    pub description: Option<String>,
    pub phrase: Option<String>,
    pub start: Option<i32>,
    pub length: Option<i32>,
}

/// A clinical document of an account.
#[derive(Clone, Debug, PartialEq)]
pub struct CACDocument {
    pub document_id: String,
    pub document_type: Option<String>,
    pub document_date: Option<Timestamp>,
    /// Content type (e.g. html, text, etc.)
    pub content_type: Option<String>,
    /// List of code references on this document
    pub code_references: Vec<CodeReference>,
    /// List of abstraction references on this document
    pub abstraction_references: Vec<CodeReference>,
}

/// Where a code reference stands: the position of its document in the
/// account's documents, which of the document's two lists holds it, and its
/// position there.
#[derive(Clone, Copy, Debug, PartialEq, Eq, Structural)]
pub struct CodeReferenceWithDocument {
    pub document: usize,
    /// `false` for the coded references, `true` for the abstraction references
    pub abstraction: bool,
    pub reference: usize,
}

/// A medication given during the encounter.
#[derive(Clone, Debug, PartialEq)]
pub struct Medication {
    pub external_id: String,
    pub medication: Option<String>,
    pub dosage: Option<String>,
    pub route: Option<String>,
    pub start_date: Option<Timestamp>,
    pub end_date: Option<Timestamp>,
    pub status: Option<String>,
    pub category: Option<String>,
    pub cdi_alert_category: Option<String>,
}

/// A measured value, such as a lab result.
#[derive(Clone, Debug, PartialEq)]
pub struct DiscreteValue {
    pub unique_id: String,
    pub name: Option<String>,
    pub result: Option<String>,
    pub result_date: Option<Timestamp>,
}

impl DiscreteValue {
    /// A value with an id and a name, and no result yet.
    pub fn new(unique_id: &str, name: String) -> (r: Self)
        ensures
            r.unique_id@ == unique_id@,
            r.name == Some(name),
            r.result is None,
            r.result_date is None,
    {
        DiscreteValue {
            unique_id: String::from_str(unique_id),
            name: Some(name),
            result: None,
            result_date: None,
        }
    }
}

/// The patient of an account.
#[derive(Clone, Debug, PartialEq)]
pub struct Patient {
    /// Medical record number
    pub mrn: Option<String>,
    pub first_name: Option<String>,
    pub middle_name: Option<String>,
    pub last_name: Option<String>,
    pub gender: Option<String>,
    pub birthdate: Option<Timestamp>,
}

/// A diagnosis code from an earlier encounter.
#[derive(Clone, Debug, PartialEq)]
pub struct DiagnosisCode {
    pub code: String,
    pub description: String,
    pub is_principal: bool,
}

/// A procedure code from an earlier encounter.
#[derive(Clone, Debug, PartialEq)]
pub struct ProcedureCode {
    pub code: String,
    pub description: String,
    pub is_principal: bool,
}

/// The codes of one earlier encounter.
#[derive(Clone, Debug, PartialEq)]
pub struct AccountWorkingHistoryEntry {
    pub diagnoses: Vec<DiagnosisCode>,
    pub procedures: Vec<ProcedureCode>,
}

/// A work item: an account waiting to be evaluated.
#[derive(Clone, Debug, PartialEq)]
pub struct EvaluationQueueEntry {
    pub id: String,
    pub time_queued: Timestamp,
    /// Who queued it (`"poll"`, `"Requeue"`, `"test"`, ...)
    pub source: String,
}

/// A work group assignment of an account.
#[derive(Clone, Debug, PartialEq)]
pub struct AccountCustomWorkFlowEntry {
    pub work_group: Option<String>,
    pub criteria_group: Option<String>,
    pub criteria_sequence: Option<i32>,
    pub work_group_category: Option<String>,
    pub work_group_type: Option<String>,
    /// Name of the user who assigned the work group
    pub work_group_assigned_by: Option<String>,
    /// Date time the work group was assigned
    pub work_group_date_time: Option<Timestamp>,
}

/// A category of work groups.
#[derive(Clone, Debug, PartialEq)]
pub struct WorkGroupCategory {
    pub id: String,
    pub workgroups: Vec<WorkGroup>,
}

/// A work group and the criteria that route accounts to it.
#[derive(Clone, Debug, PartialEq)]
pub struct WorkGroup {
    pub work_group: String,
    pub criteria_groups: Vec<CriteriaGroup>,
}

/// A named set of filters.
#[derive(Clone, Debug, PartialEq)]
pub struct CriteriaGroup {
    pub name: String,
    pub filters: Vec<CriteriaFilter>,
}

/// One filter on a property of an account.
#[derive(Clone, Debug, PartialEq)]
pub struct CriteriaFilter {
    pub property: String,
    pub operator: String,
    pub value: String,
}

} // verus!
