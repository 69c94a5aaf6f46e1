use cdi_engine::account::{build_account_caches, complete_account, window_start, Account, DAY_MS};
use cdi_engine::model::{AccountWorkingHistoryEntry, DiagnosisCode, ProcedureCode};
use cdi_engine::model::{CACDocument, CodeReference, CodeReferenceWithDocument, DiscreteValue, Medication};

const NOW: i64 = 1_700_000_000_000;

fn value(id: &str, name: Option<&str>, date: Option<i64>) -> DiscreteValue {
    DiscreteValue {
        unique_id: id.to_string(),
        name: name.map(|n| n.to_string()),
        result: Some("1".to_string()),
        result_date: date,
    }
}

fn medication(id: &str, category: Option<&str>, start: Option<i64>) -> Medication {
    Medication {
        external_id: id.to_string(),
        medication: None,
        dosage: None,
        route: None,
        start_date: start,
        end_date: None,
        status: None,
        category: category.map(|c| c.to_string()),
        cdi_alert_category: None,
    }
}

fn reference(code: &str) -> CodeReference {
    CodeReference {
        code: code.to_string(),
        value: None,
        description: None,
        phrase: None,
        start: None,
        length: None,
    }
}

fn document(id: &str, kind: Option<&str>, coded: &[&str], abstracted: &[&str]) -> CACDocument {
    CACDocument {
        document_id: id.to_string(),
        document_type: kind.map(|k| k.to_string()),
        document_date: None,
        content_type: None,
        code_references: coded.iter().map(|c| reference(c)).collect(),
        abstraction_references: abstracted.iter().map(|c| reference(c)).collect(),
    }
}

#[test]
fn hemoglobin_window_keeps_recent_value() {
    let mut account = Account::new("TEST_1".to_string());
    account.discrete_values.push(value("dv1", Some("Hemoglobin"), Some(NOW - 2 * DAY_MS)));
    account.discrete_values.push(value("dv2", Some("Hemoglobin"), Some(NOW - 10 * DAY_MS)));
    account.build_caches_at(NOW, 7, 7);
    assert_eq!(account.find_discrete_values("Hemoglobin"), &[0usize][..]);
    assert_eq!(account.discrete_values.len(), 2);
}

#[test]
fn expired_value_absent_but_kept_in_list() {
    let mut account = Account::new("A".to_string());
    account.discrete_values.push(value("old", Some("Sodium"), Some(NOW - 8 * DAY_MS)));
    account.build_caches_at(NOW, 7, 7);
    assert!(account.find_discrete_values("Sodium").is_empty());
    assert!(account.get_unique_discrete_values().is_empty());
    assert_eq!(account.discrete_values[0].unique_id, "old");
}

#[test]
fn value_on_window_edge_is_kept() {
    let mut account = Account::new("A".to_string());
    account.discrete_values.push(value("edge", Some("Sodium"), Some(NOW - 7 * DAY_MS)));
    account.build_caches_at(NOW, 7, 7);
    assert_eq!(account.find_discrete_values("Sodium"), &[0usize][..]);
}

#[test]
fn values_without_name_or_date_are_not_indexed() {
    let mut account = Account::new("A".to_string());
    account.discrete_values.push(value("a", None, Some(NOW)));
    account.discrete_values.push(value("b", Some("Potassium"), None));
    account.discrete_values.push(value("c", Some(""), Some(NOW)));
    account.build_caches_at(NOW, 7, 7);
    assert!(account.get_unique_discrete_values().is_empty());
    assert_eq!(account.discrete_values.len(), 3);
}

#[test]
fn lookups_run_newest_first() {
    let mut account = Account::new("A".to_string());
    account.discrete_values.push(value("a", Some("WBC"), Some(NOW - 3 * DAY_MS)));
    account.discrete_values.push(value("b", Some("WBC"), Some(NOW - DAY_MS)));
    account.discrete_values.push(value("c", Some("Glucose"), Some(NOW)));
    account.discrete_values.push(value("d", Some("WBC"), Some(NOW - 2 * DAY_MS)));
    account.build_caches_at(NOW, 7, 7);
    assert_eq!(account.find_discrete_values("WBC"), &[1usize, 3, 0][..]);
    assert_eq!(account.find_discrete_values("Glucose"), &[2usize][..]);
    assert_eq!(account.get_unique_discrete_values(), vec!["WBC".to_string(), "Glucose".to_string()]);
}

#[test]
fn equal_dates_keep_list_order() {
    let mut account = Account::new("A".to_string());
    account.discrete_values.push(value("a", Some("WBC"), Some(NOW)));
    account.discrete_values.push(value("b", Some("WBC"), Some(NOW)));
    account.discrete_values.push(value("c", Some("WBC"), Some(NOW + 1)));
    account.build_caches_at(NOW, 7, 7);
    assert_eq!(account.find_discrete_values("WBC"), &[2usize, 0, 1][..]);
}

#[test]
fn medications_by_category_within_window() {
    let mut account = Account::new("A".to_string());
    account.medications.push(medication("m1", Some("Antibiotic"), Some(NOW - 5 * DAY_MS)));
    account.medications.push(medication("m2", Some("Antibiotic"), Some(NOW - DAY_MS)));
    account.medications.push(medication("m3", Some("Antibiotic"), Some(NOW - 30 * DAY_MS)));
    account.medications.push(medication("m4", None, Some(NOW)));
    account.build_caches_at(NOW, 7, 14);
    assert_eq!(account.find_medications("Antibiotic"), &[1usize, 0][..]);
    assert_eq!(account.get_unique_medications(), vec!["Antibiotic".to_string()]);
    assert!(account.find_medications("Missing").is_empty());
}

#[test]
fn documents_by_type_with_missing_type_under_empty_key() {
    let mut account = Account::new("A".to_string());
    account.documents.push(document("d1", Some("H&P"), &[], &[]));
    account.documents.push(document("d2", None, &[], &[]));
    account.documents.push(document("d3", Some("H&P"), &[], &[]));
    account.build_caches_at(NOW, 7, 7);
    assert_eq!(account.find_documents("H&P"), &[0usize, 2][..]);
    assert_eq!(account.find_documents(""), &[1usize][..]);
    assert_eq!(account.get_unique_documents(), vec!["H&P".to_string(), "".to_string()]);
}

#[test]
fn code_in_coded_and_abstraction_lists_of_two_documents() {
    let mut account = Account::new("A".to_string());
    account.documents.push(document("d1", Some("Note"), &["D62"], &[]));
    account.documents.push(document("d2", Some("Note"), &["I10"], &["D62"]));
    account.build_caches_at(NOW, 7, 7);
    let found = account.find_code_references("D62");
    assert_eq!(found.len(), 2);
    assert_eq!(found[0], CodeReferenceWithDocument { document: 0, abstraction: false, reference: 0 });
    assert_eq!(found[1], CodeReferenceWithDocument { document: 1, abstraction: true, reference: 0 });
    assert_eq!(account.documents[found[1].document].document_id, "d2");
    assert_eq!(account.get_unique_code_references(), vec!["D62".to_string(), "I10".to_string()]);
}

#[test]
fn code_repeated_in_one_document_counts_each_occurrence() {
    let mut account = Account::new("A".to_string());
    account.documents.push(document("d1", None, &["R50", "R50"], &["R50"]));
    account.build_caches_at(NOW, 7, 7);
    assert_eq!(account.find_code_references("R50").len(), 3);
}

#[test]
fn building_twice_gives_identical_indexes() {
    let mut account = Account::new("A".to_string());
    account.discrete_values.push(value("a", Some("WBC"), Some(NOW - DAY_MS)));
    account.discrete_values.push(value("b", Some("WBC"), Some(NOW)));
    account.medications.push(medication("m", Some("Opioid"), Some(NOW)));
    account.documents.push(document("d1", Some("Note"), &["D62"], &["D62"]));
    account.build_caches_at(NOW, 7, 7);
    let first = (
        account.hashed_discrete_values.clone(),
        account.hashed_medications.clone(),
        account.hashed_documents.clone(),
        account.hashed_code_references.clone(),
    );
    account.build_caches_at(NOW, 7, 7);
    assert_eq!(first.0, account.hashed_discrete_values);
    assert_eq!(first.1, account.hashed_medications);
    assert_eq!(first.2, account.hashed_documents);
    assert_eq!(first.3, account.hashed_code_references);
    assert_eq!(account.find_code_references("D62").len(), 2);
}

#[test]
fn empty_account_has_empty_indexes() {
    let mut account = Account::new("A".to_string());
    build_account_caches(&mut account, 7, 7);
    assert!(account.get_unique_code_references().is_empty());
    assert!(account.get_unique_discrete_values().is_empty());
    assert!(account.get_unique_medications().is_empty());
    assert!(account.get_unique_documents().is_empty());
}

#[test]
fn build_caches_uses_present_time() {
    let mut account = Account::new("A".to_string());
    account.discrete_values.push(value("a", Some("WBC"), Some(i64::MAX)));
    account.discrete_values.push(value("b", Some("WBC"), Some(0)));
    account.build_caches(7, 7);
    assert_eq!(account.find_discrete_values("WBC"), &[0usize][..]);
}

#[test]
fn complete_account_appends_supplementary_values() {
    let mut account = Account::new("A".to_string());
    account.discrete_values.push(value("own", Some("WBC"), Some(NOW - DAY_MS)));
    let extra = vec![value("ext", Some("WBC"), Some(NOW))];
    let loaded = complete_account(Some(account), extra, NOW, 7, 7).unwrap();
    assert_eq!(loaded.discrete_values.len(), 2);
    assert_eq!(loaded.discrete_values[1].unique_id, "ext");
    assert_eq!(loaded.find_discrete_values("WBC"), &[1usize, 0][..]);
    assert!(complete_account(None, Vec::new(), NOW, 7, 7).is_none());
}

#[test]
fn working_history_membership() {
    let mut account = Account::new("A".to_string());
    account.working_history.push(AccountWorkingHistoryEntry {
        diagnoses: vec![DiagnosisCode { code: "E11.9".to_string(), description: "".to_string(), is_principal: true }],
        procedures: vec![ProcedureCode { code: "0DTJ4ZZ".to_string(), description: "".to_string(), is_principal: false }],
    });
    assert!(account.is_diagnosis_code_in_working_history("E11.9"));
    assert!(!account.is_diagnosis_code_in_working_history("0DTJ4ZZ"));
    assert!(account.is_procedure_code_in_working_history("0DTJ4ZZ"));
    assert!(!account.is_procedure_code_in_working_history("E11.9"));
}

#[test]
fn retention_window_start() {
    assert_eq!(window_start(NOW, 7), (NOW - 7 * 86_400_000) as i128);
    assert_eq!(window_start(0, 0), 0);
    assert_eq!(window_start(i64::MIN, u32::MAX), i64::MIN as i128 - (u32::MAX as i128) * 86_400_000);
}
