use account_db_compare::json::JsonValue;
use account_db_compare::node_name::extract_node_name;
use account_db_compare::reconcile::{compare_accounts, Classification, Report};
use account_db_compare::record::{decode_payload, AccountData, AccountEntry, DecodeCause};
use account_db_compare::snapshot::{
    load_archiver_accounts, load_node_accounts, load_single_node_accounts, NodeRows,
};

fn regular(balance: &str, nonce: &str) -> String {
    format!(
        "{{\"account\":{{\"balance\":{{\"dataType\":\"bi\",\"value\":\"{}\"}},\
         \"codeHash\":{{\"dataType\":\"bh\",\"value\":\"0xc0de\"}},\
         \"nonce\":{{\"dataType\":\"bi\",\"value\":\"{}\"}},\
         \"storageRoot\":{{\"dataType\":\"bh\",\"value\":\"0x5707\"}}}},\
         \"accountType\":0,\"ethAddress\":\"0xabc\",\"hash\":\"h1\",\"timestamp\":1700000000}}",
        balance, nonce
    )
}

fn special(nonce: &str) -> String {
    format!(
        "{{\"accountType\":3,\"hash\":\"h2\",\"id\":\"net\",\"name\":\"config\",\"nonce\":{},\
         \"timestamp\":5,\"extra\":\"kept\"}}",
        nonce
    )
}

fn rows(items: &[(&str, String)]) -> Vec<(String, String)> {
    items.iter().map(|(k, v)| (k.to_string(), v.clone())).collect()
}

fn node(name: &str, items: &[(&str, String)]) -> NodeRows {
    NodeRows { name: name.to_string(), rows: rows(items) }
}

fn run(canon: &[(&str, String)], nodes: Vec<NodeRows>) -> Report {
    let a = load_archiver_accounts(&rows(canon));
    let n = load_node_accounts(&nodes);
    compare_accounts(&a.accounts, &n.accounts)
}

fn entry(payload: &str) -> AccountEntry {
    let id = "0x1".to_string();
    let data = decode_payload(&id, payload).expect("payload decodes");
    AccountEntry { account_id: id, data, node_path: None }
}

#[test]
fn regular_payload_is_comparable() {
    let e = entry(&regular("100", "5"));
    assert!(matches!(e.data, AccountData::Regular { .. }));
    assert!(e.is_comparable());
}

#[test]
fn special_payload_is_not_comparable() {
    let e = entry(&special("7"));
    assert!(matches!(e.data, AccountData::Special { .. }));
    assert!(!e.is_comparable());
    assert_eq!(e.get_balance(), None);
}

#[test]
fn balance_is_literal_text() {
    let e = entry(&regular("0x00ff", "5"));
    assert_eq!(e.get_balance(), Some("0x00ff"));
    assert_eq!(e.get_nonce(), "5");
}

#[test]
fn special_nonce_in_decimal() {
    assert_eq!(entry(&special("42")).get_nonce(), "42");
    assert_eq!(entry(&special("-7")).get_nonce(), "-7");
    assert_eq!(entry(&special("9223372036854775807")).get_nonce(), "9223372036854775807");
}

#[test]
fn special_nonce_absent_or_null() {
    assert_eq!(entry(&special("null")).get_nonce(), "N/A");
    let e = entry("{\"accountType\":3,\"hash\":\"h\",\"id\":\"x\",\"timestamp\":5}");
    assert_eq!(e.get_nonce(), "N/A");
}

#[test]
fn special_keeps_unread_members() {
    let e = entry(&special("1"));
    match e.data {
        AccountData::Special { other_fields, id, name, .. } => {
            assert_eq!(id, "net");
            assert_eq!(name, Some("config".to_string()));
            assert_eq!(other_fields.len(), 1);
            assert_eq!(other_fields[0].0, "extra");
            assert!(matches!(&other_fields[0].1, JsonValue::Str(s) if s == "kept"));
        }
        _ => panic!("expected a special record"),
    }
}

#[test]
fn invalid_json_is_an_error() {
    let id = "0xD".to_string();
    let e = decode_payload(&id, "{not json").unwrap_err();
    assert_eq!(e.account_id, "0xD");
    assert!(matches!(e.cause, DecodeCause::InvalidJson(_)));
}

#[test]
fn unknown_shape_is_an_error() {
    let id = "0xE".to_string();
    let e = decode_payload(&id, "{\"foo\":1}").unwrap_err();
    assert_eq!(e.account_id, "0xE");
    assert!(matches!(e.cause, DecodeCause::UnknownShape));
    let float_type = "{\"accountType\":1.5,\"hash\":\"h\",\"id\":\"x\",\"timestamp\":5}";
    assert!(matches!(decode_payload(&id, float_type).unwrap_err().cause, DecodeCause::UnknownShape));
    let wide_type = "{\"accountType\":4294967296,\"hash\":\"h\",\"id\":\"x\",\"timestamp\":5}";
    assert!(matches!(decode_payload(&id, wide_type).unwrap_err().cause, DecodeCause::UnknownShape));
}

#[test]
fn nonce_mismatch_scenario() {
    let r = run(&[("0xA", regular("100", "5"))], vec![node("n1", &[("0xA", regular("100", "6"))])]);
    assert_eq!(r.total_comparisons, 1);
    assert_eq!(r.mismatches, 1);
    assert_eq!(r.records.len(), 1);
    let rec = r.records[0];
    assert_eq!(rec.classification, Classification::Mismatch);
    assert!(rec.balance_match);
    assert!(!rec.nonce_match);
    assert_eq!(r.match_rate_hundredths(), 0);
}

#[test]
fn canonical_orphan_scenario() {
    let r = run(&[("0xB", regular("1", "1"))], vec![node("n1", &[])]);
    assert_eq!(r.total_comparisons, 0);
    assert_eq!(r.mismatches, 0);
    assert_eq!(r.records.len(), 1);
    assert_eq!(r.records[0].classification, Classification::OrphanCanonical);
    assert_eq!(r.records[0].canonical, Some(0));
}

#[test]
fn two_sources_match_scenario() {
    let r = run(
        &[("0xC", regular("10", "2"))],
        vec![node("n1", &[("0xC", regular("10", "2"))]), node("n2", &[("0xC", regular("10", "2"))])],
    );
    assert_eq!(r.total_comparisons, 2);
    assert_eq!(r.mismatches, 0);
    assert_eq!(r.match_rate_hundredths(), 10000);
    assert!(r.records.iter().all(|x| x.classification == Classification::Match));
}

#[test]
fn invalid_json_dropped_scenario() {
    let canon = rows(&[("0xD", "{oops".to_string())]);
    let a = load_archiver_accounts(&canon);
    assert_eq!(a.accounts.entries.len(), 0);
    assert_eq!(a.diagnostics.len(), 1);
    assert_eq!(a.diagnostics[0].account_id, "0xD");
    let n = load_node_accounts(&vec![node("n1", &[("0xD", "[1,".to_string())])]);
    assert_eq!(n.accounts.groups.len(), 0);
    assert_eq!(n.diagnostics.len(), 1);
    assert_eq!(n.diagnostics[0].len(), 1);
    assert_eq!(n.diagnostics[0][0].account_id, "0xD");
    let r = compare_accounts(&a.accounts, &n.accounts);
    assert_eq!(r.total_comparisons, 0);
    assert_eq!(r.mismatches, 0);
    assert_eq!(r.records.len(), 0);
}

#[test]
fn empty_inputs_rate_zero() {
    let r = run(&[], vec![]);
    assert_eq!(r.total_comparisons, 0);
    assert_eq!(r.mismatches, 0);
    assert!(r.records.is_empty());
    assert_eq!(r.match_rate_hundredths(), 0);
}

#[test]
fn total_sums_shared_identifiers() {
    let r = run(
        &[("A", regular("1", "1")), ("B", regular("2", "2")), ("C", regular("3", "3"))],
        vec![
            node("n1", &[("A", regular("1", "1")), ("B", regular("9", "2")), ("D", regular("4", "4"))]),
            node("n2", &[("A", regular("1", "0"))]),
        ],
    );
    assert_eq!(r.total_comparisons, 3);
    assert_eq!(r.mismatches, 2);
    assert_eq!(r.match_rate_hundredths(), 3333);
    let count = |c: Classification| r.records.iter().filter(|x| x.classification == c).count();
    assert_eq!(count(Classification::Match), 1);
    assert_eq!(count(Classification::Mismatch), 2);
    assert_eq!(count(Classification::OrphanCanonical), 1);
    assert_eq!(count(Classification::OrphanSecondary), 1);
    let balance_only = r.records.iter().find(|x| x.classification == Classification::Mismatch && !x.balance_match).unwrap();
    assert!(balance_only.nonce_match);
}

#[test]
fn repeated_runs_agree() {
    let canon = [("A", regular("1", "1")), ("B", regular("2", "2"))];
    let make = || vec![node("n1", &[("A", regular("1", "2")), ("Z", regular("0", "0"))])];
    let first = run(&canon, make());
    let second = run(&canon, make());
    assert_eq!(first.total_comparisons, second.total_comparisons);
    assert_eq!(first.mismatches, second.mismatches);
    assert_eq!(first.records, second.records);
}

#[test]
fn canonical_later_row_wins_and_special_skipped() {
    let a = load_archiver_accounts(&rows(&[
        ("A", regular("1", "1")),
        ("S", special("3")),
        ("A", regular("2", "1")),
        ("A", special("4")),
    ]));
    assert_eq!(a.accounts.entries.len(), 1);
    assert_eq!(a.accounts.entries[0].get_balance(), Some("2"));
    assert_eq!(a.accounts.entries[0].node_path, None);
    assert!(a.diagnostics.is_empty());
}

#[test]
fn secondary_entries_grouped_in_source_order() {
    let n = load_node_accounts(&vec![
        node("n1", &[("A", regular("1", "1")), ("B", special("1"))]),
        node("n2", &[("A", regular("2", "1")), ("C", regular("3", "1"))]),
    ]);
    assert_eq!(n.counts, vec![1, 2]);
    assert_eq!(n.accounts.groups.len(), 2);
    let a = &n.accounts.groups[0];
    assert_eq!(a.account_id, "A");
    assert_eq!(a.entries.len(), 2);
    assert_eq!(a.entries[0].node_path, Some("n1".to_string()));
    assert_eq!(a.entries[1].node_path, Some("n2".to_string()));
    assert_eq!(n.accounts.groups[1].account_id, "C");
}

#[test]
fn single_node_tags_entries() {
    let l = load_single_node_accounts(&rows(&[("A", regular("1", "1")), ("B", "x".to_string())]), &"node7".to_string());
    assert_eq!(l.accounts.len(), 1);
    assert_eq!(l.accounts[0].node_path, Some("node7".to_string()));
    assert_eq!(l.diagnostics.len(), 1);
    assert_eq!(l.diagnostics[0].account_id, "B");
}

#[test]
fn secondary_orphans_one_per_entry() {
    let r = run(&[], vec![node("n1", &[("Q", regular("1", "1"))]), node("n2", &[("Q", regular("1", "1"))])]);
    assert_eq!(r.total_comparisons, 0);
    assert_eq!(r.records.len(), 2);
    assert!(r.records.iter().all(|x| x.classification == Classification::OrphanSecondary));
}

#[test]
fn node_name_from_store_path() {
    assert_eq!(extract_node_name("/data/nodes/node-1/db/shardeum.sqlite"), "node-1");
    assert_eq!(extract_node_name("instances//n2/./db/shardeum.sqlite"), "n2");
    assert_eq!(extract_node_name("db/shardeum.sqlite"), "unknown");
    assert_eq!(extract_node_name("/db/shardeum.sqlite"), "unknown");
    assert_eq!(extract_node_name("../db/shardeum.sqlite"), "unknown");
    assert_eq!(extract_node_name("x/a/b/"), "x");
}


#[test]
fn total_ignores_canonical_order() {
    let nodes = || {
        vec![
            node("n1", &[("A", regular("1", "1")), ("B", regular("2", "2"))]),
            node("n2", &[("B", regular("2", "3"))]),
        ]
    };
    let forward = run(&[("A", regular("1", "1")), ("B", regular("2", "2")), ("C", regular("3", "3"))], nodes());
    let backward = run(&[("C", regular("3", "3")), ("B", regular("2", "2")), ("A", regular("1", "1"))], nodes());
    assert_eq!(forward.total_comparisons, 3);
    assert_eq!(backward.total_comparisons, 3);
    assert_eq!(forward.mismatches, backward.mismatches);
}

#[test]
fn eth_address_optional() {
    let without = regular("5", "1").replace("\"ethAddress\":\"0xabc\",", "");
    let e = entry(&without);
    match e.data {
        AccountData::Regular { eth_address, account_type, timestamp, .. } => {
            assert_eq!(eth_address, None);
            assert_eq!(account_type, 0);
            assert_eq!(timestamp, 1700000000);
        }
        _ => panic!("expected a regular record"),
    }
    let null_address = regular("5", "1").replace("\"0xabc\"", "null");
    assert!(entry(&null_address).is_comparable());
}
