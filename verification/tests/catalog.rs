use std::collections::HashSet;

use profile_registry::activity::{compute_expiry, registration_is_active};
use profile_registry::catalog::ProductGraph;
use profile_registry::model::ProductRegistration;
use profile_registry::sku::{is_product_sku_valid, is_sku_character, SkuError};
use profile_registry::sources::{generate_random_serial, Clock, RandomSerial, SerialSource, SystemClock};

fn set_of(items: &[&str]) -> HashSet<String> {
    items.iter().map(|s| s.to_string()).collect()
}

fn as_set(items: Vec<String>) -> HashSet<String> {
    items.into_iter().collect()
}

fn strings(items: &[&str]) -> Vec<String> {
    items.iter().map(|s| s.to_string()).collect()
}

#[test]
fn empty_catalog_knows_nothing() {
    let graph = ProductGraph::new();
    assert!(!graph.product_exists("A"));
    assert_eq!(None, graph.active_for("A"));
    assert!(graph.resolve_leaves(&strings(&["A", "B"])).is_empty());
    assert!(graph.resolve_leaves(&[]).is_empty());
}

#[test]
fn nested_bundles_resolve_to_leaves() {
    let mut graph = ProductGraph::new();
    graph.put_bundle("R", &[]);
    graph.put_bundle("Q", &strings(&["R"]));
    graph.put_bundle("P", &strings(&["Q"]));
    graph.put_bundle("D", &strings(&["R"]));
    assert_eq!(vec!["R".to_string()], graph.resolve_leaves(&strings(&["P"])));
    assert_eq!(vec!["R".to_string()], graph.resolve_leaves(&strings(&["D"])));
    assert_eq!(vec!["R".to_string()], graph.resolve_leaves(&strings(&["Q"])));
    assert_eq!(vec!["R".to_string()], graph.resolve_leaves(&strings(&["R"])));
    assert_eq!(vec!["R".to_string()], graph.resolve_leaves(&strings(&["P", "D", "R", "P"])));
}

#[test]
fn cycles_resolve_without_looping() {
    let mut graph = ProductGraph::new();
    graph.put_bundle("A", &strings(&["B"]));
    graph.put_bundle("B", &strings(&["A"]));
    assert!(graph.resolve_leaves(&strings(&["A"])).is_empty());
    assert!(graph.resolve_leaves(&strings(&["B", "A"])).is_empty());
    graph.put_bundle("S", &strings(&["S"]));
    assert!(graph.resolve_leaves(&strings(&["S"])).is_empty());
    graph.put_bundle("L", &[]);
    graph.put_bundle("B", &strings(&["A", "L"]));
    assert_eq!(vec!["L".to_string()], graph.resolve_leaves(&strings(&["A"])));
    assert_eq!(vec!["L".to_string()], graph.insert_product("C", &strings(&["A", "B", "C"]), None));
}

#[test]
fn unknown_skus_contribute_nothing() {
    let mut graph = ProductGraph::new();
    graph.put_bundle("L", &[]);
    graph.put_bundle("P", &strings(&["GONE", "L", "ALSO"]));
    assert_eq!(vec!["L".to_string()], graph.resolve_leaves(&strings(&["P"])));
    assert!(graph.resolve_leaves(&strings(&["GONE"])).is_empty());
}

#[test]
fn diamond_yields_each_leaf_once() {
    let mut graph = ProductGraph::new();
    graph.put_bundle("X", &[]);
    graph.put_bundle("Y", &[]);
    graph.put_bundle("L", &strings(&["X", "Y"]));
    graph.put_bundle("R", &strings(&["Y", "X"]));
    graph.put_bundle("T", &strings(&["L", "R"]));
    let leaves = graph.resolve_leaves(&strings(&["T"]));
    assert_eq!(2, leaves.len());
    assert_eq!(set_of(&["X", "Y"]), as_set(leaves));
}

#[test]
fn insert_product_stores_leaves_and_duration() {
    let mut graph = ProductGraph::new();
    graph.put_bundle("X", &[]);
    graph.put_bundle("Y", &[]);
    graph.put_bundle("M", &strings(&["X", "Y"]));
    let stored = graph.insert_product("P", &strings(&["M"]), Some(5));
    assert_eq!(set_of(&["X", "Y"]), as_set(stored));
    assert!(graph.product_exists("P"));
    assert_eq!(Some(5), graph.active_for("P"));
    assert_eq!(None, graph.active_for("M"));
    // P now bundles the leaves themselves: changing M does not change P.
    graph.put_bundle("M", &strings(&["X"]));
    assert_eq!(set_of(&["X", "Y"]), as_set(graph.resolve_leaves(&strings(&["P"]))));
    // A second insert overwrites bundle and duration.
    let again = graph.insert_product("P", &strings(&["M"]), None);
    assert_eq!(set_of(&["X"]), as_set(again));
    assert_eq!(None, graph.active_for("P"));
    graph.insert_product("P", &[], Some(u64::MAX));
    assert_eq!(Some(u64::MAX), graph.active_for("P"));
    assert_eq!(vec!["P".to_string()], graph.resolve_leaves(&strings(&["P"])));
}

#[test]
fn put_bundle_collapses_repeated_skus() {
    let mut graph = ProductGraph::new();
    graph.put_bundle("X", &[]);
    graph.put_bundle("P", &strings(&["X", "X", "X"]));
    assert_eq!(vec!["X".to_string()], graph.resolve_leaves(&strings(&["P"])));
}

#[test]
fn sku_syntax() {
    assert_eq!(Ok(()), is_product_sku_valid("ARIE4"));
    assert_eq!(Ok(()), is_product_sku_valid("A"));
    assert_eq!(Ok(()), is_product_sku_valid("0"));
    assert_eq!(Ok(()), is_product_sku_valid("AZ09"));
    assert_eq!(Err(SkuError::Empty), is_product_sku_valid(""));
    assert_eq!(Err(SkuError::NotAlphanumeric), is_product_sku_valid("foo"));
    assert_eq!(Err(SkuError::NotAlphanumeric), is_product_sku_valid("ARIE4 "));
    assert_eq!(Err(SkuError::NotAlphanumeric), is_product_sku_valid("ARIE4\n"));
    assert_eq!(Err(SkuError::NotAlphanumeric), is_product_sku_valid("AR-IE4"));
    assert_eq!(Err(SkuError::NotAlphanumeric), is_product_sku_valid("ÀB"));
    assert_eq!(Err(SkuError::NotAlphanumeric), is_product_sku_valid("A٣"));
    assert_eq!(Err(SkuError::NotAlphanumeric), is_product_sku_valid("ARIe4"));
    assert!(is_sku_character('A') && is_sku_character('Z'));
    assert!(is_sku_character('0') && is_sku_character('9'));
    assert!(!is_sku_character('a') && !is_sku_character('@') && !is_sku_character('['));
    assert!(!is_sku_character('/') && !is_sku_character(':'));
}

#[test]
fn sku_syntax_agrees_with_the_pattern() {
    let pattern = regex::Regex::new("^[A-Z0-9]+$").unwrap();
    let samples = [
        "", "A", "Z", "0", "9", "AKB48", "akb48", "AKB 48", " AKB48", "AKB48\n", "\nAKB48",
        "AKB48\r\n", "AKB_48", "ÅKB48", "AKB４８", "A\u{0}B", "@", "[", "`", "{", "/", ":", "A-Z",
        "ONE\nTWO",
    ];
    for sample in samples.iter() {
        let expected = !sample.is_empty() && pattern.is_match(sample);
        assert_eq!(expected, is_product_sku_valid(sample).is_ok());
    }
}

#[test]
fn sku_error_messages() {
    assert_eq!("Empty strings are not allowed", SkuError::Empty.message());
    assert_eq!(
        "Product SKU can only contain alphanumeric characters",
        SkuError::NotAlphanumeric.message()
    );
}

#[test]
fn expiry_formula() {
    assert_eq!(None, compute_expiry(0, None));
    assert_eq!(Some(0), compute_expiry(0, Some(0)));
    assert_eq!(Some(1_000), compute_expiry(0, Some(1)));
    assert_eq!(Some(1673795045000 + 31_536_000_000), compute_expiry(1673795045000, Some(31_536_000)));
    assert_eq!(Some(-1_000), compute_expiry(-2_000, Some(1)));
    assert_eq!(Some(i64::MIN + 3_000), compute_expiry(i64::MIN, Some(3)));
    assert_eq!(Some(i64::MAX), compute_expiry(i64::MAX, Some(0)));
    assert_eq!(Some(i64::MAX), compute_expiry(i64::MAX - 2_000, Some(2)));
    assert_eq!(None, compute_expiry(i64::MAX - 1_999, Some(2)));
    assert_eq!(None, compute_expiry(i64::MAX, Some(1)));
    assert_eq!(None, compute_expiry(i64::MIN, Some(u64::MAX)));
    assert_eq!(Some(i64::MAX - 615), compute_expiry(i64::MIN, Some(18_446_744_073_709_551)));
    assert_eq!(None, compute_expiry(i64::MIN, Some(18_446_744_073_709_552)));
}

fn registration(expiry_at: Option<i64>) -> ProductRegistration {
    ProductRegistration {
        id: 1,
        profile_id: 1,
        parent_id: None,
        purchase_date: 0,
        expiry_at,
        product: "P".into(),
        serial_code: "S".into(),
    }
}

#[test]
fn activity_boundary() {
    let purchase = 1_000_000;
    let expiry = compute_expiry(purchase, Some(60));
    let timed = registration(expiry);
    assert!(registration_is_active(&timed, purchase));
    assert!(registration_is_active(&timed, purchase + 59_000));
    assert!(registration_is_active(&timed, purchase + 59_999));
    assert!(!registration_is_active(&timed, purchase + 60_000));
    assert!(!registration_is_active(&timed, purchase + 60_001));
    assert!(!registration_is_active(&timed, i64::MAX));
    assert!(registration_is_active(&timed, i64::MIN));
    let lasting = registration(None);
    assert!(registration_is_active(&lasting, i64::MIN));
    assert!(registration_is_active(&lasting, i64::MAX));
    let instant = registration(compute_expiry(purchase, Some(0)));
    assert!(!registration_is_active(&instant, purchase));
    assert!(registration_is_active(&instant, purchase - 1));
}

#[test]
fn random_serials_are_fifteen_letters_and_digits() {
    let mut seen = HashSet::new();
    for _ in 0..50 {
        let serial = generate_random_serial();
        assert_eq!(15, serial.chars().count());
        assert!(serial.chars().all(|c| c.is_ascii_alphanumeric()));
        seen.insert(serial);
    }
    assert!(seen.len() > 1);
    let mut source = RandomSerial;
    let serial = source.next_serial();
    assert_eq!(15, serial.len());
    assert!(serial.chars().all(|c| c.is_ascii_alphanumeric()));
}

#[test]
fn system_clock_reads_the_present() {
    let mut clock = SystemClock;
    let before = chrono::Utc::now().timestamp_millis();
    let read = clock.now_millis();
    let after = chrono::Utc::now().timestamp_millis();
    assert!(before <= read && read <= after);
    // Well after 2020-01-01.
    assert!(read > 1_577_836_800_000);
}
