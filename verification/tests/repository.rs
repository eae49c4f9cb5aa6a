use std::collections::HashSet;

use profile_registry::inram::InMemoryProfileRepository;
use profile_registry::repository::ProfileRepository;
use profile_registry::sources::{Clock, SerialSource};

struct FixedClock(i64);

impl Clock for FixedClock {
    fn now_millis(&mut self) -> i64 {
        self.0
    }
}

struct CountingSerial(u32);

impl SerialSource for CountingSerial {
    fn next_serial(&mut self) -> String {
        self.0 += 1;
        format!("S{}", self.0)
    }
}

fn set_of(items: &[&str]) -> HashSet<String> {
    items.iter().map(|s| s.to_string()).collect()
}

fn as_set(items: Vec<String>) -> HashSet<String> {
    items.into_iter().collect()
}

fn example(now: i64) -> InMemoryProfileRepository<CountingSerial, FixedClock> {
    InMemoryProfileRepository::with_example_data_and_sources(CountingSerial(0), FixedClock(now))
}

#[test]
fn inram_static_data_is_valid() {
    let _ = InMemoryProfileRepository::with_example_data();
}

#[test]
fn mod_static_data_is_valid() {
    let _ = InMemoryProfileRepository::with_example_data();
}

#[test]
fn insert_product_dfs_ok() {
    let expected = set_of(&["AKBL1", "AKDS5", "ARAS1", "ARCS1", "ARCH1", "ARCM1"]);

    let mut repo = InMemoryProfileRepository::with_example_data();
    assert!(!repo.product_exists("foo"));
    let actual = repo.insert_product("foo", &["ARIE4".into()], None);

    assert_eq!(6, actual.len());
    assert_eq!(expected, as_set(actual));
    assert!(repo.product_exists("foo"));
}

#[test]
fn insert_product_repeated_insert_ok() {
    let expected = set_of(&[
        "AKBL1", "AKDS5", "ARAS1", "ARCS1", "ARCH1", "ARCM1", "SKE48", "NMB48",
    ]);

    let mut repo = InMemoryProfileRepository::with_example_data();
    let _ = repo.insert_product("foo", &["ARIE4".into()], None);
    let actual = repo.insert_product("bar", &["foo".into(), "AKB48".into()], None);

    assert_eq!(8, actual.len());
    assert_eq!(expected, as_set(actual));
}

#[test]
fn new_repository_is_empty() {
    let repo = InMemoryProfileRepository::new();
    assert!(repo.get_profiles(0, 10).is_empty());
    assert!(repo.get_profile(1).is_none());
    assert!(repo.get_product_registration(1).is_none());
    assert!(repo.get_product_registrations_for_profile(1, 0, 10).is_empty());
    assert!(!repo.product_exists("ARIE4"));
}

#[test]
fn example_profiles_are_john_and_jane() {
    let repo = InMemoryProfileRepository::with_example_data();
    let all = repo.get_profiles(0, 10);
    assert_eq!(2, all.len());
    assert_eq!(1, all[0].id);
    assert_eq!("john.doe@example.com", all[0].email);
    assert_eq!("John", all[0].firstname);
    assert_eq!("Doe", all[0].lastname);
    assert_eq!(2, all[1].id);
    assert_eq!("jane.smith@example.com", all[1].email);
    assert_eq!("Jane", all[1].firstname);
    assert_eq!("Smith", all[1].lastname);
}

#[test]
fn get_profiles_pages() {
    let repo = InMemoryProfileRepository::with_example_data();
    assert!(repo.get_profiles(2, 5).is_empty());
    assert!(repo.get_profiles(3, 5).is_empty());
    assert!(repo.get_profiles(u64::MAX, usize::MAX).is_empty());
    let tail = repo.get_profiles(1, 5);
    assert_eq!(1, tail.len());
    assert_eq!(2, tail[0].id);
    let head = repo.get_profiles(0, 1);
    assert_eq!(1, head.len());
    assert_eq!(1, head[0].id);
    assert!(repo.get_profiles(0, 0).is_empty());
    assert_eq!(2, repo.get_profiles(0, usize::MAX).len());
}

#[test]
fn get_profile_by_id() {
    let repo = InMemoryProfileRepository::with_example_data();
    assert!(repo.get_profile(0).is_none());
    assert_eq!("John", repo.get_profile(1).unwrap().firstname);
    assert_eq!("Jane", repo.get_profile(2).unwrap().firstname);
    assert!(repo.get_profile(3).is_none());
    assert!(repo.get_profile(u64::MAX).is_none());
}

#[test]
fn example_registrations_are_stored() {
    let repo = InMemoryProfileRepository::with_example_data();
    assert!(repo.get_product_registration(0).is_none());
    assert!(repo.get_product_registration(4).is_none());
    let first = repo.get_product_registration(1).unwrap();
    assert_eq!(1, first.registration.id);
    assert_eq!(1, first.registration.profile_id);
    assert_eq!(None, first.registration.parent_id);
    assert_eq!(1673795045000, first.registration.purchase_date);
    assert_eq!(Some(1705331045000), first.registration.expiry_at);
    assert_eq!("ARIE4", first.registration.product);
    assert_eq!("A1B2C3D4", first.registration.serial_code);
    assert!(first.children.is_empty());
    let third = repo.get_product_registration(3).unwrap();
    assert_eq!(2, third.registration.profile_id);
    assert_eq!("ARCM1", third.registration.product);
    assert_eq!("Z5X6C7V8", third.registration.serial_code);
}

#[test]
fn example_dates_match_their_calendar_form() {
    let repo = InMemoryProfileRepository::with_example_data();
    let millis = |text: &str| chrono::DateTime::parse_from_rfc3339(text).unwrap().timestamp_millis();
    let first = repo.get_product_registration(1).unwrap().registration;
    assert_eq!(millis("2023-01-15T15:04:05Z"), first.purchase_date);
    assert_eq!(Some(millis("2024-01-15T15:04:05Z")), first.expiry_at);
    let second = repo.get_product_registration(2).unwrap().registration;
    assert_eq!(millis("2023-03-10T12:00:00Z"), second.purchase_date);
    assert_eq!(None, second.expiry_at);
    let third = repo.get_product_registration(3).unwrap().registration;
    assert_eq!(millis("2022-12-25T08:30:00Z"), third.purchase_date);
    assert_eq!(Some(millis("2023-12-25T08:30:00Z")), third.expiry_at);
}

#[test]
fn registrations_for_profile_pages() {
    let repo = InMemoryProfileRepository::with_example_data();
    let all = repo.get_product_registrations_for_profile(1, 0, 10);
    assert_eq!(vec![1, 2], all.iter().map(|r| r.registration.id).collect::<Vec<u64>>());
    let tail = repo.get_product_registrations_for_profile(1, 1, 10);
    assert_eq!(vec![2], tail.iter().map(|r| r.registration.id).collect::<Vec<u64>>());
    let head = repo.get_product_registrations_for_profile(1, 0, 1);
    assert_eq!(vec![1], head.iter().map(|r| r.registration.id).collect::<Vec<u64>>());
    assert!(repo.get_product_registrations_for_profile(1, 2, 10).is_empty());
    assert!(repo.get_product_registrations_for_profile(1, u64::MAX, usize::MAX).is_empty());
    assert!(repo.get_product_registrations_for_profile(7, 0, 10).is_empty());
    let other = repo.get_product_registrations_for_profile(2, 0, usize::MAX);
    assert_eq!(vec![3], other.iter().map(|r| r.registration.id).collect::<Vec<u64>>());
}

#[test]
fn active_products_follow_expiry() {
    let repo = InMemoryProfileRepository::with_example_data();
    // Profile 1 holds ARIE4 until 2024-01-15T15:04:05Z and ARCC4 for ever.
    let before = as_set(repo.get_active_registered_products(1, 1705331044999));
    assert_eq!(set_of(&["ARIE4", "ARCC4"]), before);
    let at = as_set(repo.get_active_registered_products(1, 1705331045000));
    assert_eq!(set_of(&["ARCC4"]), at);
    let after = as_set(repo.get_active_registered_products(1, i64::MAX));
    assert_eq!(set_of(&["ARCC4"]), after);
    assert!(repo.get_active_registered_products(9, 0).is_empty());
    assert_eq!(set_of(&["ARCM1"]), as_set(repo.get_active_registered_products(2, 0)));
    assert!(repo.get_active_registered_products(2, 1703493000000).is_empty());
}

#[test]
fn registering_a_bundle_stores_root_and_children() {
    let mut repo = example(5_000);
    let record = repo.insert_product_registration(2, "AKB48").unwrap();
    assert_eq!(4, record.registration.id);
    assert_eq!(2, record.registration.profile_id);
    assert_eq!(None, record.registration.parent_id);
    assert_eq!(5_000, record.registration.purchase_date);
    assert_eq!(None, record.registration.expiry_at);
    assert_eq!("AKB48", record.registration.product);
    assert_eq!("S1", record.registration.serial_code);
    assert_eq!(2, record.children.len());
    assert_eq!(5, record.children[0].id);
    assert_eq!(6, record.children[1].id);
    for child in record.children.iter() {
        assert_eq!(2, child.profile_id);
        assert_eq!(Some(4), child.parent_id);
        assert_eq!(5_000, child.purchase_date);
        assert_eq!(None, child.expiry_at);
    }
    let products: HashSet<String> = record.children.iter().map(|c| c.product.clone()).collect();
    assert_eq!(set_of(&["SKE48", "NMB48"]), products);
    let serials: HashSet<String> = record.children.iter().map(|c| c.serial_code.clone()).collect();
    assert_eq!(set_of(&["S2", "S3"]), serials);

    let stored = repo.get_product_registration(4).unwrap();
    assert_eq!(record, stored);
    assert!(repo.get_product_registration(5).unwrap().children.is_empty());
    assert!(repo.get_product_registration(7).is_none());
    let roots = repo.get_product_registrations_for_profile(2, 0, 10);
    assert_eq!(vec![3, 4], roots.iter().map(|r| r.registration.id).collect::<Vec<u64>>());
    assert_eq!(
        set_of(&["ARCM1", "AKB48", "SKE48", "NMB48"]),
        as_set(repo.get_active_registered_products(2, 5_000))
    );
}

#[test]
fn registering_a_leaf_stores_it_as_its_own_child() {
    let mut repo = example(9);
    let record = repo.insert_product_registration(1, "SKE48").unwrap();
    assert_eq!("SKE48", record.registration.product);
    assert_eq!(1, record.children.len());
    assert_eq!("SKE48", record.children[0].product);
    assert_eq!(Some(record.registration.id), record.children[0].parent_id);
}

#[test]
fn registering_an_unknown_product_stores_a_root_alone() {
    let mut repo = example(9);
    let record = repo.insert_product_registration(1, "NOPE1").unwrap();
    assert_eq!(4, record.registration.id);
    assert!(record.children.is_empty());
}

#[test]
fn conflicting_registration_is_rejected_and_stores_nothing() {
    // Profile 2 holds ARCM1 until 2023-12-25T08:30:00Z.
    let mut repo = example(1_700_000_000_000);
    let conflict = repo.insert_product_registration(2, "ARIE4").unwrap_err();
    assert_eq!(vec!["ARCM1".to_string()], conflict);
    assert!(repo.get_product_registration(4).is_none());
    let roots = repo.get_product_registrations_for_profile(2, 0, 10);
    assert_eq!(1, roots.len());

    let direct = repo.insert_product_registration(2, "ARCM1").unwrap_err();
    assert_eq!(vec!["ARCM1".to_string()], direct);
    assert!(repo.get_product_registration(4).is_none());
}

#[test]
fn expired_registration_does_not_conflict() {
    let mut repo = example(1_703_493_000_000);
    let record = repo.insert_product_registration(2, "ARIE4").unwrap();
    assert_eq!(4, record.registration.id);
    assert_eq!(6, record.children.len());
    let products: HashSet<String> = record.children.iter().map(|c| c.product.clone()).collect();
    assert_eq!(
        set_of(&["AKBL1", "AKDS5", "ARAS1", "ARCS1", "ARCH1", "ARCM1"]),
        products
    );
    let ids: Vec<u64> = record.children.iter().map(|c| c.id).collect();
    assert_eq!(vec![5, 6, 7, 8, 9, 10], ids);
}

#[test]
fn registration_at_a_given_instant() {
    let mut repo = example(0);
    let held = repo.insert_product_registration_at(2, "ARCC4", 1_703_492_999_999).unwrap_err();
    assert_eq!(vec!["ARCM1".to_string()], held);
    let record = repo.insert_product_registration_at(2, "ARCC4", 1_703_493_000_000).unwrap();
    assert_eq!(1_703_493_000_000, record.registration.purchase_date);
    assert_eq!(4, record.children.len());
}

#[test]
fn expiry_is_purchase_plus_duration() {
    let mut repo = example(1_000_000);
    let leaves = repo.insert_product("TIMED", &[], Some(10));
    assert!(leaves.is_empty());
    let record = repo.insert_product_registration(1, "TIMED").unwrap();
    assert_eq!(1_000_000, record.registration.purchase_date);
    assert_eq!(Some(1_010_000), record.registration.expiry_at);
    assert_eq!(1, record.children.len());
    assert_eq!(Some(1_010_000), record.children[0].expiry_at);
    // Active one second before the expiry, inactive at it and after.
    assert_eq!(vec!["TIMED".to_string()], repo.get_active_registered_products(1, 1_009_000)
        .into_iter().filter(|s| s == "TIMED").collect::<Vec<String>>());
    assert!(repo.get_active_registered_products(1, 1_009_999).contains(&"TIMED".to_string()));
    assert!(!repo.get_active_registered_products(1, 1_010_000).contains(&"TIMED".to_string()));
    assert!(!repo.get_active_registered_products(1, 1_010_001).contains(&"TIMED".to_string()));
    // Expired, so it can be bought again.
    assert!(repo.insert_product_registration_at(1, "TIMED", 1_010_000).is_ok());
    assert_eq!(
        vec!["TIMED".to_string()],
        repo.insert_product_registration_at(1, "TIMED", 1_010_001).unwrap_err()
    );
}

#[test]
fn children_expire_by_their_own_duration() {
    let mut repo = example(0);
    repo.insert_product("SHORT", &[], Some(1));
    repo.insert_product("LONG1", &[], Some(100));
    repo.insert_product("PACK1", &["SHORT".into(), "LONG1".into()], None);
    let record = repo.insert_product_registration(1, "PACK1").unwrap();
    assert_eq!(None, record.registration.expiry_at);
    for child in record.children.iter() {
        if child.product == "SHORT" {
            assert_eq!(Some(1_000), child.expiry_at);
        } else {
            assert_eq!("LONG1", child.product);
            assert_eq!(Some(100_000), child.expiry_at);
        }
    }
    let held = as_set(repo.get_active_registered_products(1, 1_000));
    assert!(held.contains("PACK1"));
    assert!(held.contains("LONG1"));
    assert!(!held.contains("SHORT"));
}

#[test]
fn expiry_beyond_the_last_instant_is_recorded_as_none() {
    let mut repo = example(i64::MAX - 5);
    repo.insert_product("EDGE1", &[], Some(1));
    repo.insert_product("HUGE1", &[], Some(u64::MAX));
    let edge = repo.insert_product_registration(1, "EDGE1").unwrap();
    assert_eq!(None, edge.registration.expiry_at);
    let huge = repo.insert_product_registration(1, "HUGE1").unwrap();
    assert_eq!(None, huge.registration.expiry_at);
    let mut early = example(i64::MAX - 1_000);
    early.insert_product("EDGE1", &[], Some(1));
    let fits = early.insert_product_registration(1, "EDGE1").unwrap();
    assert_eq!(Some(i64::MAX), fits.registration.expiry_at);
}

#[test]
fn reinserting_a_product_overwrites_bundle_and_duration() {
    let mut repo = example(0);
    repo.insert_product("MIX01", &["AKB48".into()], Some(7));
    assert_eq!(
        set_of(&["SKE48", "NMB48"]),
        as_set(repo.insert_product("OUTER", &["MIX01".into()], None))
    );
    let first = repo.insert_product_registration(1, "MIX01").unwrap();
    assert_eq!(Some(7_000), first.registration.expiry_at);

    repo.insert_product("MIX01", &["ARAS1".into()], None);
    assert_eq!(
        set_of(&["ARAS1"]),
        as_set(repo.insert_product("OUTER", &["MIX01".into()], None))
    );
    let second = repo.insert_product_registration(2, "MIX01").unwrap();
    assert_eq!(None, second.registration.expiry_at);
    assert_eq!(1, second.children.len());
    assert_eq!("ARAS1", second.children[0].product);
}

#[test]
fn find_missing_products_keeps_order() {
    let repo = InMemoryProfileRepository::with_example_data();
    let missing = repo.find_missing_products(&[
        "ZZZ".into(),
        "ARIE4".into(),
        "AAA".into(),
        "NMB48".into(),
        "ZZZ".into(),
    ]);
    assert_eq!(vec!["ZZZ".to_string(), "AAA".to_string(), "ZZZ".to_string()], missing);
    assert!(repo.find_missing_products(&[]).is_empty());
}
