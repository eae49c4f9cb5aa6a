use std::collections::HashSet;

use profile_registry::inram::InMemoryProfileRepository;
use profile_registry::service::{ProfileService, ProfileServiceConfig, ProfileServiceError};
use profile_registry::service_model::{ProductRegistration, ProductRegistrationRecord, Profile};
use profile_registry::sku::SkuError;
use profile_registry::sources::{Clock, SerialSource};

struct MinClock;

impl Clock for MinClock {
    fn now_millis(&mut self) -> i64 {
        chrono::DateTime::<chrono::Utc>::MIN_UTC.timestamp_millis()
    }
}

struct EmptySerial;

impl SerialSource for EmptySerial {
    fn next_serial(&mut self) -> String {
        String::new()
    }
}

fn millis(text: &str) -> i64 {
    chrono::DateTime::parse_from_rfc3339(text).unwrap().timestamp_millis()
}

fn registration1() -> ProductRegistrationRecord {
    ProductRegistrationRecord {
        registration: ProductRegistration {
            id: 1,
            purchase_date: millis("2023-01-15T15:04:05Z"),
            expiry_at: Some(millis("2024-01-15T15:04:05Z")),
            product: "ARIE4".into(),
            serial_code: "A1B2C3D4".into(),
        },
        children: Vec::new(),
    }
}

fn setup() -> ProfileService<InMemoryProfileRepository<EmptySerial, MinClock>> {
    ProfileService::new(
        InMemoryProfileRepository::with_example_data_and_sources(EmptySerial, MinClock),
        ProfileServiceConfig::default(),
    )
}

fn paged(
    profiles: usize,
    registrations: usize,
) -> ProfileService<InMemoryProfileRepository<EmptySerial, MinClock>> {
    ProfileService::new(
        InMemoryProfileRepository::with_example_data_and_sources(EmptySerial, MinClock),
        ProfileServiceConfig {
            profile_per_page: profiles,
            product_registrations_per_page: registrations,
        },
    )
}

fn set_of(items: &[&str]) -> HashSet<String> {
    items.iter().map(|s| s.to_string()).collect()
}

#[test]
fn test_product_insert_empty_product_name() {
    let mut service = setup();

    let res = service.create_product("", None, &["foo".into(), "bar".into()]);

    assert!(res.is_err());
}

#[test]
fn test_get_product_registration_for_profile() {
    let service = setup();

    let res = service.get_product_registrations_for_profile(1, 0);

    assert!(res.is_some());
    let registrations = res.unwrap();
    assert_eq!(
        Vec::from([
            registration1().to_owned(),
            ProductRegistrationRecord {
                registration: ProductRegistration {
                    id: 2,
                    purchase_date: millis("2023-03-10T12:00:00Z"),
                    expiry_at: None,
                    product: "ARCC4".into(),
                    serial_code: "L3M4N5O6".into(),
                },
                children: Vec::new()
            }
        ]),
        registrations
    );
}

#[test]
fn test_get_product_registration_for_profile_nonexistent_profile() {
    let service = setup();

    let res = service.get_product_registrations_for_profile(1337, 0);

    assert!(res.is_none());
}

#[test]
fn get_product_registration_success() {
    let service = setup();

    let registration_id = 1;
    let res = service.get_product_registration(registration_id);
    assert_eq!(Some(registration1().clone()), res);
}

#[test]
fn get_product_registration_notfound() {
    let service = setup();

    let registration_id = 1337;
    let res = service.get_product_registration(registration_id);
    assert_eq!(None, res);
}

#[test]
fn create_product_registration_success() {
    let mut service = setup();

    let res = service.create_product_registration(1, "AKB48");
    assert!(res.is_ok());
    let mut record = res.unwrap();
    record.children.sort_by(|a, b| a.product.cmp(&b.product));
    let min = chrono::DateTime::<chrono::Utc>::MIN_UTC.timestamp_millis();
    let ids: Vec<u64> = record.children.iter().map(|c| c.id).collect();
    assert!(ids == vec![5, 6] || ids == vec![6, 5]);
    for child in record.children.iter_mut() {
        child.id = 0;
    }
    assert_eq!(
        ProductRegistrationRecord {
            registration: ProductRegistration {
                id: 4,
                purchase_date: min,
                expiry_at: None,
                product: "AKB48".into(),
                serial_code: String::new()
            },
            children: Vec::from([
                ProductRegistration {
                    id: 0,
                    purchase_date: min,
                    expiry_at: None,
                    product: "NMB48".into(),
                    serial_code: String::new()
                },
                ProductRegistration {
                    id: 0,
                    purchase_date: min,
                    expiry_at: None,
                    product: "SKE48".into(),
                    serial_code: String::new()
                },
            ])
        },
        record
    );
}

#[test]
fn default_config_has_thirty_per_page() {
    let config = ProfileServiceConfig::default();
    assert_eq!(30, config.profile_per_page);
    assert_eq!(30, config.product_registrations_per_page);
}

#[test]
fn service_pages_profiles() {
    let service = setup();
    let first = service.get_profiles(0);
    assert_eq!(
        vec![
            Profile {
                id: 1,
                email: "john.doe@example.com".into(),
                firstname: "John".into(),
                lastname: "Doe".into()
            },
            Profile {
                id: 2,
                email: "jane.smith@example.com".into(),
                firstname: "Jane".into(),
                lastname: "Smith".into()
            },
        ],
        first
    );
    assert!(service.get_profiles(1).is_empty());
    assert!(service.get_profiles(u32::MAX).is_empty());

    let single = paged(1, 1);
    assert_eq!(vec![1], single.get_profiles(0).iter().map(|p| p.id).collect::<Vec<u64>>());
    assert_eq!(vec![2], single.get_profiles(1).iter().map(|p| p.id).collect::<Vec<u64>>());
    assert!(single.get_profiles(2).is_empty());

    let none = paged(0, 0);
    assert!(none.get_profiles(0).is_empty());
    let huge = paged(usize::MAX, usize::MAX);
    assert_eq!(2, huge.get_profiles(0).len());
    assert!(huge.get_profiles(1).is_empty());
    assert!(huge.get_profiles(u32::MAX).is_empty());
}

#[test]
fn service_pages_registrations() {
    let single = paged(1, 1);
    let first = single.get_product_registrations_for_profile(1, 0).unwrap();
    assert_eq!(vec![1], first.iter().map(|r| r.registration.id).collect::<Vec<u64>>());
    let second = single.get_product_registrations_for_profile(1, 1).unwrap();
    assert_eq!(vec![2], second.iter().map(|r| r.registration.id).collect::<Vec<u64>>());
    assert!(single.get_product_registrations_for_profile(1, 2).unwrap().is_empty());
    assert!(single.get_product_registrations_for_profile(0, 0).is_none());
    assert!(single.get_product_registrations_for_profile(3, 0).is_none());
    let huge = paged(usize::MAX, usize::MAX);
    assert_eq!(2, huge.get_product_registrations_for_profile(1, 0).unwrap().len());
    assert!(huge.get_product_registrations_for_profile(1, 7).unwrap().is_empty());
}

#[test]
fn service_shows_children() {
    let mut service = setup();
    let made = service.create_product_registration(2, "AKB48").unwrap();
    let shown = service.get_product_registration(4).unwrap();
    assert_eq!(made, shown);
    assert_eq!(2, shown.children.len());
    assert!(service.get_product_registration(0).is_none());
    assert!(service.get_product_registration(7).is_none());
    let leaf = service.get_product_registration(5).unwrap();
    assert!(leaf.children.is_empty());
}

#[test]
fn create_product_rejects_bad_skus() {
    let mut service = setup();
    assert_eq!(
        Err(ProfileServiceError::InvalidInput(SkuError::Empty)),
        service.create_product("", None, &[])
    );
    assert_eq!(
        Err(ProfileServiceError::InvalidInput(SkuError::NotAlphanumeric)),
        service.create_product("abc", None, &[])
    );
    assert_eq!(
        Err(ProfileServiceError::InvalidInput(SkuError::NotAlphanumeric)),
        service.create_product("NEW1", None, &["ARIE4".into(), "ar-cc".into(), "".into()])
    );
    assert_eq!(
        Err(ProfileServiceError::InvalidInput(SkuError::Empty)),
        service.create_product("NEW1", None, &["ARIE4".into(), "".into(), "ar-cc".into()])
    );
    // The product's own SKU is judged before the bundle.
    assert_eq!(
        Err(ProfileServiceError::InvalidInput(SkuError::NotAlphanumeric)),
        service.create_product("new 1", None, &["".into()])
    );
    assert!(service.create_product("NEW1", None, &[]).is_ok());
}

#[test]
fn create_product_rejects_unknown_bundle() {
    let mut service = setup();
    assert_eq!(
        Err(ProfileServiceError::UnknownReference(vec!["FOO".into(), "BAR".into()])),
        service.create_product("NEW1", None, &["FOO".into(), "ARIE4".into(), "BAR".into()])
    );
    // Nothing was stored.
    assert_eq!(
        Err(ProfileServiceError::UnknownReference(vec!["NEW1".into()])),
        service.create_product("NEW2", None, &["NEW1".into()])
    );
}

#[test]
fn create_product_rejects_existing_product() {
    let mut service = setup();
    assert_eq!(
        Err(ProfileServiceError::AlreadyExists("ARIE4".into())),
        service.create_product("ARIE4", None, &[])
    );
    // An unknown bundle is reported before an existing product.
    assert_eq!(
        Err(ProfileServiceError::UnknownReference(vec!["FOO".into()])),
        service.create_product("ARIE4", None, &["FOO".into()])
    );
}

#[test]
fn create_product_stores_flattened_leaves() {
    let mut service = setup();
    let leaves: HashSet<String> =
        service.create_product("OUTER", Some(60), &["ARIE4".into()]).unwrap().into_iter().collect();
    assert_eq!(
        set_of(&["AKBL1", "AKDS5", "ARAS1", "ARCS1", "ARCH1", "ARCM1"]),
        leaves
    );
    let direct: HashSet<String> = service
        .create_product(
            "DIRECT",
            None,
            &[
                "AKBL1".into(),
                "AKDS5".into(),
                "ARAS1".into(),
                "ARCS1".into(),
                "ARCH1".into(),
                "ARCM1".into(),
            ],
        )
        .unwrap()
        .into_iter()
        .collect();
    assert_eq!(leaves, direct);
    let nested: HashSet<String> =
        service.create_product("NESTED", None, &["OUTER".into()]).unwrap().into_iter().collect();
    assert_eq!(leaves, nested);
    let twice: HashSet<String> = service
        .create_product("TWICE", None, &["OUTER".into(), "ARCC4".into(), "OUTER".into()])
        .unwrap()
        .into_iter()
        .collect();
    assert_eq!(leaves, twice);
}

#[test]
fn create_product_registration_checks_in_order() {
    let mut service = setup();
    assert_eq!(
        Err(ProfileServiceError::NotFound(1337)),
        service.create_product_registration(1337, "AKB48")
    );
    assert_eq!(
        Err(ProfileServiceError::NotFound(0)),
        service.create_product_registration(0, "nope")
    );
    assert_eq!(
        Err(ProfileServiceError::UnknownProduct("NOPE".into())),
        service.create_product_registration(1, "NOPE")
    );
    assert_eq!(
        Err(ProfileServiceError::UnknownProduct("".into())),
        service.create_product_registration(1, "")
    );
    assert!(service.get_product_registration(4).is_none());
}

#[test]
fn create_product_registration_reports_conflict() {
    let mut service = setup();
    // At the earliest instant every example registration is active.
    assert_eq!(
        Err(ProfileServiceError::Conflict(vec!["ARCM1".into()])),
        service.create_product_registration(2, "ARIE4")
    );
    assert_eq!(
        Err(ProfileServiceError::Conflict(vec!["ARCM1".into()])),
        service.create_product_registration(2, "ARCC4")
    );
    assert!(service.get_product_registration(4).is_none());
    assert_eq!(1, service.get_product_registrations_for_profile(2, 0).unwrap().len());
    // Profile 1 holds the bundles ARIE4 and ARCC4, which are no leaves.
    let ok = service.create_product_registration(1, "ARCC4").unwrap();
    assert_eq!(4, ok.registration.id);
    assert_eq!(4, ok.children.len());
    let again = service.create_product_registration(1, "ARIE4").unwrap_err();
    match again {
        ProfileServiceError::Conflict(held) => {
            let held: HashSet<String> = held.into_iter().collect();
            assert_eq!(set_of(&["ARAS1", "ARCS1", "ARCH1", "ARCM1"]), held);
        }
        other => panic!("{:?}", other),
    }
}
