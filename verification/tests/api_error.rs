use profile_registry::api_error::{error_message, ProfileApiError};
use profile_registry::service::ProfileServiceError;
use profile_registry::sku::SkuError;
use profile_registry::text::{append_decimal, append_quoted_list};

fn decimal(n: u64) -> String {
    let mut text = String::from("#");
    append_decimal(&mut text, n);
    text
}

#[test]
fn decimal_texts() {
    assert_eq!("#0", decimal(0));
    assert_eq!("#7", decimal(7));
    assert_eq!("#9", decimal(9));
    assert_eq!("#10", decimal(10));
    assert_eq!("#1337", decimal(1337));
    assert_eq!("#1234567890", decimal(1234567890));
    assert_eq!("#18446744073709551615", decimal(u64::MAX));
    for n in [0u64, 5, 10, 99, 100, 101, 65_535, 4_294_967_296, u64::MAX - 1] {
        assert_eq!(format!("#{}", n), decimal(n));
    }
}

#[test]
fn quoted_lists() {
    let mut text = String::from(">");
    append_quoted_list(&mut text, &vec![]);
    assert_eq!(">", text);
    append_quoted_list(&mut text, &vec!["A".to_string()]);
    assert_eq!(">\"A\"", text);
    let mut more = String::new();
    append_quoted_list(&mut more, &vec!["A".to_string(), "".to_string(), "B C".to_string()]);
    assert_eq!("\"A\", \"\", \"B C\"", more);
    let items = vec!["ARCM1".to_string(), "AKBL1".to_string()];
    let mut debug = String::from("[");
    append_quoted_list(&mut debug, &items);
    debug.push(']');
    assert_eq!(format!("{:?}", items), debug);
}

#[test]
fn error_messages() {
    assert_eq!(
        "profile_id:1337 does not exist",
        error_message(&ProfileServiceError::NotFound(1337))
    );
    assert_eq!(
        "Empty strings are not allowed",
        error_message(&ProfileServiceError::InvalidInput(SkuError::Empty))
    );
    assert_eq!(
        "Product SKU can only contain alphanumeric characters",
        error_message(&ProfileServiceError::InvalidInput(SkuError::NotAlphanumeric))
    );
    assert_eq!(
        "Products [\"FOO\", \"BAR\"] does not exist",
        error_message(&ProfileServiceError::UnknownReference(vec!["FOO".into(), "BAR".into()]))
    );
    assert_eq!(
        "product:NOPE does not exist",
        error_message(&ProfileServiceError::UnknownProduct("NOPE".into()))
    );
    assert_eq!(
        format!("product:{} does not exist", "AKB 48"),
        error_message(&ProfileServiceError::UnknownProduct("AKB 48".into()))
    );
    assert_eq!(
        "Product ARIE4 exists",
        error_message(&ProfileServiceError::AlreadyExists("ARIE4".into()))
    );
    assert_eq!(
        "Unable to create registration as this will create a duplicate registration:{\"ARCM1\"}",
        error_message(&ProfileServiceError::Conflict(vec!["ARCM1".into()]))
    );
    let held: std::collections::HashSet<String> = ["ARCM1".to_string()].into_iter().collect();
    assert_eq!(
        format!(
            "Unable to create registration as this will create a duplicate registration:{:?}",
            held
        ),
        error_message(&ProfileServiceError::Conflict(vec!["ARCM1".into()]))
    );
    let missing = vec!["FOO".to_string(), "BAR".to_string()];
    assert_eq!(
        format!("Products {:?} does not exist", missing),
        error_message(&ProfileServiceError::UnknownReference(missing))
    );
}

#[test]
fn service_errors_are_passed_on() {
    assert_eq!(
        ProfileApiError::BadRequest("profile_id:0 does not exist".into()),
        ProfileApiError::from(ProfileServiceError::NotFound(0))
    );
    assert_eq!(
        ProfileApiError::BadRequest("Empty strings are not allowed".into()),
        ProfileApiError::from(ProfileServiceError::InvalidInput(SkuError::Empty))
    );
    assert_eq!(
        ProfileApiError::BadRequest("Products [] does not exist".into()),
        ProfileApiError::from(ProfileServiceError::UnknownReference(vec![]))
    );
    assert_eq!(
        ProfileApiError::BadRequest("product:A does not exist".into()),
        ProfileApiError::from(ProfileServiceError::UnknownProduct("A".into()))
    );
    assert_eq!(
        ProfileApiError::BadRequest("Product A exists".into()),
        ProfileApiError::from(ProfileServiceError::AlreadyExists("A".into()))
    );
    assert_eq!(
        ProfileApiError::InternalError(
            "Unable to create registration as this will create a duplicate registration:{\"A\", \"B\"}"
                .into()
        ),
        ProfileApiError::from(ProfileServiceError::Conflict(vec!["A".into(), "B".into()]))
    );
}
