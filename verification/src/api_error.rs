//! The errors of the service as a caller over the wire is told of them.

use crate::catalog_store::sku_views;
use crate::service::ProfileServiceError;
use crate::sku::SkuError;
use crate::text::{append_decimal, append_quoted_list, decimal_text, quoted_list};
use vstd::prelude::*;
use vstd::std_specs::convert::FromSpecImpl;
use vstd::string::*;

verus! {

/// The text that a SKU fault is shown with.
pub open spec fn fault_text(fault: SkuError) -> Seq<char> {
    match fault {
        SkuError::Empty => "Empty strings are not allowed"@,
        SkuError::NotAlphanumeric => "Product SKU can only contain alphanumeric characters"@,
    }
}

/// The text that an error of the service is shown with.
pub open spec fn message_text(error: ProfileServiceError) -> Seq<char> {
    match error {
        ProfileServiceError::NotFound(profile_id) => "profile_id:"@ + decimal_text(
            profile_id as nat,
        ) + " does not exist"@,
        ProfileServiceError::InvalidInput(fault) => fault_text(fault),
        ProfileServiceError::UnknownReference(skus) => "Products ["@ + quoted_list(
            sku_views(skus@),
        ) + "] does not exist"@,
        ProfileServiceError::UnknownProduct(sku) => "product:"@ + sku@ + " does not exist"@,
        ProfileServiceError::AlreadyExists(sku) => "Product "@ + sku@ + " exists"@,
        ProfileServiceError::Conflict(held) =>
            "Unable to create registration as this will create a duplicate registration:{"@
                + quoted_list(sku_views(held@)) + "}"@,
    }
}

/// The text that `error` is shown with.
pub fn error_message(error: &ProfileServiceError) -> (text: String)
    ensures
        text@ == message_text(*error),
{
    let mut text = String::new();
    match error {
        ProfileServiceError::NotFound(profile_id) => {
            text.append("profile_id:");
            append_decimal(&mut text, *profile_id);
            text.append(" does not exist");
            assert(text@ =~= message_text(*error));
        },
        ProfileServiceError::InvalidInput(fault) => {
            text.append(fault.message());
            assert(text@ =~= message_text(*error));
        },
        ProfileServiceError::UnknownReference(skus) => {
            text.append("Products [");
            append_quoted_list(&mut text, skus);
            text.append("] does not exist");
            assert(text@ =~= message_text(*error));
        },
        ProfileServiceError::UnknownProduct(sku) => {
            text.append("product:");
            text.append(sku.as_str());
            text.append(" does not exist");
            assert(text@ =~= message_text(*error));
        },
        ProfileServiceError::AlreadyExists(sku) => {
            text.append("Product ");
            text.append(sku.as_str());
            text.append(" exists");
            assert(text@ =~= message_text(*error));
        },
        ProfileServiceError::Conflict(held) => {
            text.append(
                "Unable to create registration as this will create a duplicate registration:{",
            );
            append_quoted_list(&mut text, held);
            text.append("}");
            assert(text@ =~= message_text(*error));
        },
    }
    text
}

/// What a caller over the wire is told.
#[derive(Debug, PartialEq, Eq)]
pub enum ProfileApiError {
    NotFound,
    BadRequest(String),
    InternalError(String),
}

/// How an error of the service is passed on: a conflict as an internal
/// error, every other one as a bad request, each with its text as the
/// reason.
pub open spec fn is_passed_on(error: ProfileServiceError, told: ProfileApiError) -> bool {
    match error {
        ProfileServiceError::Conflict(_) => told matches ProfileApiError::InternalError(reason)
            && reason@ == message_text(error),
        _ => told matches ProfileApiError::BadRequest(reason) && reason@ == message_text(error),
    }
}

impl FromSpecImpl<ProfileServiceError> for ProfileApiError {
    /// The conversion is stated by `is_passed_on`, in the contract of
    /// `from`: two strings with the same characters need not be the same
    /// value.
    open spec fn obeys_from_spec() -> bool {
        false
    }

    open spec fn from_spec(value: ProfileServiceError) -> Self {
        choose|told: Self| is_passed_on(value, told)
    }
}

impl From<ProfileServiceError> for ProfileApiError {
    fn from(value: ProfileServiceError) -> (told: Self)
        ensures
            is_passed_on(value, told),
    {
        let reason = error_message(&value);
        match value {
            ProfileServiceError::Conflict(_) => ProfileApiError::InternalError(reason),
            _ => ProfileApiError::BadRequest(reason),
        }
    }
}

} // verus!
