//! The records that the service hands to its callers.

use vstd::prelude::*;
use vstd::std_specs::convert::FromSpecImpl;

verus! {

/// A customer profile as the service's callers see it.
#[derive(Debug, Clone, PartialEq, Eq)]
pub struct Profile {
    pub id: u64,
    pub email: String,
    pub firstname: String,
    pub lastname: String,
}

impl From<crate::model::Profile> for Profile {
    fn from(value: crate::model::Profile) -> (profile: Self) {
        Profile {
            id: value.id,
            email: value.email,
            firstname: value.firstname,
            lastname: value.lastname,
        }
    }
}

impl FromSpecImpl<crate::model::Profile> for Profile {
    open spec fn obeys_from_spec() -> bool {
        true
    }

    open spec fn from_spec(value: crate::model::Profile) -> Self {
        shown_profile(value)
    }
}

/// The service's view of a profile.
pub open spec fn shown_profile(value: crate::model::Profile) -> Profile {
    Profile {
        id: value.id,
        email: value.email,
        firstname: value.firstname,
        lastname: value.lastname,
    }
}

/// A registration as the service's callers see it: without its owner and
/// its parent. Instants are milliseconds since the Unix epoch.
#[derive(Debug, Clone, PartialEq, Eq)]
pub struct ProductRegistration {
    pub id: u64,
    pub purchase_date: i64,
    pub expiry_at: Option<i64>,
    pub product: String,
    pub serial_code: String,
}

impl From<crate::model::ProductRegistration> for ProductRegistration {
    fn from(value: crate::model::ProductRegistration) -> (registration: Self) {
        ProductRegistration {
            id: value.id,
            purchase_date: value.purchase_date,
            expiry_at: value.expiry_at,
            product: value.product,
            serial_code: value.serial_code,
        }
    }
}

impl FromSpecImpl<crate::model::ProductRegistration> for ProductRegistration {
    open spec fn obeys_from_spec() -> bool {
        true
    }

    open spec fn from_spec(value: crate::model::ProductRegistration) -> Self {
        shown_registration(value)
    }
}

/// The service's view of a registration.
pub open spec fn shown_registration(
    value: crate::model::ProductRegistration,
) -> ProductRegistration {
    ProductRegistration {
        id: value.id,
        purchase_date: value.purchase_date,
        expiry_at: value.expiry_at,
        product: value.product,
        serial_code: value.serial_code,
    }
}

/// A registration with the registrations created under it.
#[derive(Debug, Clone, PartialEq, Eq)]
pub struct ProductRegistrationRecord {
    pub registration: ProductRegistration,
    pub children: Vec<ProductRegistration>,
}

/// The service's view of a sequence of profiles.
pub open spec fn shown_profiles(items: Seq<crate::model::Profile>) -> Seq<Profile> {
    items.map_values(|p: crate::model::Profile| shown_profile(p))
}

/// The service's view of a sequence of registrations.
pub open spec fn shown_registrations(items: Seq<crate::model::ProductRegistration>) -> Seq<
    ProductRegistration,
> {
    items.map_values(|r: crate::model::ProductRegistration| shown_registration(r))
}

/// `shown` is the service's view of the registration `root` with the
/// children `children`.
pub open spec fn shows(
    shown: ProductRegistrationRecord,
    root: crate::model::ProductRegistration,
    children: Seq<crate::model::ProductRegistration>,
) -> bool {
    &&& shown.registration == shown_registration(root)
    &&& shown.children@ == shown_registrations(children)
}

impl FromSpecImpl<crate::model::ProductRegistrationRecord> for ProductRegistrationRecord {
    /// The conversion is stated by `shows`, in the contract of `from`: two
    /// vectors with the same items need not be the same value.
    open spec fn obeys_from_spec() -> bool {
        false
    }

    open spec fn from_spec(value: crate::model::ProductRegistrationRecord) -> Self {
        choose|shown: Self| shows(shown, value.registration, value.children@)
    }
}

impl From<crate::model::ProductRegistrationRecord> for ProductRegistrationRecord {
    fn from(value: crate::model::ProductRegistrationRecord) -> (record: Self)
        ensures
            shows(record, value.registration, value.children@),
    {
        let crate::model::ProductRegistrationRecord { registration, children } = value;
        let ghost all = children@;
        let mut shown: Vec<ProductRegistration> = Vec::new();
        let mut rest = children;
        let mut i: usize = 0;
        let n = rest.len();
        while i < n
            invariant
                n == all.len(),
                rest@.len() == n,
                i <= n,
                forall|j: int| i <= j < n ==> rest@[j] == all[j],
                shown@ == shown_registrations(all.subrange(0, i as int)),
            decreases n - i,
        {
            let item = rest[i].clone();
            assert(all.subrange(0, i + 1) =~= all.subrange(0, i as int).push(item));
            assert(shown_registrations(all.subrange(0, i as int).push(item))
                =~= shown_registrations(all.subrange(0, i as int)).push(
                shown_registration(item),
            ));
            shown.push(ProductRegistration::from(item));
            i += 1;
        }
        assert(all.subrange(0, n as int) =~= all);
        ProductRegistrationRecord {
            registration: ProductRegistration::from(registration),
            children: shown,
        }
    }
}

} // verus!
