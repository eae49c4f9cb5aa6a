//! The records that the repository stores and hands out.

use vstd::prelude::*;

verus! {

/// A customer profile.
#[derive(Debug, PartialEq, Eq)]
pub struct Profile {
    pub id: u64,
    pub email: String,
    pub firstname: String,
    pub lastname: String,
}

impl Clone for Profile {
    fn clone(&self) -> (copy: Self)
        ensures
            copy == *self,
    {
        Profile {
            id: self.id,
            email: self.email.clone(),
            firstname: self.firstname.clone(),
            lastname: self.lastname.clone(),
        }
    }
}

/// One registration of a product for a profile. Instants are milliseconds
/// since the Unix epoch.
#[derive(Debug, PartialEq, Eq)]
pub struct ProductRegistration {
    pub id: u64,
    /// The profile that owns the registration.
    pub profile_id: u64,
    /// The registration that this one was created under; `None` for a root.
    pub parent_id: Option<u64>,
    pub purchase_date: i64,
    /// The first instant at which the registration is no longer active;
    /// `None` where it never expires.
    pub expiry_at: Option<i64>,
    pub product: String,
    pub serial_code: String,
}

impl Clone for ProductRegistration {
    fn clone(&self) -> (copy: Self)
        ensures
            copy == *self,
    {
        ProductRegistration {
            id: self.id,
            profile_id: self.profile_id,
            parent_id: self.parent_id,
            purchase_date: self.purchase_date,
            expiry_at: self.expiry_at,
            product: self.product.clone(),
            serial_code: self.serial_code.clone(),
        }
    }
}

/// A registration together with the registrations created under it.
#[derive(Debug, PartialEq, Eq)]
pub struct ProductRegistrationRecord {
    pub registration: ProductRegistration,
    pub children: Vec<ProductRegistration>,
}

/// Copies a sequence of registrations.
pub fn clone_registrations(items: &Vec<ProductRegistration>) -> (copy: Vec<ProductRegistration>)
    ensures
        copy@ == items@,
{
    let mut copy: Vec<ProductRegistration> = Vec::new();
    let mut i: usize = 0;
    while i < items.len()
        invariant
            i <= items.len(),
            copy@ == items@.subrange(0, i as int),
        decreases items.len() - i,
    {
        let item = items[i].clone();
        assert(items@.subrange(0, i + 1) =~= items@.subrange(0, i as int).push(item));
        copy.push(item);
        i += 1;
    }
    assert(items@.subrange(0, items@.len() as int) =~= items@);
    copy
}

impl Clone for ProductRegistrationRecord {
    fn clone(&self) -> (copy: Self)
        ensures
            copy.registration == self.registration,
            copy.children@ == self.children@,
    {
        ProductRegistrationRecord {
            registration: self.registration.clone(),
            children: clone_registrations(&self.children),
        }
    }
}

} // verus!
