//! The service that callers talk to: paging, validation, product creation
//! and product registration on top of a store.

use crate::catalog_store::sku_views;
use crate::ledger_model::{children_of, root_ids, window, Ledger};
use crate::reach::{resolved_leaves, Bundles};
use crate::repository::{
    conflicting_products, is_commit, is_registration_outcome, profile_at, ProfileRepository,
};
use crate::service_model::{
    shown_profile, shown_profiles, shows, ProductRegistrationRecord, Profile,
};
use crate::sku::{first_sku_error, is_product_sku_valid, sku_error, SkuError};
use vstd::prelude::*;

verus! {

/// How many items a page shows.
#[derive(Debug, Clone, Copy, PartialEq, Eq)]
pub struct ProfileServiceConfig {
    pub profile_per_page: usize,
    pub product_registrations_per_page: usize,
}

impl Default for ProfileServiceConfig {
    fn default() -> (config: Self)
        ensures
            config.profile_per_page == 30,
            config.product_registrations_per_page == 30,
    {
        ProfileServiceConfig { profile_per_page: 30, product_registrations_per_page: 30 }
    }
}

/// Why the service turned a request down.
#[derive(Debug, PartialEq, Eq)]
pub enum ProfileServiceError {
    /// There is no profile with this id.
    NotFound(u64),
    /// A SKU is not well formed.
    InvalidInput(SkuError),
    /// These SKUs of a bundle are not in the catalog.
    UnknownReference(Vec<String>),
    /// The product asked for is not in the catalog.
    UnknownProduct(String),
    /// The catalog already has a product with this SKU.
    AlreadyExists(String),
    /// The profile already holds these leaves of the requested product.
    Conflict(Vec<String>),
}

/// The offset at which page `page` starts.
pub open spec fn page_start(page: u32, per_page: usize) -> int {
    page * per_page
}

/// The offset at which page `page` starts, where it fits a `u64`.
pub fn page_offset(page: u32, per_page: usize) -> (offset: Option<u64>)
    ensures
        offset == (if page_start(page, per_page) <= u64::MAX {
            Some(page_start(page, per_page) as u64)
        } else {
            None
        }),
{
    assert(0 <= page * per_page <= 0xffff_ffff * 0xffff_ffff_ffff_ffff) by (nonlinear_arith)
        requires
            0 <= page <= 0xffff_ffff,
            0 <= per_page <= 0xffff_ffff_ffff_ffff,
    ;
    let wide: u128 = (page as u128) * (per_page as u128);
    if wide <= u64::MAX as u128 {
        Some(wide as u64)
    } else {
        None
    }
}

/// What is to be said of a request to create `product` with the bundle
/// `subproducts`.
pub enum ProductCheck {
    /// The product's SKU, or else the first ill-formed SKU of the bundle, has
    /// this fault.
    Invalid(SkuError),
    /// Every SKU is well formed, and some SKU of the bundle is not in the
    /// catalog.
    Unknown,
    /// Every SKU is well formed and the bundle is known, but the catalog
    /// already has the product.
    Exists,
    /// Nothing stands against the request.
    Accepted,
}

/// Some SKU of `skus` is not in the catalog.
pub open spec fn some_unknown(bundles: Bundles, skus: Seq<Seq<char>>) -> bool {
    exists|i: int| 0 <= i < skus.len() && !bundles.dom().contains(#[trigger] skus[i])
}

/// Judges a request to create `product` with the bundle `subproducts`.
pub open spec fn check_new_product(
    bundles: Bundles,
    product: Seq<char>,
    subproducts: Seq<Seq<char>>,
) -> ProductCheck {
    if sku_error(product) is Some {
        ProductCheck::Invalid(sku_error(product)->0)
    } else if first_sku_error(subproducts, 0) is Some {
        ProductCheck::Invalid(first_sku_error(subproducts, 0)->0)
    } else if some_unknown(bundles, subproducts) {
        ProductCheck::Unknown
    } else if bundles.dom().contains(product) {
        ProductCheck::Exists
    } else {
        ProductCheck::Accepted
    }
}

/// What is to be said of a request to register `sku` for `profile_id`,
/// before the profile's registrations are looked at.
pub enum RegistrationCheck {
    /// There is no such profile.
    NoProfile,
    /// The profile exists, and the catalog does not have the product.
    UnknownProduct,
    /// The profile and the product exist, and the SKU has this fault.
    Invalid(SkuError),
    /// The request goes on to the store.
    Proceed,
}

/// Judges a request to register `sku` for `profile_id`.
pub open spec fn check_registration(
    profiles: Seq<crate::model::Profile>,
    bundles: Bundles,
    profile_id: u64,
    sku: Seq<char>,
) -> RegistrationCheck {
    if profile_at(profiles, profile_id) is None {
        RegistrationCheck::NoProfile
    } else if !bundles.dom().contains(sku) {
        RegistrationCheck::UnknownProduct
    } else if sku_error(sku) is Some {
        RegistrationCheck::Invalid(sku_error(sku)->0)
    } else {
        RegistrationCheck::Proceed
    }
}

/// What a registration attempt at `now` that reached the store comes to,
/// as the service reports it: a committed registration is shown as a
/// record; a conflict is reported with the leaves that the profile holds, and
/// nothing is stored.
pub open spec fn is_service_outcome(
    bundles: Bundles,
    durations: Map<Seq<char>, u64>,
    before: Ledger,
    after: Ledger,
    outcome: Result<ProductRegistrationRecord, ProfileServiceError>,
    profile_id: u64,
    sku: Seq<char>,
    now: i64,
) -> bool {
    let conflicts = conflicting_products(bundles, before, profile_id, sku, now);
    match outcome {
        Ok(shown) => {
            &&& conflicts == Set::<Seq<char>>::empty()
            &&& after.len() > before.len()
            &&& is_commit(
                before,
                after,
                after[before.len() as int],
                after.subrange(before.len() as int + 1, after.len() as int),
                profile_id,
                sku,
                resolved_leaves(bundles, set![sku]),
                durations,
                now,
            )
            &&& shows(
                shown,
                after[before.len() as int],
                after.subrange(before.len() as int + 1, after.len() as int),
            )
        },
        Err(ProfileServiceError::Conflict(held)) => {
            &&& conflicts != Set::<Seq<char>>::empty()
            &&& sku_views(held@).no_duplicates()
            &&& sku_views(held@).to_set() == conflicts
            &&& after == before
        },
        Err(_) => false,
    }
}

/// What a request to register `sku` for `profile_id` is answered with.
/// Where it is turned down before the store is asked, the answer says why
/// and the ledger stays as it was; else some instant fits what the store
/// made of it.
pub open spec fn is_registration_reply(
    profiles: Seq<crate::model::Profile>,
    bundles: Bundles,
    durations: Map<Seq<char>, u64>,
    before: Ledger,
    after: Ledger,
    created: Result<ProductRegistrationRecord, ProfileServiceError>,
    profile_id: u64,
    sku: Seq<char>,
) -> bool {
    match check_registration(profiles, bundles, profile_id, sku) {
        RegistrationCheck::NoProfile => {
            &&& created == Err::<ProductRegistrationRecord, ProfileServiceError>(
                ProfileServiceError::NotFound(profile_id),
            )
            &&& after == before
        },
        RegistrationCheck::UnknownProduct => {
            &&& created matches Err(ProfileServiceError::UnknownProduct(missing))
            &&& missing@ == sku
            &&& after == before
        },
        RegistrationCheck::Invalid(fault) => {
            &&& created == Err::<ProductRegistrationRecord, ProfileServiceError>(
                ProfileServiceError::InvalidInput(fault),
            )
            &&& after == before
        },
        RegistrationCheck::Proceed => exists|now: i64| #[trigger]
            is_service_outcome(bundles, durations, before, after, created, profile_id, sku, now),
    }
}

/// `shown` is the service's view of the registration with id `id` and its
/// children.
pub open spec fn shows_registration(
    shown: ProductRegistrationRecord,
    ledger: Ledger,
    id: u64,
) -> bool {
    &&& 1 <= id <= ledger.len()
    &&& shows(shown, ledger[id - 1], children_of(ledger, id))
}

/// The service, on top of the store `Repo`.
pub struct ProfileService<Repo: ProfileRepository> {
    repo: Repo,
    config: ProfileServiceConfig,
}

impl<Repo: ProfileRepository> ProfileService<Repo> {
    /// The store that the service works on.
    pub closed spec fn repo(&self) -> Repo {
        self.repo
    }

    /// The page sizes.
    pub closed spec fn config(&self) -> ProfileServiceConfig {
        self.config
    }

    /// A service on `repo` with the page sizes of `config`.
    pub fn new(repo: Repo, config: ProfileServiceConfig) -> (service: Self)
        ensures
            service.repo() == repo,
            service.config() == config,
    {
        ProfileService { repo, config }
    }

    /// Page `page` of the profiles.
    pub fn get_profiles(&self, page: u32) -> (shown: Vec<Profile>)
        requires
            self.repo().inv(),
        ensures
            shown@ == shown_profiles(
                window(
                    self.repo().profiles(),
                    page_start(page, self.config().profile_per_page),
                    self.config().profile_per_page as int,
                ),
            ),
    {
        let mut shown: Vec<Profile> = Vec::new();
        proof {
            self.repo.lemma_inv();
        }
        let start = match page_offset(page, self.config.profile_per_page) {
            Some(start) => start,
            None => {
                assert(shown@ =~= shown_profiles(Seq::<crate::model::Profile>::empty()));
                return shown;
            },
        };
        let profiles = self.repo.get_profiles(start, self.config.profile_per_page);
        let mut i: usize = 0;
        assert(shown@ =~= shown_profiles(profiles@.subrange(0, 0)));
        while i < profiles.len()
            invariant
                i <= profiles.len(),
                shown@ == shown_profiles(profiles@.subrange(0, i as int)),
            decreases profiles.len() - i,
        {
            let profile = profiles[i].clone();
            proof {
                assert(profiles@.subrange(0, i + 1) =~= profiles@.subrange(0, i as int).push(
                    profile,
                ));
                assert(shown_profiles(profiles@.subrange(0, i as int).push(profile))
                    =~= shown_profiles(profiles@.subrange(0, i as int)).push(
                    shown_profile(profile),
                ));
            }
            shown.push(Profile::from(profile));
            i += 1;
        }
        assert(profiles@.subrange(0, profiles@.len() as int) =~= profiles@);
        shown
    }

    /// Page `page` of the root registrations of `profile_id`, each with its
    /// children; `None` where there is no such profile.
    pub fn get_product_registrations_for_profile(&self, profile_id: u64, page: u32) -> (shown:
        Option<Vec<ProductRegistrationRecord>>)
        requires
            self.repo().inv(),
        ensures
            shown is Some <==> profile_at(self.repo().profiles(), profile_id) is Some,
            shown matches Some(records) ==> {
                let ids = window(
                    root_ids(self.repo().ledger(), profile_id),
                    page_start(page, self.config().product_registrations_per_page),
                    self.config().product_registrations_per_page as int,
                );
                &&& records@.len() == ids.len()
                &&& forall|k: int|
                    0 <= k < records@.len() ==> shows_registration(
                        #[trigger] records@[k],
                        self.repo().ledger(),
                        ids[k],
                    )
            },
    {
        if self.repo.get_profile(profile_id).is_none() {
            return None;
        }
        let ghost ledger = self.repo().ledger();
        let ghost ids = window(
            root_ids(ledger, profile_id),
            page_start(page, self.config().product_registrations_per_page),
            self.config().product_registrations_per_page as int,
        );
        let mut shown: Vec<ProductRegistrationRecord> = Vec::new();
        let start = match page_offset(page, self.config.product_registrations_per_page) {
            Some(start) => start,
            None => {
                proof {
                    self.repo.lemma_inv();
                    crate::ledger_model::lemma_ids_where_len(
                        ledger,
                        |r: crate::model::ProductRegistration|
                            crate::ledger_model::is_root_of(r, profile_id),
                    );
                }
                return Some(shown);
            },
        };
        let records = self.repo.get_product_registrations_for_profile(
            profile_id,
            start,
            self.config.product_registrations_per_page,
        );
        let mut i: usize = 0;
        while i < records.len()
            invariant
                i <= records.len(),
                records@.len() == ids.len(),
                forall|k: int|
                    0 <= k < records@.len() ==> crate::ledger_model::is_record_of(
                        #[trigger] records@[k],
                        ledger,
                        ids[k],
                    ),
                shown@.len() == i,
                forall|k: int|
                    0 <= k < shown@.len() ==> shows_registration(
                        #[trigger] shown@[k],
                        ledger,
                        ids[k],
                    ),
            decreases records.len() - i,
        {
            let record = records[i].clone();
            let ghost so_far = shown@;
            shown.push(ProductRegistrationRecord::from(record));
            proof {
                assert forall|k: int| 0 <= k < shown@.len() implies shows_registration(
                    #[trigger] shown@[k],
                    ledger,
                    ids[k],
                ) by {
                    if k < so_far.len() {
                        assert(shown@[k] == so_far[k]);
                    } else {
                        assert(crate::ledger_model::is_record_of(records@[k], ledger, ids[k]));
                    }
                }
            }
            i += 1;
        }
        Some(shown)
    }

    /// The registration with id `product_registration_id` and its
    /// children; `None` where there is no such registration.
    pub fn get_product_registration(&self, product_registration_id: u64) -> (shown: Option<
        ProductRegistrationRecord,
    >)
        requires
            self.repo().inv(),
        ensures
            shown is Some <==> 1 <= product_registration_id <= self.repo().ledger().len(),
            shown matches Some(record) ==> shows_registration(
                record,
                self.repo().ledger(),
                product_registration_id,
            ),
    {
        match self.repo.get_product_registration(product_registration_id) {
            Some(record) => Some(ProductRegistrationRecord::from(record)),
            None => None,
        }
    }
}

/// Nothing is filtered out of `skus` as absent exactly when the catalog has
/// them all.
proof fn lemma_missing_is_unknown(bundles: Bundles, skus: Seq<Seq<char>>)
    ensures
        skus.filter(|sku: Seq<char>| !bundles.dom().contains(sku)).len() > 0 <==> some_unknown(
            bundles,
            skus,
        ),
{
    let absent = |sku: Seq<char>| !bundles.dom().contains(sku);
    let missing = skus.filter(absent);
    if some_unknown(bundles, skus) {
        let i = choose|i: int| 0 <= i < skus.len() && !bundles.dom().contains(#[trigger] skus[i]);
        skus.lemma_filter_contains(absent, i);
    }
    if missing.len() > 0 {
        skus.lemma_filter_pred(absent, 0);
        assert(missing.contains(missing[0]));
        skus.lemma_filter_contains_rev(absent, missing[0]);
        let i = choose|i: int| 0 <= i < skus.len() && skus[i] == missing[0];
        assert(!bundles.dom().contains(skus[i]));
    }
}

impl<Repo: ProfileRepository> ProfileService<Repo> {
    /// Creates `product` with the bundle `subproducts` and the duration
    /// `active_for`. The request is turned down where the product's SKU
    /// or a SKU of the bundle is ill formed, where a SKU of the bundle is not
    /// in the catalog, or where the catalog already has the product, in this
    /// order; then nothing is stored. Else the product is stored with the
    /// leaves that its bundle resolves to, which are returned, each once.
    pub fn create_product(
        &mut self,
        product: &str,
        active_for: Option<u64>,
        subproducts: &[String],
    ) -> (created: Result<Vec<String>, ProfileServiceError>)
        requires
            old(self).repo().inv(),
        ensures
            final(self).repo().inv(),
            final(self).config() == old(self).config(),
            final(self).repo().profiles() == old(self).repo().profiles(),
            final(self).repo().ledger() == old(self).repo().ledger(),
            created is Err ==> final(self).repo().bundles() == old(self).repo().bundles()
                && final(self).repo().durations() == old(self).repo().durations(),
            match check_new_product(old(self).repo().bundles(), product@, sku_views(subproducts@)) {
                ProductCheck::Invalid(fault) => created == Err::<
                    Vec<String>,
                    ProfileServiceError,
                >(ProfileServiceError::InvalidInput(fault)),
                ProductCheck::Unknown => created matches Err(
                    ProfileServiceError::UnknownReference(missing),
                ) && sku_views(missing@) == sku_views(subproducts@).filter(
                    |sku: Seq<char>| !old(self).repo().bundles().dom().contains(sku),
                ),
                ProductCheck::Exists => created matches Err(ProfileServiceError::AlreadyExists(sku))
                    && sku@ == product@,
                ProductCheck::Accepted => {
                    &&& created matches Ok(leaves)
                    &&& sku_views(leaves@).no_duplicates()
                    &&& sku_views(leaves@).to_set() == resolved_leaves(
                        old(self).repo().bundles(),
                        sku_views(subproducts@).to_set(),
                    )
                    &&& final(self).repo().bundles() == old(self).repo().bundles().insert(
                        product@,
                        resolved_leaves(
                            old(self).repo().bundles(),
                            sku_views(subproducts@).to_set(),
                        ),
                    )
                    &&& final(self).repo().durations() == (match active_for {
                        Some(seconds) => old(self).repo().durations().insert(product@, seconds),
                        None => old(self).repo().durations().remove(product@),
                    })
                },
            },
    {
        let ghost bundles = self.repo().bundles();
        let ghost subs = sku_views(subproducts@);
        if let Err(fault) = is_product_sku_valid(product) {
            return Err(ProfileServiceError::InvalidInput(fault));
        }
        let mut i: usize = 0;
        while i < subproducts.len()
            invariant
                i <= subproducts.len(),
                self.repo() == old(self).repo(),
                self.config() == old(self).config(),
                self.repo().inv(),
                sku_error(product@) is None,
                subs == sku_views(subproducts@),
                first_sku_error(subs, 0) == first_sku_error(subs, i as int),
            decreases subproducts.len() - i,
        {
            assert(subs[i as int] == subproducts@[i as int]@);
            if let Err(fault) = is_product_sku_valid(subproducts[i].as_str()) {
                return Err(ProfileServiceError::InvalidInput(fault));
            }
            i += 1;
        }
        let missing_products = self.repo.find_missing_products(subproducts);
        proof {
            lemma_missing_is_unknown(bundles, subs);
        }
        if missing_products.len() > 0 {
            return Err(ProfileServiceError::UnknownReference(missing_products));
        }
        if self.repo.product_exists(product) {
            return Err(ProfileServiceError::AlreadyExists(product.to_owned()));
        }
        let products = self.repo.insert_product(product, subproducts, active_for);
        Ok(products)
    }

    /// Registers `product_sku` for `profile_id`. The request is turned
    /// down, and nothing stored, where there is no such profile, where the
    /// catalog does not have the product, or where the SKU is ill formed,
    /// in this order. Else the store decides at its current time: where
    /// the profile holds none of the product's leaves, a root registration
    /// and one child per leaf are stored and returned; else the leaves
    /// that it holds are reported as a conflict and nothing is stored.
    pub fn create_product_registration(&mut self, profile_id: u64, product_sku: &str) -> (created:
        Result<ProductRegistrationRecord, ProfileServiceError>)
        requires
            old(self).repo().inv(),
        ensures
            final(self).repo().inv(),
            final(self).config() == old(self).config(),
            final(self).repo().profiles() == old(self).repo().profiles(),
            final(self).repo().bundles() == old(self).repo().bundles(),
            final(self).repo().durations() == old(self).repo().durations(),
            is_registration_reply(
                old(self).repo().profiles(),
                old(self).repo().bundles(),
                old(self).repo().durations(),
                old(self).repo().ledger(),
                final(self).repo().ledger(),
                created,
                profile_id,
                product_sku@,
            ),
    {
        if self.repo.get_profile(profile_id).is_none() {
            return Err(ProfileServiceError::NotFound(profile_id));
        }
        if !self.repo.product_exists(product_sku) {
            return Err(ProfileServiceError::UnknownProduct(product_sku.to_owned()));
        }
        if let Err(fault) = is_product_sku_valid(product_sku) {
            return Err(ProfileServiceError::InvalidInput(fault));
        }
        let ghost bundles = self.repo().bundles();
        let ghost durations = self.repo().durations();
        let ghost before = self.repo().ledger();
        let res = self.repo.insert_product_registration(profile_id, product_sku);
        let ghost after = self.repo().ledger();
        let ghost now = choose|now: i64| #[trigger]
            is_registration_outcome(
                bundles,
                durations,
                before,
                after,
                res,
                profile_id,
                product_sku@,
                now,
            );
        match res {
            Ok(reg) => {
                proof {
                    let root = reg.registration;
                    let kids = reg.children@;
                    assert(after == before.push(root) + kids);
                    assert(after[before.len() as int] == root);
                    assert(after.subrange(before.len() as int + 1, after.len() as int) =~= kids);
                }
                let shown = ProductRegistrationRecord::from(reg);
                let created = Ok(shown);
                assert(is_service_outcome(
                    bundles,
                    durations,
                    before,
                    after,
                    created,
                    profile_id,
                    product_sku@,
                    now,
                ));
                created
            },
            Err(err) => {
                let created = Err(ProfileServiceError::Conflict(err));
                assert(is_service_outcome(
                    bundles,
                    durations,
                    before,
                    after,
                    created,
                    profile_id,
                    product_sku@,
                    now,
                ));
                created
            },
        }
    }
}

} // verus!
