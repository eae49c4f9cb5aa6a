//! A store that keeps everything in memory.

use crate::activity::compute_expiry;
use crate::catalog::ProductGraph;
use crate::catalog_store::sku_views;
use crate::ledger::{lemma_push_fresh, RegistrationLedger};
use crate::ledger_model::{active_products, Ledger};
use crate::model::{ProductRegistration, ProductRegistrationRecord, Profile};
use crate::reach::{resolved_leaves, Bundles};
use crate::repository::{
    is_purchase, is_registration_outcome,
    profiles_wf, registration_products, ProfileRepository,
};
use crate::sources::{Clock, RandomSerial, SerialSource, SystemClock};
use vstd::hash_set::StringHashSet;
use vstd::prelude::*;

verus! {

/// The store: the profiles, the registration ledger, the product catalog,
/// and the sources of serial codes and of the current time.
pub struct InMemoryProfileRepository<S, C> {
    profiles: Vec<Profile>,
    ledger: RegistrationLedger,
    catalog: ProductGraph,
    serials: S,
    clock: C,
}

/// The SKUs of `a` that `b` has too, in the order of `a`.
pub fn common_products(a: &Vec<String>, b: &Vec<String>) -> (common: Vec<String>)
    requires
        sku_views(a@).no_duplicates(),
    ensures
        sku_views(common@).no_duplicates(),
        sku_views(common@).to_set() == sku_views(a@).to_set().intersect(sku_views(b@).to_set()),
{
    let mut other = StringHashSet::new();
    let mut j: usize = 0;
    while j < b.len()
        invariant
            j <= b.len(),
            other@ == sku_views(b@).subrange(0, j as int).to_set(),
        decreases b.len() - j,
    {
        proof {
            let upto = sku_views(b@).subrange(0, j as int);
            let next = sku_views(b@).subrange(0, j + 1);
            assert(next =~= upto.push(b@[j as int]@));
            assert(next.to_set() =~= upto.to_set().insert(b@[j as int]@)) by {
                assert forall|x: Seq<char>| next.to_set().contains(x) <==> upto.to_set().insert(
                    b@[j as int]@,
                ).contains(x) by {
                    if next.contains(x) {
                        let i = choose|i: int| 0 <= i < next.len() && next[i] == x;
                        if i < upto.len() {
                            assert(upto[i] == x);
                        }
                    }
                    if upto.contains(x) {
                        let i = choose|i: int| 0 <= i < upto.len() && upto[i] == x;
                        assert(next[i] == x);
                    }
                    assert(next[upto.len() as int] == b@[j as int]@);
                }
            }
        }
        other.insert(b[j].clone());
        j += 1;
    }
    assert(sku_views(b@).subrange(0, b@.len() as int) =~= sku_views(b@));
    let mut common: Vec<String> = Vec::new();
    let mut i: usize = 0;
    while i < a.len()
        invariant
            i <= a.len(),
            sku_views(a@).no_duplicates(),
            other@ == sku_views(b@).to_set(),
            sku_views(common@).no_duplicates(),
            sku_views(common@).to_set() == sku_views(a@).subrange(0, i as int).to_set().intersect(
                other@,
            ),
        decreases a.len() - i,
    {
        let ghost before = sku_views(common@);
        let ghost upto = sku_views(a@).subrange(0, i as int);
        let ghost next = sku_views(a@).subrange(0, i + 1);
        let ghost x = a@[i as int]@;
        proof {
            assert(next =~= upto.push(x));
            assert(!upto.to_set().contains(x)) by {
                if upto.contains(x) {
                    let k = choose|k: int| 0 <= k < upto.len() && upto[k] == x;
                    assert(sku_views(a@)[k] == sku_views(a@)[i as int]);
                }
            }
            assert(upto.no_duplicates()) by {
                assert forall|p: int, q: int|
                    0 <= p < upto.len() && 0 <= q < upto.len() && p != q implies upto[p]
                    != upto[q] by {
                    assert(upto[p] == sku_views(a@)[p] && upto[q] == sku_views(a@)[q]);
                }
            }
            lemma_push_fresh(upto, x);
        }
        if other.contains(a[i].as_str()) {
            let copy = a[i].clone();
            common.push(copy);
            proof {
                assert(sku_views(common@) =~= before.push(x));
                lemma_push_fresh(before, x);
                assert(next.to_set().intersect(other@) =~= upto.to_set().intersect(other@).insert(
                    x,
                ));
            }
        } else {
            assert(next.to_set().intersect(other@) =~= upto.to_set().intersect(other@));
        }
        i += 1;
    }
    assert(sku_views(a@).subrange(0, a@.len() as int) =~= sku_views(a@));
    common
}

impl<S: SerialSource, C: Clock> InMemoryProfileRepository<S, C> {
    /// An empty store that takes serial codes from `serials` and the time
    /// from `clock`.
    pub fn with_sources(serials: S, clock: C) -> (repo: Self)
        ensures
            repo.inv(),
            repo.profiles() == Seq::<Profile>::empty(),
            repo.ledger() == Seq::<ProductRegistration>::empty(),
            repo.bundles() == Map::<Seq<char>, Set<Seq<char>>>::empty(),
            repo.durations() == Map::<Seq<char>, u64>::empty(),
    {
        let repo = InMemoryProfileRepository {
            profiles: Vec::new(),
            ledger: RegistrationLedger::new(),
            catalog: ProductGraph::new(),
            serials,
            clock,
        };
        assert(repo.profiles() =~= Seq::<Profile>::empty());
        repo
    }

    /// The SKUs that `profile_id` holds at `now`, each once.
    pub fn get_active_registered_products(&self, profile_id: u64, now: i64) -> (products: Vec<
        String,
    >)
        requires
            self.inv(),
        ensures
            sku_views(products@).no_duplicates(),
            sku_views(products@).to_set() == active_products(self.ledger(), profile_id, now),
    {
        self.ledger.active_products_for(profile_id, now)
    }

    /// Appends a registration of `product_sku` bought at `purchase_date`:
    /// it gets the next id, the expiry that the product's duration gives,
    /// and a serial code from the store's source.
    pub fn append_product_registration(
        &mut self,
        profile_id: u64,
        parent_id: Option<u64>,
        purchase_date: i64,
        product_sku: &str,
    ) -> (registration: ProductRegistration)
        requires
            old(self).inv(),
            parent_id matches Some(p) ==> 1 <= p <= old(self).ledger().len(),
        ensures
            final(self).inv(),
            final(self).ledger() == old(self).ledger().push(registration),
            registration.product@ == product_sku@,
            is_purchase(
                registration,
                old(self).ledger().len() as int + 1,
                profile_id,
                parent_id,
                purchase_date,
                old(self).durations(),
            ),
            final(self).profiles() == old(self).profiles(),
            final(self).bundles() == old(self).bundles(),
            final(self).durations() == old(self).durations(),
    {
        let expiry_at = compute_expiry(purchase_date, self.catalog.active_for(product_sku));
        let serial_code = self.serials.next_serial();
        self.ledger.append(
            profile_id,
            parent_id,
            purchase_date,
            expiry_at,
            product_sku.to_owned(),
            serial_code,
        )
    }

    /// Attempts at `now` to register `product_sku` for `profile_id`. Where
    /// the profile holds none of the leaves of the product at `now`, one
    /// root registration of the product and one child per leaf are
    /// appended, all bought at `now`, and returned. Else nothing is stored
    /// and the leaves that the profile holds are returned as the error.
    pub fn insert_product_registration_at(
        &mut self,
        profile_id: u64,
        product_sku: &str,
        now: i64,
    ) -> (outcome: Result<ProductRegistrationRecord, Vec<String>>)
        requires
            old(self).inv(),
        ensures
            final(self).inv(),
            final(self).profiles() == old(self).profiles(),
            final(self).bundles() == old(self).bundles(),
            final(self).durations() == old(self).durations(),
            is_registration_outcome(
                old(self).bundles(),
                old(self).durations(),
                old(self).ledger(),
                final(self).ledger(),
                outcome,
                profile_id,
                product_sku@,
                now,
            ),
    {
        let ghost before = self.ledger();
        let ghost bundles = self.bundles();
        let ghost durations = self.durations();
        let ghost profiles = self.profiles();
        let registered_products = self.get_active_registered_products(profile_id, now);
        let products_to_add = self.resolve_leaves(product_sku);
        let intersection = common_products(&products_to_add, &registered_products);
        if intersection.len() > 0 {
            proof {
                assert(sku_views(intersection@).to_set().contains(sku_views(intersection@)[0]));
            }
            return Err(intersection);
        }
        proof {
            assert(sku_views(intersection@).to_set() =~= Set::<Seq<char>>::empty());
        }
        let parent_registration = self.append_product_registration(
            profile_id,
            None,
            now,
            product_sku,
        );
        let mut child_registrations: Vec<ProductRegistration> = Vec::new();
        let mut k: usize = 0;
        assert(self.ledger() =~= before.push(parent_registration) + child_registrations@);
        assert(registration_products(child_registrations@) =~= sku_views(
            products_to_add@,
        ).subrange(0, 0));
        while k < products_to_add.len()
            invariant
                self.inv(),
                self.profiles() == profiles,
                self.bundles() == bundles,
                self.durations() == durations,
                parent_registration.id == before.len() + 1,
                k <= products_to_add.len(),
                child_registrations@.len() == k,
                self.ledger() == before.push(parent_registration) + child_registrations@,
                forall|j: int|
                    0 <= j < child_registrations@.len() ==> is_purchase(
                        #[trigger] child_registrations@[j],
                        before.len() as int + 2 + j,
                        profile_id,
                        Some(parent_registration.id),
                        now,
                        durations,
                    ),
                registration_products(child_registrations@) == sku_views(
                    products_to_add@,
                ).subrange(0, k as int),
            decreases products_to_add.len() - k,
        {
            let ghost so_far = child_registrations@;
            let child_registration = self.append_product_registration(
                profile_id,
                Some(parent_registration.id),
                now,
                products_to_add[k].as_str(),
            );
            let stored = child_registration.clone();
            child_registrations.push(stored);
            proof {
                assert(self.ledger() =~= before.push(parent_registration) + child_registrations@);
                assert(registration_products(child_registrations@) =~= sku_views(
                    products_to_add@,
                ).subrange(0, k + 1));
                assert forall|j: int| 0 <= j < child_registrations@.len() implies is_purchase(
                    #[trigger] child_registrations@[j],
                    before.len() as int + 2 + j,
                    profile_id,
                    Some(parent_registration.id),
                    now,
                    durations,
                ) by {
                    if j < so_far.len() {
                        assert(child_registrations@[j] == so_far[j]);
                    }
                }
            }
            k += 1;
        }
        proof {
            assert(sku_views(products_to_add@).subrange(0, products_to_add@.len() as int)
                =~= sku_views(products_to_add@));
        }
        Ok(
            ProductRegistrationRecord {
                registration: parent_registration,
                children: child_registrations,
            },
        )
    }
}

impl<S: SerialSource, C: Clock> ProfileRepository for InMemoryProfileRepository<S, C> {
    closed spec fn inv(&self) -> bool {
        &&& profiles_wf(self.profiles@)
        &&& self.ledger.inv()
        &&& self.catalog.wf()
    }

    closed spec fn profiles(&self) -> Seq<Profile> {
        self.profiles@
    }

    closed spec fn ledger(&self) -> Ledger {
        self.ledger@
    }

    closed spec fn bundles(&self) -> Bundles {
        self.catalog.bundles()
    }

    closed spec fn durations(&self) -> Map<Seq<char>, u64> {
        self.catalog.durations()
    }

    proof fn lemma_inv(&self) {
        self.ledger.lemma_inv_ledger_wf();
        assert(self.profiles@.len() == self.profiles.len());
        self.ledger.lemma_len_fits();
    }

    fn get_profiles(&self, start: u64, count: usize) -> (page: Vec<Profile>) {
        let mut page: Vec<Profile> = Vec::new();
        if start >= self.profiles.len() as u64 {
            return page;
        }
        let first: usize = start as usize;
        let end: usize = if count <= self.profiles.len() - first {
            first + count
        } else {
            self.profiles.len()
        };
        let mut i: usize = first;
        while i < end
            invariant
                first <= i <= end <= self.profiles.len(),
                page@ == self.profiles@.subrange(first as int, i as int),
            decreases end - i,
        {
            let profile = self.profiles[i].clone();
            assert(self.profiles@.subrange(first as int, i + 1) =~= self.profiles@.subrange(
                first as int,
                i as int,
            ).push(profile));
            page.push(profile);
            i += 1;
        }
        page
    }

    fn get_profile(&self, id: u64) -> (profile: Option<Profile>) {
        if id == 0 || id > self.profiles.len() as u64 {
            None
        } else {
            Some(self.profiles[(id - 1) as usize].clone())
        }
    }

    fn get_product_registrations_for_profile(
        &self,
        profile_id: u64,
        start: u64,
        count: usize,
    ) -> (page: Vec<ProductRegistrationRecord>) {
        self.ledger.list_for_profile(profile_id, start, count)
    }

    fn get_product_registration(&self, id: u64) -> (record: Option<ProductRegistrationRecord>) {
        self.ledger.get(id)
    }

    fn resolve_leaves(&self, product_sku: &str) -> (leaves: Vec<String>) {
        let starts: Vec<String> = vec![product_sku.to_owned()];
        assert(sku_views(starts@).to_set() =~= set![product_sku@]) by {
            assert(sku_views(starts@)[0] == product_sku@);
        }
        self.catalog.resolve_leaves(starts.as_slice())
    }

    fn product_exists(&self, product: &str) -> (exists: bool) {
        self.catalog.product_exists(product)
    }

    fn find_missing_products(&self, products: &[String]) -> (missing: Vec<String>) {
        let ghost absent = |sku: Seq<char>| !self.bundles().dom().contains(sku);
        let mut missing: Vec<String> = Vec::new();
        let mut i: usize = 0;
        proof {
            reveal(Seq::filter);
            assert(sku_views(products@).subrange(0, 0) =~= Seq::<Seq<char>>::empty());
            assert(sku_views(missing@) =~= Seq::<Seq<char>>::empty());
        }
        while i < products.len()
            invariant
                i <= products.len(),
                absent == |sku: Seq<char>| !self.bundles().dom().contains(sku),
                sku_views(missing@) == sku_views(products@).subrange(0, i as int).filter(absent),
            decreases products.len() - i,
        {
            let ghost upto = sku_views(products@).subrange(0, i as int);
            let ghost next = sku_views(products@).subrange(0, i + 1);
            let ghost kept = sku_views(missing@);
            proof {
                reveal(Seq::filter);
                assert(next.drop_last() =~= upto);
                assert(next.last() == products@[i as int]@);
            }
            if !self.catalog.product_exists(products[i].as_str()) {
                let copy = products[i].clone();
                missing.push(copy);
                assert(sku_views(missing@) =~= kept.push(products@[i as int]@));
            }
            i += 1;
        }
        assert(sku_views(products@).subrange(0, products@.len() as int) =~= sku_views(products@));
        missing
    }

    fn insert_product(
        &mut self,
        product: &str,
        subproducts: &[String],
        active_for: Option<u64>,
    ) -> (leaves: Vec<String>) {
        self.catalog.insert_product(product, subproducts, active_for)
    }

    fn insert_product_registration(&mut self, profile_id: u64, product_sku: &str) -> (outcome:
        Result<ProductRegistrationRecord, Vec<String>>) {
        let now = self.clock.now_millis();
        assert(self.ledger() == old(self).ledger() && self.bundles() == old(self).bundles()
            && self.durations() == old(self).durations());
        let outcome = self.insert_product_registration_at(profile_id, product_sku, now);
        assert(is_registration_outcome(
            old(self).bundles(),
            old(self).durations(),
            old(self).ledger(),
            self.ledger(),
            outcome,
            profile_id,
            product_sku@,
            now,
        ));
        outcome
    }
}

/// `p` is the profile with these values.
pub open spec fn is_profile(
    p: Profile,
    id: u64,
    email: Seq<char>,
    firstname: Seq<char>,
    lastname: Seq<char>,
) -> bool {
    p.id == id && p.email@ == email && p.firstname@ == firstname && p.lastname@ == lastname
}

/// `r` is the registration with these values.
pub open spec fn is_registration(
    r: ProductRegistration,
    id: u64,
    profile_id: u64,
    parent_id: Option<u64>,
    purchase_date: i64,
    expiry_at: Option<i64>,
    product: Seq<char>,
    serial_code: Seq<char>,
) -> bool {
    &&& r.id == id
    &&& r.profile_id == profile_id
    &&& r.parent_id == parent_id
    &&& r.purchase_date == purchase_date
    &&& r.expiry_at == expiry_at
    &&& r.product@ == product
    &&& r.serial_code@ == serial_code
}

/// The two profiles of the example data.
pub open spec fn is_example_profiles(profiles: Seq<Profile>) -> bool {
    &&& profiles.len() == 2
    &&& is_profile(profiles[0], 1, "john.doe@example.com"@, "John"@, "Doe"@)
    &&& is_profile(profiles[1], 2, "jane.smith@example.com"@, "Jane"@, "Smith"@)
}

/// The three registrations of the example data, all roots: two of the
/// first profile, one of the second.
pub open spec fn is_example_ledger(l: Ledger) -> bool {
    &&& l.len() == 3
    &&& is_registration(
        l[0],
        1,
        1,
        None,
        1673795045000,
        Some(1705331045000i64),
        "ARIE4"@,
        "A1B2C3D4"@,
    )
    &&& is_registration(l[1], 2, 1, None, 1678449600000, None, "ARCC4"@, "L3M4N5O6"@)
    &&& is_registration(
        l[2],
        3,
        2,
        None,
        1671957000000,
        Some(1703493000000i64),
        "ARCM1"@,
        "Z5X6C7V8"@,
    )
}

/// The catalog of the example data: three bundles, recorded as declared,
/// and eight leaves.
pub open spec fn example_bundles() -> Bundles {
    Map::<Seq<char>, Set<Seq<char>>>::empty().insert(
        "ARIE4"@,
        set!["ARCC4"@, "AKBL1"@, "AKDS5"@],
    ).insert("ARCC4"@, set!["ARAS1"@, "ARCS1"@, "ARCH1"@, "ARCM1"@]).insert(
        "AKB48"@,
        set!["SKE48"@, "NMB48"@],
    ).insert("AKBL1"@, Set::empty()).insert("AKDS5"@, Set::empty()).insert(
        "ARAS1"@,
        Set::empty(),
    ).insert("ARCS1"@, Set::empty()).insert("ARCH1"@, Set::empty()).insert(
        "ARCM1"@,
        Set::empty(),
    ).insert("SKE48"@, Set::empty()).insert("NMB48"@, Set::empty())
}

/// A profile with these values.
fn make_profile(id: u64, email: &str, firstname: &str, lastname: &str) -> (p: Profile)
    ensures
        is_profile(p, id, email@, firstname@, lastname@),
{
    Profile {
        id,
        email: email.to_owned(),
        firstname: firstname.to_owned(),
        lastname: lastname.to_owned(),
    }
}

/// The catalog of the example data.
fn example_catalog() -> (catalog: ProductGraph)
    ensures
        catalog.wf(),
        catalog.bundles() == example_bundles(),
        catalog.durations() == Map::<Seq<char>, u64>::empty(),
{
    let mut catalog = ProductGraph::new();
    let none: Vec<String> = Vec::new();
    assert(sku_views(none@).to_set() =~= Set::<Seq<char>>::empty());
    let arie4: Vec<String> = vec!["ARCC4".to_owned(), "AKBL1".to_owned(), "AKDS5".to_owned()];
    assert(sku_views(arie4@).to_set() =~= set!["ARCC4"@, "AKBL1"@, "AKDS5"@]) by {
        let v = sku_views(arie4@);
        assert(v[0] == "ARCC4"@ && v[1] == "AKBL1"@ && v[2] == "AKDS5"@);
    }
    catalog.put_bundle("ARIE4", arie4.as_slice());
    let arcc4: Vec<String> = vec![
        "ARAS1".to_owned(),
        "ARCS1".to_owned(),
        "ARCH1".to_owned(),
        "ARCM1".to_owned(),
    ];
    assert(sku_views(arcc4@).to_set() =~= set!["ARAS1"@, "ARCS1"@, "ARCH1"@, "ARCM1"@]) by {
        let v = sku_views(arcc4@);
        assert(v[0] == "ARAS1"@ && v[1] == "ARCS1"@ && v[2] == "ARCH1"@ && v[3] == "ARCM1"@);
    }
    catalog.put_bundle("ARCC4", arcc4.as_slice());
    let akb48: Vec<String> = vec!["SKE48".to_owned(), "NMB48".to_owned()];
    assert(sku_views(akb48@).to_set() =~= set!["SKE48"@, "NMB48"@]) by {
        let v = sku_views(akb48@);
        assert(v[0] == "SKE48"@ && v[1] == "NMB48"@);
    }
    catalog.put_bundle("AKB48", akb48.as_slice());
    catalog.put_bundle("AKBL1", none.as_slice());
    catalog.put_bundle("AKDS5", none.as_slice());
    catalog.put_bundle("ARAS1", none.as_slice());
    catalog.put_bundle("ARCS1", none.as_slice());
    catalog.put_bundle("ARCH1", none.as_slice());
    catalog.put_bundle("ARCM1", none.as_slice());
    catalog.put_bundle("SKE48", none.as_slice());
    catalog.put_bundle("NMB48", none.as_slice());
    catalog
}

impl<S: SerialSource, C: Clock> InMemoryProfileRepository<S, C> {
    /// A store that holds the example data and takes serial codes from
    /// `serials` and the time from `clock`.
    pub fn with_example_data_and_sources(serials: S, clock: C) -> (repo: Self)
        ensures
            repo.inv(),
            is_example_profiles(repo.profiles()),
            is_example_ledger(repo.ledger()),
            repo.bundles() == example_bundles(),
            repo.durations() == Map::<Seq<char>, u64>::empty(),
    {
        let mut profiles: Vec<Profile> = Vec::new();
        profiles.push(make_profile(1, "john.doe@example.com", "John", "Doe"));
        profiles.push(make_profile(2, "jane.smith@example.com", "Jane", "Smith"));
        let mut ledger = RegistrationLedger::new();
        let first = ledger.append(
            1,
            None,
            1673795045000,
            Some(1705331045000),
            "ARIE4".to_owned(),
            "A1B2C3D4".to_owned(),
        );
        let second = ledger.append(
            1,
            None,
            1678449600000,
            None,
            "ARCC4".to_owned(),
            "L3M4N5O6".to_owned(),
        );
        let third = ledger.append(
            2,
            None,
            1671957000000,
            Some(1703493000000),
            "ARCM1".to_owned(),
            "Z5X6C7V8".to_owned(),
        );
        let catalog = example_catalog();
        InMemoryProfileRepository { profiles, ledger, catalog, serials, clock }
    }
}

impl InMemoryProfileRepository<RandomSerial, SystemClock> {
    /// An empty store with random serial codes and the system clock.
    pub fn new() -> (repo: Self)
        ensures
            repo.inv(),
            repo.profiles() == Seq::<Profile>::empty(),
            repo.ledger() == Seq::<ProductRegistration>::empty(),
            repo.bundles() == Map::<Seq<char>, Set<Seq<char>>>::empty(),
            repo.durations() == Map::<Seq<char>, u64>::empty(),
    {
        InMemoryProfileRepository::with_sources(RandomSerial, SystemClock)
    }

    /// A store that holds the example data, with random serial codes and
    /// the system clock.
    pub fn with_example_data() -> (repo: Self)
        ensures
            repo.inv(),
            is_example_profiles(repo.profiles()),
            is_example_ledger(repo.ledger()),
            repo.bundles() == example_bundles(),
            repo.durations() == Map::<Seq<char>, u64>::empty(),
    {
        InMemoryProfileRepository::with_example_data_and_sources(RandomSerial, SystemClock)
    }
}

} // verus!
