//! The registration ledger: an append-only store of registrations with two
//! indices derived from it.

use crate::activity::registration_is_active;
use crate::catalog_store::{
    index_contents, index_map_get, index_map_insert, index_map_new, sku_views,
};
use crate::ledger_model::{
    active_products, child_ids, children_of, is_child_of, is_record_of, is_root_of, ledger_wf,
    lemma_ids_where_in_range, lemma_ids_where_push, lemma_ledger_wf_push,
    lemma_roots_accounted_all, lemma_roots_accounted_start, lemma_roots_accounted_step,
    lemma_tree_accounted_start, lemma_tree_accounted_step, registrations_at, root_ids,
    roots_accounted, tree_accounted, window, Ledger,
};
use crate::model::{ProductRegistration, ProductRegistrationRecord};
use dashmap::DashMap;
use vstd::hash_set::StringHashSet;
use vstd::prelude::*;

verus! {

/// The ids that an index holds under `key`; none where it has no entry.
pub open spec fn index_ids(index: Map<u64, Seq<u64>>, key: u64) -> Seq<u64> {
    if index.dom().contains(key) {
        index[key]
    } else {
        Seq::empty()
    }
}

/// The ids that `index` holds under `key`; none where it has no entry.
fn index_get(index: &DashMap<u64, Vec<u64>>, key: u64) -> (ids: Vec<u64>)
    ensures
        ids@ == index_ids(index_contents(*index), key),
{
    match index_map_get(index, key) {
        Some(ids) => ids,
        None => Vec::new(),
    }
}

/// Appends `id` to the ids that `index` holds under `key`.
fn index_append(index: &mut DashMap<u64, Vec<u64>>, key: u64, id: u64)
    ensures
        forall|k: u64| #[trigger]
            index_ids(index_contents(*final(index)), k) == if k == key {
                index_ids(index_contents(*old(index)), key).push(id)
            } else {
                index_ids(index_contents(*old(index)), k)
            },
{
    let mut ids = index_get(index, key);
    ids.push(id);
    index_map_insert(index, key, ids);
}

/// The registration ledger. Registrations are only ever appended; the
/// indices give, for each profile, the ids of its root registrations and,
/// for each registration, the ids of its children, both in ledger order.
pub struct RegistrationLedger {
    registrations: Vec<ProductRegistration>,
    profile_to_product_registrations: DashMap<u64, Vec<u64>>,
    product_registrations_children: DashMap<u64, Vec<u64>>,
}

impl View for RegistrationLedger {
    type V = Ledger;

    closed spec fn view(&self) -> Ledger {
        self.registrations@
    }
}

impl RegistrationLedger {
    /// The ledger is well formed and both indices agree with it.
    pub closed spec fn inv(&self) -> bool {
        &&& ledger_wf(self.registrations@)
        &&& forall|p: u64| #[trigger]
            index_ids(index_contents(self.profile_to_product_registrations), p) == root_ids(
                self.registrations@,
                p,
            )
        &&& forall|q: u64| #[trigger]
            index_ids(index_contents(self.product_registrations_children), q) == child_ids(
                self.registrations@,
                q,
            )
    }

    /// What the invariant says of the ledger itself.
    pub proof fn lemma_inv_ledger_wf(&self)
        requires
            self.inv(),
        ensures
            ledger_wf(self@),
    {
    }

    /// The ledger is no longer than a vector can be.
    pub proof fn lemma_len_fits(&self)
        ensures
            self@.len() <= usize::MAX,
    {
        assert(self.registrations@.len() == self.registrations.len());
    }

    /// An empty ledger.
    pub fn new() -> (ledger: Self)
        ensures
            ledger.inv(),
            ledger@ == Seq::<ProductRegistration>::empty(),
    {
        let ledger = RegistrationLedger {
            registrations: Vec::new(),
            profile_to_product_registrations: index_map_new(),
            product_registrations_children: index_map_new(),
        };
        assert(ledger@ =~= Seq::<ProductRegistration>::empty());
        ledger
    }

    /// The number of registrations.
    pub fn len(&self) -> (n: usize)
        ensures
            n == self@.len(),
    {
        self.registrations.len()
    }

    /// Appends a registration under the next id and enters it in the index
    /// it belongs to: the roots of its profile where it has no parent, the
    /// children of its parent where it has one.
    pub fn append(
        &mut self,
        profile_id: u64,
        parent_id: Option<u64>,
        purchase_date: i64,
        expiry_at: Option<i64>,
        product: String,
        serial_code: String,
    ) -> (registration: ProductRegistration)
        requires
            old(self).inv(),
            parent_id matches Some(p) ==> 1 <= p <= old(self)@.len(),
        ensures
            final(self).inv(),
            final(self)@ == old(self)@.push(registration),
            registration.id == old(self)@.len() + 1,
            registration == (ProductRegistration {
                id: registration.id,
                profile_id,
                parent_id,
                purchase_date,
                expiry_at,
                product,
                serial_code,
            }),
    {
        let ghost before = self.registrations@;
        // The next id is the length of the ledger once it holds the
        // registration: the length of a vector, so the sum does not wrap.
        let id: u64 = (self.registrations.len() as u64).wrapping_add(1);
        let registration = ProductRegistration {
            id,
            profile_id,
            parent_id,
            purchase_date,
            expiry_at,
            product,
            serial_code,
        };
        let stored = registration.clone();
        self.registrations.push(stored);
        assert(id == before.len() + 1) by {
            assert(self.registrations@.len() == self.registrations.len());
        }
        match parent_id {
            None => {
                index_append(&mut self.profile_to_product_registrations, profile_id, id);
            },
            Some(parent) => {
                index_append(&mut self.product_registrations_children, parent, id);
            },
        }
        proof {
            let after = self.registrations@;
            assert(after == before.push(registration));
            lemma_ledger_wf_push(before, registration);
            assert forall|p: u64| #[trigger]
                index_ids(index_contents(self.profile_to_product_registrations), p) == root_ids(after, p) by {
                lemma_ids_where_push(
                    before,
                    registration,
                    |r: ProductRegistration| is_root_of(r, p),
                );
            }
            assert forall|q: u64| #[trigger]
                index_ids(index_contents(self.product_registrations_children), q) == child_ids(after, q) by {
                lemma_ids_where_push(
                    before,
                    registration,
                    |r: ProductRegistration| is_child_of(r, q),
                );
            }
        }
        registration
    }

    /// Copies the registrations with the given ids, in the order of the ids.
    fn collect(&self, ids: &Vec<u64>) -> (found: Vec<ProductRegistration>)
        requires
            forall|k: int| 0 <= k < ids@.len() ==> 1 <= #[trigger] ids@[k] <= self@.len(),
        ensures
            found@ == registrations_at(self@, ids@),
    {
        let mut found: Vec<ProductRegistration> = Vec::new();
        let total = self.registrations.len();
        let mut k: usize = 0;
        while k < ids.len()
            invariant
                k <= ids.len(),
                total == self@.len(),
                forall|j: int| 0 <= j < ids@.len() ==> 1 <= #[trigger] ids@[j] <= self@.len(),
                found@ == registrations_at(self@, ids@.subrange(0, k as int)),
            decreases ids.len() - k,
        {
            let id = ids[k];
            let item = self.registrations[(id - 1) as usize].clone();
            proof {
                assert(ids@.subrange(0, k + 1) =~= ids@.subrange(0, k as int).push(id));
                assert(registrations_at(self@, ids@.subrange(0, k as int).push(id))
                    =~= registrations_at(self@, ids@.subrange(0, k as int)).push(item));
            }
            found.push(item);
            k += 1;
        }
        assert(ids@.subrange(0, ids@.len() as int) =~= ids@);
        found
    }

    /// The registration with id `id` together with its children, in ledger
    /// order; `None` where the ledger has no such id.
    pub fn get(&self, id: u64) -> (record: Option<ProductRegistrationRecord>)
        requires
            self.inv(),
        ensures
            record is Some <==> 1 <= id <= self@.len(),
            record matches Some(found) ==> is_record_of(found, self@, id),
    {
        if id == 0 || id > self.registrations.len() as u64 {
            return None;
        }
        let registration = self.registrations[(id - 1) as usize].clone();
        let ids = index_get(&self.product_registrations_children, id);
        proof {
            assert forall|k: int| 0 <= k < ids@.len() implies 1 <= #[trigger] ids@[k]
                <= self@.len() by {
                lemma_ids_where_in_range(self@, |r: ProductRegistration| is_child_of(r, id), k);
            }
        }
        let children = self.collect(&ids);
        Some(ProductRegistrationRecord { registration, children })
    }

    /// One page of the root registrations of `profile_id`, each with its
    /// children: at most `count` of them, in ledger order, from offset
    /// `start` on. The page is empty where `start` is at or beyond the
    /// number of roots.
    pub fn list_for_profile(&self, profile_id: u64, start: u64, count: usize) -> (page: Vec<
        ProductRegistrationRecord,
    >)
        requires
            self.inv(),
        ensures
            page@.len() == window(root_ids(self@, profile_id), start as int, count as int).len(),
            forall|k: int|
                0 <= k < page@.len() ==> is_record_of(
                    #[trigger] page@[k],
                    self@,
                    window(root_ids(self@, profile_id), start as int, count as int)[k],
                ),
    {
        let ghost roots = root_ids(self@, profile_id);
        let ghost shown = window(roots, start as int, count as int);
        let mut page: Vec<ProductRegistrationRecord> = Vec::new();
        let ids = index_get(&self.profile_to_product_registrations, profile_id);
        if start >= ids.len() as u64 {
            return page;
        }
        let first: usize = start as usize;
        let end: usize = if count <= ids.len() - first {
            first + count
        } else {
            ids.len()
        };
        let mut k: usize = first;
        while k < end
            invariant
                self.inv(),
                roots == root_ids(self@, profile_id),
                ids@ == roots,
                first <= k <= end <= ids.len(),
                shown == roots.subrange(first as int, end as int),
                page@.len() == k - first,
                forall|j: int|
                    0 <= j < page@.len() ==> is_record_of(#[trigger] page@[j], self@, shown[j]),
            decreases end - k,
        {
            let id = ids[k];
            proof {
                lemma_ids_where_in_range(
                    self@,
                    |r: ProductRegistration| is_root_of(r, profile_id),
                    k as int,
                );
                assert(shown[k - first] == id);
            }
            match self.get(id) {
                Some(record) => {
                    page.push(record);
                },
                None => {},
            }
            k += 1;
        }
        page
    }

    /// The SKUs that `profile_id` holds at `now`, each once: the products
    /// of its active root registrations and of the active children of its
    /// roots.
    pub fn active_products_for(&self, profile_id: u64, now: i64) -> (products: Vec<String>)
        requires
            self.inv(),
        ensures
            sku_views(products@).no_duplicates(),
            sku_views(products@).to_set() == active_products(self@, profile_id, now),
    {
        let ghost l = self@;
        let ghost roots = root_ids(l, profile_id);
        let mut products: Vec<String> = Vec::new();
        let mut seen = StringHashSet::new();
        let ids = index_get(&self.profile_to_product_registrations, profile_id);
        let total = self.registrations.len();
        proof {
            lemma_roots_accounted_start(l, profile_id, now);
            assert(sku_views(products@).to_set() =~= seen@);
        }
        let mut i: usize = 0;
        while i < ids.len()
            invariant
                self.inv(),
                l == self@,
                total == l.len(),
                roots == root_ids(l, profile_id),
                ids@ == roots,
                i <= ids.len(),
                sku_views(products@).no_duplicates(),
                sku_views(products@).to_set() == seen@,
                roots_accounted(seen@, l, profile_id, i as int, now),
            decreases ids.len() - i,
        {
            let root = ids[i];
            proof {
                lemma_ids_where_in_range(
                    l,
                    |r: ProductRegistration| is_root_of(r, profile_id),
                    i as int,
                );
                lemma_tree_accounted_start(seen@, l, root, now);
            }
            let ghost base = seen@;
            let registration = &self.registrations[(root - 1) as usize];
            if registration_is_active(registration, now) {
                remember(&mut products, &mut seen, &registration.product);
            }
            let ghost kids = child_ids(l, root);
            let children = index_get(&self.product_registrations_children, root);
            let mut k: usize = 0;
            while k < children.len()
                invariant
                    self.inv(),
                    l == self@,
                    total == l.len(),
                    1 <= root <= l.len(),
                    kids == child_ids(l, root),
                    children@ == kids,
                    k <= children.len(),
                    sku_views(products@).no_duplicates(),
                    sku_views(products@).to_set() == seen@,
                    tree_accounted(seen@, base, l, root, k as int, now),
                decreases children.len() - k,
            {
                let child_id = children[k];
                proof {
                    lemma_ids_where_in_range(
                        l,
                        |r: ProductRegistration| is_child_of(r, root),
                        k as int,
                    );
                    lemma_tree_accounted_step(seen@, base, l, root, k as int, now);
                }
                let child = &self.registrations[(child_id - 1) as usize];
                if registration_is_active(child, now) {
                    remember(&mut products, &mut seen, &child.product);
                }
                k += 1;
            }
            proof {
                lemma_roots_accounted_step(seen@, base, l, profile_id, i as int, now);
            }
            i += 1;
        }
        proof {
            lemma_roots_accounted_all(seen@, l, profile_id, now);
        }
        products
    }
}

/// Appending a SKU that a duplicate-free sequence lacks keeps it free of
/// duplicates and adds the SKU to its set.
pub proof fn lemma_push_fresh(s: Seq<Seq<char>>, x: Seq<char>)
    requires
        s.no_duplicates(),
        !s.to_set().contains(x),
    ensures
        s.push(x).no_duplicates(),
        s.push(x).to_set() == s.to_set().insert(x),
{
    let t = s.push(x);
    assert forall|i: int| 0 <= i < s.len() implies s[i] != x by {
        assert(s.to_set().contains(s[i]));
    }
    assert forall|y: Seq<char>| t.to_set().contains(y) <==> s.to_set().insert(x).contains(y) by {
        if t.contains(y) {
            let i = choose|i: int| 0 <= i < t.len() && t[i] == y;
            if i < s.len() {
                assert(s[i] == y);
            }
        }
        if s.contains(y) {
            let i = choose|i: int| 0 <= i < s.len() && s[i] == y;
            assert(t[i] == y);
        }
        assert(t[s.len() as int] == x);
    }
    assert(t.to_set() =~= s.to_set().insert(x));
}

/// Adds `product` to `products` unless `seen` already has it.
fn remember(products: &mut Vec<String>, seen: &mut StringHashSet, product: &String)
    requires
        sku_views(old(products)@).no_duplicates(),
        sku_views(old(products)@).to_set() == old(seen)@,
    ensures
        sku_views(final(products)@).no_duplicates(),
        sku_views(final(products)@).to_set() == final(seen)@,
        final(seen)@ == old(seen)@.insert(product@),
{
    let ghost before = sku_views(products@);
    if seen.insert(product.clone()) {
        let copy = product.clone();
        products.push(copy);
        proof {
            assert(sku_views(products@) =~= before.push(product@));
            lemma_push_fresh(before, product@);
        }
    } else {
        assert(seen@ =~= old(seen)@.insert(product@));
    }
}

} // verus!
