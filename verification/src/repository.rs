//! What a store of profiles, products and registrations offers, stated over
//! its mathematical contents, so that the service works with any store that
//! keeps these contracts.

use crate::activity::{active_at, recorded_expiry};
use crate::catalog_store::sku_views;
use crate::ledger_model::{
    active_products, child_ids, children_of, counts_for, holds_active, ids_of, is_child_of,
    is_record_of, is_root_of, ledger_wf, lemma_ids_where_none, lemma_ids_where_push,
    lemma_ids_where_skips, lemma_ids_where_takes, root_ids, window, Ledger,
};
use crate::model::{ProductRegistration, ProductRegistrationRecord, Profile};
use crate::reach::{resolved_leaves, Bundles};
use vstd::prelude::*;

verus! {

/// The duration recorded for `sku`, if any.
pub open spec fn duration_of(durations: Map<Seq<char>, u64>, sku: Seq<char>) -> Option<u64> {
    if durations.dom().contains(sku) {
        Some(durations[sku])
    } else {
        None
    }
}

/// The profile with id `id`, if there is one: ids count from 1 in the order
/// of `profiles`.
pub open spec fn profile_at(profiles: Seq<Profile>, id: u64) -> Option<Profile> {
    if 1 <= id <= profiles.len() {
        Some(profiles[id - 1])
    } else {
        None
    }
}

/// Profile ids are 1, 2, 3, ... in order.
pub open spec fn profiles_wf(profiles: Seq<Profile>) -> bool {
    forall|i: int| 0 <= i < profiles.len() ==> (#[trigger] profiles[i]).id == i + 1
}

/// The products of a sequence of registrations.
pub open spec fn registration_products(items: Seq<ProductRegistration>) -> Seq<Seq<char>> {
    items.map_values(|r: ProductRegistration| r.product@)
}

/// `r` is what a purchase at `now` makes of its product: it has the given
/// id, owner and parent, was bought at `now`, and expires as the product's
/// duration says. Its serial code is free.
pub open spec fn is_purchase(
    r: ProductRegistration,
    id: int,
    profile_id: u64,
    parent_id: Option<u64>,
    now: i64,
    durations: Map<Seq<char>, u64>,
) -> bool {
    &&& r.id == id
    &&& r.profile_id == profile_id
    &&& r.parent_id == parent_id
    &&& r.purchase_date == now
    &&& r.expiry_at == recorded_expiry(now, duration_of(durations, r.product@))
}

/// `after` is `before` followed by `root`, a root registration of `sku` for
/// `profile_id`, and then by `kids`, one child of that root for each SKU of
/// `leaves`, all bought at `now`.
pub open spec fn is_commit(
    before: Ledger,
    after: Ledger,
    root: ProductRegistration,
    kids: Seq<ProductRegistration>,
    profile_id: u64,
    sku: Seq<char>,
    leaves: Set<Seq<char>>,
    durations: Map<Seq<char>, u64>,
    now: i64,
) -> bool {
    &&& after == before.push(root) + kids
    &&& root.product@ == sku
    &&& is_purchase(root, before.len() as int + 1, profile_id, None, now, durations)
    &&& forall|k: int|
        0 <= k < kids.len() ==> is_purchase(
            #[trigger] kids[k],
            before.len() as int + 2 + k,
            profile_id,
            Some(root.id),
            now,
            durations,
        )
    &&& registration_products(kids).no_duplicates()
    &&& registration_products(kids).to_set() == leaves
}

/// The leaves of `sku` that `profile_id` already holds at `now`.
pub open spec fn conflicting_products(
    bundles: Bundles,
    ledger: Ledger,
    profile_id: u64,
    sku: Seq<char>,
    now: i64,
) -> Set<Seq<char>> {
    resolved_leaves(bundles, set![sku]).intersect(active_products(ledger, profile_id, now))
}

/// What an attempt at `now` to register `sku` for `profile_id` comes to:
/// where the profile holds none of the leaves of `sku`, the registration is
/// committed and returned as a record; else nothing is stored and the
/// leaves it holds are reported, each once.
pub open spec fn is_registration_outcome(
    bundles: Bundles,
    durations: Map<Seq<char>, u64>,
    before: Ledger,
    after: Ledger,
    outcome: Result<ProductRegistrationRecord, Vec<String>>,
    profile_id: u64,
    sku: Seq<char>,
    now: i64,
) -> bool {
    let conflicts = conflicting_products(bundles, before, profile_id, sku, now);
    match outcome {
        Ok(record) => {
            &&& conflicts == Set::<Seq<char>>::empty()
            &&& is_commit(
                before,
                after,
                record.registration,
                record.children@,
                profile_id,
                sku,
                resolved_leaves(bundles, set![sku]),
                durations,
                now,
            )
        },
        Err(held) => {
            &&& conflicts != Set::<Seq<char>>::empty()
            &&& sku_views(held@).no_duplicates()
            &&& sku_views(held@).to_set() == conflicts
            &&& after == before
        },
    }
}

/// A registration that a purchase at `now` made is active at `at` exactly
/// when its product has no duration or `at` lies before `now` plus that
/// duration.
pub proof fn lemma_purchase_is_active_until_expiry(
    r: ProductRegistration,
    id: int,
    profile_id: u64,
    parent_id: Option<u64>,
    now: i64,
    durations: Map<Seq<char>, u64>,
    at: i64,
)
    requires
        is_purchase(r, id, profile_id, parent_id, now, durations),
    ensures
        active_at(r.expiry_at, at) <==> (duration_of(durations, r.product@) matches Some(seconds)
            ==> at < now + 1000 * seconds),
{
}

/// An attempt to register a product one of whose leaves the profile holds
/// is turned down: the leaf is among those reported, and the ledger stays
/// as it was.
pub proof fn lemma_conflict_is_reported(
    bundles: Bundles,
    durations: Map<Seq<char>, u64>,
    before: Ledger,
    after: Ledger,
    outcome: Result<ProductRegistrationRecord, Vec<String>>,
    profile_id: u64,
    sku: Seq<char>,
    now: i64,
    leaf: Seq<char>,
)
    requires
        is_registration_outcome(bundles, durations, before, after, outcome, profile_id, sku, now),
        resolved_leaves(bundles, set![sku]).contains(leaf),
        active_products(before, profile_id, now).contains(leaf),
    ensures
        outcome is Err,
        sku_views(outcome->Err_0@).contains(leaf),
        after == before,
{
    let conflicts = conflicting_products(bundles, before, profile_id, sku, now);
    assert(conflicts.contains(leaf));
    if outcome is Err {
        assert(sku_views(outcome->Err_0@).to_set().contains(leaf));
    }
}

/// An attempt to register a product none of whose leaves the profile holds
/// is committed.
pub proof fn lemma_no_conflict_commits(
    bundles: Bundles,
    durations: Map<Seq<char>, u64>,
    before: Ledger,
    after: Ledger,
    outcome: Result<ProductRegistrationRecord, Vec<String>>,
    profile_id: u64,
    sku: Seq<char>,
    now: i64,
)
    requires
        is_registration_outcome(bundles, durations, before, after, outcome, profile_id, sku, now),
        forall|leaf: Seq<char>|
            resolved_leaves(bundles, set![sku]).contains(leaf) ==> !active_products(
                before,
                profile_id,
                now,
            ).contains(leaf),
    ensures
        outcome is Ok,
        after.len() == before.len() + 1 + resolved_leaves(bundles, set![sku]).len(),
{
    let conflicts = conflicting_products(bundles, before, profile_id, sku, now);
    assert(conflicts =~= Set::<Seq<char>>::empty());
    let kids = outcome->Ok_0.children@;
    registration_products(kids).unique_seq_to_set();
}

/// What a committed registration looks like: the root is for the product
/// asked for, has no parent and belongs to the profile; there is one child
/// for each leaf and none besides, each under the root and owned by the
/// profile; root and children carry the one instant of the purchase.
pub proof fn lemma_commit_shape(
    before: Ledger,
    after: Ledger,
    root: ProductRegistration,
    kids: Seq<ProductRegistration>,
    profile_id: u64,
    sku: Seq<char>,
    leaves: Set<Seq<char>>,
    durations: Map<Seq<char>, u64>,
    now: i64,
)
    requires
        is_commit(before, after, root, kids, profile_id, sku, leaves, durations, now),
    ensures
        after.len() == before.len() + 1 + kids.len(),
        leaves.finite(),
        kids.len() == leaves.len(),
        root.id == before.len() + 1,
        root.product@ == sku,
        root.parent_id is None,
        root.profile_id == profile_id,
        root.purchase_date == now,
        forall|k: int|
            0 <= k < kids.len() ==> {
                &&& (#[trigger] kids[k]).id == before.len() + 2 + k
                &&& kids[k].parent_id == Some(root.id)
                &&& kids[k].profile_id == profile_id
                &&& kids[k].purchase_date == root.purchase_date
                &&& leaves.contains(kids[k].product@)
            },
        forall|leaf: Seq<char>|
            leaves.contains(leaf) ==> exists|k: int|
                0 <= k < kids.len() && (#[trigger] kids[k]).product@ == leaf,
{
    let products = registration_products(kids);
    products.unique_seq_to_set();
    vstd::seq_lib::seq_to_set_is_finite(products);
    assert forall|k: int| 0 <= k < kids.len() implies leaves.contains(
        (#[trigger] kids[k]).product@,
    ) by {
        assert(products[k] == kids[k].product@);
        assert(products.to_set().contains(products[k]));
    }
    assert forall|leaf: Seq<char>| leaves.contains(leaf) implies exists|k: int|
        0 <= k < kids.len() && (#[trigger] kids[k]).product@ == leaf by {
        assert(products.contains(leaf));
        let k = choose|k: int| 0 <= k < products.len() && products[k] == leaf;
        assert(kids[k].product@ == leaf);
    }
}

/// What a committed registration does to the ledger and to what is derived
/// from it: the ledger stays well formed; the profile has one more root, the
/// new one, and no other profile's roots change; the children of the new root
/// are the children committed, so that the record returned is what looking
/// up the new root gives.
pub proof fn lemma_commit_in_ledger(
    before: Ledger,
    after: Ledger,
    root: ProductRegistration,
    kids: Seq<ProductRegistration>,
    profile_id: u64,
    sku: Seq<char>,
    leaves: Set<Seq<char>>,
    durations: Map<Seq<char>, u64>,
    now: i64,
    other: u64,
)
    requires
        ledger_wf(before),
        is_commit(before, after, root, kids, profile_id, sku, leaves, durations, now),
    ensures
        ledger_wf(after),
        root_ids(after, profile_id) == root_ids(before, profile_id).push(root.id),
        other != profile_id ==> root_ids(after, other) == root_ids(before, other),
        children_of(after, root.id) == kids,
        after[root.id - 1] == root,
{
    lemma_commit_shape(before, after, root, kids, profile_id, sku, leaves, durations, now);
    let n = before.len() as int;
    let with_root = before.push(root);
    assert(after[n] == root);
    assert forall|i: int| 0 <= i < n implies after[i] == before[i] by {}
    assert forall|k: int| 0 <= k < kids.len() implies after[n + 1 + k] == kids[k] by {}
    assert(ledger_wf(after)) by {
        assert forall|i: int| 0 <= i < after.len() implies (#[trigger] after[i]).id == i + 1 by {
            if i > n {
                assert(after[i] == kids[i - n - 1]);
            }
        }
        assert forall|i: int| 0 <= i < after.len() implies ((#[trigger] after[i]).parent_id
            matches Some(p) ==> 1 <= p <= i) by {
            if i > n {
                assert(after[i] == kids[i - n - 1]);
            }
        }
    }
    // Roots: the new root is one of the profile, no child is a root.
    let is_root = |r: ProductRegistration| is_root_of(r, profile_id);
    lemma_ids_where_push(before, root, is_root);
    assert forall|k: int| 0 <= k < kids.len() implies !is_root(#[trigger] kids[k]) by {}
    lemma_ids_where_skips(with_root, kids, is_root);
    if other != profile_id {
        let is_other_root = |r: ProductRegistration| is_root_of(r, other);
        lemma_ids_where_push(before, root, is_other_root);
        assert forall|k: int| 0 <= k < kids.len() implies !is_other_root(#[trigger] kids[k]) by {}
        lemma_ids_where_skips(with_root, kids, is_other_root);
    }
    // Children: nothing stored so far has the new root as its parent.
    let under = |r: ProductRegistration| is_child_of(r, root.id);
    assert forall|i: int| 0 <= i < with_root.len() implies !under(#[trigger] with_root[i]) by {
        if i < n {
            assert(with_root[i] == before[i]);
        }
    }
    lemma_ids_where_none(with_root, under);
    assert forall|k: int| 0 <= k < kids.len() implies under(#[trigger] kids[k]) by {}
    lemma_ids_where_takes(with_root, kids, under);
    assert(child_ids(after, root.id) =~= ids_of(kids));
    assert(children_of(after, root.id) =~= kids) by {
        assert forall|k: int| 0 <= k < kids.len() implies children_of(after, root.id)[k]
            == kids[k] by {
            assert(ids_of(kids)[k] == kids[k].id);
            assert(after[n + 1 + k] == kids[k]);
        }
    }
}

/// A purchase at `now` of `product` is active at `at`.
pub open spec fn purchase_active(
    durations: Map<Seq<char>, u64>,
    product: Seq<char>,
    now: i64,
    at: i64,
) -> bool {
    active_at(recorded_expiry(now, duration_of(durations, product)), at)
}

/// What a profile holds after a committed registration: what it held
/// before, and of the product registered and its leaves those whose
/// purchase at `now` is active. What other profiles hold is as before.
pub proof fn lemma_holdings_after_commit(
    before: Ledger,
    after: Ledger,
    root: ProductRegistration,
    kids: Seq<ProductRegistration>,
    profile_id: u64,
    sku: Seq<char>,
    leaves: Set<Seq<char>>,
    durations: Map<Seq<char>, u64>,
    now: i64,
    other: u64,
    at: i64,
)
    requires
        ledger_wf(before),
        is_commit(before, after, root, kids, profile_id, sku, leaves, durations, now),
    ensures
        other != profile_id ==> active_products(after, other, at) == active_products(
            before,
            other,
            at,
        ),
        active_products(after, profile_id, at) == active_products(before, profile_id, at).union(
            Set::new(
                |x: Seq<char>|
                    (x == sku || leaves.contains(x)) && purchase_active(durations, x, now, at),
            ),
        ),
{
    lemma_commit_shape(before, after, root, kids, profile_id, sku, leaves, durations, now);
    let n = before.len() as int;
    let bought = Set::new(
        |x: Seq<char>| (x == sku || leaves.contains(x)) && purchase_active(durations, x, now, at),
    );
    assert(after[n] == root);
    assert forall|i: int| 0 <= i < n implies after[i] == before[i] by {}
    assert forall|k: int| 0 <= k < kids.len() implies after[n + 1 + k] == kids[k] by {}
    // An earlier registration counts for a profile after the commit exactly
    // when it did before.
    assert forall|i: int, q: u64| 0 <= i < n implies (#[trigger] counts_for(after, i, q)
        <==> counts_for(before, i, q)) by {
        assert(after[i] == before[i]);
        if before[i].parent_id is Some {
            let parent = before[i].parent_id->0;
            assert(1 <= parent <= i);
            assert(after[parent - 1] == before[parent - 1]);
        }
    }
    assert forall|x: Seq<char>, q: u64| holds_active(before, q, at, x) implies holds_active(
        after,
        q,
        at,
        x,
    ) by {
        let i = choose|i: int|
            0 <= i < before.len() && #[trigger] counts_for(before, i, q) && before[i].product@ == x
                && active_at(before[i].expiry_at, at);
        assert(counts_for(after, i, q));
        assert(after[i] == before[i]);
    }
    assert forall|x: Seq<char>, q: u64| holds_active(after, q, at, x) implies holds_active(
        before,
        q,
        at,
        x,
    ) || (q == profile_id && bought.contains(x)) by {
        let i = choose|i: int|
            0 <= i < after.len() && #[trigger] counts_for(after, i, q) && after[i].product@ == x
                && active_at(after[i].expiry_at, at);
        if i < n {
            assert(counts_for(before, i, q));
            assert(after[i] == before[i]);
        } else if i == n {
            assert(q == profile_id);
            assert(x == sku);
        } else {
            let k = i - n - 1;
            assert(after[i] == kids[k]);
            assert(kids[k].parent_id == Some(root.id));
            assert(after[root.id - 1] == root);
            assert(q == profile_id);
            assert(leaves.contains(x));
        }
    }
    assert forall|x: Seq<char>| bought.contains(x) implies holds_active(
        after,
        profile_id,
        at,
        x,
    ) by {
        if x == sku {
            assert(counts_for(after, n, profile_id));
        } else {
            let k = choose|k: int| 0 <= k < kids.len() && (#[trigger] kids[k]).product@ == x;
            assert(after[n + 1 + k] == kids[k]);
            assert(after[root.id - 1] == root);
            assert(counts_for(after, n + 1 + k, profile_id));
        }
    }
    assert(active_products(after, profile_id, at) =~= active_products(
        before,
        profile_id,
        at,
    ).union(bought));
    if other != profile_id {
        assert(active_products(after, other, at) =~= active_products(before, other, at));
    }
}

/// A leaf bought with a product is held until its own expiry: an attempt
/// before that instant to register a product with that leaf is turned
/// down, the leaf is among those reported, and nothing is stored.
pub proof fn lemma_unexpired_leaf_is_refused(
    bundles: Bundles,
    durations: Map<Seq<char>, u64>,
    first: Ledger,
    second: Ledger,
    third: Ledger,
    bought: ProductRegistrationRecord,
    outcome: Result<ProductRegistrationRecord, Vec<String>>,
    profile_id: u64,
    sku: Seq<char>,
    now: i64,
    next_sku: Seq<char>,
    at: i64,
    leaf: Seq<char>,
)
    requires
        ledger_wf(first),
        is_registration_outcome(
            bundles,
            durations,
            first,
            second,
            Ok(bought),
            profile_id,
            sku,
            now,
        ),
        is_registration_outcome(
            bundles,
            durations,
            second,
            third,
            outcome,
            profile_id,
            next_sku,
            at,
        ),
        resolved_leaves(bundles, set![sku]).contains(leaf),
        resolved_leaves(bundles, set![next_sku]).contains(leaf),
        purchase_active(durations, leaf, now, at),
    ensures
        outcome is Err,
        sku_views(outcome->Err_0@).contains(leaf),
        third == second,
{
    lemma_holdings_after_commit(
        first,
        second,
        bought.registration,
        bought.children@,
        profile_id,
        sku,
        resolved_leaves(bundles, set![sku]),
        durations,
        now,
        profile_id,
        at,
    );
    let gained = Set::new(
        |x: Seq<char>|
            (x == sku || resolved_leaves(bundles, set![sku]).contains(x)) && purchase_active(
                durations,
                x,
                now,
                at,
            ),
    );
    assert(gained.contains(leaf));
    lemma_conflict_is_reported(
        bundles,
        durations,
        second,
        third,
        outcome,
        profile_id,
        next_sku,
        at,
        leaf,
    );
}

/// Once what a profile bought has expired, it can be bought again: where
/// the profile held nothing of a product's leaves before an earlier
/// purchase, and of that purchase nothing among those leaves is active any
/// more, the attempt is committed.
pub proof fn lemma_expired_purchase_does_not_block(
    bundles: Bundles,
    durations: Map<Seq<char>, u64>,
    first: Ledger,
    second: Ledger,
    third: Ledger,
    bought: ProductRegistrationRecord,
    outcome: Result<ProductRegistrationRecord, Vec<String>>,
    profile_id: u64,
    sku: Seq<char>,
    now: i64,
    next_sku: Seq<char>,
    at: i64,
)
    requires
        ledger_wf(first),
        is_registration_outcome(
            bundles,
            durations,
            first,
            second,
            Ok(bought),
            profile_id,
            sku,
            now,
        ),
        is_registration_outcome(
            bundles,
            durations,
            second,
            third,
            outcome,
            profile_id,
            next_sku,
            at,
        ),
        forall|x: Seq<char>|
            resolved_leaves(bundles, set![next_sku]).contains(x) ==> !active_products(
                first,
                profile_id,
                at,
            ).contains(x),
        forall|x: Seq<char>|
            #![trigger resolved_leaves(bundles, set![next_sku]).contains(x)]
            resolved_leaves(bundles, set![next_sku]).contains(x) && (x == sku || resolved_leaves(
                bundles,
                set![sku],
            ).contains(x)) ==> !purchase_active(durations, x, now, at),
    ensures
        outcome is Ok,
{
    lemma_holdings_after_commit(
        first,
        second,
        bought.registration,
        bought.children@,
        profile_id,
        sku,
        resolved_leaves(bundles, set![sku]),
        durations,
        now,
        profile_id,
        at,
    );
    lemma_no_conflict_commits(bundles, durations, second, third, outcome, profile_id, next_sku, at);
}

/// A store of profiles, of the product catalog and of product
/// registrations.
pub trait ProfileRepository {
    /// The store is in a consistent state.
    spec fn inv(&self) -> bool;

    /// The profiles, in the order of their ids.
    spec fn profiles(&self) -> Seq<Profile>;

    /// The registrations, in the order of their ids.
    spec fn ledger(&self) -> Ledger;

    /// The bundle graph of the catalog.
    spec fn bundles(&self) -> Bundles;

    /// The durations of the catalog, in seconds.
    spec fn durations(&self) -> Map<Seq<char>, u64>;

    /// What a consistent store guarantees of its contents: profile and
    /// registration ids count from 1, parents come before their children,
    /// the catalog is finite, and the lengths fit the machine.
    proof fn lemma_inv(&self)
        requires
            self.inv(),
        ensures
            profiles_wf(self.profiles()),
            ledger_wf(self.ledger()),
            self.bundles().dom().finite(),
            self.profiles().len() <= usize::MAX,
            self.ledger().len() <= usize::MAX,
    ;

    /// One page of profiles.
    fn get_profiles(&self, start: u64, count: usize) -> (page: Vec<Profile>)
        requires
            self.inv(),
        ensures
            page@ == window(self.profiles(), start as int, count as int),
    ;

    /// The profile with id `id`.
    fn get_profile(&self, id: u64) -> (profile: Option<Profile>)
        requires
            self.inv(),
        ensures
            profile == profile_at(self.profiles(), id),
    ;

    /// One page of the root registrations of `profile_id`, each with its
    /// children.
    fn get_product_registrations_for_profile(
        &self,
        profile_id: u64,
        start: u64,
        count: usize,
    ) -> (page: Vec<ProductRegistrationRecord>)
        requires
            self.inv(),
        ensures
            page@.len() == window(
                root_ids(self.ledger(), profile_id),
                start as int,
                count as int,
            ).len(),
            forall|k: int|
                0 <= k < page@.len() ==> is_record_of(
                    #[trigger] page@[k],
                    self.ledger(),
                    window(root_ids(self.ledger(), profile_id), start as int, count as int)[k],
                ),
    ;

    /// The registration with id `id` and its children.
    fn get_product_registration(&self, id: u64) -> (record: Option<ProductRegistrationRecord>)
        requires
            self.inv(),
        ensures
            record is Some <==> 1 <= id <= self.ledger().len(),
            record matches Some(found) ==> is_record_of(found, self.ledger(), id),
    ;

    /// The leaves that `product_sku` resolves to, each once.
    fn resolve_leaves(&self, product_sku: &str) -> (leaves: Vec<String>)
        requires
            self.inv(),
        ensures
            sku_views(leaves@).no_duplicates(),
            sku_views(leaves@).to_set() == resolved_leaves(self.bundles(), set![product_sku@]),
    ;

    /// Whether the catalog records `product`.
    fn product_exists(&self, product: &str) -> (exists: bool)
        requires
            self.inv(),
        ensures
            exists == self.bundles().dom().contains(product@),
    ;

    /// Those of `products` that the catalog does not record, in their
    /// order.
    fn find_missing_products(&self, products: &[String]) -> (missing: Vec<String>)
        requires
            self.inv(),
        ensures
            sku_views(missing@) == sku_views(products@).filter(
                |sku: Seq<char>| !self.bundles().dom().contains(sku),
            ),
    ;

    /// Stores `product` with the leaves that `subproducts` resolve to, and
    /// with `active_for` as its duration, in place of what was recorded
    /// for it; returns the leaves, each once.
    fn insert_product(
        &mut self,
        product: &str,
        subproducts: &[String],
        active_for: Option<u64>,
    ) -> (leaves: Vec<String>)
        requires
            old(self).inv(),
        ensures
            final(self).inv(),
            sku_views(leaves@).no_duplicates(),
            sku_views(leaves@).to_set() == resolved_leaves(
                old(self).bundles(),
                sku_views(subproducts@).to_set(),
            ),
            final(self).bundles() == old(self).bundles().insert(
                product@,
                resolved_leaves(old(self).bundles(), sku_views(subproducts@).to_set()),
            ),
            final(self).durations() == (match active_for {
                Some(seconds) => old(self).durations().insert(product@, seconds),
                None => old(self).durations().remove(product@),
            }),
            final(self).profiles() == old(self).profiles(),
            final(self).ledger() == old(self).ledger(),
    ;

    /// Registers `product_sku` for `profile_id` at the store's current
    /// time, or reports the leaves of it that the profile already holds.
    /// The time is the store's to give: some instant fits the outcome.
    fn insert_product_registration(&mut self, profile_id: u64, product_sku: &str) -> (outcome:
        Result<ProductRegistrationRecord, Vec<String>>)
        requires
            old(self).inv(),
        ensures
            final(self).inv(),
            final(self).profiles() == old(self).profiles(),
            final(self).bundles() == old(self).bundles(),
            final(self).durations() == old(self).durations(),
            exists|now: i64| #[trigger]
                is_registration_outcome(
                    old(self).bundles(),
                    old(self).durations(),
                    old(self).ledger(),
                    final(self).ledger(),
                    outcome,
                    profile_id,
                    product_sku@,
                    now,
                ),
    ;
}

} // verus!
