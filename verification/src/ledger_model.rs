//! The registration ledger as a mathematical sequence: what makes it well
//! formed, and what is derived from it.

use crate::activity::active_at;
use crate::model::{ProductRegistration, ProductRegistrationRecord};
use vstd::prelude::*;

verus! {

/// The registrations in the order they were made; the registration with id
/// `n` stands at index `n - 1`.
pub type Ledger = Seq<ProductRegistration>;

/// Ids are 1, 2, 3, ... in order, and every parent id is the id of an earlier
/// registration.
pub open spec fn ledger_wf(l: Ledger) -> bool {
    &&& forall|i: int| 0 <= i < l.len() ==> (#[trigger] l[i]).id == i + 1
    &&& forall|i: int|
        0 <= i < l.len() ==> ((#[trigger] l[i]).parent_id matches Some(p) ==> 1 <= p <= i)
}

/// `r` is a root registration owned by `profile_id`.
pub open spec fn is_root_of(r: ProductRegistration, profile_id: u64) -> bool {
    r.parent_id is None && r.profile_id == profile_id
}

/// `r` was created under the registration with id `parent`.
pub open spec fn is_child_of(r: ProductRegistration, parent: u64) -> bool {
    r.parent_id == Some(parent)
}

/// The ids of the registrations that satisfy `keep`, in ledger order.
pub open spec fn ids_where(l: Ledger, keep: spec_fn(ProductRegistration) -> bool) -> Seq<u64>
    decreases l.len(),
{
    if l.len() == 0 {
        Seq::empty()
    } else if keep(l.last()) {
        ids_where(l.drop_last(), keep).push(l.last().id)
    } else {
        ids_where(l.drop_last(), keep)
    }
}

/// The ids of the root registrations of `profile_id`, in ledger order.
pub open spec fn root_ids(l: Ledger, profile_id: u64) -> Seq<u64> {
    ids_where(l, |r: ProductRegistration| is_root_of(r, profile_id))
}

/// The ids of the registrations created under `parent`, in ledger order.
pub open spec fn child_ids(l: Ledger, parent: u64) -> Seq<u64> {
    ids_where(l, |r: ProductRegistration| is_child_of(r, parent))
}

/// The registrations with the given ids.
pub open spec fn registrations_at(l: Ledger, ids: Seq<u64>) -> Seq<ProductRegistration> {
    ids.map_values(|id: u64| l[id - 1])
}

/// The registrations created under `parent`, in ledger order.
pub open spec fn children_of(l: Ledger, parent: u64) -> Seq<ProductRegistration> {
    registrations_at(l, child_ids(l, parent))
}

/// `record` is the registration with id `id` together with its children.
pub open spec fn is_record_of(record: ProductRegistrationRecord, l: Ledger, id: u64) -> bool {
    &&& 1 <= id <= l.len()
    &&& record.registration == l[id - 1]
    &&& record.children@ == children_of(l, id)
}

/// The part of `s` that a page of at most `count` items starting at offset
/// `start` shows: nothing where `start` is at or beyond the end, else the
/// items from `start` on, cut off at the end of `s`.
pub open spec fn window<T>(s: Seq<T>, start: int, count: int) -> Seq<T> {
    if start < 0 || count < 0 || start >= s.len() {
        Seq::empty()
    } else if start + count <= s.len() {
        s.subrange(start, start + count)
    } else {
        s.subrange(start, s.len() as int)
    }
}

/// A page that starts at or beyond the end shows nothing.
pub proof fn lemma_window_beyond_end<T>(s: Seq<T>, start: int, count: int)
    requires
        start >= s.len(),
    ensures
        window(s, start, count) == Seq::<T>::empty(),
{
}

/// A page that would run past the end shows exactly what is left from its
/// start on.
pub proof fn lemma_window_tail<T>(s: Seq<T>, start: int, count: int)
    requires
        0 <= start < s.len(),
        start + count > s.len(),
    ensures
        window(s, start, count) == s.subrange(start, s.len() as int),
        window(s, start, count).len() == s.len() - start,
{
}

/// A page that fits shows `count` items, from its start on.
pub proof fn lemma_window_full<T>(s: Seq<T>, start: int, count: int)
    requires
        0 <= start,
        0 <= count,
        start + count <= s.len(),
        start < s.len(),
    ensures
        window(s, start, count) == s.subrange(start, start + count),
        window(s, start, count).len() == count,
{
}

/// The registration at index `i` counts towards what `profile_id` holds: it
/// is a root of the profile, or a child of one.
pub open spec fn counts_for(l: Ledger, i: int, profile_id: u64) -> bool {
    ||| is_root_of(l[i], profile_id)
    ||| (l[i].parent_id matches Some(p) && 1 <= p <= l.len() && is_root_of(l[p - 1], profile_id))
}

/// Some registration that counts for `profile_id` is for `sku` and active at
/// `now`.
pub open spec fn holds_active(l: Ledger, profile_id: u64, now: i64, sku: Seq<char>) -> bool {
    exists|i: int|
        0 <= i < l.len() && #[trigger] counts_for(l, i, profile_id) && l[i].product@ == sku
            && active_at(l[i].expiry_at, now)
}

/// The SKUs that `profile_id` holds at `now`: those of its active root
/// registrations and of the active children of its roots, each judged by
/// its own expiry.
pub open spec fn active_products(l: Ledger, profile_id: u64, now: i64) -> Set<Seq<char>> {
    Set::new(|sku: Seq<char>| holds_active(l, profile_id, now, sku))
}

/// What `ids_where` yields after one more registration.
pub proof fn lemma_ids_where_push(
    l: Ledger,
    r: ProductRegistration,
    keep: spec_fn(ProductRegistration) -> bool,
)
    ensures
        ids_where(l.push(r), keep) == if keep(r) {
            ids_where(l, keep).push(r.id)
        } else {
            ids_where(l, keep)
        },
{
    assert(l.push(r).drop_last() =~= l);
    assert(l.push(r).last() == r);
}

/// An id is among `ids_where` exactly when it names a registration that
/// satisfies `keep`.
pub proof fn lemma_ids_where_member(
    l: Ledger,
    keep: spec_fn(ProductRegistration) -> bool,
    id: u64,
)
    requires
        ledger_wf(l),
    ensures
        ids_where(l, keep).contains(id) <==> 1 <= id <= l.len() && keep(l[id - 1]),
    decreases l.len(),
{
    if l.len() > 0 {
        let front = l.drop_last();
        assert(ledger_wf(front)) by {
            assert forall|i: int| 0 <= i < front.len() implies (#[trigger] front[i]).id == i
                + 1 by {
                assert(front[i] == l[i]);
            }
            assert forall|i: int| 0 <= i < front.len() implies ((#[trigger] front[i]).parent_id
                matches Some(p) ==> 1 <= p <= i) by {
                assert(front[i] == l[i]);
            }
        }
        lemma_ids_where_member(front, keep, id);
        let rest = ids_where(front, keep);
        if id <= front.len() && id >= 1 {
            assert(front[id - 1] == l[id - 1]);
        }
        if keep(l.last()) {
            let all = rest.push(l.last().id);
            assert(all.last() == l.last().id);
            if rest.contains(id) {
                let k = choose|k: int| 0 <= k < rest.len() && rest[k] == id;
                assert(all[k] == id);
            }
            if all.contains(id) {
                let k = choose|k: int| 0 <= k < all.len() && all[k] == id;
                if k < rest.len() {
                    assert(rest[k] == id);
                }
            }
            if id == l.len() {
                assert(all[rest.len() as int] == id);
            }
        }
    }
}

/// `ids_where` yields no more ids than the ledger has registrations.
pub proof fn lemma_ids_where_len(l: Ledger, keep: spec_fn(ProductRegistration) -> bool)
    ensures
        ids_where(l, keep).len() <= l.len(),
    decreases l.len(),
{
    if l.len() > 0 {
        lemma_ids_where_len(l.drop_last(), keep);
    }
}

/// Every id among `ids_where` names a registration of the ledger.
pub proof fn lemma_ids_where_in_range(
    l: Ledger,
    keep: spec_fn(ProductRegistration) -> bool,
    k: int,
)
    requires
        ledger_wf(l),
        0 <= k < ids_where(l, keep).len(),
    ensures
        1 <= ids_where(l, keep)[k] <= l.len(),
        keep(l[ids_where(l, keep)[k] - 1]),
{
    let ids = ids_where(l, keep);
    assert(ids.contains(ids[k]));
    lemma_ids_where_member(l, keep, ids[k]);
}

/// The ids of a sequence of registrations.
pub open spec fn ids_of(items: Seq<ProductRegistration>) -> Seq<u64> {
    items.map_values(|r: ProductRegistration| r.id)
}

/// Where no registration satisfies `keep`, `ids_where` yields nothing.
pub proof fn lemma_ids_where_none(l: Ledger, keep: spec_fn(ProductRegistration) -> bool)
    requires
        forall|i: int| 0 <= i < l.len() ==> !keep(#[trigger] l[i]),
    ensures
        ids_where(l, keep) == Seq::<u64>::empty(),
    decreases l.len(),
{
    if l.len() > 0 {
        let front = l.drop_last();
        assert forall|i: int| 0 <= i < front.len() implies !keep(#[trigger] front[i]) by {
            assert(front[i] == l[i]);
        }
        lemma_ids_where_none(front, keep);
        assert(!keep(l[l.len() - 1]));
    }
}

/// Registrations that do not satisfy `keep` add nothing to `ids_where`.
pub proof fn lemma_ids_where_skips(
    l: Ledger,
    more: Seq<ProductRegistration>,
    keep: spec_fn(ProductRegistration) -> bool,
)
    requires
        forall|k: int| 0 <= k < more.len() ==> !keep(#[trigger] more[k]),
    ensures
        ids_where(l + more, keep) == ids_where(l, keep),
    decreases more.len(),
{
    if more.len() == 0 {
        assert(l + more =~= l);
    } else {
        let front = more.drop_last();
        assert forall|k: int| 0 <= k < front.len() implies !keep(#[trigger] front[k]) by {
            assert(front[k] == more[k]);
        }
        lemma_ids_where_skips(l, front, keep);
        assert(l + more =~= (l + front).push(more.last()));
        lemma_ids_where_push(l + front, more.last(), keep);
        assert(!keep(more[more.len() - 1]));
    }
}

/// Registrations that all satisfy `keep` add their ids to `ids_where`.
pub proof fn lemma_ids_where_takes(
    l: Ledger,
    more: Seq<ProductRegistration>,
    keep: spec_fn(ProductRegistration) -> bool,
)
    requires
        forall|k: int| 0 <= k < more.len() ==> keep(#[trigger] more[k]),
    ensures
        ids_where(l + more, keep) == ids_where(l, keep) + ids_of(more),
    decreases more.len(),
{
    if more.len() == 0 {
        assert(l + more =~= l);
        assert(ids_where(l, keep) + ids_of(more) =~= ids_where(l, keep));
    } else {
        let front = more.drop_last();
        assert forall|k: int| 0 <= k < front.len() implies keep(#[trigger] front[k]) by {
            assert(front[k] == more[k]);
        }
        lemma_ids_where_takes(l, front, keep);
        assert(l + more =~= (l + front).push(more.last()));
        lemma_ids_where_push(l + front, more.last(), keep);
        assert(keep(more[more.len() - 1]));
        assert(ids_of(more) =~= ids_of(front).push(more.last().id));
        assert(ids_where(l, keep) + ids_of(more) =~= (ids_where(l, keep) + ids_of(front)).push(
            more.last().id,
        ));
    }
}

/// A well-formed ledger stays well formed when a registration with the next
/// id and an earlier parent, if any, is appended.
pub proof fn lemma_ledger_wf_push(l: Ledger, r: ProductRegistration)
    requires
        ledger_wf(l),
        r.id == l.len() + 1,
        r.parent_id matches Some(p) ==> 1 <= p <= l.len(),
    ensures
        ledger_wf(l.push(r)),
{
    let m = l.push(r);
    assert forall|i: int| 0 <= i < m.len() implies (#[trigger] m[i]).id == i + 1 by {
        if i < l.len() {
            assert(m[i] == l[i]);
        }
    }
    assert forall|i: int| 0 <= i < m.len() implies ((#[trigger] m[i]).parent_id matches Some(p)
        ==> 1 <= p <= i) by {
        if i < l.len() {
            assert(m[i] == l[i]);
        }
    }
}

/// The child of `root` at position `k` is for `sku` and active at `now`.
pub open spec fn child_hit(l: Ledger, root: u64, k: int, now: i64, sku: Seq<char>) -> bool {
    let child = l[child_ids(l, root)[k] - 1];
    child.product@ == sku && active_at(child.expiry_at, now)
}

/// The registration `root` or one of its first `upto` children is for `sku`
/// and active at `now`.
pub open spec fn tree_holds(l: Ledger, root: u64, upto: int, now: i64, sku: Seq<char>) -> bool {
    ||| (l[root - 1].product@ == sku && active_at(l[root - 1].expiry_at, now))
    ||| exists|k: int| 0 <= k < upto && #[trigger] child_hit(l, root, k, now, sku)
}

/// The root of `profile_id` at position `j`, or one of its children, is for
/// `sku` and active at `now`.
pub open spec fn root_hit(l: Ledger, profile_id: u64, j: int, now: i64, sku: Seq<char>) -> bool {
    let root = root_ids(l, profile_id)[j];
    tree_holds(l, root, child_ids(l, root).len() as int, now, sku)
}

/// One of the first `upto` roots of `profile_id`, or one of its children, is
/// for `sku` and active at `now`.
pub open spec fn roots_hold(l: Ledger, profile_id: u64, upto: int, now: i64, sku: Seq<char>) -> bool {
    exists|j: int| 0 <= j < upto && #[trigger] root_hit(l, profile_id, j, now, sku)
}

/// Walking the roots of a profile and the children of each root meets
/// exactly the registrations that count for the profile.
pub proof fn lemma_active_by_trees(l: Ledger, profile_id: u64, now: i64, sku: Seq<char>)
    requires
        ledger_wf(l),
    ensures
        holds_active(l, profile_id, now, sku) <==> roots_hold(
            l,
            profile_id,
            root_ids(l, profile_id).len() as int,
            now,
            sku,
        ),
{
    let roots = root_ids(l, profile_id);
    let is_root = |r: ProductRegistration| is_root_of(r, profile_id);
    if holds_active(l, profile_id, now, sku) {
        let i = choose|i: int|
            0 <= i < l.len() && #[trigger] counts_for(l, i, profile_id) && l[i].product@ == sku
                && active_at(l[i].expiry_at, now);
        if is_root_of(l[i], profile_id) {
            let id = (i + 1) as u64;
            lemma_ids_where_member(l, is_root, id);
            let j = choose|j: int| 0 <= j < roots.len() && roots[j] == id;
            assert(root_hit(l, profile_id, j, now, sku));
        } else {
            let parent = l[i].parent_id->0;
            let id = (i + 1) as u64;
            lemma_ids_where_member(l, is_root, parent);
            let j = choose|j: int| 0 <= j < roots.len() && roots[j] == parent;
            let under = |r: ProductRegistration| is_child_of(r, parent);
            lemma_ids_where_member(l, under, id);
            let kids = child_ids(l, parent);
            let k = choose|k: int| 0 <= k < kids.len() && kids[k] == id;
            assert(child_hit(l, parent, k, now, sku));
            assert(root_hit(l, profile_id, j, now, sku));
        }
    }
    if roots_hold(l, profile_id, roots.len() as int, now, sku) {
        let j = choose|j: int| 0 <= j < roots.len() && #[trigger] root_hit(l, profile_id, j, now, sku);
        let root = roots[j];
        lemma_ids_where_in_range(l, is_root, j);
        let kids = child_ids(l, root);
        if l[root - 1].product@ == sku && active_at(l[root - 1].expiry_at, now) {
            assert(counts_for(l, root - 1, profile_id));
        } else {
            let k = choose|k: int| 0 <= k < kids.len() && #[trigger] child_hit(l, root, k, now, sku);
            let under = |r: ProductRegistration| is_child_of(r, root);
            lemma_ids_where_in_range(l, under, k);
            assert(counts_for(l, kids[k] - 1, profile_id));
        }
    }
}

/// `seen` holds what `base` holds and, besides, exactly the SKUs for which
/// `root` or one of its first `upto` children is an active registration.
pub open spec fn tree_accounted(
    seen: Set<Seq<char>>,
    base: Set<Seq<char>>,
    l: Ledger,
    root: u64,
    upto: int,
    now: i64,
) -> bool {
    forall|sku: Seq<char>|
        #![trigger seen.contains(sku)]
        seen.contains(sku) <==> (base.contains(sku) || tree_holds(l, root, upto, now, sku))
}

/// `seen` holds exactly the SKUs for which one of the first `upto` roots of
/// `profile_id`, or a child of one, is an active registration.
pub open spec fn roots_accounted(
    seen: Set<Seq<char>>,
    l: Ledger,
    profile_id: u64,
    upto: int,
    now: i64,
) -> bool {
    forall|sku: Seq<char>|
        #![trigger seen.contains(sku)]
        seen.contains(sku) <==> roots_hold(l, profile_id, upto, now, sku)
}

/// `base` with the product of `r` added where `r` is active at `now`.
pub open spec fn with_active(base: Set<Seq<char>>, r: ProductRegistration, now: i64) -> Set<
    Seq<char>,
> {
    if active_at(r.expiry_at, now) {
        base.insert(r.product@)
    } else {
        base
    }
}

/// Looking at a root alone accounts for the root and none of its children.
pub proof fn lemma_tree_accounted_start(base: Set<Seq<char>>, l: Ledger, root: u64, now: i64)
    ensures
        tree_accounted(with_active(base, l[root - 1], now), base, l, root, 0, now),
{
}

/// What looking at one more child does for one SKU.
proof fn lemma_tree_step_at(
    seen: Set<Seq<char>>,
    base: Set<Seq<char>>,
    l: Ledger,
    root: u64,
    k: int,
    now: i64,
    sku: Seq<char>,
)
    requires
        tree_accounted(seen, base, l, root, k, now),
        0 <= k < child_ids(l, root).len(),
    ensures
        with_active(seen, l[child_ids(l, root)[k] - 1], now).contains(sku) <==> (base.contains(sku)
            || tree_holds(l, root, k + 1, now, sku)),
{
    assert(seen.contains(sku) <==> (base.contains(sku) || tree_holds(l, root, k, now, sku)));
    if tree_holds(l, root, k + 1, now, sku) && !tree_holds(l, root, k, now, sku) {
        let w = choose|w: int| 0 <= w < k + 1 && #[trigger] child_hit(l, root, w, now, sku);
        assert(w == k);
    }
    if child_hit(l, root, k, now, sku) {
        assert(tree_holds(l, root, k + 1, now, sku));
    }
    if tree_holds(l, root, k, now, sku) && !(l[root - 1].product@ == sku && active_at(
        l[root - 1].expiry_at,
        now,
    )) {
        let w = choose|w: int| 0 <= w < k && #[trigger] child_hit(l, root, w, now, sku);
        assert(child_hit(l, root, w, now, sku));
    }
}

/// Looking at one more child accounts for one more child.
pub proof fn lemma_tree_accounted_step(
    seen: Set<Seq<char>>,
    base: Set<Seq<char>>,
    l: Ledger,
    root: u64,
    k: int,
    now: i64,
)
    requires
        tree_accounted(seen, base, l, root, k, now),
        0 <= k < child_ids(l, root).len(),
    ensures
        tree_accounted(
            with_active(seen, l[child_ids(l, root)[k] - 1], now),
            base,
            l,
            root,
            k + 1,
            now,
        ),
{
    let after = with_active(seen, l[child_ids(l, root)[k] - 1], now);
    assert forall|sku: Seq<char>|
        after.contains(sku) <==> (base.contains(sku) || tree_holds(l, root, k + 1, now, sku)) by {
        lemma_tree_step_at(seen, base, l, root, k, now, sku);
    }
}

/// Before any root is looked at, nothing is accounted for.
pub proof fn lemma_roots_accounted_start(l: Ledger, profile_id: u64, now: i64)
    ensures
        roots_accounted(Set::<Seq<char>>::empty(), l, profile_id, 0, now),
{
}

/// What accounting for the tree of the next root does for one SKU.
proof fn lemma_roots_step_at(
    seen: Set<Seq<char>>,
    base: Set<Seq<char>>,
    l: Ledger,
    profile_id: u64,
    i: int,
    now: i64,
    sku: Seq<char>,
)
    requires
        roots_accounted(base, l, profile_id, i, now),
        0 <= i < root_ids(l, profile_id).len(),
        tree_accounted(
            seen,
            base,
            l,
            root_ids(l, profile_id)[i],
            child_ids(l, root_ids(l, profile_id)[i]).len() as int,
            now,
        ),
    ensures
        seen.contains(sku) <==> roots_hold(l, profile_id, i + 1, now, sku),
{
    let root = root_ids(l, profile_id)[i];
    let kids = child_ids(l, root);
    assert(seen.contains(sku) <==> (base.contains(sku) || tree_holds(
        l,
        root,
        kids.len() as int,
        now,
        sku,
    )));
    assert(base.contains(sku) <==> roots_hold(l, profile_id, i, now, sku));
    assert(root_hit(l, profile_id, i, now, sku) <==> tree_holds(
        l,
        root,
        kids.len() as int,
        now,
        sku,
    ));
    if roots_hold(l, profile_id, i + 1, now, sku) {
        let j = choose|j: int| 0 <= j < i + 1 && #[trigger] root_hit(l, profile_id, j, now, sku);
        if j < i {
            assert(roots_hold(l, profile_id, i, now, sku));
        }
    }
    if roots_hold(l, profile_id, i, now, sku) {
        let j = choose|j: int| 0 <= j < i && #[trigger] root_hit(l, profile_id, j, now, sku);
        assert(root_hit(l, profile_id, j, now, sku));
    }
}

/// Accounting for the tree of the next root accounts for one more root.
pub proof fn lemma_roots_accounted_step(
    seen: Set<Seq<char>>,
    base: Set<Seq<char>>,
    l: Ledger,
    profile_id: u64,
    i: int,
    now: i64,
)
    requires
        roots_accounted(base, l, profile_id, i, now),
        0 <= i < root_ids(l, profile_id).len(),
        tree_accounted(
            seen,
            base,
            l,
            root_ids(l, profile_id)[i],
            child_ids(l, root_ids(l, profile_id)[i]).len() as int,
            now,
        ),
    ensures
        roots_accounted(seen, l, profile_id, i + 1, now),
{
    assert forall|sku: Seq<char>|
        seen.contains(sku) <==> roots_hold(l, profile_id, i + 1, now, sku) by {
        lemma_roots_step_at(seen, base, l, profile_id, i, now, sku);
    }
}

/// Once every root is accounted for, `seen` is what the profile holds.
pub proof fn lemma_roots_accounted_all(seen: Set<Seq<char>>, l: Ledger, profile_id: u64, now: i64)
    requires
        ledger_wf(l),
        roots_accounted(seen, l, profile_id, root_ids(l, profile_id).len() as int, now),
    ensures
        seen == active_products(l, profile_id, now),
{
    assert forall|sku: Seq<char>|
        seen.contains(sku) <==> active_products(l, profile_id, now).contains(sku) by {
        lemma_active_by_trees(l, profile_id, now, sku);
        assert(seen.contains(sku) <==> roots_hold(
            l,
            profile_id,
            root_ids(l, profile_id).len() as int,
            now,
            sku,
        ));
    }
    assert(seen =~= active_products(l, profile_id, now));
}

} // verus!
