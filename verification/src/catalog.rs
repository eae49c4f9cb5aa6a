//! The product catalog: which SKUs each product bundles, how long a product
//! stays active, and the resolution of a product to its leaves.

use crate::catalog_store::{
    bundle_contents, bundle_map_contains, bundle_map_get, bundle_map_insert, bundle_map_new,
    duration_contents, duration_map_get, duration_map_insert, duration_map_new,
    duration_map_remove, sku_views,
};
use crate::reach::{
    bundles_directly, is_leaf, lemma_closed_set_holds_reachable,
    lemma_closed_set_holds_reachable_outside, lemma_reaches_outside_ends,
    lemma_reaches_outside_self, lemma_reaches_outside_step_first,
    lemma_reaches_outside_step_last, lemma_reaches_outside_subset, reaches, reaches_from,
    reaches_outside, resolved_leaves, Bundles,
};
use dashmap::DashMap;
use std::collections::HashSet;
use vstd::hash_set::StringHashSet;
use vstd::prelude::*;
use vstd::set_lib::lemma_len_subset;

verus! {

/// Appending one string appends its SKU.
proof fn lemma_sku_views_push(v: Seq<String>, s: String)
    ensures
        sku_views(v.push(s)) == sku_views(v).push(s@),
{
    assert(sku_views(v.push(s)) =~= sku_views(v).push(s@));
}

/// `x` is a member of `now` that `before` lacks.
spec fn newly_visited(before: Set<Seq<char>>, now: Set<Seq<char>>, x: Seq<char>) -> bool {
    now.contains(x) && !before.contains(x)
}

/// The SKUs that a walk from `product` meets when it leaves the SKUs of
/// `avoid` alone: those that `product` reaches along chains outside
/// `avoid`.
pub open spec fn walked(g: Bundles, avoid: Set<Seq<char>>, product: Seq<char>) -> Set<Seq<char>> {
    Set::new(|x: Seq<char>| reaches_outside(g, avoid, product, x))
}

/// The leaves among the SKUs that such a walk meets.
pub open spec fn walked_leaves(g: Bundles, avoid: Set<Seq<char>>, product: Seq<char>) -> Set<
    Seq<char>,
> {
    Set::new(|x: Seq<char>| is_leaf(g, x) && reaches_outside(g, avoid, product, x))
}

/// The leaves among the members of `now` that `before` lacks.
spec fn new_leaves(g: Bundles, before: Set<Seq<char>>, now: Set<Seq<char>>) -> Set<Seq<char>> {
    Set::new(|x: Seq<char>| newly_visited(before, now, x) && is_leaf(g, x))
}

/// `after` is `before` followed by the SKUs of `added`, each once.
pub open spec fn extends_by(before: Seq<String>, after: Seq<String>, added: Set<Seq<char>>) -> bool {
    &&& before.len() <= after.len()
    &&& after.subrange(0, before.len() as int) == before
    &&& sku_views(after.subrange(before.len() as int, after.len() as int)).no_duplicates()
    &&& sku_views(after.subrange(before.len() as int, after.len() as int)).to_set() == added
}

/// A sequence extends itself by nothing.
proof fn lemma_extends_by_nothing(a: Seq<String>)
    ensures
        extends_by(a, a, Set::<Seq<char>>::empty()),
{
    assert(a.subrange(0, a.len() as int) =~= a);
    assert(sku_views(a.subrange(a.len() as int, a.len() as int)) =~= Seq::<Seq<char>>::empty());
    assert(Seq::<Seq<char>>::empty().to_set() =~= Set::<Seq<char>>::empty());
}

/// Appending one string extends a sequence by its SKU.
proof fn lemma_extends_by_push(a: Seq<String>, s: String)
    ensures
        extends_by(a, a.push(s), set![s@]),
{
    let b = a.push(s);
    assert(b.subrange(0, a.len() as int) =~= a);
    let added = sku_views(b.subrange(a.len() as int, b.len() as int));
    assert(added =~= seq![s@]);
    assert(added.to_set() =~= set![s@]) by {
        assert(added[0] == s@);
    }
}

/// Extending twice, by sets without a common SKU, extends by their union.
proof fn lemma_extends_by_twice(
    a: Seq<String>,
    b: Seq<String>,
    c: Seq<String>,
    first: Set<Seq<char>>,
    second: Set<Seq<char>>,
)
    requires
        extends_by(a, b, first),
        extends_by(b, c, second),
        first.disjoint(second),
    ensures
        extends_by(a, c, first.union(second)),
{
    let x = sku_views(b.subrange(a.len() as int, b.len() as int));
    let y = sku_views(c.subrange(b.len() as int, c.len() as int));
    let z = sku_views(c.subrange(a.len() as int, c.len() as int));
    assert forall|i: int| 0 <= i < b.len() implies c[i] == b[i] by {
        assert(c.subrange(0, b.len() as int)[i] == b[i]);
    }
    assert(c.subrange(0, a.len() as int) =~= a) by {
        assert forall|i: int| 0 <= i < a.len() implies c[i] == a[i] by {
            assert(b.subrange(0, a.len() as int)[i] == a[i]);
        }
    }
    assert(z =~= x + y);
    assert forall|i: int, j: int| 0 <= i < z.len() && 0 <= j < z.len() && i != j implies z[i]
        != z[j] by {
        if i < x.len() && j >= x.len() {
            assert(x.to_set().contains(x[i]));
            assert(y.to_set().contains(y[j - x.len()]));
        } else if j < x.len() && i >= x.len() {
            assert(x.to_set().contains(x[j]));
            assert(y.to_set().contains(y[i - x.len()]));
        }
    }
    assert forall|v: Seq<char>| z.to_set().contains(v) <==> first.union(second).contains(v) by {
        if z.contains(v) {
            let i = choose|i: int| 0 <= i < z.len() && z[i] == v;
            if i < x.len() {
                assert(x[i] == v);
                assert(x.to_set().contains(v));
            } else {
                assert(y[i - x.len()] == v);
                assert(y.to_set().contains(v));
            }
        }
        if x.contains(v) {
            let i = choose|i: int| 0 <= i < x.len() && x[i] == v;
            assert(z[i] == v);
        }
        if y.contains(v) {
            let i = choose|i: int| 0 <= i < y.len() && y[i] == v;
            assert(z[i + x.len()] == v);
        }
    }
    assert(z.to_set() =~= first.union(second));
}

/// A set of SKUs that grew from `v0` to `v1`, that holds `product` unless
/// `v0` does, all of whose new members were reached from `product` outside
/// `v0`, and that holds whatever its new members bundle, is `v0` with
/// exactly what a walk from `product` meets.
proof fn lemma_walk_is_exact(
    g: Bundles,
    v0: Set<Seq<char>>,
    v1: Set<Seq<char>>,
    product: Seq<char>,
)
    requires
        v0.subset_of(v1),
        !v0.contains(product) ==> v1.contains(product),
        forall|a: Seq<char>, b: Seq<char>|
            newly_visited(v0, v1, a) && #[trigger] bundles_directly(g, a, b) ==> v1.contains(b),
        forall|a: Seq<char>| #[trigger]
            newly_visited(v0, v1, a) ==> reaches_outside(g, v0, product, a),
    ensures
        v1 == v0.union(walked(g, v0, product)),
        new_leaves(g, v0, v1) == walked_leaves(g, v0, product),
{
    assert forall|x: Seq<char>| reaches_outside(g, v0, product, x) implies newly_visited(
        v0,
        v1,
        x,
    ) by {
        lemma_reaches_outside_ends(g, v0, product, x);
        assert forall|a: Seq<char>, b: Seq<char>|
            v1.contains(a) && !v0.contains(a) && #[trigger] bundles_directly(
                g,
                a,
                b,
            ) implies v1.contains(b) by {
            assert(newly_visited(v0, v1, a));
        }
        lemma_closed_set_holds_reachable_outside(g, v0, v1, product, x);
    }
    let met = walked(g, v0, product);
    assert forall|x: Seq<char>| v1.contains(x) implies v0.union(met).contains(x) by {
        if !v0.contains(x) {
            assert(newly_visited(v0, v1, x));
            assert(reaches_outside(g, v0, product, x));
            assert(met.contains(x));
        }
    }
    assert forall|x: Seq<char>| v0.union(met).contains(x) implies v1.contains(x) by {
        if met.contains(x) {
            assert(reaches_outside(g, v0, product, x));
            assert(newly_visited(v0, v1, x));
        }
    }
    assert(v1 =~= v0.union(walked(g, v0, product)));
    assert forall|x: Seq<char>| new_leaves(g, v0, v1).contains(x) <==> walked_leaves(
        g,
        v0,
        product,
    ).contains(x) by {
        if newly_visited(v0, v1, x) {
            assert(reaches_outside(g, v0, product, x));
        }
        if reaches_outside(g, v0, product, x) {
            assert(newly_visited(v0, v1, x));
        }
    }
    assert(new_leaves(g, v0, v1) =~= walked_leaves(g, v0, product));
}

/// What a walk from `child`, made after the set of visited SKUs grew from
/// `v0` to `vb` and ending with `vc`, adds to what is known of a walk from
/// `product`, which bundles `child`.
proof fn lemma_walk_of_child(
    g: Bundles,
    v0: Set<Seq<char>>,
    v1: Set<Seq<char>>,
    vb: Set<Seq<char>>,
    vc: Set<Seq<char>>,
    product: Seq<char>,
    child: Seq<char>,
)
    requires
        !v0.contains(product),
        v1 == v0.insert(product),
        v1.subset_of(vb),
        bundles_directly(g, product, child),
        vc == vb.union(walked(g, vb, child)),
        forall|a: Seq<char>, b: Seq<char>|
            newly_visited(v1, vb, a) && #[trigger] bundles_directly(g, a, b) ==> vb.contains(b),
        forall|a: Seq<char>| #[trigger]
            newly_visited(v0, vb, a) ==> reaches_outside(g, v0, product, a),
    ensures
        vb.subset_of(vc),
        vc.contains(child),
        forall|a: Seq<char>, b: Seq<char>|
            newly_visited(v1, vc, a) && #[trigger] bundles_directly(g, a, b) ==> vc.contains(b),
        forall|a: Seq<char>| #[trigger]
            newly_visited(v0, vc, a) ==> reaches_outside(g, v0, product, a),
        new_leaves(g, v0, vb).disjoint(walked_leaves(g, vb, child)),
        new_leaves(g, v0, vc) == new_leaves(g, v0, vb).union(walked_leaves(g, vb, child)),
{
    if !vb.contains(child) {
        lemma_reaches_outside_self(g, vb, child);
        assert(walked(g, vb, child).contains(child));
    }
    assert forall|a: Seq<char>, b: Seq<char>|
        newly_visited(v1, vc, a) && #[trigger] bundles_directly(g, a, b) implies vc.contains(
        b,
    ) by {
        if newly_visited(v1, vb, a) {
            assert(vb.contains(b));
        } else {
            assert(walked(g, vb, child).contains(a));
            if !vb.contains(b) {
                lemma_reaches_outside_step_last(g, vb, child, a, b);
                assert(walked(g, vb, child).contains(b));
            }
        }
    }
    assert forall|a: Seq<char>| #[trigger] newly_visited(v0, vc, a) implies reaches_outside(
        g,
        v0,
        product,
        a,
    ) by {
        if !newly_visited(v0, vb, a) {
            assert(walked(g, vb, child).contains(a));
            lemma_reaches_outside_subset(g, v0, vb, child, a);
            lemma_reaches_outside_step_first(g, v0, product, child, a);
        }
    }
    assert forall|x: Seq<char>| walked_leaves(g, vb, child).contains(x) implies !vb.contains(
        x,
    ) by {
        lemma_reaches_outside_ends(g, vb, child, x);
    }
    assert forall|x: Seq<char>| new_leaves(g, v0, vc).contains(x) <==> new_leaves(
        g,
        v0,
        vb,
    ).union(walked_leaves(g, vb, child)).contains(x) by {
        if walked_leaves(g, vb, child).contains(x) {
            assert(walked(g, vb, child).contains(x));
            assert(!vb.contains(x));
        }
        if newly_visited(v0, vc, x) && !vb.contains(x) {
            assert(walked(g, vb, child).contains(x));
        }
    }
    assert(new_leaves(g, v0, vc) =~= new_leaves(g, v0, vb).union(walked_leaves(g, vb, child)));
}

/// Depth-first walk from `product` along bundle edges. A SKU already in
/// `visited` is left alone, and so is whatever only it leads to; every
/// other SKU met is added to `visited`, and appended to `leaves` where the
/// catalog records it with no bundled SKUs. A SKU that the catalog does not
/// record is visited and contributes nothing.
fn find_subproduct_dfs(
    product: &str,
    existing_products: &DashMap<String, HashSet<String>>,
    visited: &mut StringHashSet,
    leaves: &mut Vec<String>,
)
    requires
        bundle_contents(*existing_products).dom().finite(),
    ensures
        old(visited)@.contains(product@) ==> final(visited)@ == old(visited)@ && final(leaves)@
            == old(leaves)@,
        final(visited)@ == old(visited)@.union(
            walked(bundle_contents(*existing_products), old(visited)@, product@),
        ),
        extends_by(
            old(leaves)@,
            final(leaves)@,
            walked_leaves(bundle_contents(*existing_products), old(visited)@, product@),
        ),
    decreases bundle_contents(*existing_products).dom().difference(old(visited)@).len(),
{
    let ghost g = bundle_contents(*existing_products);
    let ghost v0 = visited@;
    let ghost l0 = leaves@;
    if visited.contains(product) {
        proof {
            lemma_walk_is_exact(g, v0, v0, product@);
            assert(new_leaves(g, v0, v0) =~= Set::<Seq<char>>::empty());
            lemma_extends_by_nothing(l0);
        }
        return ;
    }
    visited.insert(product.to_owned());
    let ghost v1 = visited@;
    proof {
        lemma_reaches_outside_self(g, v0, product@);
    }
    match bundle_map_get(existing_products, product) {
        None => {
            proof {
                lemma_walk_is_exact(g, v0, v1, product@);
                assert(new_leaves(g, v0, v1) =~= Set::<Seq<char>>::empty());
                lemma_extends_by_nothing(l0);
            }
        },
        Some(subproducts) => {
            proof {
                // One more recorded SKU is visited, so fewer remain.
                assert(g.dom().difference(v1) =~= g.dom().difference(v0).remove(product@));
                assert(g.dom().difference(v0).contains(product@));
            }
            if subproducts.len() == 0 {
                let owned = product.to_owned();
                leaves.push(owned);
                proof {
                    assert(sku_views(subproducts@).to_set() =~= Set::<Seq<char>>::empty());
                    assert(is_leaf(g, product@));
                    lemma_walk_is_exact(g, v0, v1, product@);
                    assert(new_leaves(g, v0, v1) =~= set![product@]);
                    lemma_extends_by_push(l0, owned);
                }
            } else {
                let ghost subs = sku_views(subproducts@);
                proof {
                    assert(subs.to_set().contains(subs[0]));
                    assert(!is_leaf(g, product@));
                    assert(new_leaves(g, v0, v1) =~= Set::<Seq<char>>::empty());
                    lemma_extends_by_nothing(l0);
                }
                let mut i: usize = 0;
                while i < subproducts.len()
                    invariant
                        g == bundle_contents(*existing_products),
                        g.dom().finite(),
                        g.dom().contains(product@),
                        subs == sku_views(subproducts@),
                        subs.to_set() == g[product@],
                        i <= subproducts.len(),
                        v0 == old(visited)@,
                        v1 == v0.insert(product@),
                        !v0.contains(product@),
                        v1.subset_of(visited@),
                        g.dom().difference(v1).len() < g.dom().difference(v0).len(),
                        forall|j: int| 0 <= j < i ==> visited@.contains(#[trigger] subs[j]),
                        forall|a: Seq<char>, b: Seq<char>|
                            newly_visited(v1, visited@, a) && #[trigger] bundles_directly(g, a, b)
                                ==> visited@.contains(b),
                        forall|a: Seq<char>| #[trigger]
                            newly_visited(v0, visited@, a) ==> reaches_outside(g, v0, product@, a),
                        extends_by(l0, leaves@, new_leaves(g, v0, visited@)),
                    decreases subproducts.len() - i,
                {
                    let ghost vb = visited@;
                    let ghost lb = leaves@;
                    proof {
                        assert(g.dom().difference(vb).subset_of(g.dom().difference(v1)));
                        lemma_len_subset(g.dom().difference(vb), g.dom().difference(v1));
                    }
                    find_subproduct_dfs(subproducts[i].as_str(), existing_products, visited, leaves);
                    proof {
                        let child = subs[i as int];
                        assert(child == subproducts@[i as int]@);
                        assert(subs.to_set().contains(child));
                        lemma_walk_of_child(g, v0, v1, vb, visited@, product@, child);
                        lemma_extends_by_twice(
                            l0,
                            lb,
                            leaves@,
                            new_leaves(g, v0, vb),
                            walked_leaves(g, vb, child),
                        );
                    }
                    i += 1;
                }
                proof {
                    assert forall|a: Seq<char>, b: Seq<char>|
                        newly_visited(v0, visited@, a) && #[trigger] bundles_directly(
                            g,
                            a,
                            b,
                        ) implies visited@.contains(b) by {
                        if a == product@ {
                            assert(subs.to_set().contains(b));
                            let j = choose|j: int| 0 <= j < subs.len() && subs[j] == b;
                            assert(visited@.contains(subs[j]));
                        } else {
                            assert(newly_visited(v1, visited@, a));
                        }
                    }
                    lemma_walk_is_exact(g, v0, visited@, product@);
                }
            }
        },
    }
}

/// The product catalog: a bundle graph over SKUs, and for some SKUs the
/// number of seconds a registration of that product stays active.
pub struct ProductGraph {
    products: DashMap<String, HashSet<String>>,
    product_active_for: DashMap<String, u64>,
}

impl ProductGraph {
    /// The bundle graph: each recorded SKU with the set of SKUs it bundles.
    pub closed spec fn bundles(&self) -> Bundles {
        bundle_contents(self.products)
    }

    /// The recorded durations, in seconds. A product without one never
    /// expires.
    pub closed spec fn durations(&self) -> Map<Seq<char>, u64> {
        duration_contents(self.product_active_for)
    }

    /// The catalog records finitely many products.
    pub open spec fn wf(&self) -> bool {
        self.bundles().dom().finite()
    }

    /// A catalog without products.
    pub fn new() -> (graph: Self)
        ensures
            graph.wf(),
            graph.bundles() == Map::<Seq<char>, Set<Seq<char>>>::empty(),
            graph.durations() == Map::<Seq<char>, u64>::empty(),
    {
        let graph = ProductGraph {
            products: bundle_map_new(),
            product_active_for: duration_map_new(),
        };
        assert(graph.bundles() =~= Map::<Seq<char>, Set<Seq<char>>>::empty());
        assert(graph.durations() =~= Map::<Seq<char>, u64>::empty());
        graph
    }

    /// Whether the catalog records `sku`.
    pub fn product_exists(&self, sku: &str) -> (exists: bool)
        ensures
            exists == self.bundles().dom().contains(sku@),
    {
        bundle_map_contains(&self.products, sku)
    }

    /// The duration recorded for `sku`, if any.
    pub fn active_for(&self, sku: &str) -> (seconds: Option<u64>)
        ensures
            seconds == (if self.durations().dom().contains(sku@) {
                Some(self.durations()[sku@])
            } else {
                None
            }),
    {
        duration_map_get(&self.product_active_for, sku)
    }

    /// The leaves that the SKUs of `starts` resolve to, each once, in no
    /// particular order.
    pub fn resolve_leaves(&self, starts: &[String]) -> (leaves: Vec<String>)
        requires
            self.wf(),
        ensures
            sku_views(leaves@).no_duplicates(),
            sku_views(leaves@).to_set() == resolved_leaves(
                self.bundles(),
                sku_views(starts@).to_set(),
            ),
    {
        let ghost g = self.bundles();
        let ghost from = sku_views(starts@);
        let ghost nothing = Set::<Seq<char>>::empty();
        let mut visited = StringHashSet::new();
        let mut leaves: Vec<String> = Vec::new();
        let mut i: usize = 0;
        proof {
            assert(new_leaves(g, nothing, visited@) =~= nothing);
            lemma_extends_by_nothing(leaves@);
        }
        while i < starts.len()
            invariant
                g == bundle_contents(self.products),
                g.dom().finite(),
                from == sku_views(starts@),
                nothing == Set::<Seq<char>>::empty(),
                i <= starts.len(),
                forall|j: int| 0 <= j < i ==> visited@.contains(#[trigger] from[j]),
                forall|a: Seq<char>, b: Seq<char>|
                    visited@.contains(a) && #[trigger] bundles_directly(g, a, b)
                        ==> visited@.contains(b),
                forall|a: Seq<char>|
                    visited@.contains(a) ==> #[trigger] reaches_from(g, from.to_set(), a),
                extends_by(Seq::<String>::empty(), leaves@, new_leaves(g, nothing, visited@)),
            decreases starts.len() - i,
        {
            let ghost vb = visited@;
            let ghost lb = leaves@;
            find_subproduct_dfs(starts[i].as_str(), &self.products, &mut visited, &mut leaves);
            proof {
                let start = from[i as int];
                let met = walked(g, vb, start);
                assert(start == starts@[i as int]@);
                assert(from.to_set().contains(start));
                if !vb.contains(start) {
                    lemma_reaches_outside_self(g, vb, start);
                    assert(met.contains(start));
                }
                assert forall|a: Seq<char>| visited@.contains(a) implies #[trigger] reaches_from(
                    g,
                    from.to_set(),
                    a,
                ) by {
                    if !vb.contains(a) {
                        assert(met.contains(a));
                        lemma_reaches_outside_ends(g, vb, start, a);
                    }
                }
                assert forall|a: Seq<char>, b: Seq<char>|
                    visited@.contains(a) && #[trigger] bundles_directly(
                        g,
                        a,
                        b,
                    ) implies visited@.contains(b) by {
                    if vb.contains(a) {
                        assert(vb.contains(b));
                    } else {
                        assert(met.contains(a));
                        if !vb.contains(b) {
                            lemma_reaches_outside_step_last(g, vb, start, a, b);
                            assert(met.contains(b));
                        }
                    }
                }
                let fresh = walked_leaves(g, vb, start);
                assert forall|x: Seq<char>| fresh.contains(x) implies !vb.contains(x) by {
                    lemma_reaches_outside_ends(g, vb, start, x);
                }
                assert(new_leaves(g, nothing, vb).disjoint(fresh));
                lemma_extends_by_twice(
                    Seq::<String>::empty(),
                    lb,
                    leaves@,
                    new_leaves(g, nothing, vb),
                    fresh,
                );
                assert forall|x: Seq<char>|
                    new_leaves(g, nothing, visited@).contains(x) <==> new_leaves(
                        g,
                        nothing,
                        vb,
                    ).union(fresh).contains(x) by {
                    if fresh.contains(x) {
                        assert(met.contains(x));
                    }
                    if visited@.contains(x) && !vb.contains(x) {
                        assert(met.contains(x));
                    }
                }
                assert(new_leaves(g, nothing, visited@) =~= new_leaves(g, nothing, vb).union(
                    fresh,
                ));
            }
            i += 1;
        }
        proof {
            assert(leaves@.subrange(0, leaves@.len() as int) =~= leaves@);
            let found = sku_views(leaves@).to_set();
            let wanted = resolved_leaves(g, from.to_set());
            assert forall|x: Seq<char>| found.contains(x) <==> wanted.contains(x) by {
                assert(found.contains(x) <==> visited@.contains(x) && is_leaf(g, x));
                if wanted.contains(x) {
                    let s = choose|s: Seq<char>|
                        from.to_set().contains(s) && #[trigger] reaches(g, s, x);
                    let j = choose|j: int| 0 <= j < from.len() && from[j] == s;
                    assert(visited@.contains(from[j]));
                    lemma_closed_set_holds_reachable(g, visited@, s, x);
                }
            }
            assert(found =~= wanted);
        }
        leaves
    }

    /// Records `sku` with exactly the SKUs of `bundled` as its bundle, as
    /// given, and leaves the durations alone.
    pub fn put_bundle(&mut self, sku: &str, bundled: &[String])
        requires
            old(self).wf(),
        ensures
            final(self).wf(),
            final(self).bundles() == old(self).bundles().insert(
                sku@,
                sku_views(bundled@).to_set(),
            ),
            final(self).durations() == old(self).durations(),
    {
        let mut copy: Vec<String> = Vec::new();
        let mut i: usize = 0;
        while i < bundled.len()
            invariant
                i <= bundled.len(),
                sku_views(copy@) == sku_views(bundled@).subrange(0, i as int),
            decreases bundled.len() - i,
        {
            let item = bundled[i].clone();
            proof {
                lemma_sku_views_push(copy@, item);
                assert(sku_views(bundled@).subrange(0, i + 1) =~= sku_views(bundled@).subrange(
                    0,
                    i as int,
                ).push(item@));
            }
            copy.push(item);
            i += 1;
        }
        assert(sku_views(bundled@).subrange(0, bundled@.len() as int) =~= sku_views(bundled@));
        bundle_map_insert(&mut self.products, sku.to_owned(), copy);
    }

    /// Stores `product` with the leaves that `subproducts` resolve to in
    /// the catalog as it stands, and returns those leaves, each once. The
    /// duration `active_for` takes the place of any that was recorded for
    /// `product`; with `None` the product has none afterwards.
    pub fn insert_product(
        &mut self,
        product: &str,
        subproducts: &[String],
        active_for: Option<u64>,
    ) -> (leaves: Vec<String>)
        requires
            old(self).wf(),
        ensures
            final(self).wf(),
            sku_views(leaves@).no_duplicates(),
            sku_views(leaves@).to_set() == resolved_leaves(
                old(self).bundles(),
                sku_views(subproducts@).to_set(),
            ),
            final(self).bundles() == old(self).bundles().insert(
                product@,
                resolved_leaves(old(self).bundles(), sku_views(subproducts@).to_set()),
            ),
            final(self).durations() == (match active_for {
                Some(seconds) => old(self).durations().insert(product@, seconds),
                None => old(self).durations().remove(product@),
            }),
    {
        let leaves = self.resolve_leaves(subproducts);
        self.put_bundle(product, leaves.as_slice());
        match active_for {
            Some(seconds) => {
                duration_map_insert(&mut self.product_active_for, product.to_owned(), seconds);
            },
            None => {
                duration_map_remove(&mut self.product_active_for, product);
            },
        }
        leaves
    }
}

} // verus!
