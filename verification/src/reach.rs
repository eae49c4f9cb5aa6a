//! Bundle graphs as mathematical maps, and which leaves a SKU resolves to.

use vstd::prelude::*;

verus! {

/// A bundle graph: each recorded SKU with the set of SKUs it bundles.
pub type Bundles = Map<Seq<char>, Set<Seq<char>>>;

/// `a` is recorded in `g` and bundles `b`.
pub open spec fn bundles_directly(g: Bundles, a: Seq<char>, b: Seq<char>) -> bool {
    g.dom().contains(a) && g[a].contains(b)
}

/// `p` is a non-empty chain of SKUs in which each one bundles the next.
pub open spec fn is_chain(g: Bundles, p: Seq<Seq<char>>) -> bool {
    &&& p.len() > 0
    &&& forall|i: int| 0 <= i < p.len() - 1 ==> bundles_directly(g, #[trigger] p[i], p[i + 1])
}

/// `to` can be reached from `from` by following bundle edges zero or more
/// times.
pub open spec fn reaches(g: Bundles, from: Seq<char>, to: Seq<char>) -> bool {
    exists|p: Seq<Seq<char>>| #[trigger] is_chain(g, p) && p[0] == from && p.last() == to
}

/// `to` can be reached from some member of `starts`.
pub open spec fn reaches_from(g: Bundles, starts: Set<Seq<char>>, to: Seq<char>) -> bool {
    exists|s: Seq<char>| starts.contains(s) && #[trigger] reaches(g, s, to)
}

/// A leaf is a recorded SKU that bundles nothing.
pub open spec fn is_leaf(g: Bundles, s: Seq<char>) -> bool {
    g.dom().contains(s) && g[s] =~= Set::<Seq<char>>::empty()
}

/// The leaves that the SKUs of `starts` resolve to: every leaf reachable
/// from one of them. A SKU that `g` does not record contributes nothing, and
/// a cycle contributes no more than its members do.
pub open spec fn resolved_leaves(g: Bundles, starts: Set<Seq<char>>) -> Set<Seq<char>> {
    Set::new(|x: Seq<char>| is_leaf(g, x) && reaches_from(g, starts, x))
}

/// Every SKU reaches itself.
pub proof fn lemma_reaches_self(g: Bundles, a: Seq<char>)
    ensures
        reaches(g, a, a),
{
    let p = seq![a];
    assert(is_chain(g, p));
    assert(p[0] == a && p.last() == a);
}

/// A chain can be extended at its front by one edge.
pub proof fn lemma_reaches_step_first(g: Bundles, a: Seq<char>, b: Seq<char>, c: Seq<char>)
    requires
        bundles_directly(g, a, b),
        reaches(g, b, c),
    ensures
        reaches(g, a, c),
{
    let p = choose|p: Seq<Seq<char>>| #[trigger] is_chain(g, p) && p[0] == b && p.last() == c;
    let q = seq![a] + p;
    assert forall|i: int| 0 <= i < q.len() - 1 implies bundles_directly(
        g,
        #[trigger] q[i],
        q[i + 1],
    ) by {
        if i == 0 {
            assert(q[0] == a);
            assert(q[1] == p[0]);
        } else {
            assert(q[i] == p[i - 1]);
            assert(q[i + 1] == p[i - 1 + 1]);
        }
    }
    assert(is_chain(g, q));
    assert(q[0] == a);
    assert(q.last() == p.last());
}

/// Every member of a chain that starts inside a set closed under bundle
/// edges lies in that set.
proof fn lemma_chain_stays_inside(g: Bundles, inside: Set<Seq<char>>, p: Seq<Seq<char>>, k: int)
    requires
        is_chain(g, p),
        inside.contains(p[0]),
        forall|a: Seq<char>, b: Seq<char>|
            inside.contains(a) && #[trigger] bundles_directly(g, a, b) ==> inside.contains(b),
        0 <= k < p.len(),
    ensures
        inside.contains(p[k]),
    decreases k,
{
    if k > 0 {
        lemma_chain_stays_inside(g, inside, p, k - 1);
        assert(bundles_directly(g, p[k - 1], p[k - 1 + 1]));
    }
}

/// A set closed under bundle edges holds whatever its members reach.
pub proof fn lemma_closed_set_holds_reachable(
    g: Bundles,
    inside: Set<Seq<char>>,
    from: Seq<char>,
    to: Seq<char>,
)
    requires
        inside.contains(from),
        forall|a: Seq<char>, b: Seq<char>|
            inside.contains(a) && #[trigger] bundles_directly(g, a, b) ==> inside.contains(b),
        reaches(g, from, to),
    ensures
        inside.contains(to),
{
    let p = choose|p: Seq<Seq<char>>| #[trigger] is_chain(g, p) && p[0] == from && p.last() == to;
    lemma_chain_stays_inside(g, inside, p, p.len() - 1);
}

/// `p` is a chain none of whose members is in `avoid`.
pub open spec fn is_chain_outside(g: Bundles, avoid: Set<Seq<char>>, p: Seq<Seq<char>>) -> bool {
    &&& is_chain(g, p)
    &&& forall|i: int| 0 <= i < p.len() ==> !avoid.contains(#[trigger] p[i])
}

/// `to` can be reached from `from` along a chain that stays outside
/// `avoid`, both ends included.
pub open spec fn reaches_outside(
    g: Bundles,
    avoid: Set<Seq<char>>,
    from: Seq<char>,
    to: Seq<char>,
) -> bool {
    exists|p: Seq<Seq<char>>|
        #[trigger] is_chain_outside(g, avoid, p) && p[0] == from && p.last() == to
}

/// A SKU outside `avoid` reaches itself outside `avoid`.
pub proof fn lemma_reaches_outside_self(g: Bundles, avoid: Set<Seq<char>>, a: Seq<char>)
    requires
        !avoid.contains(a),
    ensures
        reaches_outside(g, avoid, a, a),
{
    let p = seq![a];
    assert(is_chain_outside(g, avoid, p));
    assert(p[0] == a && p.last() == a);
}

/// Both ends of a chain outside `avoid` are outside `avoid`, and the chain
/// is a chain.
pub proof fn lemma_reaches_outside_ends(
    g: Bundles,
    avoid: Set<Seq<char>>,
    a: Seq<char>,
    c: Seq<char>,
)
    requires
        reaches_outside(g, avoid, a, c),
    ensures
        !avoid.contains(a),
        !avoid.contains(c),
        reaches(g, a, c),
{
    let p = choose|p: Seq<Seq<char>>|
        #[trigger] is_chain_outside(g, avoid, p) && p[0] == a && p.last() == c;
    assert(!avoid.contains(p[0]));
    assert(!avoid.contains(p[p.len() - 1]));
    assert(is_chain(g, p));
}

/// A chain that stays outside a set stays outside each of its subsets.
pub proof fn lemma_reaches_outside_subset(
    g: Bundles,
    small: Set<Seq<char>>,
    big: Set<Seq<char>>,
    a: Seq<char>,
    c: Seq<char>,
)
    requires
        small.subset_of(big),
        reaches_outside(g, big, a, c),
    ensures
        reaches_outside(g, small, a, c),
{
    let p = choose|p: Seq<Seq<char>>|
        #[trigger] is_chain_outside(g, big, p) && p[0] == a && p.last() == c;
    assert forall|i: int| 0 <= i < p.len() implies !small.contains(#[trigger] p[i]) by {
        assert(!big.contains(p[i]));
    }
    assert(is_chain_outside(g, small, p));
}

/// A chain outside `avoid` can be extended at its front by one edge from a
/// SKU outside `avoid`.
pub proof fn lemma_reaches_outside_step_first(
    g: Bundles,
    avoid: Set<Seq<char>>,
    a: Seq<char>,
    b: Seq<char>,
    c: Seq<char>,
)
    requires
        !avoid.contains(a),
        bundles_directly(g, a, b),
        reaches_outside(g, avoid, b, c),
    ensures
        reaches_outside(g, avoid, a, c),
{
    let p = choose|p: Seq<Seq<char>>|
        #[trigger] is_chain_outside(g, avoid, p) && p[0] == b && p.last() == c;
    let q = seq![a] + p;
    assert forall|i: int| 0 <= i < q.len() - 1 implies bundles_directly(
        g,
        #[trigger] q[i],
        q[i + 1],
    ) by {
        if i == 0 {
            assert(q[0] == a);
            assert(q[1] == p[0]);
        } else {
            assert(q[i] == p[i - 1]);
            assert(q[i + 1] == p[i - 1 + 1]);
        }
    }
    assert forall|i: int| 0 <= i < q.len() implies !avoid.contains(#[trigger] q[i]) by {
        if i > 0 {
            assert(q[i] == p[i - 1]);
        }
    }
    assert(is_chain_outside(g, avoid, q));
    assert(q[0] == a);
    assert(q.last() == p.last());
}

/// A chain outside `avoid` can be extended at its end by one edge to a SKU
/// outside `avoid`.
pub proof fn lemma_reaches_outside_step_last(
    g: Bundles,
    avoid: Set<Seq<char>>,
    a: Seq<char>,
    b: Seq<char>,
    c: Seq<char>,
)
    requires
        reaches_outside(g, avoid, a, b),
        bundles_directly(g, b, c),
        !avoid.contains(c),
    ensures
        reaches_outside(g, avoid, a, c),
{
    let p = choose|p: Seq<Seq<char>>|
        #[trigger] is_chain_outside(g, avoid, p) && p[0] == a && p.last() == b;
    let q = p.push(c);
    assert forall|i: int| 0 <= i < q.len() - 1 implies bundles_directly(
        g,
        #[trigger] q[i],
        q[i + 1],
    ) by {
        if i < p.len() - 1 {
            assert(q[i] == p[i]);
            assert(q[i + 1] == p[i + 1]);
        } else {
            assert(q[i] == p.last());
            assert(q[i + 1] == c);
        }
    }
    assert forall|i: int| 0 <= i < q.len() implies !avoid.contains(#[trigger] q[i]) by {
        if i < p.len() {
            assert(q[i] == p[i]);
        }
    }
    assert(is_chain_outside(g, avoid, q));
    assert(q[0] == p[0]);
    assert(q.last() == c);
}

/// Every member of a chain outside `avoid` that starts inside a set lies
/// in that set, where the set holds whatever its members outside `avoid`
/// bundle.
proof fn lemma_chain_outside_stays_inside(
    g: Bundles,
    avoid: Set<Seq<char>>,
    inside: Set<Seq<char>>,
    p: Seq<Seq<char>>,
    k: int,
)
    requires
        is_chain_outside(g, avoid, p),
        inside.contains(p[0]),
        forall|a: Seq<char>, b: Seq<char>|
            inside.contains(a) && !avoid.contains(a) && #[trigger] bundles_directly(g, a, b)
                ==> inside.contains(b),
        0 <= k < p.len(),
    ensures
        inside.contains(p[k]),
    decreases k,
{
    if k > 0 {
        lemma_chain_outside_stays_inside(g, avoid, inside, p, k - 1);
        assert(!avoid.contains(p[k - 1]));
        assert(bundles_directly(g, p[k - 1], p[k - 1 + 1]));
    }
}

/// A set that holds whatever its members outside `avoid` bundle holds
/// whatever its members reach outside `avoid`.
pub proof fn lemma_closed_set_holds_reachable_outside(
    g: Bundles,
    avoid: Set<Seq<char>>,
    inside: Set<Seq<char>>,
    from: Seq<char>,
    to: Seq<char>,
)
    requires
        inside.contains(from),
        forall|a: Seq<char>, b: Seq<char>|
            inside.contains(a) && !avoid.contains(a) && #[trigger] bundles_directly(g, a, b)
                ==> inside.contains(b),
        reaches_outside(g, avoid, from, to),
    ensures
        inside.contains(to),
{
    let p = choose|p: Seq<Seq<char>>|
        #[trigger] is_chain_outside(g, avoid, p) && p[0] == from && p.last() == to;
    lemma_chain_outside_stays_inside(g, avoid, inside, p, p.len() - 1);
}

/// A leaf reaches nothing but itself.
pub proof fn lemma_leaf_reaches_itself_only(g: Bundles, x: Seq<char>, y: Seq<char>)
    requires
        is_leaf(g, x),
        reaches(g, x, y),
    ensures
        y == x,
{
    let p = choose|p: Seq<Seq<char>>| #[trigger] is_chain(g, p) && p[0] == x && p.last() == y;
    if p.len() > 1 {
        assert(bundles_directly(g, p[0], p[1]));
    }
}

/// Only recorded SKUs are resolved to, so a finite catalog resolves every
/// request, cyclic or not, to a finite set of leaves.
pub proof fn lemma_resolved_leaves_finite(g: Bundles, starts: Set<Seq<char>>)
    requires
        g.dom().finite(),
    ensures
        resolved_leaves(g, starts).subset_of(g.dom()),
        resolved_leaves(g, starts).finite(),
{
    assert(resolved_leaves(g, starts).subset_of(g.dom()));
    vstd::set_lib::lemma_len_subset(resolved_leaves(g, starts), g.dom());
}

/// Resolving is idempotent: the leaves that a set of SKUs resolves to
/// resolve to themselves.
pub proof fn lemma_resolution_idempotent(g: Bundles, starts: Set<Seq<char>>)
    ensures
        resolved_leaves(g, resolved_leaves(g, starts)) == resolved_leaves(g, starts),
{
    let once = resolved_leaves(g, starts);
    let twice = resolved_leaves(g, once);
    assert forall|x: Seq<char>| once.contains(x) <==> twice.contains(x) by {
        if once.contains(x) {
            lemma_reaches_self(g, x);
            assert(reaches_from(g, once, x));
        }
        if twice.contains(x) {
            let s = choose|s: Seq<char>| once.contains(s) && #[trigger] reaches(g, s, x);
            lemma_leaf_reaches_itself_only(g, s, x);
        }
    }
    assert(once =~= twice);
}

/// A product that bundles something resolves to what its bundle resolves
/// to.
pub proof fn lemma_resolve_through_bundle(g: Bundles, q: Seq<char>)
    requires
        g.dom().contains(q),
        !is_leaf(g, q),
    ensures
        resolved_leaves(g, set![q]) == resolved_leaves(g, g[q]),
{
    let direct = resolved_leaves(g, set![q]);
    let through = resolved_leaves(g, g[q]);
    assert forall|x: Seq<char>| direct.contains(x) <==> through.contains(x) by {
        if direct.contains(x) {
            let s = choose|s: Seq<char>| set![q].contains(s) && #[trigger] reaches(g, s, x);
            assert(s == q);
            let p = choose|p: Seq<Seq<char>>|
                #[trigger] is_chain(g, p) && p[0] == q && p.last() == x;
            assert(p.len() > 1);
            let rest = p.drop_first();
            assert(bundles_directly(g, p[0], p[1]));
            assert forall|i: int| 0 <= i < rest.len() - 1 implies bundles_directly(
                g,
                #[trigger] rest[i],
                rest[i + 1],
            ) by {
                assert(rest[i] == p[i + 1]);
                assert(rest[i + 1] == p[i + 1 + 1]);
                assert(bundles_directly(g, p[i + 1], p[i + 1 + 1]));
            }
            assert(is_chain(g, rest));
            assert(rest[0] == p[1] && rest.last() == x);
            assert(reaches(g, p[1], x));
            assert(reaches_from(g, g[q], x));
        }
        if through.contains(x) {
            let s = choose|s: Seq<char>| g[q].contains(s) && #[trigger] reaches(g, s, x);
            lemma_reaches_step_first(g, q, s, x);
            assert(set![q].contains(q));
            assert(reaches_from(g, set![q], x));
        }
    }
    assert(direct =~= through);
}

/// Flattening loses nothing: a product whose bundle consists of leaves
/// resolves to exactly that bundle, and so does the bundle itself. A product
/// that bundles such a product therefore resolves to the same leaves as
/// one that bundles those leaves directly.
pub proof fn lemma_flat_bundle_resolves_to_itself(g: Bundles, q: Seq<char>)
    requires
        g.dom().contains(q),
        !is_leaf(g, q),
        forall|r: Seq<char>| g[q].contains(r) ==> is_leaf(g, r),
    ensures
        resolved_leaves(g, g[q]) == g[q],
        resolved_leaves(g, set![q]) == g[q],
{
    lemma_resolve_through_bundle(g, q);
    let through = resolved_leaves(g, g[q]);
    assert forall|x: Seq<char>| through.contains(x) <==> g[q].contains(x) by {
        if through.contains(x) {
            let s = choose|s: Seq<char>| g[q].contains(s) && #[trigger] reaches(g, s, x);
            lemma_leaf_reaches_itself_only(g, s, x);
        }
        if g[q].contains(x) {
            lemma_reaches_self(g, x);
            assert(reaches_from(g, g[q], x));
        }
    }
    assert(through =~= g[q]);
}

/// Two products that bundle each other and nothing else resolve to no
/// leaf at all.
pub proof fn lemma_two_cycle_resolves_to_nothing(g: Bundles, a: Seq<char>, b: Seq<char>)
    requires
        g.dom().contains(a),
        g.dom().contains(b),
        g[a] == set![b],
        g[b] == set![a],
    ensures
        resolved_leaves(g, set![a]) == Set::<Seq<char>>::empty(),
{
    let inside = set![a, b];
    assert(g[a].contains(b));
    assert(g[b].contains(a));
    assert forall|x: Seq<char>| !resolved_leaves(g, set![a]).contains(x) by {
        if resolved_leaves(g, set![a]).contains(x) {
            let s = choose|s: Seq<char>| set![a].contains(s) && #[trigger] reaches(g, s, x);
            assert forall|u: Seq<char>, v: Seq<char>|
                inside.contains(u) && #[trigger] bundles_directly(g, u, v) implies inside.contains(
                v,
            ) by {}
            lemma_closed_set_holds_reachable(g, inside, a, x);
            assert(!is_leaf(g, a) && !is_leaf(g, b));
        }
    }
    assert(resolved_leaves(g, set![a]) =~= Set::<Seq<char>>::empty());
}

/// A product stored with the leaves that its bundle resolves to resolves
/// to those leaves from then on, provided that there are any and that the
/// product is not one of them.
pub proof fn lemma_stored_product_resolves_to_its_leaves(
    g: Bundles,
    product: Seq<char>,
    starts: Set<Seq<char>>,
)
    requires
        resolved_leaves(g, starts) != Set::<Seq<char>>::empty(),
        !resolved_leaves(g, starts).contains(product),
    ensures
        resolved_leaves(g.insert(product, resolved_leaves(g, starts)), set![product])
            == resolved_leaves(g, starts),
{
    let leaves = resolved_leaves(g, starts);
    let after = g.insert(product, leaves);
    assert(exists|x: Seq<char>| leaves.contains(x)) by {
        if forall|x: Seq<char>| !leaves.contains(x) {
            assert(leaves =~= Set::<Seq<char>>::empty());
        }
    }
    let witness = choose|x: Seq<char>| leaves.contains(x);
    assert(after[product].contains(witness));
    assert forall|r: Seq<char>| after[product].contains(r) implies is_leaf(after, r) by {
        assert(is_leaf(g, r));
        assert(r != product);
    }
    lemma_flat_bundle_resolves_to_itself(after, product);
}

} // verus!
