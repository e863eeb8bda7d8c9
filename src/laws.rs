use vstd::prelude::*;
use crate::address::{Address, address_text, decimal, lemma_decimal_round_trip, lemma_index_round_trip};
use crate::cascade::{laid_out, lemma_layout_rect_depends_on_layouts, lemma_visibility_idempotent, lemma_with_visibility_wf, with_visibility};
use crate::layout::{PositionLayout, Rect};
use crate::lifecycle::{after_destroy, destroy_site, named_slot};
use crate::resolve::{Lookup, chain_node, first_slash, is_first_slash, is_structural, lemma_child_is_node, lemma_first_slash, segment_node};
use crate::error::Fault;
use crate::tree::{BranchView, child_at, children_ok, created, descends, effective, first_free, is_first_free, is_node, lemma_first_free, node_ok, register_index, registered, with_name, without_name, without_subtree, wf};

verus! {

/// A permanent child gets the index that counts the permanent children
/// created before it, and the earlier ones keep theirs.
pub proof fn lemma_permanent_index_is_creation_order(
    t: Seq<BranchView>,
    node: usize,
    name: Seq<char>,
    layout: PositionLayout,
)
    requires
        wf(t),
        is_node(t, node),
        t.len() <= usize::MAX,
        t[node as int].permanent.len() <= usize::MAX,
    ensures
        ({
            let n = t[node as int].permanent.len();
            let u = created(t, node, Address::Permanent(n as usize), name, layout);
            &&& child_at(u[node as int], Address::Permanent(n as usize)) == Some(t.len() as usize)
            &&& forall|i: int| 0 <= i < n ==> #[trigger] u[node as int].permanent[i] == t[node as int].permanent[i]
        }),
{
}

/// Destroying, registering, laying out and changing visibility leave every
/// node's permanent children where they were.
pub proof fn lemma_permanent_children_stable(
    t: Seq<BranchView>,
    p: usize,
    k: usize,
    c: usize,
    node: usize,
    key: Seq<char>,
    a: Address,
    v: bool,
    outer: Rect,
    id: int,
)
    requires
        wf(t),
        node < t.len(),
        0 <= id < t.len(),
    ensures
        without_subtree(t, p, k, c)[id].permanent == t[id].permanent,
        with_name(t, node, key, a)[id].permanent == t[id].permanent,
        without_name(t, node, key)[id].permanent == t[id].permanent,
        laid_out(t, outer)[id].permanent == t[id].permanent,
        with_visibility(t, node, v)[id].permanent == t[id].permanent,
{
}

/// The canonical text `#r<k>` of an occupied slot destroys that slot.
pub proof fn lemma_destroy_by_slot_text(t: Seq<BranchView>, p: usize, k: usize)
    requires
        child_at(t[p as int], Address::Removable(k)) is Some,
    ensures
        destroy_site(t, p, address_text(Address::Removable(k))) == Ok::<(usize, usize), Fault>((p, k)),
{
    let s = address_text(Address::Removable(k));
    let d = decimal(k as nat);
    lemma_index_round_trip(k);
    lemma_decimal_round_trip(k as nat);
    assert(s.subrange(2, s.len() as int) =~= d);
    assert forall|i: int| 0 <= i < s.len() implies #[trigger] s[i] != '/' by {
        if i >= 2 {
            assert(s[i] == d[i - 2]);
            assert(crate::address::is_digit(d[i - 2]));
        }
    }
    assert(is_first_slash(s, s.len() as int));
    lemma_first_slash(s, s.len() as int);
}

/// Once slot `k` is freed, and every lower slot is taken, the next
/// removable child goes to slot `k`.
pub proof fn lemma_freed_slot_reused(t: Seq<BranchView>, p: usize, k: usize)
    requires
        wf(t),
        is_node(t, p),
        child_at(t[p as int], Address::Removable(k)) is Some,
        forall|j: int| 0 <= j < k ==> #[trigger] t[p as int].removable[j] is Some,
    ensures
        destroy_site(t, p, address_text(Address::Removable(k))) == Ok::<(usize, usize), Fault>((p, k)),
        first_free(after_destroy(t, (p, k))[p as int].removable) == k,
{
    lemma_destroy_by_slot_text(t, p, k);
    let u = after_destroy(t, (p, k));
    let s = u[p as int].removable;
    assert(s =~= t[p as int].removable.update(k as int, None));
    assert(is_first_free(s, k as nat));
    lemma_first_free(s, k as nat);
}

/// An anonymous child is permanent and leaves the register as it was.
pub proof fn lemma_anonymous_child_not_registered(t: Seq<BranchView>, node: usize, layout: PositionLayout)
    requires
        wf(t),
        is_node(t, node),
        t.len() <= usize::MAX,
        t[node as int].permanent.len() <= usize::MAX,
    ensures
        ({
            let a = Address::Permanent(t[node as int].permanent.len() as usize);
            let u = created(t, node, a, Seq::empty(), layout);
            &&& u[node as int].register == t[node as int].register
            &&& child_at(u[node as int], a) == Some(t.len() as usize)
        }),
{
}

/// Destroying a single segment of the permanent class always fails, valid
/// index or not.
pub proof fn lemma_permanent_never_destroyed(t: Seq<BranchView>, node: usize, s: Seq<char>)
    requires
        s.len() >= 2,
        s[1] == 'p',
        forall|i: int| 0 <= i < s.len() ==> #[trigger] s[i] != '/',
    ensures
        destroy_site(t, node, s) == Err::<(usize, usize), Fault>(Fault::PermanentIndestructible),
{
    assert(is_first_slash(s, s.len() as int));
    lemma_first_slash(s, s.len() as int);
}

/// Destroying through any chain whose last segment is of the permanent
/// class fails, whatever the segments before it.
pub proof fn lemma_permanent_never_destroyed_in_chain(
    t: Seq<BranchView>,
    node: usize,
    prefix: Seq<char>,
    last: Seq<char>,
)
    requires
        prefix.len() == 0 || prefix.last() == '/',
        last.len() >= 2,
        last[1] == 'p',
        forall|i: int| 0 <= i < last.len() ==> #[trigger] last[i] != '/',
    ensures
        destroy_site(t, node, prefix + last) is Err,
    decreases prefix.len(),
{
    let s = prefix + last;
    let j = first_slash(s);
    if prefix.len() == 0 {
        assert(s =~= last);
        lemma_permanent_never_destroyed(t, node, last);
    } else {
        // The first slash of the chain lies in the prefix.
        lemma_first_slash_exists(prefix);
        let k = first_slash(prefix);
        assert(s[prefix.len() - 1] == '/');
        assert(k < prefix.len()) by {
            if k >= prefix.len() {
                assert(prefix[prefix.len() - 1] != '/');
            }
        }
        assert(is_first_slash(s, k)) by {
            assert forall|i: int| 0 <= i < k implies #[trigger] s[i] != '/' by {
                assert(s[i] == prefix[i]);
            }
            assert(s[k] == prefix[k]);
        }
        lemma_first_slash(s, k);
        let head = segment_node(t, node, s.subrange(0, k), Lookup::Strict);
        if head is Ok {
            let rest = prefix.subrange(k + 1, prefix.len() as int);
            assert(s.subrange(k + 1, s.len() as int) =~= rest + last);
            if rest.len() > 0 {
                assert(rest.last() == prefix.last());
            }
            lemma_permanent_never_destroyed_in_chain(t, head->Ok_0, rest, last);
        }
    }
}

proof fn lemma_first_slash_exists(s: Seq<char>)
    ensures
        is_first_slash(s, first_slash(s)),
{
    lemma_first_slash_from(s, 0);
}

proof fn lemma_first_slash_from(s: Seq<char>, k: int)
    requires
        0 <= k <= s.len(),
        forall|i: int| 0 <= i < k ==> #[trigger] s[i] != '/',
    ensures
        is_first_slash(s, first_slash(s)),
    decreases s.len() - k,
{
    if k < s.len() && s[k] != '/' {
        lemma_first_slash_from(s, k + 1);
    } else {
        assert(is_first_slash(s, k));
    }
}

/// After a child is destroyed by its name, the name is gone from the
/// register and no longer leads anywhere (for a plain name: not empty, not
/// structural, without `/`).
pub proof fn lemma_destroyed_name_gone(t: Seq<BranchView>, node: usize, name: Seq<char>)
    requires
        wf(t),
        is_node(t, node),
        named_slot(t[node as int], name) is Ok,
        name.len() > 0,
        !is_structural(name),
        forall|i: int| 0 <= i < name.len() ==> #[trigger] name[i] != '/',
    ensures
        ({
            let u = without_name(after_destroy(t, (node, named_slot(t[node as int], name)->Ok_0)), node, name);
            &&& !registered(u[node as int], name)
            &&& chain_node(u, node, name, Lookup::Either) is Err
        }),
{
    let k = named_slot(t[node as int], name)->Ok_0;
    let d = after_destroy(t, (node, k));
    let u = without_name(d, node, name);
    assert(d[node as int].register == t[node as int].register);
    let reg = d[node as int].register;
    let idx = register_index(d[node as int], name);
    assert(children_ok(t, node as int));
    assert(0 <= idx < reg.len() && reg[idx].0 == name);
    if registered(u[node as int], name) {
        let j = choose|j: int| 0 <= j < u[node as int].register.len() && #[trigger] u[node as int].register[j].0 == name;
        let j2 = if j < idx { j } else { j + 1 };
        assert(u[node as int].register[j] == reg[j2]);
        assert(reg[j2].0 == reg[idx].0);
    }
    assert(is_first_slash(name, name.len() as int));
    lemma_first_slash(name, name.len() as int);
}

/// A plain name just registered by `create_named_child` resolves to the
/// node created for it.
pub proof fn lemma_named_child_round_trip(t: Seq<BranchView>, node: usize, name: Seq<char>, layout: PositionLayout)
    requires
        wf(t),
        is_node(t, node),
        name.len() > 0,
        !is_structural(name),
        !registered(t[node as int], name),
    ensures
        ({
            let k = Address::Removable(first_free(t[node as int].removable) as usize);
            let u = with_name(created(t, node, k, name, layout), node, name, k);
            segment_node(u, node, name, Lookup::Either) == Ok::<usize, Fault>(t.len() as usize)
        }),
{
    let f = first_free(t[node as int].removable);
    let k = Address::Removable(f as usize);
    let c = created(t, node, k, name, layout);
    let u = with_name(c, node, name, k);
    let reg = u[node as int].register;
    let last = reg.len() - 1;
    assert(reg[last].0 == name);
    assert(registered(u[node as int], name));
    let i = choose|i: int| 0 <= i < reg.len() && #[trigger] reg[i].0 == name;
    if i != last {
        assert(reg[i] == t[node as int].register[i]);
    }
    assert(reg[i].1 == k);
    // The first free slot exists: the first `None`, or the end of the slots.
    let s = t[node as int].removable;
    lemma_first_free_exists(s);
}

proof fn lemma_first_free_exists(s: Seq<Option<usize>>)
    ensures
        is_first_free(s, first_free(s)),
{
    lemma_first_free_from(s, 0);
}

proof fn lemma_first_free_from(s: Seq<Option<usize>>, k: nat)
    requires
        k <= s.len(),
        forall|j: int| 0 <= j < k ==> #[trigger] s[j] is Some,
    ensures
        is_first_free(s, first_free(s)),
    decreases s.len() - k,
{
    if k < s.len() && s[k as int] is Some {
        lemma_first_free_from(s, k + 1);
    } else {
        assert(is_first_free(s, k));
    }
}

/// When a change of own visibility changes a node's effective visibility,
/// every node of the tree below it holds its parent's new effective
/// visibility; when it does not, nothing else changes.
pub proof fn lemma_visibility_reaches_subtree(t: Seq<BranchView>, node: usize, v: bool)
    requires
        wf(t),
        is_node(t, node),
    ensures
        ({
            let u = with_visibility(t, node, v);
            &&& forall|x: int|
                0 <= x < u.len() && x != node && u[x].attached && #[trigger] descends(t, x, node as int)
                    ==> u[x].parent_visible == effective(u[u[x].parent as int])
            &&& (v && t[node as int].parent_visible) == effective(t[node as int]) ==> u == t.update(
                node as int,
                BranchView { visible: v, ..t[node as int] },
            )
        }),
{
    let u = with_visibility(t, node, v);
    lemma_with_visibility_wf(t, node, v);
    assert forall|x: int|
        0 <= x < u.len() && x != node && u[x].attached && #[trigger] descends(t, x, node as int)
            implies u[x].parent_visible == effective(u[u[x].parent as int]) by {
        assert(x > 0) by {
            if x == 0 {
                assert(node == 0);
            }
        }
        assert(node_ok(u, x));
    }
    if (v && t[node as int].parent_visible) == effective(t[node as int]) {
        lemma_visibility_idempotent(t, node, v);
    }
}

/// A second layout pass with the same input changes no rectangle.
pub proof fn lemma_layout_twice(t: Seq<BranchView>, outer: Rect)
    ensures
        laid_out(laid_out(t, outer), outer) == laid_out(t, outer),
{
    let u = laid_out(t, outer);
    let w = laid_out(u, outer);
    assert forall|j: int| 0 <= j < t.len() implies #[trigger] t[j].parent == u[j].parent
        && t[j].container.layout == u[j].container.layout by {}
    assert forall|j: int| 0 <= j < t.len() implies #[trigger] w[j] == u[j] by {
        lemma_layout_rect_depends_on_layouts(t, u, j, outer);
    }
    assert(w =~= u);
}

/// Every node that a chain reaches is a node of the tree.
pub proof fn lemma_chain_reaches_nodes(t: Seq<BranchView>, node: usize, s: Seq<char>, mode: Lookup)
    requires
        wf(t),
        is_node(t, node),
    ensures
        chain_node(t, node, s, mode) is Ok ==> is_node(t, chain_node(t, node, s, mode)->Ok_0),
    decreases s.len(),
{
    let j = first_slash(s);
    if 0 <= j < s.len() {
        let head = segment_node(t, node, s.subrange(0, j), mode);
        if head is Ok {
            lemma_segment_reaches_node(t, node, s.subrange(0, j), mode);
            lemma_chain_reaches_nodes(t, head->Ok_0, s.subrange(j + 1, s.len() as int), mode);
        }
    } else {
        lemma_segment_reaches_node(t, node, s, mode);
    }
}

proof fn lemma_segment_reaches_node(t: Seq<BranchView>, node: usize, s: Seq<char>, mode: Lookup)
    requires
        wf(t),
        is_node(t, node),
    ensures
        segment_node(t, node, s, mode) is Ok ==> is_node(t, segment_node(t, node, s, mode)->Ok_0),
{
    if segment_node(t, node, s, mode) is Ok {
        let a = crate::resolve::segment_address(t[node as int], s, mode)->Ok_0;
        lemma_child_is_node(t, node, a);
    }
}

/// After the removable child in slot `k` of `p` is destroyed, no address
/// leads from `p` into its former subtree.
pub proof fn lemma_destroyed_subtree_unreachable(t: Seq<BranchView>, p: usize, k: usize, s: Seq<char>, mode: Lookup)
    requires
        wf(t),
        t.len() <= usize::MAX,
        is_node(t, p),
        child_at(t[p as int], Address::Removable(k)) is Some,
    ensures
        ({
            let c = child_at(t[p as int], Address::Removable(k))->0;
            let u = after_destroy(t, (p, k));
            &&& destroy_site(t, p, address_text(Address::Removable(k))) == Ok::<(usize, usize), Fault>((p, k))
            &&& (chain_node(u, p, s, mode) is Ok ==> !descends(t, chain_node(u, p, s, mode)->Ok_0 as int, c as int))
        }),
{
    lemma_destroy_by_slot_text(t, p, k);
    let c = child_at(t[p as int], Address::Removable(k))->0;
    let u = after_destroy(t, (p, k));
    crate::tree::lemma_detach_wf_pub(t, p, k, c);
    assert(!descends(t, p as int, c as int));
    assert(is_node(u, p));
    lemma_chain_reaches_nodes(u, p, s, mode);
}

/// Two trees whose nodes hold the same children and registers resolve every
/// chain alike.
pub proof fn lemma_resolution_depends_on_structure(
    t: Seq<BranchView>,
    u: Seq<BranchView>,
    node: usize,
    s: Seq<char>,
    mode: Lookup,
)
    requires
        t.len() == u.len(),
        forall|j: int| 0 <= j < t.len() ==> {
            &&& #[trigger] u[j].permanent == t[j].permanent
            &&& u[j].removable == t[j].removable
            &&& u[j].register == t[j].register
        },
        node < t.len(),
        wf(t),
    ensures
        chain_node(u, node, s, mode) == chain_node(t, node, s, mode),
    decreases s.len(),
{
    assert(u[node as int].permanent == t[node as int].permanent);
    let j = first_slash(s);
    if 0 <= j < s.len() {
        let head = segment_node(t, node, s.subrange(0, j), mode);
        assert(segment_node(u, node, s.subrange(0, j), mode) == head);
        if head is Ok {
            let a = crate::resolve::segment_address(t[node as int], s.subrange(0, j), mode)->Ok_0;
            assert(children_ok(t, node as int));
            match a {
                Address::Permanent(i) => crate::tree::lemma_child_below(t, node, i),
                Address::Removable(k) => crate::tree::lemma_slot_below(t, node, k),
            }
            lemma_resolution_depends_on_structure(t, u, head->Ok_0, s.subrange(j + 1, s.len() as int), mode);
        }
    }
}

/// Layout passes, visibility changes and focus changes leave every address
/// resolving to the node it resolved to before, so a named child stays
/// reachable by its name until it is destroyed.
pub proof fn lemma_resolution_survives_passes(
    t: Seq<BranchView>,
    node: usize,
    s: Seq<char>,
    mode: Lookup,
    outer: Rect,
    target: usize,
    v: bool,
    focus: bool,
)
    requires
        wf(t),
        node < t.len(),
        is_node(t, target),
    ensures
        chain_node(laid_out(t, outer), node, s, mode) == chain_node(t, node, s, mode),
        chain_node(with_visibility(t, target, v), node, s, mode) == chain_node(t, node, s, mode),
        chain_node(t.update(target as int, BranchView { in_focus: focus, ..t[target as int] }), node, s, mode)
            == chain_node(t, node, s, mode),
{
    let a = laid_out(t, outer);
    let b = with_visibility(t, target, v);
    let c = t.update(target as int, BranchView { in_focus: focus, ..t[target as int] });
    assert forall|j: int| 0 <= j < t.len() implies {
        &&& #[trigger] a[j].permanent == t[j].permanent
        &&& a[j].removable == t[j].removable
        &&& a[j].register == t[j].register
    } by {}
    assert forall|j: int| 0 <= j < t.len() implies {
        &&& #[trigger] b[j].permanent == t[j].permanent
        &&& b[j].removable == t[j].removable
        &&& b[j].register == t[j].register
    } by {}
    assert forall|j: int| 0 <= j < t.len() implies {
        &&& #[trigger] c[j].permanent == t[j].permanent
        &&& c[j].removable == t[j].removable
        &&& c[j].register == t[j].register
    } by {}
    lemma_resolution_depends_on_structure(t, a, node, s, mode);
    lemma_resolution_depends_on_structure(t, b, node, s, mode);
    lemma_resolution_depends_on_structure(t, c, node, s, mode);
}

proof fn lemma_segment_survives_growth(
    t: Seq<BranchView>,
    n: usize,
    seg: Seq<char>,
    mode: Lookup,
    p: usize,
    a: Address,
    nm: Seq<char>,
    layout: PositionLayout,
    key: Seq<char>,
)
    requires
        wf(t),
        is_node(t, p),
        n < t.len(),
        a is Permanent ==> a->Permanent_0 == t[p as int].permanent.len(),
        a is Removable ==> is_first_free(t[p as int].removable, a->Removable_0 as nat),
        !registered(t[p as int], key),
        segment_node(t, n, seg, mode) is Ok,
    ensures
        segment_node(created(t, p, a, nm, layout), n, seg, mode) == segment_node(t, n, seg, mode),
        segment_node(with_name(t, p, key, a), n, seg, mode) == segment_node(t, n, seg, mode),
{
    let u = created(t, p, a, nm, layout);
    let w = with_name(t, p, key, a);
    let sa = crate::resolve::segment_address(t[n as int], seg, mode);
    assert(sa is Ok);
    let b = sa->Ok_0;
    assert(u[n as int].register == t[n as int].register);
    if n == p {
        match b {
            Address::Permanent(i) => {
                assert(child_at(u[n as int], b) == child_at(t[n as int], b));
            },
            Address::Removable(k) => {
                if a is Removable {
                    assert(t[p as int].removable[k as int] is Some);
                    assert(k != a->Removable_0);
                }
                assert(child_at(u[n as int], b) == child_at(t[n as int], b));
            },
        }
        // The register of `p` gained only `key`, which no lookup that
        // succeeded before can have used.
        let r = t[p as int].register;
        let r2 = w[p as int].register;
        assert(children_ok(t, p as int));
        if registered(t[p as int], seg) {
            let i = choose|i: int| 0 <= i < r.len() && #[trigger] r[i].0 == seg;
            assert(r2[i] == r[i]);
            assert(registered(w[p as int], seg));
            let j = choose|j: int| 0 <= j < r2.len() && #[trigger] r2[j].0 == seg;
            if j < r.len() {
                assert(r2[j] == r[j]);
            }
            assert(j == i);
        } else {
            if registered(w[p as int], seg) {
                let j = choose|j: int| 0 <= j < r2.len() && #[trigger] r2[j].0 == seg;
                if j < r.len() {
                    assert(r2[j] == r[j]);
                }
            }
        }
    }
}

/// Creating another child, or registering another name, leaves every address
/// that resolved before resolving to the same node.
pub proof fn lemma_resolution_survives_growth(
    t: Seq<BranchView>,
    node: usize,
    s: Seq<char>,
    mode: Lookup,
    p: usize,
    a: Address,
    nm: Seq<char>,
    layout: PositionLayout,
    key: Seq<char>,
)
    requires
        wf(t),
        is_node(t, p),
        is_node(t, node),
        a is Permanent ==> a->Permanent_0 == t[p as int].permanent.len(),
        a is Removable ==> is_first_free(t[p as int].removable, a->Removable_0 as nat),
        !registered(t[p as int], key),
        chain_node(t, node, s, mode) is Ok,
    ensures
        chain_node(created(t, p, a, nm, layout), node, s, mode) == chain_node(t, node, s, mode),
        chain_node(with_name(t, p, key, a), node, s, mode) == chain_node(t, node, s, mode),
    decreases s.len(),
{
    let j = first_slash(s);
    if 0 <= j < s.len() {
        let head = s.subrange(0, j);
        lemma_segment_survives_growth(t, node, head, mode, p, a, nm, layout, key);
        lemma_segment_reaches_node(t, node, head, mode);
        let c = segment_node(t, node, head, mode)->Ok_0;
        lemma_resolution_survives_growth(t, c, s.subrange(j + 1, s.len() as int), mode, p, a, nm, layout, key);
    } else {
        lemma_segment_survives_growth(t, node, s, mode, p, a, nm, layout, key);
    }
}

} // verus!
