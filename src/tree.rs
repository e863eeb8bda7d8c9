use vstd::prelude::*;
use crate::address::{Address, address_text};
use crate::data::Data;
use crate::layout::{Container, PositionLayout, Rect, fits, place};
use crate::cascade::{laid_out, pushed_effective, with_visibility};
use crate::text::{append_chars, chars_of, same_chars, slice_of, string_of};

verus! {

/// Id of the root node in every hierarchy.
pub const ROOT: usize = 0;

/// One node of the tree. Nodes live in the arena of a `Hierarchy` and refer
/// to their children by arena id.
pub struct Branch {
    name: Vec<char>,
    depth: usize,
    path: Vec<char>,
    in_focus: bool,
    container: Container,
    data: Option<Data>,
    visible: bool,
    parent_visible: bool,
    parent: usize,
    own: Address,
    attached: bool,
    permanent: Vec<usize>,
    removable: Vec<Option<usize>>,
    register: Vec<(Vec<char>, Address)>,
}

/// What a node holds, as mathematical values.
pub ghost struct BranchView {
    /// Display name, fixed at creation.
    pub name: Seq<char>,
    /// Distance from the root.
    pub depth: nat,
    /// Display path of the parent, cached at creation.
    pub path: Seq<char>,
    pub in_focus: bool,
    pub container: Container,
    /// Own visibility.
    pub visible: bool,
    /// Effective visibility of the parent, as last pushed down.
    pub parent_visible: bool,
    /// Arena id of the parent (the root is its own parent).
    pub parent: nat,
    /// Where the parent keeps this node.
    pub own: Address,
    /// Whether the node is still part of the tree.
    pub attached: bool,
    /// Arena ids of the permanent children, in creation order.
    pub permanent: Seq<usize>,
    /// Arena ids of the removable children, by slot id.
    pub removable: Seq<Option<usize>>,
    /// Registered names and the addresses of the children they denote.
    pub register: Seq<(Seq<char>, Address)>,
}

impl View for Branch {
    type V = BranchView;

    closed spec fn view(&self) -> BranchView {
        BranchView {
            name: self.name@,
            depth: self.depth as nat,
            path: self.path@,
            in_focus: self.in_focus,
            container: self.container,
            visible: self.visible,
            parent_visible: self.parent_visible,
            parent: self.parent as nat,
            own: self.own,
            attached: self.attached,
            permanent: self.permanent@,
            removable: self.removable@,
            register: self.register@.map_values(|e: (Vec<char>, Address)| (e.0@, e.1)),
        }
    }
}

/// Effective visibility: own visibility and that of the parent.
pub open spec fn effective(b: BranchView) -> bool {
    b.visible && b.parent_visible
}

/// The path shown for a node: empty for the root, else the cached parent
/// path and the name, joined by `/` when the former is not empty.
pub open spec fn display_path(b: BranchView) -> Seq<char> {
    if b.depth == 0 {
        Seq::empty()
    } else if b.path.len() == 0 {
        b.name
    } else {
        b.path + seq!['/'] + b.name
    }
}

/// The child that `a` denotes in `p`, if any.
pub open spec fn child_at(p: BranchView, a: Address) -> Option<usize> {
    match a {
        Address::Permanent(i) => if i < p.permanent.len() {
            Some(p.permanent[i as int])
        } else {
            None
        },
        Address::Removable(k) => if k < p.removable.len() {
            p.removable[k as int]
        } else {
            None
        },
    }
}

pub open spec fn registered(p: BranchView, key: Seq<char>) -> bool {
    exists|i: int| 0 <= i < p.register.len() && #[trigger] p.register[i].0 == key
}

/// The address registered under `key`; meaningful where `registered` holds.
pub open spec fn register_target(p: BranchView, key: Seq<char>) -> Address {
    p.register[choose|i: int| 0 <= i < p.register.len() && #[trigger] p.register[i].0 == key].1
}

/// The smallest slot id that is free in `slots`.
pub open spec fn is_first_free(slots: Seq<Option<usize>>, k: nat) -> bool {
    &&& k <= slots.len()
    &&& k < slots.len() ==> slots[k as int] is None
    &&& forall|j: int| 0 <= j < k ==> #[trigger] slots[j] is Some
}

pub open spec fn node_ok(t: Seq<BranchView>, c: int) -> bool {
    let b = t[c];
    let p = t[b.parent as int];
    &&& b.parent < c
    &&& b.depth == p.depth + 1
    &&& b.depth <= c
    &&& b.path == display_path(p)
    &&& b.attached == (p.attached && child_at(p, b.own) == Some(c as usize))
    &&& b.attached ==> b.parent_visible == effective(p)
}

pub open spec fn children_ok(t: Seq<BranchView>, p: int) -> bool {
    &&& forall|i: int| #![trigger t[p].permanent[i]]
        0 <= i < t[p].permanent.len() ==> {
            let c = t[p].permanent[i] as int;
            &&& 0 < c < t.len()
            &&& t[c].parent == p
            &&& t[c].own == Address::Permanent(i as usize)
        }
    &&& forall|k: int| #![trigger t[p].removable[k]]
        0 <= k < t[p].removable.len() && t[p].removable[k] is Some ==> {
            let c = t[p].removable[k]->0 as int;
            &&& 0 < c < t.len()
            &&& t[c].parent == p
            &&& t[c].own == Address::Removable(k as usize)
        }
    &&& forall|i: int, j: int|
        0 <= i < t[p].register.len() && 0 <= j < t[p].register.len() && #[trigger] t[p].register[i].0
            == #[trigger] t[p].register[j].0 ==> i == j
}

/// The arena holds a tree rooted at `ROOT`.
pub open spec fn wf(t: Seq<BranchView>) -> bool {
    &&& t.len() >= 1
    &&& t[0].depth == 0
    &&& t[0].attached
    &&& t[0].parent_visible
    &&& forall|c: int| 0 < c < t.len() ==> #[trigger] node_ok(t, c)
    &&& forall|p: int| 0 <= p < t.len() ==> #[trigger] children_ok(t, p)
}

/// `id` names a node that is part of the tree.
pub open spec fn is_node(t: Seq<BranchView>, id: usize) -> bool {
    id < t.len() && t[id as int].attached
}

/// `p` after `c` was stored at `a`.
pub open spec fn with_child(p: BranchView, a: Address, c: usize) -> BranchView {
    match a {
        Address::Permanent(_) => BranchView { permanent: p.permanent.push(c), ..p },
        Address::Removable(k) => BranchView {
            removable: if k < p.removable.len() {
                p.removable.update(k as int, Some(c))
            } else {
                p.removable.push(Some(c))
            },
            ..p
        },
    }
}

/// A node just created under `p` at `own`.
pub open spec fn fresh(t: Seq<BranchView>, p: usize, own: Address, name: Seq<char>, layout: PositionLayout) -> BranchView {
    BranchView {
        name,
        depth: t[p as int].depth + 1,
        path: display_path(t[p as int]),
        in_focus: false,
        container: Container { layout, position: Rect { x: 0, y: 0, width: 0, height: 0 } },
        visible: true,
        parent_visible: effective(t[p as int]),
        parent: p as nat,
        own,
        attached: true,
        permanent: Seq::empty(),
        removable: Seq::empty(),
        register: Seq::empty(),
    }
}

/// The tree after a child of `p` was created at `a`.
pub open spec fn created(t: Seq<BranchView>, p: usize, a: Address, name: Seq<char>, layout: PositionLayout) -> Seq<BranchView> {
    t.update(p as int, with_child(t[p as int], a, t.len() as usize)).push(fresh(t, p, a, created_name(a, name), layout))
}

/// The smallest free slot id of `slots`.
pub open spec fn first_free(slots: Seq<Option<usize>>) -> nat {
    choose|k: nat| is_first_free(slots, k)
}

pub proof fn lemma_first_free(slots: Seq<Option<usize>>, k: nat)
    requires
        is_first_free(slots, k),
    ensures
        first_free(slots) == k,
{
    let f = first_free(slots);
    assert(is_first_free(slots, f));
    if f < k {
        assert(slots[f as int] is Some);
    } else if k < f {
        assert(slots[k as int] is Some);
    }
}

/// The root of a new hierarchy: named `ROOT`, covering the whole surface,
/// visible, with no children and an empty register.
pub open spec fn root_branch() -> BranchView {
    BranchView {
        name: seq!['R', 'O', 'O', 'T'],
        depth: 0,
        path: Seq::empty(),
        in_focus: false,
        container: Container {
            layout: PositionLayout::full_spec(),
            position: Rect { x: 0, y: 0, width: 0, height: 0 },
        },
        visible: true,
        parent_visible: true,
        parent: 0,
        own: Address::Permanent(0),
        attached: true,
        permanent: Seq::empty(),
        removable: Seq::empty(),
        register: Seq::empty(),
    }
}

/// The name a permanent child gets: its own address.
pub open spec fn created_name(own: Address, name: Seq<char>) -> Seq<char> {
    match own {
        Address::Permanent(_) => address_text(own),
        Address::Removable(_) => name,
    }
}

/// `id` lies in the subtree of `c`, following parent links.
pub open spec fn descends(t: Seq<BranchView>, id: int, c: int) -> bool
    decreases id,
{
    id == c || (id > c && 0 < id < t.len() && t[id].parent < id && descends(t, t[id].parent as int, c))
}

/// The tree after the removable child `c` in slot `k` of `p` was taken out
/// with its whole subtree.
pub open spec fn without_subtree(t: Seq<BranchView>, p: usize, k: usize, c: usize) -> Seq<BranchView> {
    Seq::new(
        t.len(),
        |id: int|
            {
                let b = if id == p {
                    BranchView { removable: t[p as int].removable.update(k as int, None), ..t[p as int] }
                } else {
                    t[id]
                };
                BranchView { attached: b.attached && !descends(t, id, c as int), ..b }
            },
    )
}

/// Position of `key` in the register of `p`; meaningful where `registered` holds.
pub open spec fn register_index(p: BranchView, key: Seq<char>) -> int {
    choose|i: int| 0 <= i < p.register.len() && #[trigger] p.register[i].0 == key
}

/// The tree after `key` was taken out of the register of `node`.
pub open spec fn without_name(t: Seq<BranchView>, node: usize, key: Seq<char>) -> Seq<BranchView> {
    t.update(
        node as int,
        BranchView {
            register: t[node as int].register.remove(register_index(t[node as int], key)),
            ..t[node as int]
        },
    )
}

/// The tree after `key` was registered in `node` for `a`.
pub open spec fn with_name(t: Seq<BranchView>, node: usize, key: Seq<char>, a: Address) -> Seq<BranchView> {
    t.update(node as int, BranchView { register: t[node as int].register.push((key, a)), ..t[node as int] })
}

impl Branch {
    fn new(depth: usize, parent_visible: bool, name: Vec<char>, path: Vec<char>, parent: usize, own: Address) -> (r: Branch)
        ensures
            r@.name == name@,
            r@.depth == depth,
            r@.path == path@,
            !r@.in_focus,
            r@.container == Container::new_spec(),
            r@.visible,
            r@.parent_visible == parent_visible,
            r@.parent == parent,
            r@.own == own,
            r@.attached,
            r@.permanent.len() == 0,
            r@.removable.len() == 0,
            r@.register.len() == 0,
            r.spec_payload() is None,
    {
        Branch {
            name,
            depth,
            path,
            in_focus: false,
            container: Container::new(),
            data: None,
            visible: true,
            parent_visible,
            parent,
            own,
            attached: true,
            permanent: Vec::new(),
            removable: Vec::new(),
            register: Vec::new(),
        }
    }

    /// The payload of the node.
    pub closed spec fn spec_payload(&self) -> Option<Data> {
        self.data
    }

    /// The payload of the node.
    pub fn data_get(&self) -> (r: &Option<Data>)
        ensures
            *r == self.spec_payload(),
    {
        &self.data
    }

    /// The layout the node takes inside its parent.
    pub fn layout_get(&self) -> (r: PositionLayout)
        ensures
            r == self@.container.layout,
    {
        self.container.layout
    }

    /// The layout and the rectangle last computed from it.
    pub fn container_get(&self) -> (r: Container)
        ensures
            r == self@.container,
    {
        self.container
    }

    /// Depth in half levels: twice the distance from the root, plus one for
    /// a node in focus.
    pub fn get_depth(&self) -> (r: u128)
        ensures
            r == 2 * self@.depth + if self@.in_focus { 1int } else { 0int },
    {
        let d = 2 * (self.depth as u128);
        if self.in_focus {
            d + 1
        } else {
            d
        }
    }

    /// The display path of the node.
    pub fn get_path(&self) -> (r: String)
        ensures
            r@ == display_path(self@),
    {
        string_of(&self.path_chars())
    }

    pub(crate) fn path_chars(&self) -> (r: Vec<char>)
        ensures
            r@ == display_path(self@),
    {
        if self.depth == 0 {
            Vec::new()
        } else if self.path.len() == 0 {
            slice_of(&self.name, 0, self.name.len())
        } else {
            let mut out = slice_of(&self.path, 0, self.path.len());
            out.push('/');
            append_chars(&mut out, &self.name);
            out
        }
    }

    pub(crate) fn name_chars(&self) -> (r: Vec<char>)
        ensures
            r@ == self@.name,
    {
        slice_of(&self.name, 0, self.name.len())
    }

    pub(crate) fn depth_exec(&self) -> (r: usize)
        ensures
            r == self@.depth,
    {
        self.depth
    }

    /// Effective visibility of the parent, as last pushed down.
    pub fn parent_visibility(&self) -> (r: bool)
        ensures
            r == self@.parent_visible,
    {
        self.parent_visible
    }

    pub fn get_focus(&self) -> (r: bool)
        ensures
            r == self@.in_focus,
    {
        self.in_focus
    }

    /// Effective visibility: own and inherited.
    pub fn is_visible(&self) -> (r: bool)
        ensures
            r == effective(self@),
    {
        self.visible && self.parent_visible
    }

    /// Own visibility.
    pub fn get_visibility(&self) -> (r: bool)
        ensures
            r == self@.visible,
    {
        self.visible
    }
}

/// Owner of the tree: an arena of nodes whose node `ROOT` covers the whole
/// surface, and the surface's current size.
pub struct Hierarchy {
    width: u32,
    height: u32,
    nodes: Vec<Branch>,
}

impl View for Hierarchy {
    type V = Seq<BranchView>;

    closed spec fn view(&self) -> Seq<BranchView> {
        self.nodes@.map_values(|b: Branch| b@)
    }
}

impl Hierarchy {
    /// The payload of each node, by arena id.
    pub closed spec fn payloads(&self) -> Seq<Option<Data>> {
        self.nodes@.map_values(|b: Branch| b.data)
    }

    /// Current surface width.
    pub closed spec fn spec_width(&self) -> u32 {
        self.width
    }

    /// Current surface height.
    pub closed spec fn spec_height(&self) -> u32 {
        self.height
    }

    /// A hierarchy with a lone root that covers the full surface.
    pub fn new() -> (r: Hierarchy)
        ensures
            wf(r@),
            r@ == seq![root_branch()],
            r.payloads() == seq![None::<Data>],
            r.spec_width() == 0,
            r.spec_height() == 0,
    {
        let name: Vec<char> = vec!['R', 'O', 'O', 'T'];
        let mut root = Branch::new(0, true, name, Vec::new(), ROOT, Address::Permanent(0));
        root.container.layout = PositionLayout::full();
        let mut nodes: Vec<Branch> = Vec::new();
        nodes.push(root);
        let r = Hierarchy { width: 0, height: 0, nodes };
        proof {
            assert(r@[0] == root@);
            assert(root@.name =~= root_branch().name);
            assert(root@.path =~= root_branch().path);
            assert(root@.permanent =~= root_branch().permanent);
            assert(root@.removable =~= root_branch().removable);
            assert(root@.register =~= root_branch().register);
            assert(r@ =~= seq![root_branch()]);
            assert(r.payloads() =~= seq![None::<Data>]);
        }
        r
    }

    /// Whether `id` names a node that is part of the tree.
    pub fn contains_node(&self, id: usize) -> (r: bool)
        ensures
            r == is_node(self@, id),
    {
        id < self.nodes.len() && self.nodes[id].attached
    }

    /// The node with id `id`.
    pub fn branch(&self, id: usize) -> (r: &Branch)
        requires
            is_node(self@, id),
        ensures
            r@ == self@[id as int],
            r.spec_payload() == self.payloads()[id as int],
    {
        &self.nodes[id]
    }

    pub(crate) fn node_ref(&self, id: usize) -> (r: &Branch)
        requires
            id < self@.len(),
        ensures
            r@ == self@[id as int],
    {
        &self.nodes[id]
    }

    /// The root node.
    pub fn root_get(&self) -> (r: &Branch)
        requires
            wf(self@),
        ensures
            r@ == self@[0],
            r.spec_payload() == self.payloads()[0],
    {
        &self.nodes[ROOT]
    }

    /// Creates a child of `node`. A permanent child is appended to the
    /// permanent children and named after its address; a removable one takes
    /// the smallest free slot and is named `name`. Returns the child's address.
    pub fn create_child(&mut self, node: usize, removable: bool, layout: PositionLayout, name: &str) -> (r: Address)
        requires
            wf(old(self)@),
            is_node(old(self)@, node),
        ensures
            wf(final(self)@),
            final(self).spec_width() == old(self).spec_width(),
            final(self).spec_height() == old(self).spec_height(),
            final(self).payloads() == old(self).payloads().push(None),
            !removable ==> r == Address::Permanent(old(self)@[node as int].permanent.len() as usize),
            removable ==> r == Address::Removable(first_free(old(self)@[node as int].removable) as usize),
            final(self)@ == created(old(self)@, node, r, name@, layout),
    {
        let chars = chars_of(name);
        self.add_child(node, removable, layout, chars)
    }

    pub(crate) fn register_of(&self, node: usize) -> (r: &Vec<(Vec<char>, Address)>)
        requires
            node < self@.len(),
        ensures
            r@.len() == self@[node as int].register.len(),
            forall|j: int| 0 <= j < r@.len() ==> #[trigger] self@[node as int].register[j] == (r@[j].0@, r@[j].1),
    {
        &self.nodes[node].register
    }

    pub(crate) fn child_of(&self, node: usize, a: Address) -> (r: Option<usize>)
        requires
            node < self@.len(),
        ensures
            r == child_at(self@[node as int], a),
    {
        let b = &self.nodes[node];
        match a {
            Address::Permanent(i) => if i < b.permanent.len() {
                Some(b.permanent[i])
            } else {
                None
            },
            Address::Removable(k) => if k < b.removable.len() {
                b.removable[k]
            } else {
                None
            },
        }
    }

    /// Takes the removable child in slot `k` of `p` out of the tree, with
    /// its whole subtree.
    pub(crate) fn detach(&mut self, p: usize, k: usize)
        requires
            wf(old(self)@),
            is_node(old(self)@, p),
            child_at(old(self)@[p as int], Address::Removable(k)) is Some,
        ensures
            wf(final(self)@),
            final(self).spec_width() == old(self).spec_width(),
            final(self).spec_height() == old(self).spec_height(),
            final(self).payloads() == old(self).payloads(),
            final(self)@ == without_subtree(
                old(self)@,
                p,
                k,
                child_at(old(self)@[p as int], Address::Removable(k))->0,
            ),
    {
        let ghost t = self@;
        let count = self.nodes.len();
        let c = self.nodes[p].removable[k].unwrap();
        let ghost target = without_subtree(t, p, k, c);
        proof {
            assert(children_ok(t, p as int));
            assert(t[p as int].removable[k as int] == Some(c));
            assert(t.len() == count);
            lemma_detach_wf(t, p, k, c);
        }
        self.nodes[p].removable.set(k, None);
        assert(self.payloads() =~= old(self).payloads());
        self.nodes[c].attached = false;
        assert(self.payloads() =~= old(self).payloads());
        let n = self.nodes.len();
        assert(c < n);
        assert(descends(t, c as int, c as int));
        let mut id: usize = c + 1;
        while id < self.nodes.len()
            invariant
                wf(t),
                c < id <= t.len(),
                p < c,
                target == without_subtree(t, p, k, c),
                self@.len() == t.len(),
                self.spec_width() == old(self).spec_width(),
                self.spec_height() == old(self).spec_height(),
                self.payloads() == old(self).payloads(),
                forall|j: int| 0 <= j < id ==> #[trigger] self@[j] == target[j],
                forall|j: int| id <= j < t.len() ==> #[trigger] self@[j] == t[j],
            decreases self@.len() - id,
        {
            let ghost before = self@;
            let ghost before_nodes = self.nodes@;
            let par = self.nodes[id].parent;
            proof {
                assert(node_ok(t, id as int));
                assert(self@[id as int] == t[id as int]);
                assert(self@[par as int] == target[par as int]);
            }
            if self.nodes[id].attached && !self.nodes[par].attached {
                self.nodes[id].attached = false;
                assert(self.payloads() =~= old(self).payloads());
            }
            assert(self@[id as int] == target[id as int]);
            assert forall|j: int| 0 <= j < t.len() && j != id implies #[trigger] self@[j] == before[j] by {
                assert(self.nodes@[j] == before_nodes[j]);
            }
            id = id + 1;
        }
        assert(self@ =~= target);
    }

    /// Registers `key` in `node` for the child at `a`.
    pub(crate) fn register_name(&mut self, node: usize, key: Vec<char>, a: Address)
        requires
            wf(old(self)@),
            node < old(self)@.len(),
            !registered(old(self)@[node as int], key@),
        ensures
            wf(final(self)@),
            final(self).spec_width() == old(self).spec_width(),
            final(self).spec_height() == old(self).spec_height(),
            final(self).payloads() == old(self).payloads(),
            final(self)@ == with_name(old(self)@, node, key@, a),
    {
        let ghost t = self@;
        let ghost k = key@;
        self.nodes[node].register.push((key, a));
        assert(self.payloads() =~= old(self).payloads());
        proof {
            let t2 = with_name(t, node, k, a);
            assert(self@[node as int].register =~= t2[node as int].register);
            assert(self@ =~= t2);
            assert forall|x: int| 0 < x < t2.len() implies #[trigger] node_ok(t2, x) by {
                assert(node_ok(t, x));
            }
            assert forall|q: int| 0 <= q < t2.len() implies #[trigger] children_ok(t2, q) by {
                assert(children_ok(t, q));
                if q == node {
                    let r = t2[q].register;
                    assert forall|i: int, j: int|
                        0 <= i < r.len() && 0 <= j < r.len() && #[trigger] r[i].0 == #[trigger] r[j].0 implies i == j by {
                        if i == r.len() - 1 && j < r.len() - 1 {
                            assert(t[q].register[j].0 == k);
                        } else if j == r.len() - 1 && i < r.len() - 1 {
                            assert(t[q].register[i].0 == k);
                        } else if i < r.len() - 1 && j < r.len() - 1 {
                            assert(t[q].register[i] == r[i]);
                            assert(t[q].register[j] == r[j]);
                        }
                    }
                }
            }
        }
    }

    /// Takes `key` out of the register of `node`.
    pub(crate) fn unregister(&mut self, node: usize, key: &Vec<char>)
        requires
            wf(old(self)@),
            node < old(self)@.len(),
            registered(old(self)@[node as int], key@),
        ensures
            wf(final(self)@),
            final(self).spec_width() == old(self).spec_width(),
            final(self).spec_height() == old(self).spec_height(),
            final(self).payloads() == old(self).payloads(),
            final(self)@ == without_name(old(self)@, node, key@),
    {
        let ghost t = self@;
        let ghost b = t[node as int];
        let ghost target = register_index(b, key@);
        assert(children_ok(t, node as int));
        let mut i: usize = 0;
        while i < self.nodes[node].register.len()
            invariant
                self@ == t,
                wf(t),
                node < t.len(),
                b == t[node as int],
                0 <= target < b.register.len(),
                b.register[target].0 == key@,
                self.nodes@[node as int]@ == b,
                0 <= i <= target,
            ensures
                i == target,
            decreases self.nodes@[node as int].register@.len() - i,
        {
            assert(children_ok(t, node as int));
            assert(b.register[i as int].0 == self.nodes[node as int].register@[i as int].0@);
            if same_chars(&self.nodes[node].register[i].0, key) {
                assert(i == target);
                break;
            }
            i = i + 1;
        }
        assert(i == target);
        let ghost before_nodes = self.nodes@;
        self.nodes[node].register.remove(i);
        assert(self.payloads() =~= old(self).payloads());
        proof {
            let t2 = without_name(t, node, key@);
            assert(self@[node as int].register =~= t2[node as int].register);
            assert forall|j: int| 0 <= j < t.len() && j != node implies #[trigger] self.nodes@[j] == before_nodes[j] by {}
            assert(self@ =~= t2);
            assert forall|x: int| 0 < x < t2.len() implies #[trigger] node_ok(t2, x) by {
                assert(node_ok(t, x));
            }
            assert forall|q: int| 0 <= q < t2.len() implies #[trigger] children_ok(t2, q) by {
                assert(children_ok(t, q));
                if q == node {
                    let r = t2[q].register;
                    assert forall|a: int, c: int|
                        0 <= a < r.len() && 0 <= c < r.len() && #[trigger] r[a].0 == #[trigger] r[c].0 implies a == c by {
                        let a2 = if a < target { a } else { a + 1 };
                        let c2 = if c < target { c } else { c + 1 };
                        assert(r[a] == b.register[a2]);
                        assert(r[c] == b.register[c2]);
                    }
                }
            }
        }
    }

    pub(crate) fn set_surface(&mut self, width: u32, height: u32)
        ensures
            final(self)@ == old(self)@,
            final(self).spec_width() == width,
            final(self).spec_height() == height,
            final(self).payloads() == old(self).payloads(),
    {
        self.width = width;
        self.height = height;
    }

    pub(crate) fn surface_width(&self) -> (r: u32)
        ensures
            r == self.spec_width(),
    {
        self.width
    }

    pub(crate) fn surface_height(&self) -> (r: u32)
        ensures
            r == self.spec_height(),
    {
        self.height
    }

    /// Gives every node of the tree its rectangle, the root receiving `outer`.
    pub(crate) fn lay_out(&mut self, outer: Rect)
        requires
            wf(old(self)@),
            fits(outer),
        ensures
            wf(final(self)@),
            final(self).spec_width() == old(self).spec_width(),
            final(self).spec_height() == old(self).spec_height(),
            final(self).payloads() == old(self).payloads(),
            final(self)@ == laid_out(old(self)@, outer),
    {
        let ghost t = self@;
        let ghost target = laid_out(t, outer);
        let n = self.nodes.len();
        let mut id: usize = 0;
        while id < n
            invariant
                wf(t),
                n == t.len(),
                target == laid_out(t, outer),
                fits(outer),
                self@.len() == t.len(),
                self.spec_width() == old(self).spec_width(),
                self.spec_height() == old(self).spec_height(),
                self.payloads() == old(self).payloads(),
                0 <= id <= n,
                forall|j: int| 0 <= j < id ==> #[trigger] self@[j] == target[j],
                forall|j: int| 0 <= j < id && t[j].attached ==> fits(#[trigger] self@[j].container.position),
                forall|j: int| id <= j < n ==> #[trigger] self@[j] == t[j],
            decreases n - id,
        {
            let ghost before = self@;
            let ghost before_nodes = self.nodes@;
            if self.nodes[id].attached {
                let incoming = if id == 0 {
                    outer
                } else {
                    let par = self.nodes[id].parent;
                    proof {
                        assert(self@[id as int] == t[id as int]);
                        assert(par == t[id as int].parent);
                        assert(node_ok(t, id as int));
                        assert(self@[par as int] == target[par as int]);
                        assert(t[par as int].attached);
                        assert(fits(self@[par as int].container.position));
                    }
                    self.nodes[par].container.position
                };
                let r = self.nodes[id].container.layout.place(incoming);
                self.nodes[id].container.position = r;
                assert(self.payloads() =~= old(self).payloads());
                proof {
                    assert(self@[id as int].container =~= target[id as int].container);
                    assert(self@[id as int] == target[id as int]);
                }
            }
            assert forall|j: int| 0 <= j < n && j != id implies #[trigger] self@[j] == before[j] by {
                assert(self.nodes@[j] == before_nodes[j]);
            }
            id = id + 1;
        }
        assert(self@ =~= target);
        proof {
            assert forall|x: int| 0 < x < target.len() implies #[trigger] node_ok(target, x) by {
                assert(node_ok(t, x));
            }
            assert forall|q: int| 0 <= q < target.len() implies #[trigger] children_ok(target, q) by {
                assert(children_ok(t, q));
                assert(target[q].permanent == t[q].permanent);
                assert(target[q].removable == t[q].removable);
                assert(target[q].register == t[q].register);
                assert forall|i: int| 0 <= i < t.len() implies #[trigger] target[i].parent == t[i].parent
                    && target[i].own == t[i].own by {}
            }
        }
    }

    pub(crate) fn set_own_visibility(&mut self, node: usize, visible: bool)
        requires
            node < old(self)@.len(),
        ensures
            final(self).spec_width() == old(self).spec_width(),
            final(self).spec_height() == old(self).spec_height(),
            final(self).payloads() == old(self).payloads(),
            final(self)@ == old(self)@.update(node as int, BranchView { visible, ..old(self)@[node as int] }),
    {
        let ghost before_nodes = self.nodes@;
        self.nodes[node].visible = visible;
        assert(self.payloads() =~= old(self).payloads());
        assert forall|j: int| 0 <= j < self@.len() && j != node implies self.nodes@[j] == before_nodes[j] by {}
        assert(self@ =~= old(self)@.update(node as int, BranchView { visible, ..old(self)@[node as int] }));
    }

    /// Pushes the effective visibility of `node`, whose own visibility was
    /// just set to `v` in tree `t`, down its subtree.
    pub(crate) fn push_visibility(&mut self, node: usize, v: bool, Ghost(t): Ghost<Seq<BranchView>>)
        requires
            wf(t),
            is_node(t, node),
            old(self)@ == t.update(node as int, BranchView { visible: v, ..t[node as int] }),
        ensures
            final(self).spec_width() == old(self).spec_width(),
            final(self).spec_height() == old(self).spec_height(),
            final(self).payloads() == old(self).payloads(),
            final(self)@ == with_visibility(t, node, v),
    {
        let ghost target = with_visibility(t, node, v);
        let n = self.nodes.len();
        assert(self@.len() == self.nodes@.len());
        assert(n == t.len());
        let mut marks: Vec<bool> = Vec::new();
        marks.push(true);
        assert(descends(t, node as int, node as int));
        let mut id: usize = node + 1;
        assert forall|j: int| 0 <= j < id implies #[trigger] self@[j] == target[j] by {
            if j < node {
                assert(!descends(t, j, node as int));
            }
        }
        while id < n
            invariant
                wf(t),
                n == t.len(),
                node < id <= n,
                is_node(t, node),
                target == with_visibility(t, node, v),
                self@.len() == t.len(),
                self.spec_width() == old(self).spec_width(),
                self.spec_height() == old(self).spec_height(),
                self.payloads() == old(self).payloads(),
                marks@.len() == id - node,
                forall|i: int| 0 <= i < id - node ==> #[trigger] marks@[i] == (t[node + i].attached && descends(t, node + i, node as int)),
                forall|j: int| 0 <= j < id ==> #[trigger] self@[j] == target[j],
                forall|j: int| id <= j < n ==> #[trigger] self@[j] == t[j],
            decreases n - id,
        {
            let ghost before = self@;
            let ghost before_nodes = self.nodes@;
            proof {
                assert(node_ok(t, id as int));
                assert(self@[id as int] == t[id as int]);
            }
            let par = self.nodes[id].parent;
            let inside = self.nodes[id].attached && par >= node && marks[par - node];
            proof {
                let q = t[id as int].parent as int;
                assert(par == q);
                if q >= node {
                    assert(marks@[q - node] == (t[q].attached && descends(t, q, node as int)));
                    assert(node + (q - node) == q);
                }
                if t[id as int].attached && descends(t, id as int, node as int) {
                    assert(descends(t, q, node as int));
                    assert(q >= node) by {
                        if q < node {
                            assert(!descends(t, q, node as int));
                        }
                    }
                }
                assert(inside == (t[id as int].attached && descends(t, id as int, node as int)));
            }
            if inside {
                let pv = self.nodes[par].visible && self.nodes[par].parent_visible;
                proof {
                    let q = par as int;
                    assert(self@[q] == target[q]);
                    if q != node {
                        assert(t[q].attached);
                    }
                    assert(pv == pushed_effective(t, node as int, v, q));
                }
                self.nodes[id].parent_visible = pv;
                assert(self.payloads() =~= old(self).payloads());
            }
            marks.push(inside);
            assert(self@[id as int] == target[id as int]);
            assert forall|j: int| 0 <= j < n && j != id implies #[trigger] self@[j] == before[j] by {
                assert(self.nodes@[j] == before_nodes[j]);
            }
            assert forall|i: int| 0 <= i < id + 1 - node implies #[trigger] marks@[i] == (t[node + i].attached && descends(t, node + i, node as int)) by {
                if i == id - node {
                    assert(node + i == id);
                }
            }
            id = id + 1;
        }
        assert(self@ =~= target);
    }

    /// Puts `node` in focus or takes it out.
    pub fn set_focus(&mut self, node: usize, focus: bool)
        requires
            wf(old(self)@),
            is_node(old(self)@, node),
        ensures
            wf(final(self)@),
            final(self).spec_width() == old(self).spec_width(),
            final(self).spec_height() == old(self).spec_height(),
            final(self).payloads() == old(self).payloads(),
            final(self)@ == old(self)@.update(node as int, BranchView { in_focus: focus, ..old(self)@[node as int] }),
    {
        let ghost t = self@;
        let ghost before_nodes = self.nodes@;
        self.nodes[node].in_focus = focus;
        assert(self.payloads() =~= old(self).payloads());
        let ghost u = t.update(node as int, BranchView { in_focus: focus, ..t[node as int] });
        assert forall|j: int| 0 <= j < t.len() && j != node implies self.nodes@[j] == before_nodes[j] by {}
        assert(self@ =~= u);
        proof {
            lemma_same_shape_wf(t, u);
        }
    }

    /// Gives `node` a new layout; its rectangle changes at the next pass.
    pub fn layout_set(&mut self, node: usize, layout: PositionLayout)
        requires
            wf(old(self)@),
            is_node(old(self)@, node),
        ensures
            wf(final(self)@),
            final(self).spec_width() == old(self).spec_width(),
            final(self).spec_height() == old(self).spec_height(),
            final(self).payloads() == old(self).payloads(),
            final(self)@ == old(self)@.update(
                node as int,
                BranchView {
                    container: Container { layout, ..old(self)@[node as int].container },
                    ..old(self)@[node as int]
                },
            ),
    {
        let ghost t = self@;
        let ghost before_nodes = self.nodes@;
        self.nodes[node].container.layout = layout;
        assert(self.payloads() =~= old(self).payloads());
        let ghost u = t.update(
            node as int,
            BranchView { container: Container { layout, ..t[node as int].container }, ..t[node as int] },
        );
        assert forall|j: int| 0 <= j < t.len() && j != node implies self.nodes@[j] == before_nodes[j] by {}
        assert(self@ =~= u);
        proof {
            lemma_same_shape_wf(t, u);
        }
    }

    /// Replaces the payload of `node`.
    pub fn data_set(&mut self, node: usize, data: Option<Data>)
        requires
            is_node(old(self)@, node),
        ensures
            final(self)@ == old(self)@,
            final(self).spec_width() == old(self).spec_width(),
            final(self).spec_height() == old(self).spec_height(),
            final(self).payloads() == old(self).payloads().update(node as int, data),
    {
        let ghost before_nodes = self.nodes@;
        self.nodes[node].data = data;
        assert(self.payloads() =~= old(self).payloads().update(node as int, data));
        assert forall|j: int| 0 <= j < self@.len() implies self@[j] == old(self)@[j] by {
            if j != node {
                assert(self.nodes@[j] == before_nodes[j]);
            }
        }
        assert(self@ =~= old(self)@);
    }

    /// Number of nodes in the arena, detached ones included.
    pub fn node_count(&self) -> (r: usize)
        ensures
            r == self@.len(),
    {
        self.nodes.len()
    }

    pub(crate) fn permanent_count(&self, id: usize) -> (r: usize)
        requires
            id < self@.len(),
        ensures
            r == self@[id as int].permanent.len(),
    {
        self.nodes[id].permanent.len()
    }

    pub(crate) fn removable_count(&self, id: usize) -> (r: usize)
        requires
            id < self@.len(),
        ensures
            r == self@[id as int].removable.len(),
    {
        self.nodes[id].removable.len()
    }

    pub(crate) fn permanent_child(&self, id: usize, i: usize) -> (r: usize)
        requires
            id < self@.len(),
            i < self@[id as int].permanent.len(),
        ensures
            r == self@[id as int].permanent[i as int],
    {
        self.nodes[id].permanent[i]
    }

    pub(crate) fn removable_child(&self, id: usize, k: usize) -> (r: Option<usize>)
        requires
            id < self@.len(),
            k < self@[id as int].removable.len(),
        ensures
            r == self@[id as int].removable[k as int],
    {
        self.nodes[id].removable[k]
    }

    fn first_free_slot(&self, node: usize) -> (r: usize)
        requires
            node < self@.len(),
        ensures
            is_first_free(self@[node as int].removable, r as nat),
    {
        let slots = &self.nodes[node].removable;
        let mut k: usize = 0;
        while k < slots.len()
            invariant
                slots@ == self@[node as int].removable,
                0 <= k <= slots@.len(),
                forall|j: int| 0 <= j < k ==> #[trigger] slots@[j] is Some,
            decreases slots.len() - k,
        {
            if slots[k].is_none() {
                return k;
            }
            k = k + 1;
        }
        k
    }

    pub(crate) fn add_child(&mut self, node: usize, removable: bool, layout: PositionLayout, name: Vec<char>) -> (r: Address)
        requires
            wf(old(self)@),
            is_node(old(self)@, node),
        ensures
            wf(final(self)@),
            final(self).spec_width() == old(self).spec_width(),
            final(self).spec_height() == old(self).spec_height(),
            final(self).payloads() == old(self).payloads().push(None),
            !removable ==> r == Address::Permanent(old(self)@[node as int].permanent.len() as usize),
            removable ==> r == Address::Removable(first_free(old(self)@[node as int].removable) as usize),
            final(self)@ == created(old(self)@, node, r, name@, layout),
    {
        let ghost t = self@;
        let id = self.nodes.len();
        let own = if removable {
            let k = self.first_free_slot(node);
            proof {
                lemma_first_free(t[node as int].removable, k as nat);
            }
            Address::Removable(k)
        } else {
            Address::Permanent(self.nodes[node].permanent.len())
        };
        let child_name = if removable { name } else { own.text() };
        let parent = &self.nodes[node];
        assert(parent@ == t[node as int]);
        proof {
            if node > 0 {
                // The depth of a node is at most its id, which is below the arena length.
                assert(node_ok(t, node as int));
            }
        }
        let mut child = Branch::new(parent.depth + 1, parent.is_visible(), child_name, parent.path_chars(), node, own);
        child.container.layout = layout;
        match own {
            Address::Permanent(_) => {
                self.nodes[node].permanent.push(id);
                assert(self.payloads() =~= old(self).payloads());
            },
            Address::Removable(k) => {
                if k < self.nodes[node].removable.len() {
                    self.nodes[node].removable.set(k, Some(id));
                    assert(self.payloads() =~= old(self).payloads());
                } else {
                    self.nodes[node].removable.push(Some(id));
                    assert(self.payloads() =~= old(self).payloads());
                }
            },
        }
        self.nodes.push(child);
        assert(self.payloads() =~= old(self).payloads().push(None));
        proof {
            let f = fresh(t, node, own, created_name(own, name@), layout);
            let t2 = t.update(node as int, with_child(t[node as int], own, id)).push(f);
            assert(child@.permanent =~= f.permanent);
            assert(child@.removable =~= f.removable);
            assert(child@.register =~= f.register);
            assert(child@.name =~= f.name);
            assert(child@ == f);
            assert(self@ =~= t2);
            assert(t2 == created(t, node, own, name@, layout));
            lemma_add_child_wf(t, node, own, id, f);
        }
        own
    }
}

/// Changing what no invariant speaks of keeps the tree well formed.
proof fn lemma_same_shape_wf(t: Seq<BranchView>, u: Seq<BranchView>)
    requires
        wf(t),
        t.len() == u.len(),
        forall|j: int| 0 <= j < t.len() ==> {
            &&& #[trigger] u[j].name == t[j].name
            &&& u[j].depth == t[j].depth
            &&& u[j].path == t[j].path
            &&& u[j].visible == t[j].visible
            &&& u[j].parent_visible == t[j].parent_visible
            &&& u[j].parent == t[j].parent
            &&& u[j].own == t[j].own
            &&& u[j].attached == t[j].attached
            &&& u[j].permanent == t[j].permanent
            &&& u[j].removable == t[j].removable
            &&& u[j].register == t[j].register
        },
    ensures
        wf(u),
{
    assert forall|x: int| 0 < x < u.len() implies #[trigger] node_ok(u, x) by {
        assert(node_ok(t, x));
        assert(u[x].name == t[x].name);
        assert(u[t[x].parent as int].name == t[t[x].parent as int].name);
    }
    assert forall|q: int| 0 <= q < u.len() implies #[trigger] children_ok(u, q) by {
        assert(children_ok(t, q));
        assert(u[q].name == t[q].name);
        assert forall|i: int| 0 <= i < t.len() implies #[trigger] u[i].parent == t[i].parent
            && u[i].own == t[i].own by {
            assert(u[i].name == t[i].name);
        }
    }
    assert(u[0].name == t[0].name);
}

pub proof fn lemma_child_below(t: Seq<BranchView>, p: usize, i: usize)
    requires
        wf(t),
        p < t.len(),
        i < t[p as int].permanent.len(),
    ensures
        t[p as int].permanent[i as int] < t.len(),
{
    assert(children_ok(t, p as int));
}

pub proof fn lemma_slot_below(t: Seq<BranchView>, p: usize, k: usize)
    requires
        wf(t),
        p < t.len(),
        k < t[p as int].removable.len(),
        t[p as int].removable[k as int] is Some,
    ensures
        t[p as int].removable[k as int]->0 < t.len(),
{
    assert(children_ok(t, p as int));
}

/// Taking a removable child out with its subtree keeps the tree well formed.
pub proof fn lemma_detach_wf_pub(t: Seq<BranchView>, p: usize, k: usize, c: usize)
    requires
        wf(t),
        t.len() <= usize::MAX,
        is_node(t, p),
        k < t[p as int].removable.len(),
        t[p as int].removable[k as int] == Some(c),
    ensures
        wf(without_subtree(t, p, k, c)),
        p < c < t.len(),
{
    lemma_detach_wf(t, p, k, c);
}

proof fn lemma_detach_wf(t: Seq<BranchView>, p: usize, k: usize, c: usize)
    requires
        wf(t),
        t.len() <= usize::MAX,
        is_node(t, p),
        k < t[p as int].removable.len(),
        t[p as int].removable[k as int] == Some(c),
    ensures
        wf(without_subtree(t, p, k, c)),
        p < c < t.len(),
{
    let t2 = without_subtree(t, p, k, c);
    assert(children_ok(t, p as int));
    assert(node_ok(t, c as int));
    assert(!descends(t, 0, c as int));
    assert forall|x: int| 0 < x < t2.len() implies #[trigger] node_ok(t2, x) by {
        assert(node_ok(t, x));
        let q = t[x].parent as int;
        assert(children_ok(t, q));
        assert(t2[x].attached == (t[x].attached && !descends(t, x, c as int)));
        assert(t2[q].attached == (t[q].attached && !descends(t, q, c as int)));
        assert(display_path(t2[q]) == display_path(t[q]));
        assert(t2[x].parent == t[x].parent && t2[x].own == t[x].own && t2[x].depth == t[x].depth);
        assert(t2[x].path == t[x].path && t2[x].parent_visible == t[x].parent_visible);
        assert(effective(t2[q]) == effective(t[q]));
        if descends(t, x, c as int) {
            if x != c {
                assert(descends(t, q, c as int));
            } else {
                assert(q == p as int);
                assert(t2[q].removable[k as int] is None);
                assert(child_at(t2[q], t2[x].own) is None);
            }
            assert(!t2[x].attached);
            assert(t2[x].attached == (t2[q].attached && child_at(t2[q], t2[x].own) == Some(x as usize)));
        } else {
            assert(!descends(t, q, c as int));
            assert(x != c as int) by {
                if x == c as int {
                    assert(descends(t, x, c as int));
                }
            }
            if q == p as int {
                match t[x].own {
                    Address::Removable(j) => {
                        if j == k {
                            assert(child_at(t[q], t[x].own) == Some(c));
                        } else {
                            assert(child_at(t2[q], t[x].own) == child_at(t[q], t[x].own));
                        }
                    },
                    Address::Permanent(i) => {
                        assert(child_at(t2[q], t[x].own) == child_at(t[q], t[x].own));
                    },
                }
            } else {
                assert(t2[q].removable == t[q].removable);
                assert(t2[q].permanent == t[q].permanent);
            }
            assert(t2[x].attached == (t2[q].attached && child_at(t2[q], t2[x].own) == Some(x as usize)));
        }
    }
    assert forall|q: int| 0 <= q < t2.len() implies #[trigger] children_ok(t2, q) by {
        assert(children_ok(t, q));
        if q == p {
            let b = t2[q];
            assert forall|j: int| #![trigger b.removable[j]]
                0 <= j < b.removable.len() && b.removable[j] is Some implies {
                    let x = b.removable[j]->0 as int;
                    &&& 0 < x < t2.len()
                    &&& t2[x].parent == q
                    &&& t2[x].own == Address::Removable(j as usize)
                } by {
                assert(t[q].removable[j] == b.removable[j]);
            }
            assert forall|i: int| #![trigger b.permanent[i]]
                0 <= i < b.permanent.len() implies {
                    let x = b.permanent[i] as int;
                    &&& 0 < x < t2.len()
                    &&& t2[x].parent == q
                    &&& t2[x].own == Address::Permanent(i as usize)
                } by {
                assert(t[q].permanent[i] == b.permanent[i]);
            }
        }
    }
}

proof fn lemma_add_child_wf(t: Seq<BranchView>, p: usize, own: Address, id: usize, f: BranchView)
    requires
        wf(t),
        is_node(t, p),
        id == t.len(),
        f.parent == p,
        f.own == own,
        f.depth == t[p as int].depth + 1,
        f.path == display_path(t[p as int]),
        f.attached,
        f.parent_visible == effective(t[p as int]),
        f.permanent.len() == 0,
        f.removable.len() == 0,
        f.register.len() == 0,
        own is Permanent ==> own->Permanent_0 == t[p as int].permanent.len(),
        own is Removable ==> is_first_free(t[p as int].removable, own->Removable_0 as nat),
    ensures
        wf(t.update(p as int, with_child(t[p as int], own, id)).push(f)),
{
    let t2 = t.update(p as int, with_child(t[p as int], own, id)).push(f);
    if p > 0 {
        assert(node_ok(t, p as int));
    }
    assert(t[p as int].depth <= p);
    assert forall|c: int| 0 < c < t2.len() implies #[trigger] node_ok(t2, c) by {
        if c < t.len() {
            assert(node_ok(t, c));
            let q = t[c].parent as int;
            assert(children_ok(t, q));
            if q == p && t[c].attached {
                match t[c].own {
                    Address::Permanent(i) => {},
                    Address::Removable(k) => {},
                }
            }
        }
    }
    assert forall|q: int| 0 <= q < t2.len() implies #[trigger] children_ok(t2, q) by {
        if q < t.len() {
            assert(children_ok(t, q));
            if q == p {
                let b = t2[q];
                assert forall|i: int| #![trigger b.permanent[i]]
                    0 <= i < b.permanent.len() implies {
                        let c = b.permanent[i] as int;
                        &&& 0 < c < t2.len()
                        &&& t2[c].parent == q
                        &&& t2[c].own == Address::Permanent(i as usize)
                    } by {
                    if i < t[q].permanent.len() {
                        assert(t[q].permanent[i] == b.permanent[i]);
                    }
                }
                assert forall|k: int| #![trigger b.removable[k]]
                    0 <= k < b.removable.len() && b.removable[k] is Some implies {
                        let c = b.removable[k]->0 as int;
                        &&& 0 < c < t2.len()
                        &&& t2[c].parent == q
                        &&& t2[c].own == Address::Removable(k as usize)
                    } by {
                    if own is Removable && k == own->Removable_0 {
                    } else {
                        assert(t[q].removable[k] == b.removable[k]);
                    }
                }
            }
        }
    }
}

} // verus!
