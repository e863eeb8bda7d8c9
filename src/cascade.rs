use vstd::prelude::*;
use crate::layout::{Container, Rect, place};
use crate::tree::{BranchView, Hierarchy, children_ok, descends, effective, is_node, node_ok, wf};

verus! {

/// The rectangle of the whole surface.
pub open spec fn surface(width: u32, height: u32) -> Rect {
    Rect { x: 0, y: 0, width, height }
}

/// The rectangle a layout pass gives node `id` when the root receives
/// `outer`: each node places its layout inside its parent's rectangle.
pub open spec fn layout_rect(t: Seq<BranchView>, id: int, outer: Rect) -> Rect
    decreases id,
{
    if id > 0 && t[id].parent < id {
        place(t[id].container.layout, layout_rect(t, t[id].parent as int, outer))
    } else {
        place(t[0].container.layout, outer)
    }
}

/// The tree after a layout pass from `outer`: every node of the tree holds
/// its rectangle; detached nodes keep theirs.
pub open spec fn laid_out(t: Seq<BranchView>, outer: Rect) -> Seq<BranchView> {
    Seq::new(
        t.len(),
        |id: int|
            if t[id].attached {
                BranchView {
                    container: Container { position: layout_rect(t, id, outer), ..t[id].container },
                    ..t[id]
                }
            } else {
                t[id]
            },
    )
}

/// The same layouts and parents give the same rectangles.
pub proof fn lemma_layout_rect_depends_on_layouts(t: Seq<BranchView>, u: Seq<BranchView>, id: int, outer: Rect)
    requires
        t.len() == u.len(),
        0 <= id < t.len(),
        forall|j: int| 0 <= j < t.len() ==> #[trigger] t[j].parent == u[j].parent && t[j].container.layout == u[j].container.layout,
    ensures
        layout_rect(t, id, outer) == layout_rect(u, id, outer),
    decreases id,
{
    assert(t[id].parent == u[id].parent);
    if id > 0 && t[id].parent < id {
        lemma_layout_rect_depends_on_layouts(t, u, t[id].parent as int, outer);
    }
    assert(t[0].parent == u[0].parent);
}

/// Effective visibility of `id` once `node` has own visibility `v` and the
/// change has been pushed down its subtree.
pub open spec fn pushed_effective(t: Seq<BranchView>, node: int, v: bool, id: int) -> bool
    decreases id,
{
    if id == node {
        v && t[node].parent_visible
    } else if id > node && t[id].parent < id {
        t[id].visible && pushed_effective(t, node, v, t[id].parent as int)
    } else {
        effective(t[id])
    }
}

/// The tree after `node` got own visibility `v` and every node below it
/// received its parent's new effective visibility.
pub open spec fn with_visibility(t: Seq<BranchView>, node: usize, v: bool) -> Seq<BranchView> {
    Seq::new(
        t.len(),
        |id: int|
            if id == node {
                BranchView { visible: v, ..t[id] }
            } else if t[id].attached && descends(t, id, node as int) {
                BranchView {
                    parent_visible: pushed_effective(t, node as int, v, t[id].parent as int),
                    ..t[id]
                }
            } else {
                t[id]
            },
    )
}

pub proof fn lemma_with_visibility_wf(t: Seq<BranchView>, node: usize, v: bool)
    requires
        wf(t),
        is_node(t, node),
    ensures
        wf(with_visibility(t, node, v)),
{
    let u = with_visibility(t, node, v);
    assert forall|x: int| 0 < x < u.len() implies #[trigger] node_ok(u, x) by {
        assert(node_ok(t, x));
        let q = t[x].parent as int;
        assert(u[x].parent == t[x].parent && u[x].own == t[x].own && u[x].attached == t[x].attached);
        assert(u[q].attached == t[q].attached && u[q].permanent == t[q].permanent && u[q].removable == t[q].removable);
        assert(display_path_same(t[q], u[q]));
        if x == node {
            assert(!descends(t, q, node as int));
        } else if t[x].attached && descends(t, x, node as int) {
            if q != node {
                assert(descends(t, q, node as int));
                assert(u[q].parent_visible == pushed_effective(t, node as int, v, t[q].parent as int));
            }
        } else if t[x].attached {
            assert(!descends(t, q, node as int));
            assert(q != node);
        }
    }
    assert forall|q: int| 0 <= q < u.len() implies #[trigger] children_ok(u, q) by {
        assert(children_ok(t, q));
        assert(u[q].permanent == t[q].permanent);
        assert(u[q].removable == t[q].removable);
        assert(u[q].register == t[q].register);
        assert forall|i: int| 0 <= i < t.len() implies #[trigger] u[i].parent == t[i].parent
            && u[i].own == t[i].own by {}
    }
}

pub open spec fn display_path_same(a: BranchView, b: BranchView) -> bool {
    a.depth == b.depth && a.path == b.path && a.name == b.name
}

/// Below `node`, a change of own visibility that leaves its effective
/// visibility as it was changes no effective visibility.
pub proof fn lemma_pushed_unchanged(t: Seq<BranchView>, node: usize, v: bool, x: int)
    requires
        wf(t),
        is_node(t, node),
        (v && t[node as int].parent_visible) == effective(t[node as int]),
        0 <= x < t.len(),
        t[x].attached,
        descends(t, x, node as int),
    ensures
        pushed_effective(t, node as int, v, x) == effective(t[x]),
    decreases x,
{
    if x != node {
        assert(node_ok(t, x));
        lemma_pushed_unchanged(t, node, v, t[x].parent as int);
    }
}

/// Setting a node's own visibility to a value that keeps its effective
/// visibility changes nothing else in the tree.
pub proof fn lemma_visibility_idempotent(t: Seq<BranchView>, node: usize, v: bool)
    requires
        wf(t),
        is_node(t, node),
        (v && t[node as int].parent_visible) == effective(t[node as int]),
    ensures
        with_visibility(t, node, v) == t.update(node as int, BranchView { visible: v, ..t[node as int] }),
{
    let u = with_visibility(t, node, v);
    let w = t.update(node as int, BranchView { visible: v, ..t[node as int] });
    assert forall|x: int| 0 <= x < t.len() implies #[trigger] u[x] == w[x] by {
        if x != node && t[x].attached && descends(t, x, node as int) {
            assert(node_ok(t, x));
            let q = t[x].parent as int;
            if q != node {
                assert(descends(t, q, node as int));
            }
            lemma_pushed_unchanged(t, node, v, q);
        }
    }
    assert(u =~= w);
}

impl Hierarchy {
    /// Sets the own visibility of `node`. Where that changes its effective
    /// visibility, every node below it receives its parent's new effective
    /// visibility.
    pub fn set_visibility(&mut self, node: usize, visible: bool)
        requires
            wf(old(self)@),
            is_node(old(self)@, node),
        ensures
            wf(final(self)@),
            final(self).spec_width() == old(self).spec_width(),
            final(self).spec_height() == old(self).spec_height(),
            final(self).payloads() == old(self).payloads(),
            final(self)@ == with_visibility(old(self)@, node, visible),
    {
        let ghost t = self@;
        let before = self.branch(node).is_visible();
        self.set_own_visibility(node, visible);
        let after = self.branch(node).is_visible();
        proof {
            lemma_with_visibility_wf(t, node, visible);
        }
        if before != after {
            self.push_visibility(node, visible, Ghost(t));
        } else {
            proof {
                lemma_visibility_idempotent(t, node, visible);
            }
        }
    }

    /// Sets the size of the surface.
    pub fn set_size(&mut self, width: u32, height: u32)
        ensures
            final(self)@ == old(self)@,
            final(self).spec_width() == width,
            final(self).spec_height() == height,
            final(self).payloads() == old(self).payloads(),
    {
        self.set_surface(width, height);
    }

    /// Current surface width.
    pub fn width(&self) -> (r: u32)
        ensures
            r == self.spec_width(),
    {
        self.surface_width()
    }

    /// Current surface height.
    pub fn height(&self) -> (r: u32)
        ensures
            r == self.spec_height(),
    {
        self.surface_height()
    }

    /// Runs a layout pass over the whole tree from the current surface size.
    pub fn update(&mut self)
        requires
            wf(old(self)@),
        ensures
            wf(final(self)@),
            final(self).spec_width() == old(self).spec_width(),
            final(self).spec_height() == old(self).spec_height(),
            final(self).payloads() == old(self).payloads(),
            final(self)@ == laid_out(old(self)@, surface(old(self).spec_width(), old(self).spec_height())),
    {
        let outer = Rect { x: 0, y: 0, width: self.surface_width(), height: self.surface_height() };
        self.lay_out(outer);
    }
}

/// Sets the surface size of `hierarchy` and runs a layout pass.
pub fn hierarchy_update(hierarchy: &mut Hierarchy, width: u32, height: u32)
    requires
        wf(old(hierarchy)@),
    ensures
        wf(final(hierarchy)@),
        final(hierarchy).spec_width() == width,
        final(hierarchy).spec_height() == height,
        final(hierarchy).payloads() == old(hierarchy).payloads(),
        final(hierarchy)@ == laid_out(old(hierarchy)@, surface(width, height)),
{
    hierarchy.set_size(width, height);
    hierarchy.update();
}

} // verus!
