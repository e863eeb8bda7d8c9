use vstd::prelude::*;

verus! {

/// An axis-aligned rectangle in surface units.
#[derive(Clone, Copy, Debug, PartialEq, Eq, Structural)]
pub struct Rect {
    pub x: u32,
    pub y: u32,
    pub width: u32,
    pub height: u32,
}

/// Where a node sits inside its parent's rectangle: the corners, in percent
/// of the parent's extent on each axis. Values above 100 count as 100, and a
/// far edge before the near edge counts as the near edge.
#[derive(Clone, Copy, Debug, PartialEq, Eq, Structural)]
pub struct PositionLayout {
    pub left: u32,
    pub top: u32,
    pub right: u32,
    pub bottom: u32,
}

/// A node's layout together with the rectangle it last computed.
#[derive(Clone, Copy, Debug, PartialEq, Eq, Structural)]
pub struct Container {
    pub layout: PositionLayout,
    pub position: Rect,
}

/// The rectangle stays on a surface addressed by `u32` coordinates.
pub open spec fn fits(r: Rect) -> bool {
    r.x + r.width <= u32::MAX && r.y + r.height <= u32::MAX
}

pub open spec fn percent(v: u32) -> nat {
    if v > 100 {
        100
    } else {
        v as nat
    }
}

pub open spec fn far_percent(near: u32, far: u32) -> nat {
    if percent(far) < percent(near) {
        percent(near)
    } else {
        percent(far)
    }
}

/// Start and length of the part of `[origin, origin + extent)` that runs from
/// `near` to `far` percent.
pub open spec fn span(origin: nat, extent: nat, near: u32, far: u32) -> (nat, nat) {
    let a = extent * percent(near) / 100;
    let b = extent * far_percent(near, far) / 100;
    (origin + a, (b - a) as nat)
}

/// The rectangle that `layout` takes inside `outer`.
pub open spec fn place(layout: PositionLayout, outer: Rect) -> Rect {
    let h = span(outer.x as nat, outer.width as nat, layout.left, layout.right);
    let v = span(outer.y as nat, outer.height as nat, layout.top, layout.bottom);
    Rect { x: h.0 as u32, y: v.0 as u32, width: h.1 as u32, height: v.1 as u32 }
}

fn clamp_percent(v: u32) -> (r: u64)
    ensures
        r as nat == percent(v),
{
    if v > 100 {
        100
    } else {
        v as u64
    }
}

fn span_exec(origin: u32, extent: u32, near: u32, far: u32) -> (r: (u32, u32))
    requires
        origin + extent <= u32::MAX,
    ensures
        r.0 as nat == span(origin as nat, extent as nat, near, far).0,
        r.1 as nat == span(origin as nat, extent as nat, near, far).1,
        r.0 + r.1 <= origin + extent,
{
    let n = clamp_percent(near);
    let mut f = clamp_percent(far);
    if f < n {
        f = n;
    }
    let e = extent as u64;
    assert(e * n <= e * 100 && e * f <= e * 100 && e * n <= e * f) by (nonlinear_arith)
        requires
            n <= f,
            f <= 100,
    ;
    let a = e * n / 100;
    let b = e * f / 100;
    assert(a <= b && b <= e) by (nonlinear_arith)
        requires
            e * n <= e * f,
            e * f <= e * 100,
            a == e * n / 100,
            b == e * f / 100,
    ;
    ((origin as u64 + a) as u32, (b - a) as u32)
}

impl PositionLayout {
    pub open spec fn full_spec() -> PositionLayout {
        PositionLayout { left: 0, top: 0, right: 100, bottom: 100 }
    }

    /// The layout that covers the whole of its parent.
    pub fn full() -> (r: PositionLayout)
        ensures
            r == PositionLayout::full_spec(),
    {
        PositionLayout { left: 0, top: 0, right: 100, bottom: 100 }
    }

    /// The rectangle that this layout takes inside `outer`.
    pub fn place(&self, outer: Rect) -> (r: Rect)
        requires
            fits(outer),
        ensures
            r == place(*self, outer),
            fits(r),
            outer.x <= r.x,
            r.x + r.width <= outer.x + outer.width,
            outer.y <= r.y,
            r.y + r.height <= outer.y + outer.height,
    {
        let h = span_exec(outer.x, outer.width, self.left, self.right);
        let v = span_exec(outer.y, outer.height, self.top, self.bottom);
        Rect { x: h.0, y: v.0, width: h.1, height: v.1 }
    }
}

impl Container {
    pub open spec fn new_spec() -> Container {
        Container {
            layout: PositionLayout { left: 0, top: 0, right: 100, bottom: 100 },
            position: Rect { x: 0, y: 0, width: 0, height: 0 },
        }
    }

    /// A container that covers its parent and has not been laid out yet.
    pub fn new() -> (r: Container)
        ensures
            r == Container::new_spec(),
    {
        Container { layout: PositionLayout::full(), position: Rect { x: 0, y: 0, width: 0, height: 0 } }
    }
}

} // verus!
