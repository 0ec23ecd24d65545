use vstd::prelude::*;

verus! {

/// One of the four ways a shape can be turned before it is placed.
#[derive(Clone, Copy, Debug, PartialEq, Eq, Structural)]
pub enum Transformation {
    Identity,
    RotateLeft,
    RotateRight,
    Reflect,
}

/// Where the point `p` of a `w` by `h` box lands under `t`.
pub open spec fn transformed(p: (int, int), w: int, h: int, t: Transformation) -> (int, int) {
    match t {
        Transformation::Identity => p,
        Transformation::RotateRight => (h - p.1 - 1, p.0),
        Transformation::Reflect => (w - p.0 - 1, h - p.1 - 1),
        Transformation::RotateLeft => (p.1, w - p.0 - 1),
    }
}

/// The size of the box once `t` has turned a `w` by `h` box: a quarter turn swaps the sides.
pub open spec fn turned_box(w: int, h: int, t: Transformation) -> (int, int) {
    match t {
        Transformation::RotateLeft | Transformation::RotateRight => (h, w),
        _ => (w, h),
    }
}

impl Transformation {
    /// The transformation for a draw that fell into the given quarter of a uniform range:
    /// the first quarter keeps the shape, then a left turn, a right turn and a reflection.
    pub fn random(quartile: u32) -> (t: Transformation)
        requires
            quartile < 4,
        ensures
            quartile == 0 ==> t == Transformation::Identity,
            quartile == 1 ==> t == Transformation::RotateLeft,
            quartile == 2 ==> t == Transformation::RotateRight,
            quartile == 3 ==> t == Transformation::Reflect,
    {
        if quartile == 0 {
            Transformation::Identity
        } else if quartile == 1 {
            Transformation::RotateLeft
        } else if quartile == 2 {
            Transformation::RotateRight
        } else {
            Transformation::Reflect
        }
    }
}

/// Maps the point `p` of a `w` by `h` box through `t`; the result lies in the turned box.
pub fn transform(p: (u32, u32), w: u32, h: u32, t: Transformation) -> (r: (u32, u32))
    requires
        p.0 < w,
        p.1 < h,
    ensures
        (r.0 as int, r.1 as int) == transformed((p.0 as int, p.1 as int), w as int, h as int, t),
        (r.0 as int) < turned_box(w as int, h as int, t).0,
        (r.1 as int) < turned_box(w as int, h as int, t).1,
{
    let (x, y) = p;
    match t {
        Transformation::Identity => (x, y),
        Transformation::RotateRight => (h - y - 1, x),
        Transformation::Reflect => (w - x - 1, h - 1 - y),
        Transformation::RotateLeft => (y, w - x - 1),
    }
}

/// A left turn undoes a right turn and the other way round, once the box is turned with
/// the shape, and a reflection undoes itself. On a square box the box stays as it is.
pub proof fn lemma_transform_inverse(p: (u32, u32), w: u32, h: u32)
    requires
        p.0 < w,
        p.1 < h,
    ensures
        ({
            let q = (p.0 as int, p.1 as int);
            let (w, h) = (w as int, h as int);
            &&& transformed(transformed(q, w, h, Transformation::RotateLeft), h, w, Transformation::RotateRight) == q
            &&& transformed(transformed(q, w, h, Transformation::RotateRight), h, w, Transformation::RotateLeft) == q
            &&& transformed(transformed(q, w, h, Transformation::Reflect), w, h, Transformation::Reflect) == q
            &&& w == h ==> transformed(transformed(q, w, h, Transformation::RotateLeft), w, h, Transformation::RotateRight) == q
            &&& w == h ==> transformed(transformed(q, w, h, Transformation::RotateRight), w, h, Transformation::RotateLeft) == q
        }),
{
}

/// Each transformation maps the box one to one onto the turned box.
pub proof fn lemma_transform_bijective(p: (u32, u32), q: (u32, u32), w: u32, h: u32, t: Transformation)
    requires
        p.0 < w,
        p.1 < h,
        q.0 < w,
        q.1 < h,
    ensures
        transformed((p.0 as int, p.1 as int), w as int, h as int, t) == transformed(
            (q.0 as int, q.1 as int),
            w as int,
            h as int,
            t,
        ) ==> p == q,
        ({
            let r = transformed((p.0 as int, p.1 as int), w as int, h as int, t);
            &&& 0 <= r.0 < turned_box(w as int, h as int, t).0
            &&& 0 <= r.1 < turned_box(w as int, h as int, t).1
        }),
{
}

/// The five cells of a glider inside its three by three box.
pub const GLIDER: [(u32, u32); 5] = [(0, 0), (1, 0), (0, 1), (2, 1), (0, 2)];

} // verus!
