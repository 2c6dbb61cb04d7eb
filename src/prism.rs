use vstd::prelude::*;

verus! {

/// One face of an axis-aligned box, as a parallelogram built from the box's
/// two opposite corners: its start corner takes, on each axis, the maximum
/// (`true`) or the minimum (`false`); its two edges each run the box's full
/// extent along one axis, in the negative direction where marked.
pub struct PrismFace {
    pub corner: [bool; 3],
    pub u_axis: usize,
    pub u_negative: bool,
    pub v_axis: usize,
    pub v_negative: bool,
}

/// The sign of the cross product of the unit vectors along axes `a` and `b`
/// on the third axis: 1 for x×y, y×z, z×x, -1 the other way round.
pub open spec fn cross_sign(a: usize, b: usize) -> int {
    if b == (a + 1) % 3 {
        1
    } else if a == (b + 1) % 3 {
        -1
    } else {
        0
    }
}

pub open spec fn sign(negative: bool) -> int {
    if negative {
        -1
    } else {
        1
    }
}

impl PrismFace {
    /// The edges run along two different axes.
    pub open spec fn wf(self) -> bool {
        self.u_axis < 3 && self.v_axis < 3 && self.u_axis != self.v_axis
    }

    /// The axis the face is perpendicular to.
    pub open spec fn normal_axis(self) -> usize {
        (3 - self.u_axis - self.v_axis) as usize
    }

    /// Whether the face lies on the maximum side of the box.
    pub open spec fn on_max_side(self) -> bool {
        self.corner[self.normal_axis() as int]
    }

    /// The sign of `u × v` along the normal axis.
    pub open spec fn normal_sign(self) -> int {
        sign(self.u_negative) * sign(self.v_negative) * cross_sign(self.u_axis, self.v_axis)
    }

    /// Each edge starts on the side of the box it runs away from, so the face
    /// covers the box's whole side.
    pub open spec fn spans_side(self) -> bool {
        self.corner[self.u_axis as int] == self.u_negative && self.corner[self.v_axis as int] == self.v_negative
    }

    /// `u × v` points out of the box.
    pub open spec fn faces_outward(self) -> bool {
        self.normal_sign() == if self.on_max_side() { 1int } else { -1int }
    }
}

/// Some face of `faces` lies on the given side of `axis`.
pub open spec fn has_face(faces: Seq<PrismFace>, axis: usize, max_side: bool) -> bool {
    exists|f: int| 0 <= f < faces.len() && (#[trigger] faces[f]).normal_axis() == axis && faces[f].on_max_side() == max_side
}

/// The six faces of a box: one on each side of each axis, each covering its
/// side, each with `u × v` pointing out of the box.
pub fn prism_faces() -> (r: Vec<PrismFace>)
    ensures
        r@.len() == 6,
        forall|f: int| 0 <= f < 6 ==> (#[trigger] r@[f]).wf() && r@[f].spans_side() && r@[f].faces_outward(),
        forall|axis: usize, max_side: bool| axis < 3 ==> #[trigger] has_face(r@, axis, max_side),
        forall|f: int, g: int|
            0 <= f < 6 && 0 <= g < 6 && f != g ==> !((#[trigger] r@[f]).normal_axis() == (#[trigger] r@[g]).normal_axis()
                && r@[f].on_max_side() == r@[g].on_max_side()),
{
    let faces = vec![
        // front, z at its maximum
        PrismFace { corner: [false, false, true], u_axis: 0, u_negative: false, v_axis: 1, v_negative: false },
        // right, x at its maximum
        PrismFace { corner: [true, false, true], u_axis: 2, u_negative: true, v_axis: 1, v_negative: false },
        // back, z at its minimum
        PrismFace { corner: [true, false, false], u_axis: 0, u_negative: true, v_axis: 1, v_negative: false },
        // left, x at its minimum
        PrismFace { corner: [false, false, false], u_axis: 2, u_negative: false, v_axis: 1, v_negative: false },
        // top, y at its maximum
        PrismFace { corner: [false, true, true], u_axis: 0, u_negative: false, v_axis: 2, v_negative: true },
        // bottom, y at its minimum
        PrismFace { corner: [false, false, false], u_axis: 0, u_negative: false, v_axis: 2, v_negative: false },
    ];
    assert(faces@[0].normal_axis() == 2 && faces@[0].on_max_side());
    assert(faces@[1].normal_axis() == 0 && faces@[1].on_max_side());
    assert(faces@[2].normal_axis() == 2 && !faces@[2].on_max_side());
    assert(faces@[3].normal_axis() == 0 && !faces@[3].on_max_side());
    assert(faces@[4].normal_axis() == 1 && faces@[4].on_max_side());
    assert(faces@[5].normal_axis() == 1 && !faces@[5].on_max_side());
    assert forall|axis: usize, max_side: bool| axis < 3 implies #[trigger] has_face(faces@, axis, max_side) by {
        let f: int = if axis == 2 {
            if max_side { 0 } else { 2 }
        } else if axis == 0 {
            if max_side { 1 } else { 3 }
        } else {
            if max_side { 4 } else { 5 }
        };
        assert(faces@[f].normal_axis() == axis && faces@[f].on_max_side() == max_side);
    }
    faces
}

} // verus!
