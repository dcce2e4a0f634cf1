//! Triangle indices of the built-in 3D shapes. Vertex positions, normals
//! and texture coordinates are floating point and are made beside these by
//! the renderer; the indices below name those vertices by their position in
//! the vertex list.
use vstd::prelude::*;

verus! {

/// Two triangles over the quad `a, b, c, d` (counter-clockwise), as the
/// shapes lay them out: `a, b, c` and `a, c, d`.
pub open spec fn quad_fan(a: int, b: int, c: int, d: int) -> Seq<u32> {
    seq![a as u32, b as u32, c as u32, a as u32, c as u32, d as u32]
}

// ── Plane and cube ─────────────────────────────────────────────────────

/// Indices of the unit plane: one quad over its four vertices.
pub fn plane_indices() -> (r: Vec<u32>)
    ensures
        r@ == quad_fan(0, 1, 2, 3),
        r@ == seq![0u32, 1, 2, 0, 2, 3],
{
    let r = vec![0u32, 1, 2, 0, 2, 3];
    assert(r@ =~= quad_fan(0, 1, 2, 3));
    r
}

/// Indices of the first `faces` faces of the cube, each face a quad over
/// its own four vertices.
pub open spec fn cube_faces(faces: nat) -> Seq<u32>
    decreases faces,
{
    if faces == 0 {
        Seq::empty()
    } else {
        let b = 4 * (faces - 1);
        cube_faces((faces - 1) as nat) + quad_fan(b, b + 1, b + 2, b + 3)
    }
}

/// Indices of the unit cube: six faces of four vertices each.
pub fn cube_indices() -> (r: Vec<u32>)
    ensures
        r@ == cube_faces(6),
        r@.len() == 36,
        forall|f: int|
            0 <= f < 6 ==> {
                &&& #[trigger] r@[6 * f] == 4 * f
                &&& r@[6 * f + 1] == 4 * f + 1
                &&& r@[6 * f + 2] == 4 * f + 2
                &&& r@[6 * f + 3] == 4 * f
                &&& r@[6 * f + 4] == 4 * f + 2
                &&& r@[6 * f + 5] == 4 * f + 3
            },
{
    proof {
        law_cube_faces_wind_like_the_plane();
    }
    let mut r: Vec<u32> = Vec::new();
    let mut f: u32 = 0;
    while f < 6
        invariant
            f <= 6,
            r@ == cube_faces(f as nat),
        decreases 6 - f,
    {
        let b = 4 * f;
        r.push(b);
        r.push(b + 1);
        r.push(b + 2);
        r.push(b);
        r.push(b + 2);
        r.push(b + 3);
        f = f + 1;
        assert(r@ =~= cube_faces(f as nat));
    }
    r
}

/// The cube has 36 indices, each naming one of its 24 vertices.
pub proof fn law_cube_counts()
    ensures
        cube_faces(6).len() == 36,
        forall|i: int| 0 <= i < 36 ==> #[trigger] cube_faces(6)[i] < 24,
{
    lemma_cube_faces(6);
}

/// Every face of the cube is laid out like the plane, over its own four
/// vertices: face `f` is the triangles `4f, 4f+1, 4f+2` and
/// `4f, 4f+2, 4f+3`, so all six faces share the plane's counter-clockwise
/// winding.
pub proof fn law_cube_faces_wind_like_the_plane()
    ensures
        cube_faces(6).len() == 36,
        forall|f: int|
            0 <= f < 6 ==> {
                &&& #[trigger] cube_faces(6)[6 * f] == 4 * f
                &&& cube_faces(6)[6 * f + 1] == 4 * f + 1
                &&& cube_faces(6)[6 * f + 2] == 4 * f + 2
                &&& cube_faces(6)[6 * f + 3] == 4 * f
                &&& cube_faces(6)[6 * f + 4] == 4 * f + 2
                &&& cube_faces(6)[6 * f + 5] == 4 * f + 3
            },
{
    lemma_cube_faces_layout(6);
    assert forall|f: int| 0 <= f < 6 implies {
        &&& #[trigger] cube_faces(6)[6 * f] == 4 * f
        &&& cube_faces(6)[6 * f + 1] == 4 * f + 1
        &&& cube_faces(6)[6 * f + 2] == 4 * f + 2
        &&& cube_faces(6)[6 * f + 3] == 4 * f
        &&& cube_faces(6)[6 * f + 4] == 4 * f + 2
        &&& cube_faces(6)[6 * f + 5] == 4 * f + 3
    } by {
        let p = seq![0int, 1, 2, 0, 2, 3];
        assert(cube_faces(6)[6 * f + 0] == 4 * f + p[0]);
        assert(cube_faces(6)[6 * f + 1] == 4 * f + p[1]);
        assert(cube_faces(6)[6 * f + 2] == 4 * f + p[2]);
        assert(cube_faces(6)[6 * f + 3] == 4 * f + p[3]);
        assert(cube_faces(6)[6 * f + 4] == 4 * f + p[4]);
        assert(cube_faces(6)[6 * f + 5] == 4 * f + p[5]);
    }
}

proof fn lemma_cube_faces_layout(faces: nat)
    requires
        faces <= 6,
    ensures
        cube_faces(faces).len() == 6 * faces,
        forall|f: int, j: int|
            0 <= f < faces && 0 <= j < 6 ==> #[trigger] cube_faces(faces)[6 * f + j] == 4 * f + seq![
                0int,
                1,
                2,
                0,
                2,
                3,
            ][j],
    decreases faces,
{
    if faces > 0 {
        lemma_cube_faces_layout((faces - 1) as nat);
        let prev = cube_faces((faces - 1) as nat);
        let b = 4 * (faces - 1);
        assert forall|f: int, j: int|
            0 <= f < faces && 0 <= j < 6 implies #[trigger] cube_faces(faces)[6 * f + j] == 4 * f + seq![
                0int,
                1,
                2,
                0,
                2,
                3,
            ][j] by {
            if f < faces - 1 {
                assert(cube_faces(faces)[6 * f + j] == prev[6 * f + j]);
            } else {
                assert(cube_faces(faces)[6 * f + j] == quad_fan(b, b + 1, b + 2, b + 3)[j]);
            }
        }
    }
}

proof fn lemma_cube_faces(faces: nat)
    requires
        faces <= 6,
    ensures
        cube_faces(faces).len() == 6 * faces,
        forall|i: int| 0 <= i < 6 * faces ==> #[trigger] cube_faces(faces)[i] < 4 * faces,
    decreases faces,
{
    if faces > 0 {
        lemma_cube_faces((faces - 1) as nat);
        let b = 4 * (faces - 1);
        let prev = cube_faces((faces - 1) as nat);
        assert forall|i: int| 0 <= i < 6 * faces implies #[trigger] cube_faces(faces)[i] < 4 * faces by {
            if i < 6 * (faces - 1) {
                assert(cube_faces(faces)[i] == prev[i]);
            } else {
                assert(cube_faces(faces)[i] == quad_fan(b, b + 1, b + 2, b + 3)[i - 6 * (faces - 1)]);
            }
        }
    }
}

// ── Sphere ─────────────────────────────────────────────────────────────

/// Number of vertices of a UV sphere: `rings + 1` rings of `segments + 1`
/// vertices (the seam vertex repeated).
pub open spec fn sphere_vertex_count(segments: int, rings: int) -> int {
    (rings + 1) * (segments + 1)
}

/// The two triangles of the quad at `ring`, `seg`: with `c` the vertex at
/// that ring and segment and `n` the one below it,
/// `c, n, c + 1` and `c + 1, n, n + 1`.
pub open spec fn sphere_quad(segments: int, ring: int, seg: int) -> Seq<u32> {
    let c = ring * (segments + 1) + seg;
    let n = c + segments + 1;
    seq![c as u32, n as u32, (c + 1) as u32, (c + 1) as u32, n as u32, (n + 1) as u32]
}

/// The quads of the first `m` segments of one ring.
pub open spec fn sphere_strip(segments: int, ring: int, m: nat) -> Seq<u32>
    decreases m,
{
    if m == 0 {
        Seq::empty()
    } else {
        sphere_strip(segments, ring, (m - 1) as nat) + sphere_quad(segments, ring, m - 1)
    }
}

/// The indices of the first `rings` rings of quads, ring by ring.
pub open spec fn sphere_rings(segments: int, rings: nat) -> Seq<u32>
    decreases rings,
{
    if rings == 0 {
        Seq::empty()
    } else {
        sphere_rings(segments, (rings - 1) as nat) + sphere_strip(segments, rings - 1, segments as nat)
    }
}

/// Indices of a UV sphere of `segments` divisions around and `rings` from
/// pole to pole.
pub fn sphere_indices(segments: u32, rings: u32) -> (r: Vec<u32>)
    requires
        sphere_vertex_count(segments as int, rings as int) <= u32::MAX,
        rings * segments * 6 <= u32::MAX,
    ensures
        r@ == sphere_rings(segments as int, rings as nat),
{
    let mut r: Vec<u32> = Vec::new();
    let mut ring: u32 = 0;
    while ring < rings
        invariant
            ring <= rings,
            sphere_vertex_count(segments as int, rings as int) <= u32::MAX,
            r@ == sphere_rings(segments as int, ring as nat),
        decreases rings - ring,
    {
        let mut seg: u32 = 0;
        let ghost done = r@;
        while seg < segments
            invariant
                ring < rings,
                seg <= segments,
                sphere_vertex_count(segments as int, rings as int) <= u32::MAX,
                done == sphere_rings(segments as int, ring as nat),
                r@ == done + sphere_strip(segments as int, ring as int, seg as nat),
            decreases segments - seg,
        {
            proof {
                assert(ring * (segments + 1) <= (rings - 1) * (segments + 1)) by (nonlinear_arith)
                    requires
                        ring <= rings - 1,
                ;
                assert((rings - 1) * (segments + 1) + (segments + 1) == (rings + 1) * (segments + 1)
                    - (segments + 1)) by (nonlinear_arith);
            }
            let current = ring * (segments + 1) + seg;
            let next = current + segments + 1;
            r.push(current);
            r.push(next);
            r.push(current + 1);
            r.push(current + 1);
            r.push(next);
            r.push(next + 1);
            seg = seg + 1;
            assert(r@ =~= done + sphere_strip(segments as int, ring as int, seg as nat));
        }
        ring = ring + 1;
        assert(r@ =~= sphere_rings(segments as int, ring as nat));
    }
    r
}

proof fn lemma_sphere_strip(segments: int, ring: int, m: nat)
    requires
        segments >= 0,
        ring >= 0,
        m <= segments,
        (ring + 2) * (segments + 1) <= u32::MAX + 1,
    ensures
        sphere_strip(segments, ring, m).len() == 6 * m,
        forall|i: int| 0 <= i < 6 * m ==> #[trigger] sphere_strip(segments, ring, m)[i] < (ring + 2) * (
            segments + 1),
    decreases m,
{
    if m > 0 {
        lemma_sphere_strip(segments, ring, (m - 1) as nat);
        let prev = sphere_strip(segments, ring, (m - 1) as nat);
        let q = sphere_quad(segments, ring, m - 1);
        let c = ring * (segments + 1) + (m - 1);
        let n = c + segments + 1;
        assert(n + 1 < (ring + 2) * (segments + 1)) by (nonlinear_arith)
            requires
                c == ring * (segments + 1) + (m - 1),
                n == c + segments + 1,
                m <= segments,
        ;
        assert(c >= 0) by (nonlinear_arith)
            requires
                c == ring * (segments + 1) + (m - 1),
                ring >= 0,
                segments >= 0,
                m >= 1,
        ;
        assert forall|i: int| 0 <= i < 6 * m implies #[trigger] sphere_strip(segments, ring, m)[i] < (
        ring + 2) * (segments + 1) by {
            if i < 6 * (m - 1) {
                assert(sphere_strip(segments, ring, m)[i] == prev[i]);
            } else {
                assert(sphere_strip(segments, ring, m)[i] == q[i - 6 * (m - 1)]);
            }
        }
    }
}

proof fn lemma_sphere_rings(segments: int, rings: nat)
    requires
        segments >= 0,
        sphere_vertex_count(segments, rings as int) <= u32::MAX + 1,
    ensures
        sphere_rings(segments, rings).len() == 6 * rings * segments,
        forall|i: int|
            0 <= i < sphere_rings(segments, rings).len() ==> #[trigger] sphere_rings(segments, rings)[i]
                < sphere_vertex_count(segments, rings as int),
    decreases rings,
{
    if rings > 0 {
        let r1 = (rings - 1) as nat;
        assert(sphere_vertex_count(segments, r1 as int) <= sphere_vertex_count(segments, rings as int))
            by (nonlinear_arith)
            requires
                segments >= 0,
                r1 + 1 == rings,
        ;
        lemma_sphere_rings(segments, r1);
        lemma_sphere_strip(segments, r1 as int, segments as nat);
        let prev = sphere_rings(segments, r1);
        let strip = sphere_strip(segments, r1 as int, segments as nat);
        assert(6 * rings * segments == 6 * r1 * segments + 6 * segments) by (nonlinear_arith)
            requires
                r1 + 1 == rings,
        ;
        assert forall|i: int| 0 <= i < sphere_rings(segments, rings).len() implies #[trigger] sphere_rings(
            segments,
            rings,
        )[i] < sphere_vertex_count(segments, rings as int) by {
            if i < prev.len() {
                assert(sphere_rings(segments, rings)[i] == prev[i]);
            } else {
                assert(sphere_rings(segments, rings)[i] == strip[i - prev.len()]);
            }
        }
    } else {
        assert(6 * rings * segments == 0) by (nonlinear_arith)
            requires
                rings == 0,
        ;
    }
}

/// A sphere has six indices per quad, `rings * segments` quads, and every
/// index names one of its `(rings + 1) * (segments + 1)` vertices.
pub proof fn law_sphere_counts(segments: u32, rings: u32)
    requires
        sphere_vertex_count(segments as int, rings as int) <= u32::MAX,
    ensures
        sphere_rings(segments as int, rings as nat).len() == 6 * rings * segments,
        forall|i: int|
            0 <= i < sphere_rings(segments as int, rings as nat).len() ==> #[trigger] sphere_rings(
                segments as int,
                rings as nat,
            )[i] < sphere_vertex_count(segments as int, rings as int),
{
    lemma_sphere_rings(segments as int, rings as nat);
}

// ── Cylinder ───────────────────────────────────────────────────────────

/// The number of segments a cylinder is built with: at least three.
pub open spec fn cylinder_segments(segments: int) -> int {
    if segments < 3 {
        3
    } else {
        segments
    }
}

/// Number of vertices of a cylinder of `seg` segments: two side rings of
/// `seg + 1` vertices, then each cap's center and `seg` rim vertices.
pub open spec fn cylinder_vertex_count(seg: int) -> int {
    4 * (seg + 1)
}

/// The side quads of the first `m` segments: vertex `2 i` is on the top
/// ring and `2 i + 1` below it.
pub open spec fn cylinder_side(m: nat) -> Seq<u32>
    decreases m,
{
    if m == 0 {
        Seq::empty()
    } else {
        let t = 2 * (m - 1);
        cylinder_side((m - 1) as nat) + seq![
            t as u32,
            (t + 1) as u32,
            (t + 3) as u32,
            t as u32,
            (t + 3) as u32,
            (t + 2) as u32,
        ]
    }
}

/// The fan of the first `m` triangles of a cap of `seg` rim vertices whose
/// center is vertex `center` and whose rim follows it; `flip` reverses the
/// winding (the bottom cap faces down).
pub open spec fn cylinder_cap(center: int, seg: int, m: nat, flip: bool) -> Seq<u32>
    decreases m,
{
    if m == 0 {
        Seq::empty()
    } else {
        let i = m - 1;
        let curr = center + 1 + i;
        let next = center + 1 + (i + 1) % seg;
        cylinder_cap(center, seg, (m - 1) as nat, flip) + if flip {
            seq![center as u32, next as u32, curr as u32]
        } else {
            seq![center as u32, curr as u32, next as u32]
        }
    }
}

/// All indices of a cylinder of `seg` segments: the side, the top cap, the
/// bottom cap.
pub open spec fn cylinder_spec(seg: int) -> Seq<u32> {
    let top = 2 * (seg + 1);
    let bottom = top + 1 + seg;
    cylinder_side(seg as nat) + cylinder_cap(top, seg, seg as nat, false) + cylinder_cap(
        bottom,
        seg,
        seg as nat,
        true,
    )
}

fn push_cap(r: &mut Vec<u32>, center: u32, seg: u32, flip: bool)
    requires
        seg >= 3,
        center + 1 + seg <= u32::MAX,
    ensures
        final(r)@ == old(r)@ + cylinder_cap(center as int, seg as int, seg as nat, flip),
{
    let ghost start = r@;
    let mut i: u32 = 0;
    while i < seg
        invariant
            seg >= 3,
            center + 1 + seg <= u32::MAX,
            i <= seg,
            r@ == start + cylinder_cap(center as int, seg as int, i as nat, flip),
        decreases seg - i,
    {
        let curr = center + 1 + i;
        let next = center + 1 + (i + 1) % seg;
        if flip {
            r.push(center);
            r.push(next);
            r.push(curr);
        } else {
            r.push(center);
            r.push(curr);
            r.push(next);
        }
        i = i + 1;
        assert(r@ =~= start + cylinder_cap(center as int, seg as int, i as nat, flip));
    }
}

/// Indices of a cylinder of `segments` divisions (at least three are used).
pub fn cylinder_indices(segments: u32) -> (r: Vec<u32>)
    requires
        cylinder_vertex_count(cylinder_segments(segments as int)) <= u32::MAX,
    ensures
        r@ == cylinder_spec(cylinder_segments(segments as int)),
{
    let seg: u32 = if segments < 3 {
        3
    } else {
        segments
    };
    let mut r: Vec<u32> = Vec::new();
    let mut i: u32 = 0;
    while i < seg
        invariant
            i <= seg,
            cylinder_vertex_count(seg as int) <= u32::MAX,
            r@ == cylinder_side(i as nat),
        decreases seg - i,
    {
        let top0 = i * 2;
        r.push(top0);
        r.push(top0 + 1);
        r.push(top0 + 3);
        r.push(top0);
        r.push(top0 + 3);
        r.push(top0 + 2);
        i = i + 1;
        assert(r@ =~= cylinder_side(i as nat));
    }
    let top_center = 2 * (seg + 1);
    push_cap(&mut r, top_center, seg, false);
    let bot_center = top_center + 1 + seg;
    push_cap(&mut r, bot_center, seg, true);
    r
}

proof fn lemma_cylinder_side(m: nat)
    requires
        2 * m + 2 <= u32::MAX,
    ensures
        cylinder_side(m).len() == 6 * m,
        forall|i: int| 0 <= i < 6 * m ==> #[trigger] cylinder_side(m)[i] < 2 * m + 2,
    decreases m,
{
    if m > 0 {
        lemma_cylinder_side((m - 1) as nat);
        let prev = cylinder_side((m - 1) as nat);
        assert forall|i: int| 0 <= i < 6 * m implies #[trigger] cylinder_side(m)[i] < 2 * m + 2 by {
            if i < 6 * (m - 1) {
                assert(cylinder_side(m)[i] == prev[i]);
            }
        }
    }
}

proof fn lemma_cylinder_cap(center: int, seg: int, m: nat, flip: bool)
    requires
        seg >= 3,
        m <= seg,
        center >= 0,
        center + 1 + seg <= u32::MAX,
    ensures
        cylinder_cap(center, seg, m, flip).len() == 3 * m,
        forall|i: int|
            0 <= i < 3 * m ==> center <= #[trigger] cylinder_cap(center, seg, m, flip)[i] < center + 1
                + seg,
    decreases m,
{
    if m > 0 {
        lemma_cylinder_cap(center, seg, (m - 1) as nat, flip);
        let prev = cylinder_cap(center, seg, (m - 1) as nat, flip);
        let k = m - 1;
        assert(0 <= (k + 1) % seg < seg) by {
            vstd::arithmetic::div_mod::lemma_mod_bound(k + 1, seg);
        }
        assert forall|i: int| 0 <= i < 3 * m implies center <= #[trigger] cylinder_cap(
            center,
            seg,
            m,
            flip,
        )[i] < center + 1 + seg by {
            if i < 3 * (m - 1) {
                assert(cylinder_cap(center, seg, m, flip)[i] == prev[i]);
            }
        }
    }
}

/// A cylinder of `seg` segments (at least three) has six side indices and
/// three on each cap per segment, and every index names one of its
/// `4 * (seg + 1)` vertices.
pub proof fn law_cylinder_counts(segments: u32)
    requires
        cylinder_vertex_count(cylinder_segments(segments as int)) <= u32::MAX,
    ensures
        ({
            let seg = cylinder_segments(segments as int);
            &&& cylinder_spec(seg).len() == 12 * seg
            &&& forall|i: int|
                0 <= i < cylinder_spec(seg).len() ==> #[trigger] cylinder_spec(seg)[i]
                    < cylinder_vertex_count(seg)
        }),
{
    let seg = cylinder_segments(segments as int);
    let top = 2 * (seg + 1);
    let bottom = top + 1 + seg;
    lemma_cylinder_side(seg as nat);
    lemma_cylinder_cap(top, seg, seg as nat, false);
    lemma_cylinder_cap(bottom, seg, seg as nat, true);
    let a = cylinder_side(seg as nat);
    let b = cylinder_cap(top, seg, seg as nat, false);
    let c = cylinder_cap(bottom, seg, seg as nat, true);
    assert(cylinder_spec(seg) == a + b + c);
    assert forall|i: int| 0 <= i < cylinder_spec(seg).len() implies #[trigger] cylinder_spec(seg)[i]
        < cylinder_vertex_count(seg) by {
        if i < a.len() {
            assert(cylinder_spec(seg)[i] == a[i]);
        } else if i < a.len() + b.len() {
            assert(cylinder_spec(seg)[i] == b[i - a.len()]);
        } else {
            assert(cylinder_spec(seg)[i] == c[i - a.len() - b.len()]);
        }
    }
}

proof fn lemma_cylinder_side_layout(m: nat)
    requires
        2 * m + 2 <= u32::MAX,
    ensures
        cylinder_side(m).len() == 6 * m,
        forall|i: int, j: int|
            0 <= i < m && 0 <= j < 6 ==> #[trigger] cylinder_side(m)[6 * i + j] == 2 * i + seq![
                0int,
                1,
                3,
                0,
                3,
                2,
            ][j],
    decreases m,
{
    if m > 0 {
        lemma_cylinder_side_layout((m - 1) as nat);
        let prev = cylinder_side((m - 1) as nat);
        assert forall|i: int, j: int| 0 <= i < m && 0 <= j < 6 implies #[trigger] cylinder_side(m)[6 * i
            + j] == 2 * i + seq![0int, 1, 3, 0, 3, 2][j] by {
            if i < m - 1 {
                assert(cylinder_side(m)[6 * i + j] == prev[6 * i + j]);
            } else {
                let t = 2 * (m - 1);
                let last = seq![
                    t as u32,
                    (t + 1) as u32,
                    (t + 3) as u32,
                    t as u32,
                    (t + 3) as u32,
                    (t + 2) as u32,
                ];
                assert(cylinder_side(m) == prev + last);
                assert(cylinder_side(m)[6 * i + j] == last[j]);
            }
        }
    }
}

proof fn lemma_cylinder_cap_layout(center: int, seg: int, m: nat, flip: bool)
    requires
        seg >= 3,
        m <= seg,
        center >= 0,
        center + 1 + seg <= u32::MAX,
    ensures
        cylinder_cap(center, seg, m, flip).len() == 3 * m,
        forall|k: int|
            0 <= k < m ==> {
                &&& #[trigger] cylinder_cap(center, seg, m, flip)[3 * k] == center
                &&& cylinder_cap(center, seg, m, flip)[3 * k + 1] == center + 1 + if flip {
                    (k + 1) % seg
                } else {
                    k
                }
                &&& cylinder_cap(center, seg, m, flip)[3 * k + 2] == center + 1 + if flip {
                    k
                } else {
                    (k + 1) % seg
                }
            },
    decreases m,
{
    if m > 0 {
        lemma_cylinder_cap_layout(center, seg, (m - 1) as nat, flip);
        let prev = cylinder_cap(center, seg, (m - 1) as nat, flip);
        let k0 = m - 1;
        assert(0 <= (k0 + 1) % seg < seg) by {
            vstd::arithmetic::div_mod::lemma_mod_bound(k0 + 1, seg);
        }
        assert forall|k: int| 0 <= k < m implies {
            &&& #[trigger] cylinder_cap(center, seg, m, flip)[3 * k] == center
            &&& cylinder_cap(center, seg, m, flip)[3 * k + 1] == center + 1 + if flip {
                (k + 1) % seg
            } else {
                k
            }
            &&& cylinder_cap(center, seg, m, flip)[3 * k + 2] == center + 1 + if flip {
                k
            } else {
                (k + 1) % seg
            }
        } by {
            if k < m - 1 {
                assert(cylinder_cap(center, seg, m, flip)[3 * k] == prev[3 * k]);
                assert(cylinder_cap(center, seg, m, flip)[3 * k + 1] == prev[3 * k + 1]);
                assert(cylinder_cap(center, seg, m, flip)[3 * k + 2] == prev[3 * k + 2]);
            }
        }
    }
}

/// How a cylinder of `seg` segments is laid out. Side segment `i` is the
/// quad over top-ring vertices `2i`, `2i + 2` and the vertices below them,
/// as the triangles `2i, 2i+1, 2i+3` and `2i, 2i+3, 2i+2`. The top cap is a
/// fan around its center `2(seg + 1)`: triangle `k` runs from rim vertex
/// `k` to rim vertex `k + 1`, wrapping after the last. The bottom cap,
/// whose center follows the top rim, is the same fan wound the other way:
/// each of its triangles is the top cap's triangle moved by `seg + 1`
/// vertices with its last two corners swapped, so it faces down.
#[verifier::spinoff_prover]
pub proof fn law_cylinder_layout(seg: int)
    requires
        seg >= 3,
        cylinder_vertex_count(seg) <= u32::MAX,
    ensures
        cylinder_spec(seg).len() == 12 * seg,
        forall|i: int|
            0 <= i < seg ==> {
                &&& #[trigger] cylinder_spec(seg)[6 * i] == 2 * i
                &&& cylinder_spec(seg)[6 * i + 1] == 2 * i + 1
                &&& cylinder_spec(seg)[6 * i + 2] == 2 * i + 3
                &&& cylinder_spec(seg)[6 * i + 3] == 2 * i
                &&& cylinder_spec(seg)[6 * i + 4] == 2 * i + 3
                &&& cylinder_spec(seg)[6 * i + 5] == 2 * i + 2
            },
        forall|k: int|
            0 <= k < seg ==> {
                &&& #[trigger] cylinder_spec(seg)[6 * seg + 3 * k] == 2 * (seg + 1)
                &&& cylinder_spec(seg)[6 * seg + 3 * k + 1] == 2 * (seg + 1) + 1 + k
                &&& cylinder_spec(seg)[6 * seg + 3 * k + 2] == 2 * (seg + 1) + 1 + (k + 1) % seg
            },
        forall|k: int|
            0 <= k < seg ==> {
                &&& #[trigger] cylinder_spec(seg)[9 * seg + 3 * k] == cylinder_spec(seg)[6 * seg + 3 * k] + seg
                    + 1
                &&& cylinder_spec(seg)[9 * seg + 3 * k + 1] == cylinder_spec(seg)[6 * seg + 3 * k + 2] + seg
                    + 1
                &&& cylinder_spec(seg)[9 * seg + 3 * k + 2] == cylinder_spec(seg)[6 * seg + 3 * k + 1] + seg
                    + 1
            },
{
    let top = 2 * (seg + 1);
    let bottom = top + 1 + seg;
    lemma_cylinder_side_layout(seg as nat);
    lemma_cylinder_cap_layout(top, seg, seg as nat, false);
    lemma_cylinder_cap_layout(bottom, seg, seg as nat, true);
    let a = cylinder_side(seg as nat);
    let b = cylinder_cap(top, seg, seg as nat, false);
    let c = cylinder_cap(bottom, seg, seg as nat, true);
    assert(cylinder_spec(seg) == a + b + c);
    assert forall|i: int| 0 <= i < seg implies {
        &&& #[trigger] cylinder_spec(seg)[6 * i] == 2 * i
        &&& cylinder_spec(seg)[6 * i + 1] == 2 * i + 1
        &&& cylinder_spec(seg)[6 * i + 2] == 2 * i + 3
        &&& cylinder_spec(seg)[6 * i + 3] == 2 * i
        &&& cylinder_spec(seg)[6 * i + 4] == 2 * i + 3
        &&& cylinder_spec(seg)[6 * i + 5] == 2 * i + 2
    } by {
        let p = seq![0int, 1, 3, 0, 3, 2];
        assert(a[6 * i + 0] == 2 * i + p[0]);
        assert(a[6 * i + 1] == 2 * i + p[1]);
        assert(a[6 * i + 2] == 2 * i + p[2]);
        assert(a[6 * i + 3] == 2 * i + p[3]);
        assert(a[6 * i + 4] == 2 * i + p[4]);
        assert(a[6 * i + 5] == 2 * i + p[5]);
    }
    assert forall|k: int| 0 <= k < seg implies {
        &&& #[trigger] cylinder_spec(seg)[6 * seg + 3 * k] == top
        &&& cylinder_spec(seg)[6 * seg + 3 * k + 1] == top + 1 + k
        &&& cylinder_spec(seg)[6 * seg + 3 * k + 2] == top + 1 + (k + 1) % seg
    } by {
        assert(cylinder_spec(seg)[6 * seg + 3 * k] == b[3 * k]);
        assert(cylinder_spec(seg)[6 * seg + 3 * k + 1] == b[3 * k + 1]);
        assert(cylinder_spec(seg)[6 * seg + 3 * k + 2] == b[3 * k + 2]);
    }
    assert forall|k: int| 0 <= k < seg implies {
        &&& #[trigger] cylinder_spec(seg)[9 * seg + 3 * k] == cylinder_spec(seg)[6 * seg + 3 * k] + seg + 1
        &&& cylinder_spec(seg)[9 * seg + 3 * k + 1] == cylinder_spec(seg)[6 * seg + 3 * k + 2] + seg + 1
        &&& cylinder_spec(seg)[9 * seg + 3 * k + 2] == cylinder_spec(seg)[6 * seg + 3 * k + 1] + seg + 1
    } by {
        assert(cylinder_spec(seg)[6 * seg + 3 * k] == b[3 * k]);
        assert(cylinder_spec(seg)[6 * seg + 3 * k + 1] == b[3 * k + 1]);
        assert(cylinder_spec(seg)[6 * seg + 3 * k + 2] == b[3 * k + 2]);
        assert(cylinder_spec(seg)[9 * seg + 3 * k] == c[3 * k]);
        assert(cylinder_spec(seg)[9 * seg + 3 * k + 1] == c[3 * k + 1]);
        assert(cylinder_spec(seg)[9 * seg + 3 * k + 2] == c[3 * k + 2]);
    }
}

/// The six corners of sphere quad `seg` of ring `ring`, as integers.
spec fn sphere_quad_corners(segments: int, ring: int, seg: int) -> Seq<int> {
    let c = ring * (segments + 1) + seg;
    let n = c + segments + 1;
    seq![c, n, c + 1, c + 1, n, n + 1]
}

proof fn lemma_sphere_strip_layout(segments: int, ring: int, m: nat)
    requires
        segments >= 0,
        ring >= 0,
        m <= segments,
        (ring + 2) * (segments + 1) <= u32::MAX + 1,
    ensures
        sphere_strip(segments, ring, m).len() == 6 * m,
        forall|s: int, j: int|
            0 <= s < m && 0 <= j < 6 ==> #[trigger] sphere_strip(segments, ring, m)[6 * s + j]
                == sphere_quad_corners(segments, ring, s)[j],
    decreases m,
{
    if m > 0 {
        lemma_sphere_strip_layout(segments, ring, (m - 1) as nat);
        let prev = sphere_strip(segments, ring, (m - 1) as nat);
        let q = sphere_quad(segments, ring, m - 1);
        let c = ring * (segments + 1) + (m - 1);
        let n = c + segments + 1;
        assert(n + 1 < (ring + 2) * (segments + 1)) by (nonlinear_arith)
            requires
                c == ring * (segments + 1) + (m - 1),
                n == c + segments + 1,
                m <= segments,
        ;
        assert(c >= 0) by (nonlinear_arith)
            requires
                c == ring * (segments + 1) + (m - 1),
                ring >= 0,
                segments >= 0,
                m >= 1,
        ;
        assert forall|s: int, j: int| 0 <= s < m && 0 <= j < 6 implies #[trigger] sphere_strip(
            segments,
            ring,
            m,
        )[6 * s + j] == sphere_quad_corners(segments, ring, s)[j] by {
            if s < m - 1 {
                assert(sphere_strip(segments, ring, m)[6 * s + j] == prev[6 * s + j]);
            } else {
                assert(sphere_strip(segments, ring, m)[6 * s + j] == q[j]);
            }
        }
    }
}

proof fn lemma_sphere_rings_layout(segments: int, rings: nat)
    requires
        segments >= 0,
        sphere_vertex_count(segments, rings as int) <= u32::MAX + 1,
    ensures
        forall|ring: int, s: int, j: int|
            0 <= ring < rings && 0 <= s < segments && 0 <= j < 6 ==> #[trigger] sphere_rings(segments, rings)[6
                * (ring * segments) + 6 * s + j] == sphere_quad_corners(segments, ring, s)[j],
    decreases rings,
{
    if rings > 0 {
        let r1 = (rings - 1) as nat;
        assert(sphere_vertex_count(segments, r1 as int) <= sphere_vertex_count(segments, rings as int))
            by (nonlinear_arith)
            requires
                segments >= 0,
                r1 + 1 == rings,
        ;
        assert((r1 + 2) * (segments + 1) == sphere_vertex_count(segments, rings as int)) by (nonlinear_arith)
            requires
                r1 + 1 == rings,
        ;
        lemma_sphere_rings_layout(segments, r1);
        lemma_sphere_rings(segments, r1);
        lemma_sphere_strip_layout(segments, r1 as int, segments as nat);
        let prev = sphere_rings(segments, r1);
        let strip = sphere_strip(segments, r1 as int, segments as nat);
        assert(6 * r1 * segments == 6 * (r1 * segments)) by (nonlinear_arith);
        assert forall|ring: int, s: int, j: int|
            0 <= ring < rings && 0 <= s < segments && 0 <= j < 6 implies #[trigger] sphere_rings(
            segments,
            rings,
        )[6 * (ring * segments) + 6 * s + j] == sphere_quad_corners(segments, ring, s)[j] by {
            let i = 6 * (ring * segments) + 6 * s + j;
            if ring < r1 {
                assert(ring * segments + segments <= r1 * segments) by (nonlinear_arith)
                    requires
                        ring < r1,
                        segments >= 0,
                ;
                assert(i < prev.len());
                assert(sphere_rings(segments, rings)[i] == prev[i]);
            } else {
                assert(ring * segments == r1 * segments);
                assert(sphere_rings(segments, rings)[i] == strip[i - prev.len()]);
                assert(i - prev.len() == 6 * s + j);
            }
        }
    }
}

/// How a UV sphere is laid out: quad `s` of ring `ring` takes the six
/// indices from `6 (ring * segments + s)` on. With `c` its vertex at that
/// ring and segment and `n` the vertex right below it (one ring of
/// `segments + 1` vertices further), the quad is the triangles
/// `c, n, c + 1` and `c + 1, n, n + 1`: every quad of every ring is wound
/// the same way.
pub proof fn law_sphere_layout(segments: u32, rings: u32)
    requires
        sphere_vertex_count(segments as int, rings as int) <= u32::MAX,
    ensures
        forall|ring: int, s: int|
            0 <= ring < rings && 0 <= s < segments ==> {
                &&& #[trigger] sphere_rings(segments as int, rings as nat)[6 * (ring * segments) + 6 * s]
                    == ring * (segments + 1) + s
                &&& sphere_rings(segments as int, rings as nat)[6 * (ring * segments) + 6 * s + 1] == ring * (
                segments + 1) + s + segments + 1
                &&& sphere_rings(segments as int, rings as nat)[6 * (ring * segments) + 6 * s + 2] == ring * (
                segments + 1) + s + 1
                &&& sphere_rings(segments as int, rings as nat)[6 * (ring * segments) + 6 * s + 3] == ring * (
                segments + 1) + s + 1
                &&& sphere_rings(segments as int, rings as nat)[6 * (ring * segments) + 6 * s + 4] == ring * (
                segments + 1) + s + segments + 1
                &&& sphere_rings(segments as int, rings as nat)[6 * (ring * segments) + 6 * s + 5] == ring * (
                segments + 1) + s + segments + 2
            },
{
    lemma_sphere_rings_layout(segments as int, rings as nat);
    assert forall|ring: int, s: int| 0 <= ring < rings && 0 <= s < segments implies {
        &&& #[trigger] sphere_rings(segments as int, rings as nat)[6 * (ring * segments) + 6 * s] == ring * (
        segments + 1) + s
        &&& sphere_rings(segments as int, rings as nat)[6 * (ring * segments) + 6 * s + 1] == ring * (
        segments + 1) + s + segments + 1
        &&& sphere_rings(segments as int, rings as nat)[6 * (ring * segments) + 6 * s + 2] == ring * (
        segments + 1) + s + 1
        &&& sphere_rings(segments as int, rings as nat)[6 * (ring * segments) + 6 * s + 3] == ring * (
        segments + 1) + s + 1
        &&& sphere_rings(segments as int, rings as nat)[6 * (ring * segments) + 6 * s + 4] == ring * (
        segments + 1) + s + segments + 1
        &&& sphere_rings(segments as int, rings as nat)[6 * (ring * segments) + 6 * s + 5] == ring * (
        segments + 1) + s + segments + 2
    } by {
        let r = sphere_rings(segments as int, rings as nat);
        let b = 6 * (ring * segments) + 6 * s;
        assert(r[b + 0] == sphere_quad_corners(segments as int, ring, s as int)[0]);
        assert(r[b + 1] == sphere_quad_corners(segments as int, ring, s as int)[1]);
        assert(r[b + 2] == sphere_quad_corners(segments as int, ring, s as int)[2]);
        assert(r[b + 3] == sphere_quad_corners(segments as int, ring, s as int)[3]);
        assert(r[b + 4] == sphere_quad_corners(segments as int, ring, s as int)[4]);
        assert(r[b + 5] == sphere_quad_corners(segments as int, ring, s as int)[5]);
    }
}

} // verus!
