//! Meshes as the rasterizer consumes them: vertex positions, polygons over
//! their indices, and the triangles those polygons fan out into.

use vstd::prelude::*;
use crate::scalar::Scalar;

verus! {

/// A point in space, each coordinate a single-precision bit pattern.
#[derive(Clone, Copy, Debug, PartialEq, Eq, Structural)]
pub struct Position {
    pub x: Scalar,
    pub y: Scalar,
    pub z: Scalar,
}

/// Three vertex indices.
pub type Triangle = (usize, usize, usize);

/// A mesh: positions, and polygons that name them by index from zero.
#[derive(Clone, Debug)]
pub struct ObjModel {
    pub vertices: Vec<Position>,
    pub faces: Vec<Vec<usize>>,
}

/// The triangles of a polygon fanned out from its first vertex: none for
/// fewer than three indices, else `(f[0], f[i + 1], f[i + 2])` for each `i`.
pub open spec fn fan(face: Seq<usize>) -> Seq<Triangle> {
    if face.len() < 3 {
        Seq::empty()
    } else {
        Seq::new((face.len() - 2) as nat, |i: int| (face[0], face[i + 1], face[i + 2]))
    }
}

/// Whether every index of the polygon names one of `count` vertices.
pub open spec fn face_in_range(face: Seq<usize>, count: int) -> bool {
    forall|j: int| 0 <= j < face.len() ==> (#[trigger] face[j]) < count
}

/// Fans a polygon out into triangles from its first vertex.
pub fn fan_triangles(face: &Vec<usize>) -> (triangles: Vec<Triangle>)
    ensures
        triangles@ == fan(face@),
{
    let mut triangles: Vec<Triangle> = Vec::new();
    if face.len() < 3 {
        assert(triangles@ =~= fan(face@));
        return triangles;
    }
    let mut i: usize = 1;
    while i < face.len() - 1
        invariant
            face@.len() >= 3,
            1 <= i <= face@.len() - 1,
            triangles@.len() == i - 1,
            forall|t: int| 0 <= t < i - 1 ==> triangles@[t] == (face@[0], face@[t + 1], face@[t + 2]),
        decreases face@.len() - i,
    {
        triangles.push((face[0], face[i], face[i + 1]));
        i += 1;
    }
    assert(triangles@ =~= fan(face@));
    triangles
}

/// The triangles of a fanned polygon use only the polygon's own indices.
pub proof fn lemma_fan_keeps_range(face: Seq<usize>, count: int, t: int)
    requires
        face_in_range(face, count),
        0 <= t < fan(face).len(),
    ensures
        fan(face)[t].0 < count,
        fan(face)[t].1 < count,
        fan(face)[t].2 < count,
{
}

/// The triangles of all polygons, fanned out one polygon after another.
pub open spec fn fan_all(faces: Seq<Vec<usize>>) -> Seq<Triangle>
    decreases faces.len(),
{
    if faces.len() == 0 {
        Seq::empty()
    } else {
        fan_all(faces.drop_last()) + fan(faces.last()@)
    }
}

/// The triangles of a mesh use only indices that its polygons use.
pub proof fn lemma_fan_all_keeps_range(faces: Seq<Vec<usize>>, count: int, t: int)
    requires
        forall|f: int| 0 <= f < faces.len() ==> face_in_range((#[trigger] faces[f])@, count),
        0 <= t < fan_all(faces).len(),
    ensures
        fan_all(faces)[t].0 < count,
        fan_all(faces)[t].1 < count,
        fan_all(faces)[t].2 < count,
    decreases faces.len(),
{
    let before = fan_all(faces.drop_last());
    if t < before.len() {
        assert forall|f: int| 0 <= f < faces.drop_last().len() implies face_in_range(
            (#[trigger] faces.drop_last()[f])@,
            count,
        ) by {
            assert(faces.drop_last()[f] == faces[f]);
        }
        lemma_fan_all_keeps_range(faces.drop_last(), count, t);
    } else {
        assert(face_in_range(faces[faces.len() - 1]@, count));
        lemma_fan_keeps_range(faces.last()@, count, t - before.len());
    }
}

impl ObjModel {
    /// All triangles of the mesh, in the order of its polygons.
    pub fn triangles(&self) -> (triangles: Vec<Triangle>)
        ensures
            triangles@ == fan_all(self.faces@),
    {
        let mut triangles: Vec<Triangle> = Vec::new();
        let mut f: usize = 0;
        assert(self.faces@.subrange(0, 0) =~= Seq::<Vec<usize>>::empty());
        while f < self.faces.len()
            invariant
                f <= self.faces@.len(),
                triangles@ == fan_all(self.faces@.subrange(0, f as int)),
            decreases self.faces@.len() - f,
        {
            let mut fanned = fan_triangles(&self.faces[f]);
            proof {
                let longer = self.faces@.subrange(0, f + 1);
                assert(longer.drop_last() =~= self.faces@.subrange(0, f as int));
                assert(longer.last() == self.faces@[f as int]);
            }
            triangles.append(&mut fanned);
            f += 1;
        }
        assert(self.faces@.subrange(0, f as int) =~= self.faces@);
        triangles
    }

    /// Whether every polygon names only vertices that the mesh has.
    pub open spec fn indices_in_range(&self) -> bool {
        forall|f: int|
            0 <= f < self.faces@.len() ==> face_in_range(
                (#[trigger] self.faces@[f])@,
                self.vertices@.len() as int,
            )
    }

    /// Checks that every polygon names only vertices that the mesh has.
    pub fn has_indices_in_range(&self) -> (ok: bool)
        ensures
            ok == self.indices_in_range(),
    {
        let count: usize = self.vertices.len();
        let mut f: usize = 0;
        while f < self.faces.len()
            invariant
                count == self.vertices@.len(),
                f <= self.faces@.len(),
                forall|g: int|
                    0 <= g < f ==> face_in_range((#[trigger] self.faces@[g])@, count as int),
            decreases self.faces@.len() - f,
        {
            let face = &self.faces[f];
            let mut j: usize = 0;
            while j < face.len()
                invariant
                    j <= face@.len(),
                    face@ == self.faces@[f as int]@,
                    f < self.faces@.len(),
                    count == self.vertices@.len(),
                    forall|h: int| 0 <= h < j ==> (#[trigger] face@[h]) < count,
                decreases face@.len() - j,
            {
                if face[j] >= count {
                    assert(!face_in_range(self.faces@[f as int]@, count as int));
                    return false;
                }
                j += 1;
            }
            f += 1;
        }
        true
    }
}

/// Polygon `k` of the sphere with `segments` bands of latitude and as many
/// of longitude. Vertices lie in rows of `segments + 1`; each cell of the
/// grid gives two triangles, the upper-left one first.
pub open spec fn sphere_face(segments: int, k: int) -> Seq<usize> {
    let cell = k / 2;
    let lat = cell / segments;
    let lon = cell % segments;
    let current = lat * (segments + 1) + lon;
    let next = current + segments + 1;
    if k % 2 == 0 {
        seq![current as usize, next as usize, (current + 1) as usize]
    } else {
        seq![(current + 1) as usize, next as usize, (next + 1) as usize]
    }
}

/// The polygons of a sphere sampled on a grid of `segments` by `segments`
/// cells over `(segments + 1)` by `(segments + 1)` vertices.
pub fn sphere_faces(segments: u32) -> (faces: Vec<Vec<usize>>)
    requires
        (segments + 1) * (segments + 1) <= usize::MAX,
    ensures
        faces@.len() == 2 * segments * segments,
        forall|k: int| 0 <= k < faces@.len() ==> (#[trigger] faces@[k])@ == sphere_face(segments as int, k),
        forall|k: int|
            0 <= k < faces@.len() ==> face_in_range(
                (#[trigger] faces@[k])@,
                (segments + 1) * (segments + 1),
            ),
{
    let s: usize = segments as usize;
    let mut faces: Vec<Vec<usize>> = Vec::new();
    let mut lat: usize = 0;
    while lat < s
        invariant
            s == segments,
            (s + 1) * (s + 1) <= usize::MAX,
            lat <= s,
            faces@.len() == 2 * (lat * s),
            forall|k: int|
                0 <= k < faces@.len() ==> (#[trigger] faces@[k])@ == sphere_face(s as int, k),
            forall|k: int|
                0 <= k < faces@.len() ==> face_in_range((#[trigger] faces@[k])@, (s + 1) * (s + 1)),
        decreases s - lat,
    {
        let mut lon: usize = 0;
        while lon < s
            invariant
                s == segments,
                (s + 1) * (s + 1) <= usize::MAX,
                lat < s,
                lon <= s,
                faces@.len() == 2 * (lat * s + lon),
                forall|k: int|
                    0 <= k < faces@.len() ==> (#[trigger] faces@[k])@ == sphere_face(s as int, k),
                forall|k: int|
                    0 <= k < faces@.len() ==> face_in_range(
                        (#[trigger] faces@[k])@,
                        (s + 1) * (s + 1),
                    ),
            decreases s - lon,
        {
            let ghost cell: int = lat * s + lon;
            proof {
                assert(lat * (s + 1) + lon + s + 2 < (s + 1) * (s + 1)) by (nonlinear_arith)
                    requires
                        0 <= lat < s,
                        0 <= lon < s,
                ;
                assert(0 <= lat * (s + 1)) by (nonlinear_arith)
                    requires
                        0 <= lat,
                        0 <= s,
                ;
                assert(0 <= lat * s) by (nonlinear_arith)
                    requires
                        0 <= lat,
                        0 <= s,
                ;
                vstd::arithmetic::div_mod::lemma_fundamental_div_mod_converse(
                    cell,
                    s as int,
                    lat as int,
                    lon as int,
                );
                assert((2 * cell) / 2 == cell && (2 * cell) % 2 == 0);
                assert((2 * cell + 1) / 2 == cell && (2 * cell + 1) % 2 == 1);
            }
            let current: usize = lat * (s + 1) + lon;
            let next: usize = current + s + 1;
            let upper: Vec<usize> = vec![current, next, current + 1];
            let lower: Vec<usize> = vec![current + 1, next, next + 1];
            assert(upper@ =~= sphere_face(s as int, 2 * cell));
            assert(lower@ =~= sphere_face(s as int, 2 * cell + 1));
            faces.push(upper);
            faces.push(lower);
            lon += 1;
        }
        assert(lat * s + s == (lat + 1) * s) by (nonlinear_arith);
        lat += 1;
    }
    assert(2 * (s * s) == 2 * segments * segments) by (nonlinear_arith)
        requires
            s == segments,
    ;
    faces
}

/// Polygon `k` of the flat ring with `segments` steps round. The inner
/// circle's vertices come first, `segments + 1` of them, then the outer
/// circle's; each step gives two triangles.
pub open spec fn ring_face(segments: int, k: int) -> Seq<usize> {
    let i = k / 2;
    let row = segments + 1;
    if k % 2 == 0 {
        seq![i as usize, (i + row) as usize, (i + 1) as usize]
    } else {
        seq![(i + 1) as usize, (i + row) as usize, (i + 1 + row) as usize]
    }
}

/// The polygons of a flat ring between two circles of `segments + 1`
/// vertices each.
pub fn ring_faces(segments: u32) -> (faces: Vec<Vec<usize>>)
    requires
        2 * (segments + 1) <= usize::MAX,
    ensures
        faces@.len() == 2 * segments,
        forall|k: int| 0 <= k < faces@.len() ==> (#[trigger] faces@[k])@ == ring_face(segments as int, k),
        forall|k: int|
            0 <= k < faces@.len() ==> face_in_range((#[trigger] faces@[k])@, 2 * (segments + 1)),
{
    let s: usize = segments as usize;
    let row: usize = s + 1;
    let mut faces: Vec<Vec<usize>> = Vec::new();
    let mut i: usize = 0;
    while i < s
        invariant
            s == segments,
            row == s + 1,
            2 * (s + 1) <= usize::MAX,
            i <= s,
            faces@.len() == 2 * i,
            forall|k: int|
                0 <= k < faces@.len() ==> (#[trigger] faces@[k])@ == ring_face(s as int, k),
            forall|k: int|
                0 <= k < faces@.len() ==> face_in_range((#[trigger] faces@[k])@, 2 * (s + 1)),
        decreases s - i,
    {
        let inner: Vec<usize> = vec![i, i + row, i + 1];
        let outer: Vec<usize> = vec![i + 1, i + row, i + 1 + row];
        assert(inner@ =~= ring_face(s as int, 2 * i));
        assert(outer@ =~= ring_face(s as int, 2 * i + 1));
        faces.push(inner);
        faces.push(outer);
        i += 1;
    }
    faces
}

} // verus!
