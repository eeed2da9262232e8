use vstd::prelude::*;

verus! {

/// The vertex of number `k` in a flat list of coordinates: the three values from
/// `3 * k` on.
pub open spec fn vertex_at<T>(values: Seq<T>, k: int) -> (T, T, T) {
    (values[3 * k], values[3 * k + 1], values[3 * k + 2])
}

/// Looks up the vertex of every index in `indices`, in order, from a flat list of
/// coordinates (three per vertex). This puts the vertices of a mesh in triangle
/// order.
pub fn gather_vertices<T: Copy>(values: &Vec<T>, indices: &Vec<u32>) -> (r: Vec<(T, T, T)>)
    requires
        forall|i: int| 0 <= i < indices@.len() ==> 3 * (#[trigger] indices@[i]) + 2 < values@.len(),
    ensures
        r@.len() == indices@.len(),
        forall|i: int| 0 <= i < indices@.len() ==> #[trigger] r@[i] == vertex_at(values@, indices@[i] as int),
{
    let mut vertices: Vec<(T, T, T)> = Vec::new();
    let mut i: usize = 0;
    while i < indices.len()
        invariant
            i <= indices@.len(),
            vertices@.len() == i,
            forall|i: int| 0 <= i < indices@.len() ==> 3 * (#[trigger] indices@[i]) + 2 < values@.len(),
            forall|j: int| 0 <= j < i ==> #[trigger] vertices@[j] == vertex_at(values@, indices@[j] as int),
        decreases indices@.len() - i,
    {
        let num_values = values.len();
        assert(3 * indices@[i as int] + 2 < num_values);
        let vert_idx = indices[i] as usize * 3;
        vertices.push((values[vert_idx], values[vert_idx + 1], values[vert_idx + 2]));
        i += 1;
    }
    vertices
}

/// Groups vertex positions and normals, both in triangle order, into triangles:
/// triangle `t` has the positions and normals `3 * t`, `3 * t + 1` and `3 * t + 2`.
pub fn group_triangles<V: Copy>(positions: &Vec<V>, normals: &Vec<V>) -> (r: Vec<([V; 3], [V; 3])>)
    requires
        positions@.len() % 3 == 0,
        normals@.len() >= positions@.len(),
    ensures
        r@.len() * 3 == positions@.len(),
        forall|t: int|
            0 <= t < r@.len() ==> {
                let tri = #[trigger] r@[t];
                &&& tri.0@ == seq![positions@[3 * t], positions@[3 * t + 1], positions@[3 * t + 2]]
                &&& tri.1@ == seq![normals@[3 * t], normals@[3 * t + 1], normals@[3 * t + 2]]
            },
{
    let mut triangles: Vec<([V; 3], [V; 3])> = Vec::new();
    let mut i: usize = 0;
    while i < positions.len()
        invariant
            i <= positions@.len(),
            i % 3 == 0,
            positions@.len() % 3 == 0,
            normals@.len() >= positions@.len(),
            triangles@.len() * 3 == i,
            forall|t: int|
                0 <= t < triangles@.len() ==> {
                    let tri = #[trigger] triangles@[t];
                    &&& tri.0@ == seq![positions@[3 * t], positions@[3 * t + 1], positions@[3 * t + 2]]
                    &&& tri.1@ == seq![normals@[3 * t], normals@[3 * t + 1], normals@[3 * t + 2]]
                },
        decreases positions@.len() - i,
    {
        let p = [positions[i], positions[i + 1], positions[i + 2]];
        let n = [normals[i], normals[i + 1], normals[i + 2]];
        assert(p@ =~= seq![positions@[i as int], positions@[i + 1], positions@[i + 2]]);
        assert(n@ =~= seq![normals@[i as int], normals@[i + 1], normals@[i + 2]]);
        triangles.push((p, n));
        i += 3;
    }
    triangles
}

/// The coordinates of a list of vertices, one vertex after the other.
pub open spec fn flatten_vertices<T>(vs: Seq<(T, T, T)>) -> Seq<T>
    decreases vs.len(),
{
    if vs.len() == 0 {
        Seq::empty()
    } else {
        flatten_vertices(vs.drop_last()) + seq![vs.last().0, vs.last().1, vs.last().2]
    }
}

/// Looking up the vertices `0, 1, ..., m - 1` in order gives back the flat list of
/// coordinates they came from.
pub proof fn law_vertices_in_order_restore_values<T>(values: Seq<T>, m: nat)
    requires
        values.len() == 3 * m,
    ensures
        flatten_vertices(Seq::new(m, |k: int| vertex_at(values, k))) == values,
    decreases m,
{
    let vs = Seq::new(m, |k: int| vertex_at(values, k));
    if m > 0 {
        let shorter = values.subrange(0, 3 * (m - 1));
        law_vertices_in_order_restore_values(shorter, (m - 1) as nat);
        let ws = Seq::new((m - 1) as nat, |k: int| vertex_at(shorter, k));
        assert(vs.drop_last() =~= ws);
        assert(values =~= shorter + seq![values[3 * (m - 1)], values[3 * (m - 1) + 1], values[3 * (m - 1) + 2]]);
    } else {
        assert(values =~= Seq::<T>::empty());
    }
}

} // verus!
