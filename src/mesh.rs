//! Indexed triangle meshes.
use vstd::prelude::*;
use crate::math::{Point2, Point3, Vec3};

verus! {

/// A triangle of an indexed mesh: three 1-based indices into the mesh's
/// vertex positions, and optionally three into its texture coordinates and
/// three into its normals.
#[derive(Clone, Copy, Debug, PartialEq, Eq)]
pub struct Triangle {
    pub vertices: [u32; 3],
    pub texcoords: Option<[u32; 3]>,
    pub normals: Option<[u32; 3]>,
}

/// Vertex positions, the triangles over them, and optionally texture
/// coordinates and normals that the triangles index as well.
#[derive(Clone, Debug)]
pub struct IndexedTriangleMesh<S> {
    pub vertices: Vec<Point3<S>>,
    pub triangles: Vec<Triangle>,
    pub texcoords: Option<Vec<Point2<S>>>,
    pub normals: Option<Vec<Vec3<S>>>,
}

/// All three 1-based indices name one of `n` entries.
pub open spec fn indices_in(idx: [u32; 3], n: int) -> bool {
    forall|k: int| 0 <= k < 3 ==> 1 <= #[trigger] idx@[k] <= n
}

/// The optional indices, where present, name entries of the optional list.
pub open spec fn optional_indices_in(idx: Option<[u32; 3]>, n: Option<int>) -> bool {
    match idx {
        Some(i) => n is Some && indices_in(i, n->Some_0),
        None => true,
    }
}

fn check_indices(idx: [u32; 3], n: usize) -> (r: bool)
    ensures
        r == indices_in(idx, n as int),
{
    let ok = 1 <= idx[0] && idx[0] as usize <= n && 1 <= idx[1] && idx[1] as usize <= n && 1
        <= idx[2] && idx[2] as usize <= n;
    proof {
        if !ok {
            assert(!(1 <= idx@[0] <= n) || !(1 <= idx@[1] <= n) || !(1 <= idx@[2] <= n));
        }
    }
    ok
}

impl<S> IndexedTriangleMesh<S> {
    pub open spec fn texcoord_count(&self) -> Option<int> {
        match self.texcoords {
            Some(t) => Some(t@.len() as int),
            None => None,
        }
    }

    pub open spec fn normal_count(&self) -> Option<int> {
        match self.normals {
            Some(n) => Some(n@.len() as int),
            None => None,
        }
    }

    /// Every index of every triangle names an entry of its list.
    pub open spec fn wf(&self) -> bool {
        forall|t: int|
            0 <= t < self.triangles@.len() ==> {
                let tri = #[trigger] self.triangles@[t];
                &&& indices_in(tri.vertices, self.vertices@.len() as int)
                &&& optional_indices_in(tri.texcoords, self.texcoord_count())
                &&& optional_indices_in(tri.normals, self.normal_count())
            }
    }

    /// Whether every index of every triangle names an entry of its list.
    pub fn is_well_formed(&self) -> (r: bool)
        ensures
            r == self.wf(),
    {
        let nv = self.vertices.len();
        let nt: Option<usize> = match &self.texcoords {
            Some(t) => Some(t.len()),
            None => None,
        };
        let nn: Option<usize> = match &self.normals {
            Some(n) => Some(n.len()),
            None => None,
        };
        let mut t: usize = 0;
        while t < self.triangles.len()
            invariant
                nv == self.vertices@.len(),
                nt is Some <==> self.texcoords is Some,
                nt is Some ==> nt->Some_0 == self.texcoords->Some_0@.len(),
                nn is Some <==> self.normals is Some,
                nn is Some ==> nn->Some_0 == self.normals->Some_0@.len(),
                t <= self.triangles@.len(),
                forall|u: int|
                    0 <= u < t ==> {
                        let tri = #[trigger] self.triangles@[u];
                        &&& indices_in(tri.vertices, self.vertices@.len() as int)
                        &&& optional_indices_in(tri.texcoords, self.texcoord_count())
                        &&& optional_indices_in(tri.normals, self.normal_count())
                    },
            decreases self.triangles@.len() - t,
        {
            let tri = self.triangles[t];
            if !check_indices(tri.vertices, nv) {
                return false;
            }
            match tri.texcoords {
                Some(i) => match nt {
                    Some(n) => {
                        if !check_indices(i, n) {
                            return false;
                        }
                    },
                    None => {
                        return false;
                    },
                },
                None => {},
            }
            match tri.normals {
                Some(i) => match nn {
                    Some(n) => {
                        if !check_indices(i, n) {
                            return false;
                        }
                    },
                    None => {
                        return false;
                    },
                },
                None => {},
            }
            t += 1;
        }
        true
    }
}

impl<S: Copy> IndexedTriangleMesh<S> {
    /// The positions of the vertices of triangle `t`.
    pub fn triangle_vertices(&self, t: usize) -> (r: [Point3<S>; 3])
        requires
            self.wf(),
            t < self.triangles@.len(),
        ensures
            forall|k: int|
                0 <= k < 3 ==> #[trigger] r@[k] == self.vertices@[self.triangles@[t as int].vertices@[k]
                    - 1],
    {
        let tri = self.triangles[t];
        assert(indices_in(tri.vertices, self.vertices@.len() as int));
        let a = self.vertices[(tri.vertices[0] - 1) as usize];
        let b = self.vertices[(tri.vertices[1] - 1) as usize];
        let c = self.vertices[(tri.vertices[2] - 1) as usize];
        let r = [a, b, c];
        assert(r@[0] == a && r@[1] == b && r@[2] == c);
        r
    }

    /// The texture coordinates of the vertices of triangle `t`, where the
    /// triangle names them.
    pub fn triangle_texcoords(&self, t: usize) -> (r: Option<[Point2<S>; 3]>)
        requires
            self.wf(),
            t < self.triangles@.len(),
        ensures
            r is Some <==> self.triangles@[t as int].texcoords is Some,
            r is Some ==> forall|k: int|
                0 <= k < 3 ==> #[trigger] r->Some_0@[k] == self.texcoords->Some_0@[self.triangles@[
                t as int].texcoords->Some_0@[k] - 1],
    {
        let tri = self.triangles[t];
        match (tri.texcoords, &self.texcoords) {
            (Some(i), Some(tcs)) => {
                assert(indices_in(i, tcs@.len() as int));
                let a = tcs[(i[0] - 1) as usize];
                let b = tcs[(i[1] - 1) as usize];
                let c = tcs[(i[2] - 1) as usize];
                let r = [a, b, c];
                assert(r@[0] == a && r@[1] == b && r@[2] == c);
                Some(r)
            },
            _ => None,
        }
    }
}

} // verus!
