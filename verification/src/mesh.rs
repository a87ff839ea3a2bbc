//! The triangle-mesh view the slicer consumes: a vertex array plus index
//! triples, with a flat-list constructor.
//!
//! Storing indices instead of full vertices keeps shared corners in one
//! place; the constructor used here writes the identity mapping, one fresh
//! vertex triple per facet, as a flat coordinate list provides them.

use vstd::prelude::*;

use crate::geometry::Vector3;
use crate::geometry::Triangle;

verus! {

/// One facet as three indices into a vertex array.
pub struct Facet {
    pub p0: u32,
    pub p1: u32,
    pub p2: u32,
}

/// A triangle mesh stored as vertices plus index triples.
pub struct VertexIndex {
    pub points: Vec<Vector3>,
    pub facets: Vec<Facet>,
}

impl VertexIndex {
    /// Every facet's indices point into the vertex array.
    pub open spec fn wf(&self) -> bool {
        forall|i: int|
            0 <= i < self.facets@.len() ==> (#[trigger] self.facets@[i]).p0 < self.points@.len()
                && self.facets@[i].p1 < self.points@.len() && self.facets@[i].p2
                < self.points@.len()
    }

    /// The triangle a facet denotes.
    pub open spec fn spec_triangle(&self, i: int) -> Triangle
        recommends
            0 <= i < self.facets@.len(),
            self.wf(),
    {
        Triangle {
            p0: self.points@[self.facets@[i].p0 as int],
            p1: self.points@[self.facets@[i].p1 as int],
            p2: self.points@[self.facets@[i].p2 as int],
        }
    }

    /// Reads a flat coordinate list, nine values per triangle (x, y and z
    /// of each of the three vertices), into an identity-indexed mesh;
    /// `None` when the list is not a whole number of triangles.
    pub fn from_triangles(points: Vec<i64>) -> (r: Option<VertexIndex>)
        requires
            points@.len() <= 0xffff_ffff,
        ensures
            points@.len() % 9 != 0 ==> r is None,
            points@.len() % 9 == 0 ==> r is Some,
            r matches Some(m) ==> {
                &&& m.wf()
                &&& m.points@.len() == points@.len() / 3
                &&& m.facets@.len() == points@.len() / 9
                &&& forall|j: int|
                    0 <= j < m.points@.len() ==> #[trigger] m.points@[j] == (Vector3 {
                        x: points@[3 * j],
                        y: points@[3 * j + 1],
                        z: points@[3 * j + 2],
                    })
                &&& forall|i: int|
                    0 <= i < m.facets@.len() ==> (#[trigger] m.facets@[i]).p0 == 3 * i
                        && m.facets@[i].p1 == 3 * i + 1 && m.facets@[i].p2 == 3 * i + 2
            },
    {
        if points.len() % 9 != 0 {
            return None;
        }
        let n3 = points.len() / 3;
        let mut verts: Vec<Vector3> = Vec::new();
        let mut j: usize = 0;
        while j < n3
            invariant
                n3 == points@.len() / 3,
                points@.len() % 9 == 0,
                points@.len() <= 0xffff_ffff,
                0 <= j <= n3,
                verts@.len() == j,
                forall|q: int|
                    0 <= q < j ==> #[trigger] verts@[q] == (Vector3 {
                        x: points@[3 * q],
                        y: points@[3 * q + 1],
                        z: points@[3 * q + 2],
                    }),
            decreases n3 - j,
        {
            proof {
                vstd::arithmetic::div_mod::lemma_fundamental_div_mod(points@.len() as int, 3);
                vstd::arithmetic::div_mod::lemma_mod_bound(points@.len() as int, 3);
                assert(3 * (j as int) + 2 < points@.len());
            }
            let v = Vector3 { x: points[3 * j], y: points[3 * j + 1], z: points[3 * j + 2] };
            verts.push(v);
            j = j + 1;
        }
        let n9 = points.len() / 9;
        let mut facets: Vec<Facet> = Vec::new();
        let mut i: usize = 0;
        while i < n9
            invariant
                n9 == points@.len() / 9,
                n3 == points@.len() / 3,
                points@.len() % 9 == 0,
                points@.len() <= 0xffff_ffff,
                0 <= i <= n9,
                facets@.len() == i,
                forall|q: int|
                    0 <= q < i ==> (#[trigger] facets@[q]).p0 == 3 * q && facets@[q].p1 == 3 * q
                        + 1 && facets@[q].p2 == 3 * q + 2,
            decreases n9 - i,
        {
            proof {
                vstd::arithmetic::div_mod::lemma_fundamental_div_mod(points@.len() as int, 9);
                vstd::arithmetic::div_mod::lemma_mod_bound(points@.len() as int, 9);
                vstd::arithmetic::div_mod::lemma_fundamental_div_mod(points@.len() as int, 3);
                vstd::arithmetic::div_mod::lemma_mod_bound(points@.len() as int, 3);
            }
            let f = Facet { p0: (3 * i) as u32, p1: (3 * i + 1) as u32, p2: (3 * i + 2) as u32 };
            facets.push(f);
            i = i + 1;
        }
        proof {
            vstd::arithmetic::div_mod::lemma_fundamental_div_mod(points@.len() as int, 9);
            vstd::arithmetic::div_mod::lemma_mod_bound(points@.len() as int, 9);
            vstd::arithmetic::div_mod::lemma_fundamental_div_mod(points@.len() as int, 3);
            vstd::arithmetic::div_mod::lemma_mod_bound(points@.len() as int, 3);
            assert(points@.len() == 9 * (n9 as int));
            assert(9 * (n9 as int) == (3 * (n9 as int)) * 3) by (nonlinear_arith);
            vstd::arithmetic::div_mod::lemma_div_by_multiple(3 * (n9 as int), 3);
            assert(n3 as int == 3 * (n9 as int));
        }
        Some(VertexIndex { points: verts, facets })
    }

    /// How many triangles comprise this mesh.
    pub fn triangle_count(&self) -> (n: usize)
        ensures
            n == self.facets@.len(),
    {
        self.facets.len()
    }

    /// The mesh's triangles, one per facet, in facet order.
    pub fn triangles(&self) -> (r: Vec<Triangle>)
        requires
            self.wf(),
        ensures
            r@.len() == self.facets@.len(),
            forall|i: int| 0 <= i < r@.len() ==> #[trigger] r@[i] == self.spec_triangle(i),
    {
        let mut r: Vec<Triangle> = Vec::new();
        let mut i: usize = 0;
        while i < self.facets.len()
            invariant
                self.wf(),
                0 <= i <= self.facets@.len(),
                r@.len() == i,
                forall|q: int| 0 <= q < i ==> #[trigger] r@[q] == self.spec_triangle(q),
            decreases self.facets@.len() - i,
        {
            let f = &self.facets[i];
            let t = Triangle {
                p0: self.points[f.p0 as usize],
                p1: self.points[f.p1 as usize],
                p2: self.points[f.p2 as usize],
            };
            r.push(t);
            i = i + 1;
        }
        r
    }
}

} // verus!
