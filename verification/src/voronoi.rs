//! The Voronoi diagram assembled from what qhull computed.
use crate::iterators::{
    buffer_write, lemma_buffer_write, list_nodes, optional_set_members, FacetIter, SetIter,
    VecBuffer, VertexIter,
};
use crate::point_region::PointRegion;
use vstd::prelude::*;

verus! {

/// A qhull vertex: the id of its input point, and the visit ids of its
/// neighbouring facets (a null-terminated set, in qhull's order).
pub struct VertexNode {
    pub point_id: i32,
    pub neighbors: Option<Vec<Option<u32>>>,
}

/// A qhull facet: its visit id (the 1-based number of its Voronoi vertex,
/// or 0 when it has none), the Voronoi vertex it stands for, and its
/// coplanar points.
pub struct FacetNode<T> {
    pub visit_id: u32,
    pub center: T,
    pub coplanar: Option<Vec<Option<CoplanarPoint>>>,
}

/// A point that qhull left coplanar with a facet: its own id, and the id
/// of the input point at the facet's vertex nearest to it.
#[derive(Clone, Copy, Debug)]
pub struct CoplanarPoint {
    pub point_id: i32,
    pub nearest_vertex_point_id: i32,
}

/// A Voronoi ridge as qhull reports it: the ids of the two input points it
/// separates, and the visit ids of the facets (Voronoi vertices) that bound
/// it (a null-terminated set).
pub struct Ridge {
    pub point1: i32,
    pub point2: i32,
    pub centers: Option<Vec<Option<u32>>>,
}

/// The one visit id without an index: read as a `c_int` it is `i32::MIN`,
/// and subtracting one from that overflows.
pub open spec fn overflowing_visit_id(v: u32) -> bool {
    v == 0x8000_0000
}

/// The 0-based index of the Voronoi vertex with visit id `v`: `v - 1` after
/// `v` is read as a `c_int` (a visit id of 0, a facet with no vertex, gives
/// -1, the vertex at infinity).
pub open spec fn visit_index(v: u32) -> i32 {
    if v <= 0x7fff_ffff {
        (v - 1) as i32
    } else {
        (v - 0x1_0000_0000 - 1) as i32
    }
}

/// The indices of a sequence of visit ids.
pub open spec fn visit_indices(ids: Seq<u32>) -> Seq<i32> {
    ids.map_values(|v: u32| visit_index(v))
}

/// `visitid as c_int - 1`, the index of the Voronoi vertex of a facet.
pub fn region_index(visit_id: u32) -> (i: i32)
    requires
        !overflowing_visit_id(visit_id),
    ensures
        i == visit_index(visit_id),
{
    if visit_id <= 0x7fff_ffff {
        (visit_id as i32) - 1
    } else {
        let w: u32 = visit_id - 0x8000_0000;
        ((w as i32) - 1) + i32::MIN
    }
}

/// The indices with every `-1` after the first one dropped: a region
/// touches the vertex at infinity at most once.
pub open spec fn keep_first_infinity(ids: Seq<i32>) -> Seq<i32>
    decreases ids.len(),
{
    if ids.len() == 0 {
        Seq::empty()
    } else {
        let kept = keep_first_infinity(ids.drop_last());
        if ids.last() == -1 && kept.contains(-1i32) {
            kept
        } else {
            kept.push(ids.last())
        }
    }
}

/// A sequence with `x` pushed contains `y` when it did already or `x` is `y`.
pub proof fn lemma_push_contains<A>(s: Seq<A>, x: A, y: A)
    ensures
        s.push(x).contains(y) <==> (s.contains(y) || x == y),
{
    if s.contains(y) {
        let j = choose|j: int| 0 <= j < s.len() && s[j] == y;
        assert(s.push(x)[j] == y);
    }
    if x == y {
        assert(s.push(x)[s.len() as int] == y);
    }
    if s.push(x).contains(y) {
        let j = choose|j: int| 0 <= j < s.push(x).len() && s.push(x)[j] == y;
        if j < s.len() {
            assert(s[j] == y);
        }
    }
}

/// The Voronoi region of a vertex with neighbour indices `ids`: the indices
/// with repeated `-1`s dropped, and empty when only the vertex at infinity
/// is left.
pub open spec fn region_from_indices(ids: Seq<i32>) -> Seq<i32> {
    let kept = keep_first_infinity(ids);
    if kept.len() == 1 && kept[0] == -1 {
        Seq::empty()
    } else {
        kept
    }
}

/// The Voronoi region of a qhull vertex.
pub open spec fn vertex_region(vertex: VertexNode) -> Seq<i32> {
    region_from_indices(visit_indices(optional_set_members(vertex.neighbors)))
}

/// The Voronoi region around `vertex`: the indices of the Voronoi vertices
/// of its neighbouring facets in qhull's order, where the vertex at
/// infinity (-1) appears once at most, and not at all when it would be the
/// only one.
pub fn current_region(vertex: &VertexNode) -> (region: Vec<i32>)
    requires
        no_overflowing_visit_id(vertex.neighbors),
    ensures
        region@ == vertex_region(*vertex),
{
    let ghost ids = visit_indices(optional_set_members(vertex.neighbors));
    let ghost members = optional_set_members(vertex.neighbors);
    let mut neighbors = SetIter::new(&vertex.neighbors);
    let mut kept: Vec<i32> = Vec::new();
    let mut inf_seen = false;
    let ghost mut k: int = 0;
    loop
        invariant
            members == optional_set_members(vertex.neighbors),
            ids == visit_indices(members),
            forall|j: int|
                0 <= j < members.len() ==> !overflowing_visit_id(#[trigger] members[j]),
            0 <= k <= members.len(),
            neighbors@ == members.skip(k),
            kept@ == keep_first_infinity(ids.take(k)),
            inf_seen == kept@.contains(-1i32),
        ensures
            k == members.len(),
            kept@ == keep_first_infinity(ids.take(k)),
            inf_seen == kept@.contains(-1i32),
        decreases members.len() - k,
    {
        match neighbors.next() {
            None => {
                break;
            },
            Some(v) => {
                assert(members.skip(k)[0] == members[k]);
                assert(members.skip(k).drop_first() =~= members.skip(k + 1));
                let i = region_index(v);
                assert(ids.take(k + 1).drop_last() =~= ids.take(k));
                assert(ids.take(k + 1).last() == i);
                if i == -1 && inf_seen {
                } else {
                    let ghost before = kept@;
                    kept.push(i);
                    proof {
                        lemma_push_contains(before, i, -1i32);
                    }
                    if i == -1 {
                        inf_seen = true;
                    }
                }
                proof {
                    k = k + 1;
                }
            },
        }
    }
    assert(ids.take(k) =~= ids);
    if kept.len() == 1 && kept[0] == -1 {
        Vec::new()
    } else {
        kept
    }
}

/// The ridges collected while qhull visits the Voronoi diagram: for each
/// ridge, the two input points it separates and the indices of its
/// Voronoi vertices.
pub struct VoronoiData {
    pub nridges: i32,
    pub ridge_points: Vec<[i32; 2]>,
    pub ridge_vertices: Vec<Vec<i32>>,
}

/// The indices of the Voronoi vertices that bound a ridge.
pub open spec fn ridge_indices(ridge: Ridge) -> Seq<i32> {
    visit_indices(optional_set_members(ridge.centers))
}

/// No visit id of the set overflows when it is turned into an index.
pub open spec fn no_overflowing_visit_id(set: Option<Vec<Option<u32>>>) -> bool {
    forall|k: int|
        0 <= k < optional_set_members(set).len() ==> !overflowing_visit_id(
            #[trigger] optional_set_members(set)[k],
        )
}

impl VoronoiData {
    /// One entry per ridge in each list, and `nridges` counts them.
    pub open spec fn well_formed(&self) -> bool {
        &&& self.ridge_points@.len() == self.nridges
        &&& self.ridge_vertices@.len() == self.nridges
    }

    /// The data collected from `ridges`, visited in order.
    pub open spec fn holds_ridges(&self, ridges: Seq<Ridge>) -> bool {
        &&& self.well_formed()
        &&& self.nridges == ridges.len()
        &&& forall|k: int|
            0 <= k < ridges.len() ==> #[trigger] self.ridge_points@[k] == [
                ridges[k].point1,
                ridges[k].point2,
            ]
        &&& forall|k: int|
            0 <= k < ridges.len() ==> #[trigger] self.ridge_vertices@[k]@ == ridge_indices(ridges[k])
    }

    /// No ridge collected yet.
    pub fn new_vornoidata() -> (data: VoronoiData)
        ensures
            data.holds_ridges(Seq::empty()),
    {
        VoronoiData { nridges: 0, ridge_points: Vec::with_capacity(10), ridge_vertices: Vec::new() }
    }

    /// Records one ridge: its two input points and the indices of the
    /// Voronoi vertices that bound it, in qhull's order.
    pub fn visit_voronoi(&mut self, ridge: &Ridge)
        requires
            old(self).well_formed(),
            old(self).nridges < i32::MAX,
            no_overflowing_visit_id(ridge.centers),
        ensures
            final(self).well_formed(),
            final(self).nridges == old(self).nridges + 1,
            final(self).ridge_points@ == old(self).ridge_points@.push([ridge.point1, ridge.point2]),
            final(self).ridge_vertices@.len() == old(self).ridge_vertices@.len() + 1,
            forall|k: int|
                0 <= k < old(self).ridge_vertices@.len() ==> #[trigger] final(self).ridge_vertices@[k]
                    == old(self).ridge_vertices@[k],
            final(self).ridge_vertices@.last()@ == ridge_indices(*ridge),
    {
        self.ridge_points.push([ridge.point1, ridge.point2]);
        let ghost members = optional_set_members(ridge.centers);
        let mut centers = SetIter::new(&ridge.centers);
        let mut current_vertices: Vec<i32> = Vec::new();
        let ghost mut k: int = 0;
        loop
            invariant
                members == optional_set_members(ridge.centers),
                forall|j: int|
                    0 <= j < members.len() ==> !overflowing_visit_id(#[trigger] members[j]),
                0 <= k <= members.len(),
                centers@ == members.skip(k),
                current_vertices@ == visit_indices(members.take(k)),
            ensures
                current_vertices@ == visit_indices(members),
            decreases members.len() - k,
        {
            match centers.next() {
                None => {
                    assert(members.take(k) =~= members);
                    break;
                },
                Some(v) => {
                    assert(members.skip(k)[0] == members[k]);
                    assert(members.skip(k).drop_first() =~= members.skip(k + 1));
                    current_vertices.push(region_index(v));
                    assert(visit_indices(members.take(k + 1)) =~= visit_indices(members.take(k)).push(
                        visit_index(v),
                    ));
                    proof {
                        k = k + 1;
                    }
                },
            }
        }
        self.ridge_vertices.push(current_vertices);
        self.nridges = self.nridges + 1;
    }
}

/// What qhull computed for a set of input points, as the diagram is built
/// from it: the number of input points, the vertex list, the facet list
/// (each facet with its Voronoi vertex), and the Voronoi ridges in the
/// order qhull visits them.
pub struct QHull<T> {
    pub n_points: usize,
    pub vertex_list: Vec<VertexNode>,
    pub facet_list: Vec<FacetNode<T>>,
    pub ridges: Vec<Ridge>,
}

/// The coplanar points of the facets that have a Voronoi vertex, facet by
/// facet, in list order.
pub open spec fn coplanar_sequence<T>(facets: Seq<FacetNode<T>>) -> Seq<CoplanarPoint>
    decreases facets.len(),
{
    if facets.len() == 0 {
        Seq::empty()
    } else {
        let before = coplanar_sequence(facets.drop_last());
        if facets.last().visit_id > 0 {
            before + optional_set_members(facets.last().coplanar)
        } else {
            before
        }
    }
}

impl<T> QHull<T> {
    /// What the assembly of the diagram relies on, each clause a point at
    /// which it would otherwise panic or overflow: point and vertex counts
    /// fit a `c_int`, and the point-region array can be allocated; both
    /// lists hold at least their sentinel; a vertex whose point id is below
    /// the point count has a point id of at least 0; a coplanar point that
    /// is an input point has its nearest vertex at an input point; and no
    /// visit id that is turned into an index overflows.
    pub open spec fn well_formed(&self) -> bool {
        &&& self.n_points <= i32::MAX
        &&& self.n_points <= isize::MAX / 4
        &&& self.vertex_list@.len() > 0
        &&& self.facet_list@.len() > 0
        &&& self.vertex_list@.len() - 1 <= i32::MAX
        &&& self.ridges@.len() <= i32::MAX
        &&& forall|k: int|
            0 <= k < self.vertex_list@.len() - 1 ==> {
                &&& (#[trigger] self.vertex_list@[k]).point_id < self.n_points ==> self.vertex_list@[k].point_id >= 0
                &&& no_overflowing_visit_id(self.vertex_list@[k].neighbors)
            }
        &&& forall|k: int|
            0 <= k < self.ridges@.len() ==> no_overflowing_visit_id(
                #[trigger] self.ridges@[k].centers,
            )
        &&& forall|k: int, j: int|
            0 <= k < self.facet_list@.len() - 1 && self.facet_list@[k].visit_id > 0 && 0 <= j
                < optional_set_members(self.facet_list@[k].coplanar).len() ==> {
                let c = #[trigger] optional_set_members(self.facet_list@[k].coplanar)[j];
                0 <= c.point_id < self.n_points ==> 0 <= c.nearest_vertex_point_id
                    < self.n_points
            }
    }

    /// The ridges collected by visiting every Voronoi ridge in turn.
    pub fn visit_all_voronoi(&self) -> (data: VoronoiData)
        requires
            self.well_formed(),
        ensures
            data.holds_ridges(self.ridges@),
    {
        let mut data = VoronoiData::new_vornoidata();
        let n = self.ridges.len();
        for k in 0..n
            invariant
                n == self.ridges@.len(),
                self.well_formed(),
                data.holds_ridges(self.ridges@.take(k as int)),
        {
            let ghost before = data;
            assert(no_overflowing_visit_id(self.ridges@[k as int].centers));
            data.visit_voronoi(&self.ridges[k]);
            assert forall|j: int| 0 <= j < k + 1 implies #[trigger] data.ridge_points@[j] == [
                self.ridges@.take(k + 1)[j].point1,
                self.ridges@.take(k + 1)[j].point2,
            ] by {
                if j < k {
                    assert(before.ridge_points@[j] == data.ridge_points@[j]);
                }
            }
            assert forall|j: int| 0 <= j < k + 1 implies #[trigger] data.ridge_vertices@[j]@
                == ridge_indices(self.ridges@.take(k + 1)[j]) by {
                if j < k {
                    assert(before.ridge_vertices@[j] == data.ridge_vertices@[j]);
                }
            }
        }
        assert(self.ridges@.take(n as int) =~= self.ridges@);
        data
    }
}

/// The region index of each input point after the vertices are visited in
/// order: the index of the last vertex at that point, or -1 when no vertex
/// is at it.
pub open spec fn initial_point_region(vertices: Seq<VertexNode>, n: nat) -> Seq<i32>
    decreases vertices.len(),
{
    if vertices.len() == 0 {
        Seq::new(n, |i: int| -1i32)
    } else {
        let before = initial_point_region(vertices.drop_last(), n);
        let v = vertices.last();
        if v.point_id < n {
            before.update(v.point_id as int, (vertices.len() - 1) as i32)
        } else {
            before
        }
    }
}

/// The region indices cover exactly the `n` input points.
pub proof fn lemma_initial_point_region_len(vertices: Seq<VertexNode>, n: nat)
    requires
        forall|k: int|
            0 <= k < vertices.len() && (#[trigger] vertices[k]).point_id < n ==> vertices[k].point_id
                >= 0,
    ensures
        initial_point_region(vertices, n).len() == n,
    decreases vertices.len(),
{
    if vertices.len() > 0 {
        let before = vertices.drop_last();
        assert forall|k: int|
            0 <= k < before.len() && (#[trigger] before[k]).point_id < n implies before[k].point_id
            >= 0 by {
            assert(before[k] == vertices[k]);
        }
        lemma_initial_point_region_len(before, n);
        assert(vertices[vertices.len() - 1] == vertices.last());
    }
}

/// The regions of the vertices, one per vertex, in list order.
pub open spec fn vertex_regions(vertices: Seq<VertexNode>) -> Seq<Seq<i32>> {
    vertices.map_values(|v: VertexNode| vertex_region(v))
}

impl<T> QHull<T> {
    /// The vertices that carry a region: the vertex list without its sentinel.
    pub open spec fn vertices(&self) -> Seq<VertexNode> {
        list_nodes(self.vertex_list@)
    }

    /// The facets of the diagram: the facet list without its sentinel.
    pub open spec fn facets(&self) -> Seq<FacetNode<T>> {
        list_nodes(self.facet_list@)
    }

    /// One region index per input point, each -1.
    pub fn new_point_region(&self) -> (point_region: PointRegion)
        requires
            self.well_formed(),
        ensures
            point_region@ == Seq::new(self.n_points as nat, |i: int| -1i32),
    {
        PointRegion::filled(self.n_points, -1)
    }

    /// The Voronoi region of each vertex, and the region index of each
    /// input point (-1 for a point with no vertex).
    pub fn calculate_regions(&self) -> (res: (Vec<Vec<i32>>, PointRegion))
        requires
            self.well_formed(),
        ensures
            res.0@.len() == self.vertices().len(),
            forall|k: int| 0 <= k < res.0@.len() ==> #[trigger] res.0@[k]@ == vertex_region(self.vertices()[k]),
            res.1@ == initial_point_region(self.vertices(), self.n_points as nat),
    {
        let ghost nodes = self.vertices();
        let n = self.n_points;
        let mut rs: Vec<Vec<i32>> = Vec::new();
        let mut pr = self.new_point_region();
        let mut it = VertexIter::new(&self.vertex_list);
        loop
            invariant
                nodes == self.vertices(),
                self.well_formed(),
                n == self.n_points,
                rs@.len() <= nodes.len(),
                it.remaining() == nodes.skip(rs@.len() as int),
                forall|k: int| 0 <= k < rs@.len() ==> #[trigger] rs@[k]@ == vertex_region(nodes[k]),
                pr@ == initial_point_region(nodes.take(rs@.len() as int), n as nat),
            ensures
                rs@.len() == nodes.len(),
                forall|k: int| 0 <= k < rs@.len() ==> #[trigger] rs@[k]@ == vertex_region(nodes[k]),
                pr@ == initial_point_region(nodes.take(rs@.len() as int), n as nat),
            decreases nodes.len() - rs@.len(),
        {
            let ghost k = rs@.len() as int;
            match it.next() {
                None => {
                    break;
                },
                Some(vertex) => {
                    assert(nodes.skip(k)[0] == nodes[k]);
                    assert(nodes.skip(k).drop_first() =~= nodes.skip(k + 1));
                    assert(nodes[k] == self.vertex_list@[k]);
                    assert(nodes.take(k + 1).drop_last() =~= nodes.take(k));
                    assert(nodes.take(k + 1).last() == nodes[k]);
                    let i = vertex.point_id;
                    proof {
                        let t = nodes.take(k);
                        assert forall|j: int|
                            0 <= j < t.len() && (#[trigger] t[j]).point_id < n implies t[j].point_id
                            >= 0 by {
                            assert(t[j] == self.vertex_list@[j]);
                        }
                        lemma_initial_point_region_len(t, n as nat);
                    }
                    if i < n as i32 {
                        pr.set(i as usize, rs.len() as i32);
                    }
                    let region = current_region(vertex);
                    rs.push(region);
                },
            }
        }
        assert(nodes.take(nodes.len() as int) =~= nodes);
        (rs, pr)
    }
}

/// The region indices after each coplanar point, in order, takes over the
/// region of the input point at its nearest vertex (points that are not
/// input points, such as qhull's point at infinity, are passed over).
pub open spec fn coplanar_reassign(region: Seq<i32>, points: Seq<CoplanarPoint>, n: nat) -> Seq<i32>
    decreases points.len(),
{
    if points.len() == 0 {
        region
    } else {
        let before = coplanar_reassign(region, points.drop_last(), n);
        let c = points.last();
        if 0 <= c.point_id < n {
            before.update(c.point_id as int, before[c.nearest_vertex_point_id as int])
        } else {
            before
        }
    }
}

/// The vertex buffer after the center of each facet that has a Voronoi
/// vertex is written at the facet's visit id, in list order.
pub open spec fn centers_written<T>(facets: Seq<FacetNode<T>>) -> Seq<Option<T>>
    decreases facets.len(),
{
    if facets.len() == 0 {
        Seq::empty()
    } else {
        let before = centers_written(facets.drop_last());
        let f = facets.last();
        if f.visit_id > 0 {
            buffer_write(before, f.center, f.visit_id as nat)
        } else {
            before
        }
    }
}

impl<T> QHull<T> {
    /// The Voronoi vertices, slot by slot: `Some(center)` for a slot that a
    /// facet's visit id names (the last such facet in list order), `None`
    /// for a slot that none names.
    pub open spec fn vertex_slots(&self) -> Seq<Option<T>> {
        centers_written(self.facets())
    }

    /// The region index of each input point in the diagram.
    pub open spec fn point_regions(&self) -> Seq<i32> {
        coplanar_reassign(
            initial_point_region(self.vertices(), self.n_points as nat),
            coplanar_sequence(self.facets()),
            self.n_points as nat,
        )
    }
}

impl<T: Copy + Default> QHull<T> {
    /// The Voronoi diagram: its vertices (indexed by visit id - 1; a slot
    /// that no facet names holds `T::default()`), the pair of input points
    /// and the Voronoi vertex indices of each ridge, the region of each
    /// qhull vertex, and the region index of each input point.
    pub fn get_voronoi_diagram(&self) -> (diagram: (
        Vec<T>,
        Vec<[i32; 2]>,
        Vec<Vec<i32>>,
        Vec<Vec<i32>>,
        PointRegion,
    ))
        requires
            self.well_formed(),
        ensures
            diagram.0@.len() == self.vertex_slots().len(),
            forall|k: int|
                0 <= k < diagram.0@.len() ==> (match #[trigger] self.vertex_slots()[k] {
                    Some(x) => diagram.0@[k] == x,
                    None => call_ensures(T::default, (), diagram.0@[k]),
                }),
            diagram.1@.len() == self.ridges@.len(),
            diagram.2@.len() == self.ridges@.len(),
            forall|k: int|
                0 <= k < self.ridges@.len() ==> #[trigger] diagram.1@[k] == [
                    self.ridges@[k].point1,
                    self.ridges@[k].point2,
                ],
            forall|k: int|
                0 <= k < self.ridges@.len() ==> #[trigger] diagram.2@[k]@ == ridge_indices(
                    self.ridges@[k],
                ),
            diagram.3@.len() == self.vertices().len(),
            forall|k: int|
                0 <= k < diagram.3@.len() ==> #[trigger] diagram.3@[k]@ == vertex_region(
                    self.vertices()[k],
                ),
            diagram.4@ == self.point_regions(),
    {
        let data = self.visit_all_voronoi();
        let (regions, mut point_region) = self.calculate_regions();
        proof {
            let vs = self.vertices();
            assert forall|j: int|
                0 <= j < vs.len() && (#[trigger] vs[j]).point_id < self.n_points implies vs[j].point_id
                >= 0 by {
                assert(vs[j] == self.vertex_list@[j]);
            }
            lemma_initial_point_region_len(vs, self.n_points as nat);
            assert(vs.take(vs.len() as int) =~= vs);
        }
        let ghost region0 = point_region@;
        let ghost facets = self.facets();
        let n = self.n_points;
        let mut buffer: VecBuffer<T> = VecBuffer::new(10);
        let mut facet_iter = FacetIter::new(&self.facet_list);
        let ghost mut k: int = 0;
        loop
            invariant
                facets == self.facets(),
                self.well_formed(),
                n == self.n_points,
                0 <= k <= facets.len(),
                facet_iter.remaining() == facets.skip(k),
                buffer@ == centers_written(facets.take(k)),
                point_region@.len() == n,
                point_region@ == coplanar_reassign(region0, coplanar_sequence(facets.take(k)), n as nat),
            ensures
                k == facets.len(),
                buffer@ == centers_written(facets.take(k)),
                point_region@ == coplanar_reassign(region0, coplanar_sequence(facets.take(k)), n as nat),
            decreases facets.len() - k,
        {
            match facet_iter.next() {
                None => {
                    break;
                },
                Some(facet) => {
                    assert(facets.skip(k)[0] == facets[k]);
                    assert(facets.skip(k).drop_first() =~= facets.skip(k + 1));
                    assert(facets[k] == self.facet_list@[k]);
                    assert(facets.take(k + 1).drop_last() =~= facets.take(k));
                    assert(facets.take(k + 1).last() == facets[k]);
                    if facet.visit_id > 0 {
                        buffer.write(facet.center, facet.visit_id);
                        let ghost prefix = coplanar_sequence(facets.take(k));
                        let ghost members = optional_set_members(facet.coplanar);
                        let mut points = SetIter::new(&facet.coplanar);
                        let ghost mut j: int = 0;
                        loop
                            invariant
                                self.well_formed(),
                                n == self.n_points,
                                0 <= k < self.facet_list@.len() - 1,
                                *facet == self.facet_list@[k],
                                facet.visit_id > 0,
                                members == optional_set_members(facet.coplanar),
                                0 <= j <= members.len(),
                                points@ == members.skip(j),
                                point_region@.len() == n,
                                point_region@ == coplanar_reassign(region0, prefix + members.take(j), n as nat),
                            ensures
                                point_region@.len() == n,
                                point_region@ == coplanar_reassign(region0, prefix + members, n as nat),
                            decreases members.len() - j,
                        {
                            match points.next() {
                                None => {
                                    assert(members.take(j) =~= members);
                                    break;
                                },
                                Some(c) => {
                                    assert(members.skip(j)[0] == members[j]);
                                    assert(members.skip(j).drop_first() =~= members.skip(j + 1));
                                    let ghost upto = prefix + members.take(j);
                                    assert((prefix + members.take(j + 1)).drop_last() =~= upto);
                                    assert((prefix + members.take(j + 1)).last() == c);
                                    let i = c.point_id;
                                    if 0 <= i && (i as usize) < n {
                                        assert(optional_set_members(self.facet_list@[k].coplanar)[j] == c);
                                        let r = point_region.get(c.nearest_vertex_point_id as usize);
                                        point_region.set(i as usize, r);
                                    }
                                    proof {
                                        j = j + 1;
                                    }
                                },
                            }
                        }
                        assert(coplanar_sequence(facets.take(k + 1)) =~= prefix + members);
                    }
                    proof {
                        k = k + 1;
                    }
                },
            }
        }
        assert(facets.take(k) =~= facets);
        let vertices = buffer.to_vec();
        let ridge_points = data.ridge_points;
        let ridge_vertices = data.ridge_vertices;
        (vertices, ridge_points, ridge_vertices, regions, point_region)
    }
}

/// How qhull's neighbour set of a vertex is put in order before its region
/// is read.
#[derive(Clone, Copy, Debug, PartialEq, Eq)]
pub enum NeighborOrder {
    /// `qh_order_vertexneighbors`: around the vertex (3-d hulls, 2-d input).
    AroundVertex,
    /// Sorted with `qh_compare_facetvisit` (hulls of 4 or more dimensions).
    ByVisitId,
    /// Left as qhull built it.
    Unchanged,
}

/// The ordering for a hull of dimension `nd` (one more than the dimension
/// of the input points).
pub fn neighbor_order(nd: i32) -> (order: NeighborOrder)
    ensures
        nd == 3 ==> order == NeighborOrder::AroundVertex,
        nd >= 4 ==> order == NeighborOrder::ByVisitId,
        nd < 3 ==> order == NeighborOrder::Unchanged,
{
    if nd == 3 {
        NeighborOrder::AroundVertex
    } else if nd >= 4 {
        NeighborOrder::ByVisitId
    } else {
        NeighborOrder::Unchanged
    }
}

/// Whether an index names a finite Voronoi vertex (not -1, the vertex at
/// infinity).
pub open spec fn is_finite_index(i: i32) -> bool {
    i != -1
}

/// Whether an index names the vertex at infinity.
pub open spec fn is_infinite_index(i: i32) -> bool {
    i == -1
}

proof fn lemma_keep_first_infinity(ids: Seq<i32>)
    ensures
        keep_first_infinity(ids).filter(|i: i32| is_finite_index(i)) == ids.filter(
            |i: i32| is_finite_index(i),
        ),
        keep_first_infinity(ids).contains(-1i32) <==> ids.contains(-1i32),
        keep_first_infinity(ids).filter(|i: i32| is_infinite_index(i)).len() == (if ids.contains(
            -1i32,
        ) {
            1int
        } else {
            0int
        }),
    decreases ids.len(),
{
    reveal_with_fuel(Seq::filter, 1);
    let fin = |i: i32| is_finite_index(i);
    let inf = |i: i32| is_infinite_index(i);
    if ids.len() > 0 {
        let rest = ids.drop_last();
        let c = ids.last();
        lemma_keep_first_infinity(rest);
        let kept = keep_first_infinity(rest);
        assert(ids =~= rest.push(c));
        lemma_push_contains(rest, c, -1i32);
        assert(ids.filter(fin) == (if fin(c) { rest.filter(fin).push(c) } else { rest.filter(fin) }));
        if !(c == -1 && kept.contains(-1i32)) {
            let pushed = kept.push(c);
            assert(pushed.drop_last() =~= kept);
            assert(pushed.last() == c);
            lemma_push_contains(kept, c, -1i32);
            assert(pushed.filter(fin) == (if fin(c) { kept.filter(fin).push(c) } else { kept.filter(fin) }));
            assert(pushed.filter(inf) == (if inf(c) { kept.filter(inf).push(c) } else { kept.filter(inf) }));
        }
    }
}

/// What a region keeps of its vertex's neighbour indices: every finite
/// index, in order; the vertex at infinity once when the neighbours
/// include it and at least one finite index, and not at all otherwise
/// (so a region is never made of the vertex at infinity alone).
pub proof fn lemma_region_from_indices(ids: Seq<i32>)
    ensures
        region_from_indices(ids).filter(|i: i32| is_finite_index(i)) == ids.filter(
            |i: i32| is_finite_index(i),
        ),
        region_from_indices(ids).filter(|i: i32| is_infinite_index(i)).len() == (if ids.contains(
            -1i32,
        ) && ids.filter(|i: i32| is_finite_index(i)).len() > 0 {
            1int
        } else {
            0int
        }),
        !(region_from_indices(ids).len() == 1 && region_from_indices(ids)[0] == -1),
{
    reveal_with_fuel(Seq::filter, 1);
    let fin = |i: i32| is_finite_index(i);
    let inf = |i: i32| is_infinite_index(i);
    lemma_keep_first_infinity(ids);
    let kept = keep_first_infinity(ids);
    if kept.len() == 1 && kept[0] == -1 {
        assert(kept.drop_last() =~= Seq::<i32>::empty());
        assert(kept.filter(fin) == kept.drop_last().filter(fin));
        assert(Seq::<i32>::empty().filter(fin) =~= Seq::<i32>::empty());
        assert(Seq::<i32>::empty().filter(inf) =~= Seq::<i32>::empty());
        assert(region_from_indices(ids) =~= Seq::<i32>::empty());
    } else {
        if ids.contains(-1i32) && ids.filter(fin).len() == 0 {
            // every index is -1, so only one is kept
            kept.lemma_filter_len(fin);
            assert(kept.filter(inf).len() == 1);
            lemma_only_infinity(kept);
        }
    }
}

/// A sequence with no finite index and exactly one infinite one is `[-1]`.
proof fn lemma_only_infinity(s: Seq<i32>)
    requires
        s.filter(|i: i32| is_finite_index(i)).len() == 0,
        s.filter(|i: i32| is_infinite_index(i)).len() == 1,
    ensures
        s.len() == 1 && s[0] == -1,
    decreases s.len(),
{
    reveal_with_fuel(Seq::filter, 1);
    let fin = |i: i32| is_finite_index(i);
    let inf = |i: i32| is_infinite_index(i);
    if s.len() == 0 {
    } else {
        let rest = s.drop_last();
        if fin(s.last()) {
            assert(s.filter(fin).len() == rest.filter(fin).len() + 1);
        } else {
            assert(rest.filter(inf).len() == 0);
            if rest.len() > 0 {
                assert(fin(rest.last()) || inf(rest.last()));
                if fin(rest.last()) {
                    assert(rest.filter(fin).len() > 0);
                } else {
                    assert(rest.filter(inf).len() > 0);
                }
            }
        }
    }
}

/// The region index of input point `p` after the vertices are visited:
/// -1 when no vertex is at `p`, and otherwise the index of the last vertex
/// at `p`.
pub proof fn lemma_initial_point_region(vertices: Seq<VertexNode>, n: nat, p: int)
    requires
        vertices.len() <= i32::MAX + 1,
        forall|k: int|
            0 <= k < vertices.len() && (#[trigger] vertices[k]).point_id < n ==> vertices[k].point_id
                >= 0,
        0 <= p < n,
    ensures
        ({
            let r = initial_point_region(vertices, n)[p] as int;
            ||| r == -1 && forall|k: int| 0 <= k < vertices.len() ==> (#[trigger] vertices[k]).point_id != p
            ||| 0 <= r < vertices.len() && vertices[r].point_id == p && forall|k: int|
                r < k < vertices.len() ==> (#[trigger] vertices[k]).point_id != p
        }),
    decreases vertices.len(),
{
    if vertices.len() > 0 {
        let rest = vertices.drop_last();
        assert forall|k: int|
            0 <= k < rest.len() && (#[trigger] rest[k]).point_id < n implies rest[k].point_id >= 0 by {
            assert(rest[k] == vertices[k]);
        }
        lemma_initial_point_region(rest, n, p);
        lemma_initial_point_region_len(rest, n);
        let last = vertices.len() - 1;
        assert(vertices[last] == vertices.last());
        assert forall|k: int| 0 <= k < rest.len() implies rest[k] == vertices[k] by {}
    } else {
    }
}

/// What the vertex buffer holds after the facets are written: it is as long
/// as the largest visit id; slot `k` is empty exactly when no facet has
/// visit id `k + 1`, and otherwise holds the center of the last facet that
/// has it.
pub proof fn lemma_centers_written<T>(facets: Seq<FacetNode<T>>)
    ensures
        forall|j: int|
            0 <= j < facets.len() ==> (#[trigger] facets[j]).visit_id <= centers_written(facets).len(),
        centers_written(facets).len() > 0 ==> exists|j: int|
            0 <= j < facets.len() && (#[trigger] facets[j]).visit_id == centers_written(facets).len(),
        forall|k: int|
            0 <= k < centers_written(facets).len() ==> ((#[trigger] centers_written(facets)[k]) is None
                <==> forall|j: int| 0 <= j < facets.len() ==> (#[trigger] facets[j]).visit_id != k + 1),
        forall|k: int, j: int|
            0 <= k < centers_written(facets).len() && 0 <= j < facets.len() && (#[trigger] facets[j]).visit_id
                == k + 1 && (forall|l: int| j < l < facets.len() ==> (#[trigger] facets[l]).visit_id != k + 1)
                ==> #[trigger] centers_written(facets)[k] == Some(facets[j].center),
    decreases facets.len(),
{
    if facets.len() > 0 {
        let rest = facets.drop_last();
        let f = facets.last();
        let last = facets.len() - 1;
        lemma_centers_written(rest);
        assert(facets[last] == f);
        assert forall|j: int| 0 <= j < rest.len() implies rest[j] == facets[j] by {}
        let before = centers_written(rest);
        let w = centers_written(facets);
        if f.visit_id > 0 {
            lemma_buffer_write(before, f.center, f.visit_id as nat);
            assert forall|j: int| 0 <= j < facets.len() implies (#[trigger] facets[j]).visit_id <= w.len() by {
                if j < last {
                    assert(rest[j] == facets[j]);
                }
            }
            if before.len() >= f.visit_id {
                if before.len() > 0 {
                    let j0 = choose|j: int| 0 <= j < rest.len() && (#[trigger] rest[j]).visit_id == before.len();
                    assert(facets[j0] == rest[j0]);
                }
            }
            assert forall|k: int| 0 <= k < w.len() implies ((#[trigger] w[k]) is None <==> forall|j: int|
                0 <= j < facets.len() ==> (#[trigger] facets[j]).visit_id != k + 1) by {
                if k < before.len() && k != f.visit_id - 1 {
                    if w[k] is None {
                        assert forall|j: int| 0 <= j < facets.len() implies (#[trigger] facets[j]).visit_id != k + 1 by {
                            if j < last {
                                assert(rest[j] == facets[j]);
                            }
                        }
                    } else {
                        let j0 = choose|j: int| 0 <= j < rest.len() && (#[trigger] rest[j]).visit_id == k + 1;
                        assert(facets[j0] == rest[j0]);
                    }
                } else if k != f.visit_id - 1 {
                    assert forall|j: int| 0 <= j < facets.len() implies (#[trigger] facets[j]).visit_id != k + 1 by {
                        if j < last {
                            assert(rest[j] == facets[j]);
                        }
                    }
                }
            }
            assert forall|k: int, j: int|
                0 <= k < w.len() && 0 <= j < facets.len() && (#[trigger] facets[j]).visit_id == k + 1 && (forall|l: int|
                    j < l < facets.len() ==> (#[trigger] facets[l]).visit_id != k + 1) implies #[trigger] w[k]
                == Some(facets[j].center) by {
                if j < last {
                    assert(facets[last].visit_id != k + 1);
                    assert(rest[j] == facets[j]);
                    assert forall|l: int| j < l < rest.len() implies (#[trigger] rest[l]).visit_id != k + 1 by {
                        assert(rest[l] == facets[l]);
                    }
                }
            }
        } else {
            assert forall|j: int| 0 <= j < facets.len() implies (#[trigger] facets[j]).visit_id <= w.len() by {
                if j < last {
                    assert(rest[j] == facets[j]);
                }
            }
            if w.len() > 0 {
                let j0 = choose|j: int| 0 <= j < rest.len() && (#[trigger] rest[j]).visit_id == before.len();
                assert(facets[j0] == rest[j0]);
            }
            assert forall|k: int| 0 <= k < w.len() implies ((#[trigger] w[k]) is None <==> forall|j: int|
                0 <= j < facets.len() ==> (#[trigger] facets[j]).visit_id != k + 1) by {
                if w[k] is None {
                    assert forall|j: int| 0 <= j < facets.len() implies (#[trigger] facets[j]).visit_id != k + 1 by {
                        if j < last {
                            assert(rest[j] == facets[j]);
                        }
                    }
                } else {
                    let j0 = choose|j: int| 0 <= j < rest.len() && (#[trigger] rest[j]).visit_id == k + 1;
                    assert(facets[j0] == rest[j0]);
                }
            }
            assert forall|k: int, j: int|
                0 <= k < w.len() && 0 <= j < facets.len() && (#[trigger] facets[j]).visit_id == k + 1 && (forall|l: int|
                    j < l < facets.len() ==> (#[trigger] facets[l]).visit_id != k + 1) implies #[trigger] w[k]
                == Some(facets[j].center) by {
                assert(j < last);
                assert(rest[j] == facets[j]);
                assert forall|l: int| j < l < rest.len() implies (#[trigger] rest[l]).visit_id != k + 1 by {
                    assert(rest[l] == facets[l]);
                }
            }
        }
    }
}

/// The index of a visit id: 0 (a facet without a Voronoi vertex) gives -1,
/// the vertex at infinity, and no other visit id does; a visit id from 1 to
/// `i32::MAX` gives one less; a larger one is first read as a negative
/// `c_int` (less `2^32`).
pub proof fn lemma_visit_index(v: u32)
    ensures
        v == 0 ==> visit_index(v) == -1,
        1 <= v <= i32::MAX ==> visit_index(v) == v - 1,
        v > i32::MAX && !overflowing_visit_id(v) ==> visit_index(v) == v - 0x1_0000_0001,
        !overflowing_visit_id(v) ==> (visit_index(v) == -1 <==> v == 0),
{
}

/// The indices of a sequence of visit ids are, one for one, the index of
/// each visit id.
pub proof fn lemma_visit_indices(ids: Seq<u32>)
    ensures
        visit_indices(ids).len() == ids.len(),
        forall|k: int| 0 <= k < ids.len() ==> #[trigger] visit_indices(ids)[k] == visit_index(ids[k]),
{
}

/// The vertex indices recorded for a ridge are, one for one and in order,
/// its centers' visit ids less one (0 giving -1, the vertex at infinity).
pub proof fn lemma_ridge_indices(ridge: Ridge)
    requires
        no_overflowing_visit_id(ridge.centers),
    ensures
        ridge_indices(ridge).len() == optional_set_members(ridge.centers).len(),
        forall|k: int|
            0 <= k < optional_set_members(ridge.centers).len() ==> #[trigger] ridge_indices(ridge)[k]
                == visit_index(optional_set_members(ridge.centers)[k]),
        forall|k: int|
            0 <= k < optional_set_members(ridge.centers).len() && 1 <= optional_set_members(
                ridge.centers,
            )[k] <= i32::MAX ==> #[trigger] ridge_indices(ridge)[k] == optional_set_members(
                ridge.centers,
            )[k] - 1,
        forall|k: int|
            0 <= k < optional_set_members(ridge.centers).len() ==> (#[trigger] ridge_indices(ridge)[k]
                == -1 <==> optional_set_members(ridge.centers)[k] == 0),
{
    let m = optional_set_members(ridge.centers);
    assert forall|k: int| 0 <= k < m.len() implies (#[trigger] ridge_indices(ridge)[k] == -1 <==> m[k]
        == 0) by {
        lemma_visit_index(m[k]);
    }
}

/// One coplanar point's step: a point that is an input point takes the
/// region index held at its nearest vertex's point, and every other entry
/// stays; a point that is not an input point changes nothing.
pub proof fn lemma_coplanar_reassign_step(
    region: Seq<i32>,
    points: Seq<CoplanarPoint>,
    c: CoplanarPoint,
    n: nat,
)
    requires
        coplanar_reassign(region, points, n).len() == n,
        0 <= c.point_id < n ==> 0 <= c.nearest_vertex_point_id < n,
    ensures
        ({
            let before = coplanar_reassign(region, points, n);
            let after = coplanar_reassign(region, points.push(c), n);
            &&& after.len() == n
            &&& 0 <= c.point_id < n ==> after[c.point_id as int] == before[c.nearest_vertex_point_id as int]
            &&& forall|i: int| 0 <= i < n && i != c.point_id ==> #[trigger] after[i] == before[i]
        }),
{
    assert(points.push(c).drop_last() =~= points);
    assert(points.push(c).last() == c);
}

/// The region index of each input point never changes length under the
/// coplanar pass, when each coplanar input point has its nearest vertex at
/// an input point.
pub proof fn lemma_coplanar_reassign_len(region: Seq<i32>, points: Seq<CoplanarPoint>, n: nat)
    requires
        region.len() == n,
        forall|k: int|
            0 <= k < points.len() && 0 <= (#[trigger] points[k]).point_id < n ==> 0
                <= points[k].nearest_vertex_point_id < n,
    ensures
        coplanar_reassign(region, points, n).len() == n,
    decreases points.len(),
{
    if points.len() > 0 {
        let rest = points.drop_last();
        assert forall|k: int|
            0 <= k < rest.len() && 0 <= (#[trigger] rest[k]).point_id < n implies 0
                <= rest[k].nearest_vertex_point_id < n by {
            assert(rest[k] == points[k]);
        }
        lemma_coplanar_reassign_len(region, rest, n);
    }
}

/// A sequence of indices has no finite index exactly when every one of
/// them is -1.
proof fn lemma_no_finite_index(ids: Seq<i32>)
    ensures
        ids.filter(|i: i32| is_finite_index(i)).len() == 0 <==> forall|k: int|
            0 <= k < ids.len() ==> #[trigger] ids[k] == -1,
{
    let fin = |i: i32| is_finite_index(i);
    if ids.filter(fin).len() == 0 {
        assert forall|k: int| 0 <= k < ids.len() implies #[trigger] ids[k] == -1 by {
            if ids[k] != -1 {
                ids.lemma_filter_contains(fin, k);
                assert(ids.filter(fin).contains(ids[k]));
            }
        }
    } else {
        lemma_finite_index_found(ids);
    }
}

/// A sequence of indices with a finite part holds a finite index.
proof fn lemma_finite_index_found(ids: Seq<i32>)
    requires
        ids.filter(|i: i32| is_finite_index(i)).len() > 0,
    ensures
        exists|k: int| 0 <= k < ids.len() && #[trigger] ids[k] != -1,
    decreases ids.len(),
{
    reveal_with_fuel(Seq::filter, 1);
    let rest = ids.drop_last();
    if ids.last() != -1 {
        assert(ids[ids.len() - 1] != -1);
    } else {
        lemma_finite_index_found(rest);
        let k = choose|k: int| 0 <= k < rest.len() && #[trigger] rest[k] != -1;
        assert(ids[k] == rest[k]);
    }
}

/// A sequence of indices made of finite indices and -1s is as long as its
/// finite part and its -1 part together.
proof fn lemma_index_filters_len(s: Seq<i32>)
    ensures
        s.filter(|i: i32| is_finite_index(i)).len() + s.filter(|i: i32| is_infinite_index(i)).len()
            == s.len(),
    decreases s.len(),
{
    reveal_with_fuel(Seq::filter, 1);
    if s.len() > 0 {
        lemma_index_filters_len(s.drop_last());
    }
}

/// The region of a qhull vertex, over its neighbours' visit ids: it keeps
/// the index (visit id - 1) of every neighbour with a Voronoi vertex, in
/// neighbour order; it holds the vertex at infinity (-1) once when some
/// neighbour has no Voronoi vertex (visit id 0) and another has one, and
/// not at all otherwise; and it is empty exactly when no neighbour has a
/// Voronoi vertex.
pub proof fn lemma_vertex_region(vertex: VertexNode)
    requires
        no_overflowing_visit_id(vertex.neighbors),
    ensures
        ({
            let m = optional_set_members(vertex.neighbors);
            let r = vertex_region(vertex);
            &&& r.filter(|i: i32| is_finite_index(i)) == m.map_values(|v: u32| visit_index(v)).filter(
                |i: i32| is_finite_index(i),
            )
            &&& r.filter(|i: i32| is_infinite_index(i)).len() == (if (exists|k: int|
                0 <= k < m.len() && #[trigger] m[k] == 0) && (exists|k: int|
                0 <= k < m.len() && #[trigger] m[k] != 0) {
                1int
            } else {
                0int
            })
            &&& r.len() == 0 <==> forall|k: int| 0 <= k < m.len() ==> #[trigger] m[k] == 0
        }),
{
    let fin = |i: i32| is_finite_index(i);
    let inf = |i: i32| is_infinite_index(i);
    let m = optional_set_members(vertex.neighbors);
    let ids = visit_indices(m);
    let r = vertex_region(vertex);
    assert(ids =~= m.map_values(|v: u32| visit_index(v)));
    lemma_region_from_indices(ids);
    lemma_no_finite_index(ids);
    lemma_index_filters_len(r);
    assert forall|k: int| 0 <= k < m.len() implies (#[trigger] ids[k] == -1 <==> m[k] == 0) by {
        lemma_visit_index(m[k]);
    }
    if ids.contains(-1i32) {
        let k = choose|k: int| 0 <= k < ids.len() && ids[k] == -1;
        assert(m[k] == 0);
    }
    if exists|k: int| 0 <= k < m.len() && #[trigger] m[k] == 0 {
        let k = choose|k: int| 0 <= k < m.len() && #[trigger] m[k] == 0;
        assert(ids[k] == -1);
        assert(ids.contains(-1i32));
    }
    if exists|k: int| 0 <= k < m.len() && #[trigger] m[k] != 0 {
        let k = choose|k: int| 0 <= k < m.len() && #[trigger] m[k] != 0;
        assert(ids[k] != -1);
    }
    if forall|k: int| 0 <= k < m.len() ==> #[trigger] m[k] == 0 {
        assert forall|k: int| 0 <= k < ids.len() implies #[trigger] ids[k] == -1 by {
            assert(m[k] == 0);
        }
    }
    if r.len() == 0 {
        assert(r.filter(fin).len() == 0) by {
            reveal_with_fuel(Seq::filter, 1);
        }
    }
}

/// The coplanar pass visits the coplanar points of facets in list order:
/// a facet with a Voronoi vertex adds its coplanar points, in set order,
/// after those of the facets before it; a facet without one adds none.
pub proof fn lemma_coplanar_sequence_step<T>(facets: Seq<FacetNode<T>>, f: FacetNode<T>)
    ensures
        f.visit_id > 0 ==> coplanar_sequence(facets.push(f)) == coplanar_sequence(facets)
            + optional_set_members(f.coplanar),
        f.visit_id == 0 ==> coplanar_sequence(facets.push(f)) == coplanar_sequence(facets),
        coplanar_sequence(Seq::<FacetNode<T>>::empty()).len() == 0,
{
    assert(facets.push(f).drop_last() =~= facets);
    assert(facets.push(f).last() == f);
}

} // verus!
