use rqhull::voronoi::{
    current_region, neighbor_order, region_index, CoplanarPoint, FacetNode, NeighborOrder, Ridge,
    VertexNode, VoronoiData,
};
use rqhull::QHull;

fn vertex(point_id: i32, ids: &[u32]) -> VertexNode {
    VertexNode { point_id, neighbors: Some(ids.iter().map(|&v| Some(v)).collect()) }
}

fn sample() -> QHull<[f64; 2]> {
    QHull {
        n_points: 4,
        vertex_list: vec![
            vertex(0, &[0, 1, 2]),
            vertex(1, &[1, 0, 2, 0]),
            vertex(3, &[0]),
            VertexNode { point_id: 0, neighbors: None },
        ],
        facet_list: vec![
            FacetNode {
                visit_id: 1,
                center: [0.5, 0.5],
                coplanar: Some(vec![
                    Some(CoplanarPoint { point_id: 2, nearest_vertex_point_id: 1 }),
                    None,
                    Some(CoplanarPoint { point_id: 0, nearest_vertex_point_id: 3 }),
                ]),
            },
            FacetNode { visit_id: 2, center: [1.5, 0.5], coplanar: None },
            FacetNode {
                visit_id: 0,
                center: [9.0, 9.0],
                coplanar: Some(vec![Some(CoplanarPoint { point_id: 0, nearest_vertex_point_id: 3 })]),
            },
            FacetNode { visit_id: 0, center: [0.0, 0.0], coplanar: None },
        ],
        ridges: vec![
            Ridge { point1: 0, point2: 1, centers: Some(vec![Some(1), Some(2)]) },
            Ridge { point1: 1, point2: 3, centers: Some(vec![Some(0), Some(2), None, Some(5)]) },
        ],
    }
}

#[test]
fn visit_id_to_index() {
    assert_eq!(region_index(0), -1);
    assert_eq!(region_index(1), 0);
    assert_eq!(region_index(17), 16);
    assert_eq!(region_index(0x7fff_ffff), 0x7fff_fffe);
    assert_eq!(region_index(0xffff_ffff), -2);
    assert_eq!(region_index(0x8000_0001), i32::MIN);
}

#[test]
fn region_keeps_first_infinity_only() {
    assert_eq!(current_region(&vertex(0, &[0, 3, 0, 4, 0])), vec![-1, 2, 3]);
    assert_eq!(current_region(&vertex(0, &[2, 0, 1])), vec![1, -1, 0]);
}

#[test]
fn region_of_infinity_alone_is_empty() {
    assert!(current_region(&vertex(0, &[0])).is_empty());
    assert!(current_region(&vertex(0, &[0, 0, 0])).is_empty());
}

#[test]
fn region_of_a_vertex_without_neighbours_is_empty() {
    assert!(current_region(&VertexNode { point_id: 0, neighbors: None }).is_empty());
    assert!(current_region(&VertexNode { point_id: 0, neighbors: Some(vec![None, Some(3)]) }).is_empty());
}

#[test]
fn region_stops_at_null_neighbour() {
    let v = VertexNode { point_id: 0, neighbors: Some(vec![Some(3), Some(4), None, Some(5)]) };
    assert_eq!(current_region(&v), vec![2, 3]);
}

#[test]
fn ridges_are_recorded_in_order() {
    let mut data = VoronoiData::new_vornoidata();
    data.visit_voronoi(&Ridge { point1: 2, point2: 5, centers: Some(vec![Some(3), Some(1)]) });
    data.visit_voronoi(&Ridge { point1: 5, point2: 0, centers: Some(vec![Some(0), Some(4)]) });
    assert_eq!(data.nridges, 2);
    assert_eq!(data.ridge_points, vec![[2, 5], [5, 0]]);
    assert_eq!(data.ridge_vertices, vec![vec![2, 0], vec![-1, 3]]);
}

#[test]
fn all_ridges_are_visited() {
    let data = sample().visit_all_voronoi();
    assert_eq!(data.nridges, 2);
    assert_eq!(data.ridge_points, vec![[0, 1], [1, 3]]);
    assert_eq!(data.ridge_vertices, vec![vec![0, 1], vec![-1, 1]]);
}

#[test]
fn regions_and_point_regions() {
    let (regions, point_region) = sample().calculate_regions();
    assert_eq!(regions, vec![vec![-1, 0, 1], vec![0, -1, 1], vec![]]);
    assert_eq!(point_region.to_vec(), vec![0, 1, -1, 2]);
}

#[test]
fn point_region_names_the_last_vertex_at_a_point() {
    let q: QHull<[f64; 2]> = QHull {
        n_points: 3,
        vertex_list: vec![vertex(1, &[1]), vertex(1, &[2]), vertex(5, &[1]), vertex(0, &[])],
        facet_list: vec![FacetNode { visit_id: 0, center: [0.0, 0.0], coplanar: None }],
        ridges: vec![],
    };
    let (regions, point_region) = q.calculate_regions();
    assert_eq!(regions.len(), 3);
    assert_eq!(point_region.to_vec(), vec![-1, 1, -1]);
    assert_eq!(point_region.len(), 3);
    assert_eq!(point_region.get(1), 1);
}

#[test]
fn voronoi_diagram_of_sample() {
    let (vertices, ridge_points, ridge_vertices, regions, point_region) = sample().get_voronoi_diagram();
    assert_eq!(vertices, vec![[0.5, 0.5], [1.5, 0.5]]);
    assert_eq!(ridge_points, vec![[0, 1], [1, 3]]);
    assert_eq!(ridge_vertices, vec![vec![0, 1], vec![-1, 1]]);
    assert_eq!(regions, vec![vec![-1, 0, 1], vec![0, -1, 1], vec![]]);
    assert_eq!(point_region.to_vec(), vec![0, 1, 1, 2]);
}

#[test]
fn coplanar_points_outside_the_input_are_passed_over() {
    let q: QHull<[f64; 2]> = QHull {
        n_points: 2,
        vertex_list: vec![vertex(0, &[1]), vertex(1, &[1]), vertex(0, &[])],
        facet_list: vec![
            FacetNode {
                visit_id: 1,
                center: [2.0, 3.0],
                coplanar: Some(vec![
                    Some(CoplanarPoint { point_id: 2, nearest_vertex_point_id: 7 }),
                    Some(CoplanarPoint { point_id: -3, nearest_vertex_point_id: 7 }),
                    Some(CoplanarPoint { point_id: 0, nearest_vertex_point_id: 1 }),
                ]),
            },
            FacetNode { visit_id: 0, center: [0.0, 0.0], coplanar: None },
        ],
        ridges: vec![],
    };
    let (vertices, ridge_points, ridge_vertices, _regions, point_region) = q.get_voronoi_diagram();
    assert_eq!(vertices, vec![[2.0, 3.0]]);
    assert!(ridge_points.is_empty());
    assert!(ridge_vertices.is_empty());
    assert_eq!(point_region.to_vec(), vec![1, 1]);
}

#[test]
fn vertex_slots_follow_visit_ids() {
    let q: QHull<[f64; 2]> = QHull {
        n_points: 1,
        vertex_list: vec![vertex(0, &[])],
        facet_list: vec![
            FacetNode { visit_id: 3, center: [3.0, 3.0], coplanar: None },
            FacetNode { visit_id: 1, center: [1.0, 1.0], coplanar: None },
            FacetNode { visit_id: 1, center: [1.5, 1.5], coplanar: None },
            FacetNode { visit_id: 0, center: [0.0, 0.0], coplanar: None },
        ],
        ridges: vec![],
    };
    let (vertices, _, _, regions, point_region) = q.get_voronoi_diagram();
    assert_eq!(vertices, vec![[1.5, 1.5], [0.0, 0.0], [3.0, 3.0]]);
    assert!(regions.is_empty());
    assert_eq!(point_region.to_vec(), vec![-1]);
}

#[test]
fn neighbour_order_by_hull_dimension() {
    assert_eq!(neighbor_order(3), NeighborOrder::AroundVertex);
    assert_eq!(neighbor_order(4), NeighborOrder::ByVisitId);
    assert_eq!(neighbor_order(7), NeighborOrder::ByVisitId);
    assert_eq!(neighbor_order(2), NeighborOrder::Unchanged);
    assert_eq!(neighbor_order(0), NeighborOrder::Unchanged);
}
