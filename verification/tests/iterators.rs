use rqhull::voronoi::{FacetNode, VertexNode};
use rqhull::{FacetIter, SetIter, VecBuffer, VertexIter};

fn drain(it: &mut SetIter<'_, u32>) -> Vec<u32> {
    let mut out = Vec::new();
    while let Some(x) = it.next() {
        out.push(x);
    }
    out
}

#[test]
fn null_set_has_no_members() {
    let set: Option<Vec<Option<u32>>> = None;
    let mut it = SetIter::new(&set);
    assert_eq!(it.next(), None);
}

#[test]
fn set_ends_at_the_first_null_entry() {
    let set = Some(vec![Some(3), Some(1), None, Some(7)]);
    let mut it = SetIter::new(&set);
    assert_eq!(drain(&mut it), vec![3, 1]);
}

#[test]
fn set_without_null_entry_ends_at_its_end() {
    let set = Some(vec![Some(4), Some(5)]);
    let mut it = SetIter::new(&set);
    assert_eq!(drain(&mut it), vec![4, 5]);
}

#[test]
fn set_walk_stays_finished() {
    let set = Some(vec![Some(2), None, Some(9)]);
    let mut it = SetIter::new(&set);
    assert_eq!(it.next(), Some(2));
    assert_eq!(it.next(), None);
    assert_eq!(it.next(), None);
}

#[test]
fn vertex_walk_skips_the_sentinel() {
    let list = vec![
        VertexNode { point_id: 4, neighbors: None },
        VertexNode { point_id: 7, neighbors: None },
        VertexNode { point_id: -9, neighbors: None },
    ];
    let mut it = VertexIter::new(&list);
    assert_eq!(it.next().map(|v| v.point_id), Some(4));
    assert_eq!(it.next().map(|v| v.point_id), Some(7));
    assert!(it.next().is_none());
    assert!(it.next().is_none());
}

#[test]
fn list_of_only_the_sentinel_is_empty() {
    let list = vec![FacetNode { visit_id: 3, center: [0.0f64, 0.0], coplanar: None }];
    let mut it = FacetIter::new(&list);
    assert!(it.next().is_none());
}

#[test]
fn facet_walk_hands_out_facets_in_order() {
    let list = vec![
        FacetNode { visit_id: 1, center: [1.0f64, 2.0], coplanar: None },
        FacetNode { visit_id: 0, center: [3.0f64, 4.0], coplanar: None },
        FacetNode { visit_id: 0, center: [0.0f64, 0.0], coplanar: None },
    ];
    let mut it = FacetIter::new(&list);
    assert_eq!(it.next().map(|f| f.center), Some([1.0, 2.0]));
    assert_eq!(it.next().map(|f| f.visit_id), Some(0));
    assert!(it.next().is_none());
}

#[test]
fn buffer_places_items_by_one_based_place() {
    let mut b: VecBuffer<[f64; 2]> = VecBuffer::new(10);
    b.write([0.5, 0.5], 1);
    b.write([1.5, 0.5], 2);
    assert_eq!(b.to_vec(), vec![[0.5, 0.5], [1.5, 0.5]]);
}

#[test]
fn buffer_grows_past_its_capacity_and_out_of_order() {
    let mut b: VecBuffer<i64> = VecBuffer::new(1);
    b.write(30, 3);
    b.write(10, 1);
    b.write(20, 2);
    assert_eq!(b.to_vec(), vec![10, 20, 30]);
}

#[test]
fn buffer_later_write_replaces_earlier() {
    let mut b: VecBuffer<i64> = VecBuffer::new(4);
    b.write(1, 2);
    b.write(5, 2);
    assert_eq!(b.to_vec(), vec![0, 5]);
}

#[test]
fn buffer_unwritten_slots_read_as_default() {
    let mut b: VecBuffer<[f64; 2]> = VecBuffer::new(2);
    b.write([7.0, 8.0], 4);
    assert_eq!(b.to_vec(), vec![[0.0, 0.0], [0.0, 0.0], [0.0, 0.0], [7.0, 8.0]]);
}

#[test]
fn empty_buffer_gives_empty_vec() {
    let b: VecBuffer<u8> = VecBuffer::new(10);
    assert!(b.to_vec().is_empty());
}
