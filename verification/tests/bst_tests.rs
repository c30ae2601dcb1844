use algos::bst::binary_heap::MaxHeap;
use algos::bst::binary_heap::MinHeap;
use algos::bst::fenwick_tree::FenwickTree;
use algos::bst::segment_tree::SegmentTree;

#[test]
fn min_heap_unit_1() {
    let mut heap = MinHeap::with_capacity(11);

    heap.insert_key(3);
    heap.insert_key(2);
    heap.delete_key(1);
    heap.insert_key(15);
    heap.insert_key(5);
    heap.insert_key(4);
    heap.insert_key(45);

    assert_eq!(heap.extract_min(), 2);
    assert_eq!(heap.get_min(), 4);

    heap.decrease_key(2, 1);

    assert_eq!(heap.get_min(), 1);
}

#[test]
fn max_heap_unit_1() {
    let mut heap = MaxHeap::with_capacity(11);

    heap.insert_key(3);
    heap.insert_key(2);
    heap.delete_key(1);
    heap.insert_key(15);
    heap.insert_key(5);
    heap.insert_key(4);
    heap.insert_key(45);

    assert_eq!(heap.extract_max(), 45);
    assert_eq!(heap.get_max(), 15);

    heap.increase_key(2, 44);

    assert_eq!(heap.get_max(), 44);
}

#[test]
fn min_heap_extracts_in_order() {
    let mut heap = MinHeap::build(&vec![9, 4, 7, 1, 8, 2]);
    let mut out = Vec::new();
    for _ in 0..6 {
        out.push(heap.extract_min());
    }
    assert_eq!(out, [1, 2, 4, 7, 8, 9]);
    assert_eq!(heap.extract_min(), i64::MAX);
}

#[test]
fn max_heap_extracts_in_order() {
    let mut heap = MaxHeap::build(&vec![9, 4, 7, 1, 8, 2]);
    let mut out = Vec::new();
    for _ in 0..6 {
        out.push(heap.extract_max());
    }
    assert_eq!(out, [9, 8, 7, 4, 2, 1]);
    assert_eq!(heap.extract_max(), i64::MIN);
}

#[test]
fn min_heap_full_insert_is_ignored() {
    let mut heap = MinHeap::with_capacity(2);
    heap.insert_key(5);
    heap.insert_key(3);
    heap.insert_key(1);
    assert_eq!(heap.extract_min(), 3);
    assert_eq!(heap.extract_min(), 5);
    assert_eq!(heap.extract_min(), i64::MAX);
}

#[test]
fn fenwick_tree_unit_1() {
    let mut ft = FenwickTree::build(&vec![0; 5]);

    ft.add(1, 1);
    ft.add(2, 2);
    ft.add(3, 1);

    assert_eq!(ft.sum(0, 0), 0);
    assert_eq!(ft.sum(1, 1), 1);
    assert_eq!(ft.sum(2, 2), 2);
    assert_eq!(ft.sum(3, 3), 1);
    assert_eq!(ft.sum(4, 4), 0);
    assert_eq!(ft.sum(0, 4), 4);
}

#[test]
fn fenwick_tree_built_values() {
    let ft = FenwickTree::build(&vec![3, -1, 4, 1, -5]);
    assert_eq!(ft.sum(0, 4), 2);
    assert_eq!(ft.sum(1, 3), 4);
    assert_eq!(ft.sum(2, 2), 4);
}

#[test]
fn segment_tree_unit_1() {
    let mut st = SegmentTree::build(&vec![1; 5]);

    st.update(1, 2);
    st.update(2, 3);
    st.update(3, 4);

    assert_eq!(st.product(0, 0), 1);
    assert_eq!(st.product(1, 1), 2);
    assert_eq!(st.product(2, 2), 3);
    assert_eq!(st.product(3, 3), 4);
    assert_eq!(st.product(4, 4), 1);
    assert_eq!(st.product(0, 4), 24);
}

#[test]
fn segment_tree_size_rounds_up() {
    let st = SegmentTree::with_capacity(5);
    assert_eq!(st.size(), 8);
    let one = SegmentTree::with_capacity(1);
    assert_eq!(one.size(), 1);
}
