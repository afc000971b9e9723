use rust_ds::SegmentTree;
use rust_ds::SumNode;

enum Operation {
    Update { left: usize, right: usize, delta: i64 },
    Query { left: usize, right: usize },
}

#[test]
fn segment_tree() {
    let arr: Vec<i64> = vec![4, 5, 2, 1, 0, 13, 2, 4, 4];
    let operations: Vec<(Operation, Option<i64>)> = vec![
        (Operation::Query { left: 0, right: 4 }, Some(12)),
        (Operation::Query { left: 1, right: 3 }, Some(8)),
        (Operation::Update { left: 1, right: 3, delta: 3 }, None),
        (Operation::Query { left: 0, right: 4 }, Some(21)),
        (Operation::Query { left: 1, right: 3 }, Some(17)),
    ];

    let mut st: SegmentTree<SumNode> = SegmentTree::new(&arr);

    for operation in operations {
        match operation.0 {
            Operation::Update { left, right, delta } => {
                st.update(left, right, &delta);
            }
            Operation::Query { left, right } => {
                let query_res = st.query(left, right);
                assert_eq!(query_res, operation.1.unwrap());
            }
        }
    }
}

#[test]
fn segment_tree_single_element_and_empty_range() {
    let arr: Vec<i64> = vec![7];
    let mut st: SegmentTree<SumNode> = SegmentTree::new(&arr);
    assert_eq!(st.query(0, 0), 7);
    st.update(0, 0, &-10);
    assert_eq!(st.query(0, 0), -3);
    assert_eq!(st.query(1, 5), 0);
}

#[test]
fn segment_tree_overlapping_updates() {
    let arr: Vec<i64> = vec![1, 2, 3, 4, 5, 6];
    let mut st: SegmentTree<SumNode> = SegmentTree::new(&arr);
    st.update(0, 5, &1);
    st.update(2, 3, &10);
    assert_eq!(st.query(0, 5), 21 + 6 + 20);
    assert_eq!(st.query(3, 3), 15);
    assert_eq!(st.query(4, 100), 13);
}
