use rust_ds::{SegmentTree, SegmentTreeBmp, SumNode};

#[test]
fn bumped_tree_matches_scenario() {
    let arr: Vec<i64> = vec![4, 5, 2, 1, 0, 13, 2, 4, 4];
    let mut st: SegmentTreeBmp<SumNode> = SegmentTreeBmp::new(&arr);
    assert_eq!(st.query(0, 4), 12);
    assert_eq!(st.query(1, 3), 8);
    st.update(1, 3, &3);
    assert_eq!(st.query(0, 4), 21);
    assert_eq!(st.query(1, 3), 17);
    assert_eq!(st.query(3, 2), 0);
}

#[test]
fn bumped_tree_agrees_with_boxed_tree() {
    let arr: Vec<i64> = (0..37).map(|i| (i * 7 % 11) as i64 - 5).collect();
    let mut a: SegmentTree<SumNode> = SegmentTree::new(&arr);
    let mut b: SegmentTreeBmp<SumNode> = SegmentTreeBmp::new(&arr);
    let mut plain = arr.clone();
    for step in 0..60usize {
        let l = (step * 13) % 37;
        let r = l + (step * 5) % (37 - l);
        if step % 3 == 0 {
            let d = (step as i64 % 9) - 4;
            a.update(l, r, &d);
            b.update(l, r, &d);
            for x in &mut plain[l..=r] {
                *x += d;
            }
        } else {
            let want: i64 = plain[l..=r].iter().sum();
            assert_eq!(a.query(l, r), want);
            assert_eq!(b.query(l, r), want);
        }
    }
}
