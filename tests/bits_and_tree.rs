use trie_rs::{Fid, Louds, LoudsIndex, LoudsNodeNum};

#[test]
fn fid_scenario_01() {
    let fid = Fid::from_bit_str("01");
    assert_eq!(fid.access(0), false);
    assert_eq!(fid.access(1), true);
    assert_eq!(fid.rank(1), 1);
    assert_eq!(fid.rank0(0), 1);
    assert_eq!(fid.select(1), Some(1));
    assert_eq!(fid.select0(1), Some(0));
    assert_eq!(fid.select(2), None);
    assert_eq!(fid.select0(2), None);
}

#[test]
fn fid_empty() {
    let fid = Fid::from_bools(&[]);
    assert_eq!(fid.len(), 0);
    assert_eq!(fid.select(0), Some(0));
    assert_eq!(fid.select(1), None);
    assert_eq!(fid.select0(1), None);
}

#[test]
fn fid_all_ones_across_blocks() {
    let bits = vec![true; 200];
    let fid = Fid::from_bools(&bits);
    assert_eq!(fid.len(), 200);
    assert_eq!(fid.rank(0), 1);
    assert_eq!(fid.rank(63), 64);
    assert_eq!(fid.rank(64), 65);
    assert_eq!(fid.rank(199), 200);
    assert_eq!(fid.rank0(199), 0);
    assert_eq!(fid.select(128), Some(127));
    assert_eq!(fid.select(200), Some(199));
    assert_eq!(fid.select(201), None);
    assert_eq!(fid.select0(1), None);
}

#[test]
fn fid_all_zeros_block_boundary() {
    let bits = vec![false; 128];
    let fid = Fid::from_bools(&bits);
    assert_eq!(fid.rank(127), 0);
    assert_eq!(fid.rank0(127), 128);
    assert_eq!(fid.select0(65), Some(64));
    assert_eq!(fid.select0(128), Some(127));
    assert_eq!(fid.select0(129), None);
    assert_eq!(fid.select(1), None);
}

#[test]
fn fid_rank_select_duality_sparse() {
    // one set bit every 37 positions
    let bits: Vec<bool> = (0..500).map(|i| i % 37 == 5).collect();
    let fid = Fid::from_bools(&bits);
    let mut k = 0u64;
    for i in 0..500u64 {
        if bits[i as usize] {
            k += 1;
            assert_eq!(fid.select(k), Some(i));
        }
        assert_eq!(fid.rank(i), k);
        assert_eq!(fid.rank0(i), i + 1 - k);
    }
    assert_eq!(fid.select(k + 1), None);
}

#[test]
fn louds_navigation_small_tree() {
    // root with children a, b; a has child c
    let louds = Louds::from_bit_str("101101000");
    assert_eq!(louds.num_nodes(), 4);
    assert_eq!(louds.node_num_to_index(LoudsNodeNum(1)), LoudsIndex(0));
    assert_eq!(louds.node_num_to_index(LoudsNodeNum(2)), LoudsIndex(2));
    assert_eq!(louds.node_num_to_index(LoudsNodeNum(4)), LoudsIndex(5));
    assert_eq!(louds.index_to_node_num(LoudsIndex(3)), LoudsNodeNum(3));
    assert_eq!(
        louds.parent_to_children(LoudsNodeNum(1)),
        vec![LoudsIndex(2), LoudsIndex(3)]
    );
    assert_eq!(louds.parent_to_children(LoudsNodeNum(2)), vec![LoudsIndex(5)]);
    assert_eq!(louds.parent_to_children(LoudsNodeNum(3)), vec![]);
    assert_eq!(louds.child_to_parent(LoudsIndex(5)), LoudsNodeNum(2));
    assert_eq!(louds.child_to_parent(LoudsIndex(3)), LoudsNodeNum(1));
    assert_eq!(louds.children_range(LoudsNodeNum(4)), (8, 8));
}

#[test]
fn louds_single_root() {
    let louds = Louds::from_bools(&[true, false, false]);
    assert_eq!(louds.num_nodes(), 1);
    assert_eq!(louds.parent_to_children(LoudsNodeNum(1)), vec![]);
}
