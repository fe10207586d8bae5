use brk_core::{
    best_descendant, collect_cpfp_entries, local_index, wire_cluster_members, Cluster, CpfpEntry,
    FeeRate, SnapTx, Txid, Walk, CPFP_CHAIN_LIMIT,
};

fn txid(seed: u8) -> Txid {
    let mut bytes = [0u8; 32];
    bytes[0] = seed;
    Txid(bytes)
}

fn snap_tx(seed: u8, fee: u64, vsize: u64, parents: &[usize], children: &[usize]) -> SnapTx {
    SnapTx {
        txid: txid(seed),
        fee,
        vsize,
        weight: vsize * 4,
        size: vsize,
        chunk_rate: FeeRate::new(fee, vsize),
        parents: parents.to_vec(),
        children: children.to_vec(),
    }
}

/// a -> b -> c: a is b's parent, b is c's parent.
fn chain() -> Vec<SnapTx> {
    vec![
        snap_tx(0xB3, 100, 100, &[], &[1]),
        snap_tx(0xB4, 100, 100, &[0], &[2]),
        snap_tx(0xB5, 5_800, 100, &[1], &[]),
    ]
}

fn ids(entries: &[CpfpEntry]) -> Vec<Txid> {
    entries.iter().map(|e| e.txid).collect()
}

#[test]
fn ancestor_and_descendant_walks_follow_one_direction() {
    let txs = chain();
    assert_eq!(ids(&collect_cpfp_entries(&txs, 1, Walk::Ancestors)), vec![txid(0xB3)]);
    assert_eq!(ids(&collect_cpfp_entries(&txs, 1, Walk::Descendants)), vec![txid(0xB5)]);
    assert_eq!(
        ids(&collect_cpfp_entries(&txs, 2, Walk::Ancestors)),
        vec![txid(0xB4), txid(0xB3)]
    );
    assert!(collect_cpfp_entries(&txs, 0, Walk::Ancestors).is_empty());
    assert!(collect_cpfp_entries(&txs, 7, Walk::Descendants).is_empty());
}

#[test]
fn walk_entries_carry_fee_and_weight() {
    let txs = chain();
    let d = collect_cpfp_entries(&txs, 0, Walk::Descendants);
    assert_eq!(d.len(), 2);
    assert_eq!((d[0].fee, d[0].weight), (100, 400));
    assert_eq!((d[1].fee, d[1].weight), (5_800, 400));
}

#[test]
fn walks_visit_a_shared_ancestor_once_and_skip_missing_slots() {
    // 3 has parents 1 and 2, both children of 0; 9 is no slot.
    let txs = vec![
        snap_tx(1, 10, 10, &[], &[1, 2]),
        snap_tx(2, 10, 10, &[0], &[3]),
        snap_tx(3, 10, 10, &[0, 9], &[3]),
        snap_tx(4, 10, 10, &[1, 2], &[]),
    ];
    let up = collect_cpfp_entries(&txs, 3, Walk::Ancestors);
    assert_eq!(ids(&up), vec![txid(3), txid(1), txid(2)]);
}

#[test]
fn walks_stop_at_the_chain_limit() {
    let n = CPFP_CHAIN_LIMIT + 10;
    let txs: Vec<SnapTx> = (0..n)
        .map(|i| {
            let parents: Vec<usize> = if i == 0 { vec![] } else { vec![i - 1] };
            let children: Vec<usize> = if i + 1 == n { vec![] } else { vec![i + 1] };
            snap_tx(i as u8, 1, 1, &parents, &children)
        })
        .collect();
    assert_eq!(collect_cpfp_entries(&txs, 0, Walk::Descendants).len(), CPFP_CHAIN_LIMIT);
    assert_eq!(collect_cpfp_entries(&txs, n - 1, Walk::Ancestors).len(), CPFP_CHAIN_LIMIT);
}

fn entry(seed: u8, fee: u64, weight: u64) -> CpfpEntry {
    CpfpEntry { txid: txid(seed), weight, fee }
}

#[test]
fn best_descendant_picks_the_highest_fee_per_weight() {
    assert!(best_descendant(&[]).is_none());
    let d = [entry(1, 100, 400), entry(2, 5_800, 400), entry(3, 200, 400)];
    assert_eq!(best_descendant(&d).unwrap().txid, txid(2));
}

#[test]
fn best_descendant_ties_go_to_the_later_entry() {
    let d = [entry(1, 100, 400), entry(2, 50, 200)];
    assert_eq!(best_descendant(&d).unwrap().txid, txid(2));
}

#[test]
fn local_index_numbers_members_by_position() {
    let m = local_index(&[7, 3, 9]);
    assert_eq!(m.get(&7), Some(&0));
    assert_eq!(m.get(&3), Some(&1));
    assert_eq!(m.get(&9), Some(&2));
    assert_eq!(m.get(&4), None);
    let dup = local_index(&[5, 6, 5]);
    assert_eq!(dup.get(&5), Some(&2));
}

#[test]
fn wire_members_remap_parents_to_cluster_positions() {
    let txs = chain();
    let wire = wire_cluster_members(&txs, &[0, 1, 2]);
    assert_eq!(wire.len(), 3);
    assert_eq!(wire[0].txid, txid(0xB3));
    assert!(wire[0].parents.is_empty());
    assert_eq!(wire[1].parents, vec![0]);
    assert_eq!(wire[2].parents, vec![1]);
    // a parent outside the member list is dropped
    let partial = wire_cluster_members(&txs, &[1, 2]);
    assert!(partial[0].parents.is_empty());
    assert_eq!(partial[1].parents, vec![0]);
}

#[test]
fn cluster_walk_covers_both_directions() {
    let txs = chain();
    assert_eq!(Cluster::walk(&txs, 1), vec![1, 0, 2]);
    assert_eq!(Cluster::walk(&txs, 5), Vec::<usize>::new());
    let lone = vec![snap_tx(1, 1, 1, &[], &[])];
    assert_eq!(Cluster::walk(&lone, 0), vec![0]);
}

#[test]
fn cluster_walk_expands_the_newest_member_first() {
    // 0 has children 1 and 2; 1 has child 4, 2 has child 3
    let txs = vec![
        snap_tx(1, 10, 10, &[], &[1, 2]),
        snap_tx(2, 10, 10, &[0], &[4]),
        snap_tx(3, 10, 10, &[0], &[3]),
        snap_tx(4, 10, 10, &[2], &[]),
        snap_tx(5, 10, 10, &[1], &[]),
    ];
    // depth first: 2 (scheduled last) is expanded before 1
    assert_eq!(Cluster::walk(&txs, 0), vec![0, 1, 2, 3, 4]);
    assert_eq!(Cluster::walk(&txs, 3), vec![3, 2, 0, 1, 4]);
}

#[test]
fn topo_sort_puts_parents_first() {
    let txs = chain();
    assert_eq!(Cluster::topo_sort(&txs, &[2, 1, 0]), vec![0, 1, 2]);
    assert_eq!(Cluster::topo_sort(&txs, &[1, 2, 0]), vec![0, 1, 2]);
}

#[test]
fn topo_sort_releases_ready_members_in_component_order() {
    // 0 and 1 are both parents of 2
    let txs = vec![
        snap_tx(1, 10, 10, &[], &[2]),
        snap_tx(2, 10, 10, &[], &[2]),
        snap_tx(3, 10, 10, &[0, 1], &[]),
    ];
    assert_eq!(Cluster::topo_sort(&txs, &[1, 0, 2]), vec![1, 0, 2]);
    assert_eq!(Cluster::topo_sort(&txs, &[2, 0, 1]), vec![0, 1, 2]);
}

#[test]
fn topo_sort_ignores_edges_leaving_the_component() {
    let txs = chain();
    // only {1, 2} are members: 1's parent 0 does not hold it back
    assert_eq!(Cluster::topo_sort(&txs, &[2, 1]), vec![1, 2]);
    assert_eq!(Cluster::topo_sort(&txs, &[]), Vec::<usize>::new());
}

#[test]
fn cpfp_ancestor_and_descendant_walks_are_directional() {
    // chain: A -> B -> C
    let txs = chain();
    let (a, c) = (txid(0xB3), txid(0xB5));
    let ancestors = collect_cpfp_entries(&txs, 1, Walk::Ancestors);
    let descendants = collect_cpfp_entries(&txs, 1, Walk::Descendants);
    assert_eq!(ids(&ancestors), vec![a]);
    assert_eq!(ids(&descendants), vec![c]);
    assert_eq!(best_descendant(&descendants).map(|e| e.txid), Some(c));
}
