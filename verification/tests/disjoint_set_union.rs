use finite_automata::disjoint_set_union::DSU;

#[test]
fn every_state_starts_alone() {
    let mut dsu = DSU::new(4);
    assert_eq!(dsu.len(), 4);
    for state in 0..4 {
        assert_eq!(dsu.find_representative(state), state);
    }
}

#[test]
fn the_smaller_representative_wins() {
    let mut dsu = DSU::new(6);
    dsu.union(4, 2);
    assert_eq!(dsu.find_representative(4), 2);
    assert_eq!(dsu.find_representative(2), 2);
    dsu.union(5, 4);
    assert_eq!(dsu.find_representative(5), 2);
    dsu.union(1, 5);
    assert_eq!(dsu.find_representative(2), 1);
    assert_eq!(dsu.find_representative(4), 1);
    assert_eq!(dsu.find_representative(5), 1);
    assert_eq!(dsu.find_representative(0), 0);
    assert_eq!(dsu.find_representative(3), 3);
    assert_eq!(dsu.len(), 3);
    dsu.union(2, 4);
    assert_eq!(dsu.len(), 3);
}

#[test]
fn the_map_leads_to_representatives_moved_by_the_offset() {
    let mut dsu = DSU::new(4);
    dsu.union(3, 1);
    dsu.union(1, 0);
    let map = dsu.state_representative_map(10);
    assert_eq!(map.len(), 4);
    assert_eq!(map[&10], 10);
    assert_eq!(map[&11], 10);
    assert_eq!(map[&12], 12);
    assert_eq!(map[&13], 10);
    assert_eq!(dsu.representative(3), 0);
}
