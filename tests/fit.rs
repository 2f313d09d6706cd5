use ttwa::areas::{travel_to_work_areas, Area, AreaCollection};
use ttwa::graph::Graph;
use ttwa::score::x_score;

fn collection(m: Vec<Vec<u32>>) -> AreaCollection {
    match Graph::from_adjacency_matrix(m) {
        Ok(g) => AreaCollection::new(g),
        Err(e) => panic!("unexpected error {:?}", e),
    }
}

fn present(c: &AreaCollection) -> Vec<&Area> {
    c.areas.iter().flatten().collect()
}

fn summary(c: &AreaCollection) -> Vec<(usize, u64, u64, u64, Vec<usize>)> {
    present(c)
        .iter()
        .map(|a| (a.id, a.flow_to_area, a.flow_from_area, a.self_containment, c.members(a.id)))
        .collect()
}

fn partition(c: &AreaCollection) -> Vec<Vec<usize>> {
    let mut parts: Vec<Vec<usize>> = present(c).iter().map(|a| c.members(a.id)).collect();
    parts.sort();
    parts
}

fn two_communities() -> Vec<Vec<u32>> {
    let mut m = vec![vec![0u32; 6]; 6];
    for i in 0..6 {
        for j in 0..6 {
            if i / 3 == j / 3 {
                m[i][j] = 10000;
            }
        }
    }
    m
}

fn pendant() -> Vec<Vec<u32>> {
    vec![vec![0, 10000, 1], vec![10000, 0, 0], vec![1, 0, 0]]
}

fn bipartite_chain() -> Vec<Vec<u32>> {
    let mut m = vec![vec![0u32; 4]; 4];
    m[0][1] = 5000;
    m[1][0] = 5000;
    m[2][3] = 5000;
    m[3][2] = 5000;
    m
}

fn check_invariants(c: &AreaCollection, m: &[Vec<u32>]) {
    let n = m.len();
    let total: u64 = m.iter().map(|r| r.iter().map(|&x| x as u64).sum::<u64>()).sum();
    let mut seen = vec![0usize; n];
    let mut supply = 0u64;
    for a in present(c) {
        let members = c.members(a.id);
        assert!(!members.is_empty());
        let mut from_set: Vec<usize> = a.nodes.iter().cloned().collect();
        from_set.sort();
        assert_eq!(from_set, members);
        let mut demand = 0u64;
        let mut out = 0u64;
        let mut inner = 0u64;
        for &u in &members {
            seen[u] += 1;
            assert_eq!(c.node_to_area[u], a.id);
            out += m[u].iter().map(|&x| x as u64).sum::<u64>();
            demand += (0..n).map(|i| m[i][u] as u64).sum::<u64>();
            for &w in &members {
                inner += m[u][w] as u64;
            }
        }
        assert_eq!(a.flow_to_area, demand);
        assert_eq!(a.flow_from_area, out);
        assert_eq!(a.self_containment, inner);
        assert!(a.self_containment <= a.flow_to_area.min(a.flow_from_area));
        supply += a.flow_from_area;
    }
    assert!(seen.iter().all(|&k| k == 1));
    assert_eq!(supply, total);
}

#[test]
fn trivial_singleton_stays_one_area() {
    let m = vec![vec![5]];
    let mut c = collection(m.clone());
    let converged = c.fit(100);
    assert!(converged);
    assert_eq!(partition(&c), vec![vec![0]]);
    let a = present(&c)[0];
    let (x, _) = x_score(a.flow_to_area, a.flow_from_area, a.self_containment);
    assert!(x < 0);
    check_invariants(&c, &m);
}

#[test]
fn two_disconnected_communities() {
    let m = two_communities();
    let mut c = collection(m.clone());
    assert!(c.fit(1000));
    assert_eq!(partition(&c), vec![vec![0, 1, 2], vec![3, 4, 5]]);
    for a in present(&c) {
        assert_eq!(a.flow_from_area, 90000);
        assert_eq!(a.self_containment, 90000);
        assert_eq!(x_score(a.flow_to_area, a.flow_from_area, a.self_containment), (1, 12));
    }
    check_invariants(&c, &m);
}

#[test]
fn perfect_bipartite_chain() {
    let m = bipartite_chain();
    let mut c = collection(m.clone());
    assert!(c.fit(1000));
    assert_eq!(partition(&c), vec![vec![0, 1], vec![2, 3]]);
    for a in present(&c) {
        assert_eq!(a.flow_from_area, 10000);
        assert_eq!(a.self_containment, 10000);
        let (x, d) = x_score(a.flow_to_area, a.flow_from_area, a.self_containment);
        assert_eq!((x, d), (83 * 6500, 21500000));
        assert!(x >= 0);
    }
    check_invariants(&c, &m);
}

#[test]
fn pendant_absorption() {
    let m = pendant();
    let mut c = collection(m.clone());
    assert!(c.fit(1000));
    assert_eq!(partition(&c), vec![vec![0, 1, 2]]);
    check_invariants(&c, &m);
}

#[test]
fn iter_limit_honouring() {
    let m = two_communities();
    let mut c = collection(m.clone());
    let converged = c.fit(0);
    assert!(!converged);
    assert_eq!(c.node_to_area, vec![0, 1, 2, 3, 4, 5]);
    assert_eq!(present(&c).len(), 6);
    check_invariants(&c, &m);
}

#[test]
fn permutation_invariance() {
    let m = two_communities();
    let pi = [3usize, 0, 4, 1, 5, 2];
    let mut pm = vec![vec![0u32; 6]; 6];
    for i in 0..6 {
        for j in 0..6 {
            pm[pi[i]][pi[j]] = m[i][j];
        }
    }
    let mut c = collection(m);
    assert!(c.fit(1000));
    let mut pc = collection(pm);
    assert!(pc.fit(1000));
    let mut back: Vec<Vec<usize>> = partition(&pc)
        .iter()
        .map(|part| {
            let mut p: Vec<usize> = part.iter().map(|&u| pi.iter().position(|&x| x == u).unwrap()).collect();
            p.sort();
            p
        })
        .collect();
    back.sort();
    assert_eq!(back, partition(&c));
}

#[test]
fn singleton_partition_on_construction() {
    let m = pendant();
    let c = collection(m.clone());
    assert_eq!(c.node_to_area, vec![0, 1, 2]);
    let a = present(&c);
    assert_eq!(a.len(), 3);
    assert_eq!((a[0].flow_to_area, a[0].flow_from_area, a[0].self_containment), (10001, 10001, 0));
    let c = collection(vec![vec![7, 1], vec![1, 0]]);
    let a = present(&c);
    assert_eq!(a[0].self_containment, 7);
    assert_eq!(a[1].self_containment, 0);
}

#[test]
fn determinism_of_fit() {
    let mut c1 = collection(pendant());
    let mut c2 = collection(pendant());
    let r1 = c1.fit(1000);
    let r2 = c2.fit(1000);
    assert_eq!(r1, r2);
    assert_eq!(c1.node_to_area, c2.node_to_area);
    assert_eq!(summary(&c1), summary(&c2));
    assert!(c1.areas == c2.areas);
}

#[test]
fn area_count_never_grows() {
    let m = two_communities();
    let mut counts = Vec::new();
    for k in 0..7 {
        let mut c = collection(m.clone());
        c.fit(k);
        counts.push(present(&c).len());
        check_invariants(&c, &m);
    }
    assert_eq!(counts, vec![6, 5, 4, 3, 2, 2, 2]);
}

#[test]
fn fitting_twice_changes_nothing() {
    let m = pendant();
    let mut c = collection(m);
    assert!(c.fit(1000));
    let before = c.node_to_area.clone();
    let areas_before = summary(&c);
    assert!(c.fit(1000));
    assert_eq!(c.node_to_area, before);
    assert_eq!(summary(&c), areas_before);
    assert!(c.fit(0));
}

#[test]
fn finished_fit_leaves_no_negative_open_area() {
    let m = vec![
        vec![100, 3000, 0, 0, 0],
        vec![2000, 50, 10, 0, 0],
        vec![0, 20, 700, 400, 0],
        vec![0, 0, 300, 900, 5],
        vec![0, 0, 0, 8, 2],
    ];
    let mut c = collection(m.clone());
    assert!(c.fit(1000));
    for a in present(&c) {
        let closed = a.flow_to_area == a.self_containment && a.flow_from_area == a.self_containment;
        let (x, _) = x_score(a.flow_to_area, a.flow_from_area, a.self_containment);
        assert!(closed || x >= 0);
    }
    check_invariants(&c, &m);
}

#[test]
fn ties_go_to_the_smallest_area_id() {
    // Node 0 is dissolved first and is equally attached to areas 1 and 2.
    let m = vec![vec![0, 1, 1], vec![1, 0, 5], vec![1, 5, 0]];
    let mut c = collection(m);
    assert!(!c.fit(1));
    assert_eq!(c.node_to_area, vec![1, 1, 2]);
}

#[test]
fn travel_to_work_areas_fits_to_the_end() {
    let g = match Graph::from_adjacency_matrix(two_communities()) {
        Ok(g) => g,
        Err(e) => panic!("unexpected error {:?}", e),
    };
    let (c, converged) = travel_to_work_areas(g);
    assert!(converged);
    assert_eq!(partition(&c), vec![vec![0, 1, 2], vec![3, 4, 5]]);
}

#[test]
fn empty_graph_fits_trivially() {
    let mut c = collection(vec![]);
    assert!(c.fit(10));
    assert!(present(&c).is_empty());
}
