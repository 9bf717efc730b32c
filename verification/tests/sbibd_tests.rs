use sbibd::{find_diffset, find_sbibd_ds, generate_rcombs, normalize, solve_erasure, INFTY};

#[test]
fn normalization() {
    assert_eq!(normalize(0, 3), 0);
    assert_eq!(normalize(1, 3), 1);
    assert_eq!(normalize(2, 3), 2);
    assert_eq!(normalize(3, 3), 3);
    assert_eq!(normalize(-1, 10), 90);
    assert_eq!(normalize(-2, 10), 89);
    assert_eq!(normalize(-3, 10), 88);
}

#[test]
fn existence() {
    assert!(find_diffset(1 + 2).is_some());
    assert!(find_diffset(1 + 3).is_some());
    assert!(find_diffset(1 + 4).is_some());
    assert!(find_diffset(1 + 5).is_some());
    assert!(find_diffset(1 + 7).is_some());
    assert!(find_diffset(1 + 8).is_some());
    assert!(find_diffset(1 + 9).is_some());
    assert!(find_diffset(1 + 11).is_some());
}

#[test]
fn inexistence() {
    assert!(find_diffset(1 + 6).is_none());
}

#[test]
fn combination() {
    assert_eq!(
        generate_rcombs(&vec![0, 1, 2], 2),
        vec![vec![0, 1], vec![0, 2], vec![1, 2]]
    );
    assert_eq!(
        generate_rcombs(&vec![0, 1, 2, 3], 2),
        vec![
            vec![0, 1],
            vec![0, 2],
            vec![0, 3],
            vec![1, 2],
            vec![1, 3],
            vec![2, 3]
        ]
    );
}

#[test]
fn ec_4_works() {
    let (n, m, p) = (4, 13, 3);
    let nodes = (0..m).collect::<Vec<_>>();
    let affinity = find_sbibd_ds(n).unwrap();
    let erased = generate_rcombs(&nodes, p);
    erased
        .iter()
        .map(|case| {
            if !case.contains(&0) {
                return 1;
            }
            let d = solve_erasure(0, n, p, &affinity, case);
            assert!(d != INFTY);
            d
        })
        .reduce(|x, y| std::cmp::max(x, y)) // Return the worst case depth of search
        .unwrap();
}

#[test]
fn normalization_periodic() {
    // adding any multiple of m = n*(n-1)+1 leaves the residue unchanged
    for n in [3, 4, 10] {
        let m = n * (n - 1) + 1;
        for x in [-25, -1, 0, 7, 1234] {
            for k in [-3, -1, 0, 1, 5] {
                assert_eq!(normalize(x + k * m, n), normalize(x, n));
                let r = normalize(x + k * m, n);
                assert!(0 <= r && r < m);
            }
        }
    }
}

#[test]
fn diffset_is_perfect() {
    // every nonzero residue appears at most once among the ordered
    // differences of distinct elements
    for n in [3, 4, 5, 6] {
        let m = n * (n - 1) + 1;
        let d = find_diffset(n).unwrap();
        assert_eq!(d.len(), n as usize);
        assert_eq!(d[0], 0);
        let mut seen = vec![false; m as usize];
        for a in 0..d.len() {
            for b in 0..d.len() {
                if a != b {
                    let diff = normalize(d[a] - d[b], n) as usize;
                    assert!(diff != 0);
                    assert!(!seen[diff]);
                    seen[diff] = true;
                }
            }
        }
    }
}

#[test]
fn diffset_deterministic() {
    // the search is a deterministic enumeration: equal inputs, equal results
    for n in [3, 4, 5, 6, 8] {
        assert_eq!(find_diffset(n), find_diffset(n));
    }
}

#[test]
fn sbibd_row_col_counts() {
    // diagonal false, and exactly n true entries in every row and column
    for n in [3, 4, 5, 6, 8, 9] {
        let m = (n * (n - 1) + 1) as usize;
        let a = find_sbibd_ds(n).unwrap();
        assert_eq!(a.len(), m);
        for i in 0..m {
            assert_eq!(a[i].len(), m);
            assert!(!a[i][i]);
            let row = a[i].iter().filter(|x| **x).count();
            assert_eq!(row, n as usize);
        }
        for j in 0..m {
            let col = (0..m).filter(|&i| a[i][j]).count();
            assert_eq!(col, n as usize);
        }
    }
}

#[test]
fn sbibd_out_of_range() {
    assert!(find_sbibd_ds(2).is_none());
    assert!(find_sbibd_ds(0).is_none());
    assert!(find_sbibd_ds(13).is_none());
}

#[test]
fn combination_edges() {
    // choosing zero elements yields the single empty combination
    let empty: Vec<i32> = vec![];
    assert_eq!(generate_rcombs(&empty, 0), vec![Vec::<i32>::new()]);
    assert_eq!(generate_rcombs(&vec![5, 7], 0), vec![Vec::<i32>::new()]);
    // choosing all elements yields the set itself
    assert_eq!(generate_rcombs(&vec![5, 7], 2), vec![vec![5, 7]]);
}

#[test]
fn depth_monotonic_in_p() {
    // more simultaneous failures cannot reduce the worst-case recovery depth
    for n in 3..=5 {
        let m = n * (n - 1) + 1;
        let nodes = (0..m).collect::<Vec<_>>();
        let affinity = match find_sbibd_ds(n) {
            Some(a) => a,
            None => continue,
        };
        let mut prev = 0;
        for p in 1..=std::cmp::min(n - 1, 6) {
            let erased = generate_rcombs(&nodes, p);
            let depth = erased
                .iter()
                .map(|case| {
                    if !case.contains(&0) {
                        return 1;
                    }
                    let d = solve_erasure(0, n, p, &affinity, case);
                    assert!(d != INFTY);
                    d
                })
                .reduce(std::cmp::max)
                .unwrap();
            assert!(depth >= prev);
            prev = depth;
        }
    }
}
