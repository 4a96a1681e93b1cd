use dlx::{problem_of, solutions, solve, Problem, Solver};

fn knuth() -> Vec<(char, Vec<u64>)> {
    vec![
        ('A', vec![0, 3, 6]),
        ('B', vec![0, 3]),
        ('C', vec![3, 4, 6]),
        ('D', vec![2, 4, 5]),
        ('E', vec![1, 2, 5, 6]),
        ('F', vec![1, 6]),
    ]
}

fn universe(subsets: &[(char, Vec<u64>)]) -> Vec<u64> {
    let mut all: Vec<u64> = subsets.iter().flat_map(|(_, s)| s.iter().copied()).collect();
    all.sort();
    all.dedup();
    all
}

fn is_partition(subsets: &[(char, Vec<u64>)], labels: &[char]) -> bool {
    let mut picked: Vec<u64> = Vec::new();
    for l in labels {
        let (_, s) = subsets.iter().find(|(k, _)| k == l).unwrap();
        picked.extend(s.iter().copied());
    }
    picked.sort();
    let n = picked.len();
    picked.dedup();
    n == picked.len() && picked == universe(subsets)
}

#[test]
fn partition_of_first_solution() {
    let subsets = knuth();
    let labels = solve(subsets.clone()).unwrap();
    assert!(is_partition(&subsets, &labels));
}

#[test]
fn every_enumerated_solution_is_a_partition() {
    let subsets = vec![
        ('a', vec![1, 2]),
        ('b', vec![3]),
        ('c', vec![1]),
        ('d', vec![2, 3]),
        ('e', vec![2]),
        ('f', vec![1, 2, 3]),
    ];
    let mut all = solutions(subsets.clone());
    let mut seen: Vec<Vec<char>> = Vec::new();
    while let Some(s) = all.next() {
        assert!(is_partition(&subsets, &s));
        assert!(!seen.contains(&s));
        seen.push(s);
    }
    // {a,b}, {c,d}, {c,e,b}, {f}
    seen.sort();
    assert_eq!(seen, vec![vec!['a', 'b'], vec!['b', 'c', 'e'], vec!['c', 'd'], vec!['f']]);
}

#[test]
fn completeness_against_brute_force() {
    let subsets = vec![
        ('a', vec![0, 1]),
        ('b', vec![2]),
        ('c', vec![0]),
        ('d', vec![1, 2]),
        ('e', vec![1]),
        ('g', vec![0, 2]),
        ('h', vec![0, 1, 2]),
    ];
    let mut expected: Vec<Vec<char>> = Vec::new();
    for mask in 0u32..(1 << subsets.len()) {
        let labels: Vec<char> = (0..subsets.len())
            .filter(|i| mask & (1 << i) != 0)
            .map(|i| subsets[i].0)
            .collect();
        if is_partition(&subsets, &labels) {
            expected.push(labels);
        }
    }
    let mut got: Vec<Vec<char>> = Vec::new();
    let mut all = solutions(subsets);
    while let Some(s) = all.next() {
        got.push(s);
    }
    expected.sort();
    got.sort();
    assert_eq!(got, expected);
}

#[test]
fn empty_universe_is_solved_by_the_empty_list() {
    let none: Vec<(char, Vec<u64>)> = Vec::new();
    assert_eq!(solve(none.clone()), Some(vec![]));
    let mut all = solutions(none);
    assert_eq!(all.next(), Some(vec![]));
    assert_eq!(all.next(), None);
    assert_eq!(all.next(), None);
}

#[test]
fn rebuilding_gives_the_same_order() {
    let subsets = vec![
        (1, vec![7, 9]),
        (2, vec![8]),
        (3, vec![7]),
        (4, vec![8, 9]),
        (5, vec![9]),
        (6, vec![7, 8, 9]),
    ];
    let collect = |s: Vec<(i32, Vec<u64>)>| {
        let mut out = Vec::new();
        let mut all = solutions(s);
        while let Some(x) = all.next() {
            out.push(x);
        }
        out
    };
    let first = collect(subsets.clone());
    let second = collect(subsets);
    assert_eq!(first.len(), 4);
    assert_eq!(first, second);
}

#[test]
fn duplicate_subsets_and_labels() {
    let subsets = vec![('x', vec![5, 6]), ('x', vec![5, 6]), ('y', vec![5]), ('z', vec![6])];
    let mut all = solutions(subsets);
    assert_eq!(all.next(), Some(vec!['x']));
    assert_eq!(all.next(), Some(vec!['x']));
    assert_eq!(all.next(), Some(vec!['y', 'z']));
    assert_eq!(all.next(), None);
}

#[test]
fn empty_subsets_never_appear() {
    let subsets = vec![('p', vec![]), ('q', vec![1]), ('r', vec![])];
    assert_eq!(solve(subsets), Some(vec!['q']));
}

#[test]
fn infeasible_element_in_no_usable_row() {
    let subsets = vec![('a', vec![1, 2]), ('b', vec![2, 3]), ('c', vec![1, 3])];
    assert_eq!(solve(subsets.clone()), None);
    assert_eq!(solutions(subsets).next(), None);
}

#[test]
fn minimum_column_first() {
    // the column of 9 holds one row, so it is tried first and its row is kept
    let subsets = vec![(1, vec![1]), (2, vec![2]), (3, vec![1, 2]), (4, vec![9, 1])];
    let mut all = solutions(subsets);
    assert_eq!(all.next(), Some(vec![2, 4]));
    assert_eq!(all.next(), None);
}

#[test]
fn problem_builder_matches_problem_of() {
    let mut p = Problem::new();
    for (l, s) in knuth() {
        p.add_subset(l, s);
    }
    assert_eq!(Solver::new(p).solve(), Some(vec!['B', 'D', 'F']));
    assert_eq!(Solver::new(problem_of(knuth())).solve(), Some(vec!['B', 'D', 'F']));
}

#[test]
fn large_element_keys() {
    let subsets = vec![(0, vec![u64::MAX, 0]), (1, vec![u64::MAX]), (2, vec![0])];
    let mut all = solutions(subsets);
    assert_eq!(all.next(), Some(vec![0]));
    assert_eq!(all.next(), Some(vec![1, 2]));
    assert_eq!(all.next(), None);
}
