use dlx::solve;

#[test]
fn test1() {
    let ecp = vec![
        ('A', vec![0, 3, 6]),
        ('B', vec![0, 3]),
        ('C', vec![3, 4, 6]),
        ('D', vec![2, 4, 5]),
        ('E', vec![1, 2, 5, 6]),
        ('F', vec![1, 6]),
    ];
    assert_eq!(solve(ecp), Some(vec!['B', 'D', 'F']));
}

#[test]
fn test2() {
    let ecp = vec![
        (0, vec![0, 2]),
        (1, vec![0, 3, 4]),
        (0, vec![1, 3]),
        (1, vec![1, 4]),
        (0, vec![2, 3]),
        (1, vec![4]),
    ];
    assert_eq!(solve(ecp), Some(vec![0, 0, 1]));
}

#[test]
fn test3() {
    let ecp = vec![
        ((), vec![0, 2]),
        ((), vec![0, 3, 4]),
        ((), vec![1]),
        ((), vec![1, 4]),
        ((), vec![2, 3]),
        ((), vec![4]),
    ];
    assert_eq!(solve(ecp), None);
}
