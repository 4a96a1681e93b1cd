use dlx::{Problem, Solver};

#[test]
fn test4() {
    let ecp = Problem::<()>::new();
    let mut solutions = Solver::new(ecp).solutions();
    assert_eq!(solutions.next(), Some(vec![]));
    assert_eq!(solutions.next(), None);
}

#[test]
fn test5() {
    let mut ecp = Problem::<i32>::new();
    ecp.add_subset(1, vec![]);
    ecp.add_subset(2, vec![]);
    ecp.add_subset(3, vec![]);
    let mut solutions = Solver::new(ecp).solutions();
    assert_eq!(solutions.next(), Some(vec![]));
    assert_eq!(solutions.next(), None);
}

#[test]
fn test6() {
    // the one element of the universe stands as 0
    let mut ecp = Problem::<i32>::new();
    ecp.add_subset(1, vec![0]);
    ecp.add_subset(2, vec![0]);
    ecp.add_subset(3, vec![0]);
    let mut solutions = Solver::new(ecp).solutions();
    assert_eq!(solutions.next(), Some(vec![1]));
    assert_eq!(solutions.next(), Some(vec![2]));
    assert_eq!(solutions.next(), Some(vec![3]));
    assert_eq!(solutions.next(), None);
}

#[test]
fn test7() {
    // `true` stands as 1 and `false` as 0
    let mut ecp = Problem::<i32>::new();
    ecp.add_subset(1, vec![1]);
    ecp.add_subset(2, vec![1]);
    ecp.add_subset(3, vec![0]);
    ecp.add_subset(4, vec![0]);
    let mut solutions = Solver::new(ecp).solutions();
    assert_eq!(solutions.next(), Some(vec![1, 3]));
    assert_eq!(solutions.next(), Some(vec![1, 4]));
    assert_eq!(solutions.next(), Some(vec![2, 3]));
    assert_eq!(solutions.next(), Some(vec![2, 4]));
    assert_eq!(solutions.next(), None);
}
