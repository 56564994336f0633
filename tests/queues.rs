use hilevel::queues::MultiLevelQueue;

#[test]
fn new_test() {
    let mlq = MultiLevelQueue::new(vec![1, 2, 3]);

    let top = mlq.top_queue();
    let middle = mlq.below(top).unwrap();
    let bottom = mlq.below(middle).unwrap();
    assert!(mlq.below(bottom).is_none());

    assert_eq!(mlq.quantum(top), 1);
    assert_eq!(mlq.quantum(middle), 2);
    assert_eq!(mlq.quantum(bottom), 3);

    assert!(mlq.above(top).is_none());
    assert_eq!(mlq.above(bottom), Some(middle));
    assert_eq!(mlq.above(middle), Some(top));
}

#[test]
fn iter_test() {
    let qs = vec![1, 2, 3, 5, 9];
    let mlq = MultiLevelQueue::new(qs.clone());
    let iterated: Vec<u32> = (0..mlq.num_levels()).map(|l| mlq.quantum(l)).collect();
    assert_eq!(qs, iterated);
}

#[test]
fn contains_remove_test() {
    let item = 0;
    let mut mlq = MultiLevelQueue::new(vec![1, 2, 3]);
    assert_eq!(mlq.contains(item), false);
    mlq.push_front_top(item);
    assert_eq!(mlq.contains(item), true);
    mlq.remove_process(item);
    assert_eq!(mlq.contains(item), false);
    let middle = mlq.below(mlq.top_queue()).unwrap();
    mlq.push_back(middle, item);
    assert_eq!(mlq.contains(item), true);
}

#[test]
fn boost_test() {
    let item = 0;
    let mut mlq = MultiLevelQueue::new(vec![1, 2, 3]);
    let last_queue = mlq.num_levels() - 1;
    mlq.push_back(last_queue, item);
    mlq.boost();
    let (popped, queue) = mlq.pop_process(|_x: i32| true).unwrap();
    assert_eq!(item, popped);
    assert_eq!(queue, mlq.top_queue());
}

#[test]
fn pop_test() {
    let item1 = 1;
    let item2 = 2;
    let item3 = 3;
    let mut mlq = MultiLevelQueue::new(vec![1, 2, 3]);
    let last_queue = mlq.num_levels() - 1;
    mlq.push_back(mlq.top_queue(), item1);
    mlq.push_back(mlq.top_queue(), item2);
    mlq.push_back(last_queue, item3);
    assert_eq!(item1, mlq.pop_process(|_x: i32| true).unwrap().0);
    assert_eq!(item2, mlq.pop_process(|_x: i32| true).unwrap().0);
    assert_eq!(item3, mlq.pop_process(|_x: i32| true).unwrap().0);
    assert!(mlq.pop_process(|_x: i32| true).is_none());
}

#[test]
fn fifo_order_of_three() {
    let mut mlq = MultiLevelQueue::default();
    for p in [10, 11, 12] {
        mlq.push_back(mlq.top_queue(), p);
    }
    let order: Vec<i32> = (0..3).map(|_| mlq.pop_process(|_x: i32| true).unwrap().0).collect();
    assert_eq!(order, vec![10, 11, 12]);
}

#[test]
fn boost_after_two_demotions() {
    let mut mlq = MultiLevelQueue::new(vec![2, 4, 8]);
    mlq.push_front_top(7);
    let (p, l) = mlq.pop_process(|_x: i32| true).unwrap();
    mlq.push_back(mlq.below(l).unwrap(), p);
    let (p, l) = mlq.pop_process(|_x: i32| true).unwrap();
    assert_eq!(l, 1);
    mlq.push_back(mlq.below(l).unwrap(), p);
    assert_eq!(mlq.level_items(2), vec![7]);
    mlq.push_front_top(8);
    mlq.boost();
    assert_eq!(mlq.level_items(0), vec![8, 7]);
    assert_eq!(mlq.pop_process(|_x: i32| true), Some((8, 0)));
    assert_eq!(mlq.pop_process(|_x: i32| true), Some((7, 0)));
}

#[test]
fn pop_keeps_order_of_the_rest() {
    let mut mlq = MultiLevelQueue::new(vec![1, 2]);
    for p in [1, 2, 3, 4] {
        mlq.push_back(0, p);
    }
    assert_eq!(mlq.pop_process(|x: i32| x % 2 == 0), Some((2, 0)));
    assert_eq!(mlq.level_items(0), vec![1, 3, 4]);
    assert_eq!(mlq.pop_process(|x: i32| x > 100), None);
}

#[test]
fn remove_all_takes_every_copy() {
    let mut mlq = MultiLevelQueue::new(vec![1, 2]);
    mlq.push_back(0, 5);
    mlq.push_back(1, 5);
    mlq.push_back(1, 6);
    mlq.remove_all(5);
    assert!(!mlq.contains(5));
    assert_eq!(mlq.level_items(1), vec![6]);
}
