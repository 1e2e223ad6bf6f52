use datastructs::structure::priority_queue::PriorityQueue;

#[test]
fn basic() {
    let mut queue = PriorityQueue::new();
    queue.insert(3);
    queue.insert(2);
    queue.insert(1);
    assert_eq!(3, queue.len());
    let min = queue.pop();
    assert!(min.is_some());
    assert_eq!(1, min.unwrap());
}

#[test]
fn pop_empty() {
    let mut queue = PriorityQueue::<i32>::new();
    assert!(queue.is_empty());
    assert_eq!(None, queue.pop());
}

fn drain(mut queue: PriorityQueue<i32>) -> Vec<i32> {
    let mut out = Vec::new();
    while let Some(x) = queue.pop() {
        out.push(x);
    }
    out
}

#[test]
fn pop_sorted_order() {
    let cases: &[(&[i32], &[i32])] = &[
        (&[], &[]),
        (&[1], &[1]),
        (&[2, 3, 1], &[1, 2, 3]),
        (&[4, 2, 3, 1], &[1, 2, 3, 4]),
        (&[4, 3, 2, 2, 3, 5, 1, 5], &[1, 2, 2, 3, 3, 4, 5, 5]),
    ];
    for (input, expect) in cases {
        let mut queue = PriorityQueue::new();
        for &i in *input {
            queue.insert(i);
        }
        assert_eq!(*expect, drain(queue).as_slice());
    }
}

#[test]
fn clone_keeps_elements() {
    let mut queue = PriorityQueue::new();
    queue.insert(2);
    queue.insert(1);
    let copy = queue.clone();
    assert_eq!(vec![1, 2], drain(copy));
    assert_eq!(2, queue.len());
}
