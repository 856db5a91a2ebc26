use tlru::queue::Queue;

fn is_send<T: Send>() {}

fn is_sync<T: Sync>() {}

fn items(q: &Queue<i32>) -> Vec<i32> {
    let mut it = q.iter();
    let mut out: Vec<i32> = Vec::new();
    while let Some(v) = it.next() {
        out.push(v);
    }
    out
}

#[test]
fn test_send_sync() {
    is_send::<Queue<i32>>();
    is_sync::<Queue<i32>>();
}

#[test]
fn test_push() {
    let mut list = Queue::new();
    list.push(1);
    list.push(2);
    list.push(3);

    assert_eq!(items(&list), vec![1, 2, 3]);
}

#[test]
fn test_move_to_end() {
    let mut list = Queue::new();
    let el1 = list.push(1);
    let el2 = list.push(2);

    list.remove(el1);
    list.push_node(el1);

    assert_eq!(items(&list), vec![2, 1]);

    list.remove(el2);
    list.push_node(el2);

    assert_eq!(items(&list), vec![1, 2]);
}

#[test]
fn test_remove_front() {
    let mut list = Queue::new();
    let el = list.push(1);
    list.push(2);
    list.push(3);
    list.push(4);

    list.remove(el);

    assert_eq!(items(&list), vec![2, 3, 4]);
}

#[test]
fn test_remove_mid() {
    let mut list = Queue::new();
    list.push(1);
    let el1 = list.push(2);
    let el2 = list.push(3);
    list.push(4);

    list.remove(el2);
    list.remove(el1);

    assert_eq!(items(&list), vec![1, 4]);
}

#[test]
fn test_remove_back() {
    let mut list = Queue::new();
    list.push(1);
    list.push(2);
    list.push(3);
    let el = list.push(4);

    list.remove(el);

    assert_eq!(items(&list), vec![1, 2, 3]);
}

#[test]
fn test_pop() {
    let mut list = Queue::new();
    list.push(1);
    list.push(2);
    list.push(3);

    assert!(list.pop_node().is_some());
    assert_eq!(items(&list), vec![2, 3]);

    assert!(list.pop_node().is_some());
    assert_eq!(items(&list), vec![3]);

    assert!(list.pop_node().is_some());
    assert_eq!(items(&list), Vec::new());

    assert!(list.pop_node().is_none());
    assert_eq!(items(&list), Vec::new());
}

#[test]
fn test_peek() {
    let mut list = Queue::new();
    assert!(list.peek().is_none());
    list.push(5);
    list.push(6);
    assert_eq!(list.peek().copied(), Some(5));
    assert_eq!(items(&list), vec![5, 6]);
}

#[test]
fn test_set_value_and_take() {
    let mut list = Queue::new();
    let el = list.push(1);
    list.push(2);

    list.remove(el);
    list.set_value(el, 9);
    list.push_node(el);
    assert_eq!(items(&list), vec![2, 9]);
    assert_eq!(*list.get(el), 9);

    let el3 = list.push(3);
    list.remove(el3);
    assert_eq!(list.take(el3), 3);
    assert_eq!(items(&list), vec![2, 9]);
}
