use lru_cache::List;

#[test]
fn empty_list() {
    let ll: List<i32> = List::new();
    assert_eq!(None, ll.back());
}

#[test]
fn add_remove_elements() {
    let mut ll: List<i32> = List::new();

    ll.push_front(1);
    assert_eq!(1, ll.back().expect("Value should be set"));
    ll.push_front(2);
    assert_eq!(1, ll.back().expect("Value should be set"));

    ll.pop_back();
    assert_eq!(2, ll.back().expect("Value should be set"));

    ll.pop_back();
    assert_eq!(None, ll.back());
}

#[test]
fn add_remove_elements_and_add() {
    let mut ll: List<i32> = List::new();

    ll.push_front(1);
    assert_eq!(1, ll.back().expect("Value should be set"));
    ll.push_front(2);
    assert_eq!(1, ll.back().expect("Value should be set"));

    ll.pop_back();
    assert_eq!(2, ll.back().expect("Value should be set"));

    ll.pop_back();
    assert_eq!(None, ll.back());

    ll.push_front(15);
    assert_eq!(15, ll.back().expect("Value should be set"));
}

#[test]
fn remove_middle_node() {
    let mut ll: List<i32> = List::new();

    ll.push_front(1);
    let middle_node = ll.push_front(2);
    ll.push_front(3);

    ll.remove_node(middle_node);

    assert_eq!(1, ll.back().expect("Value should be set"));

    ll.pop_back();
    assert_eq!(3, ll.back().expect("Value should be set"));

    ll.pop_back();
    assert_eq!(None, ll.back());
}

#[test]
fn reinsert_removed_node_at_front() {
    let mut ll: List<i32> = List::new();

    ll.push_front(1);
    let middle_node = ll.push_front(2);
    ll.push_front(3);

    ll.remove_node(middle_node);
    ll.push_node_front(middle_node);

    assert_eq!(1, ll.back().expect("Value should be set"));
    ll.pop_back();
    assert_eq!(3, ll.back().expect("Value should be set"));
    ll.pop_back();
    assert_eq!(2, ll.back().expect("Value should be set"));
    ll.pop_back();
    assert_eq!(None, ll.back());
}

#[test]
fn reuse_vacated_slot() {
    let mut ll: List<i32> = List::new();

    ll.push_front(1);
    ll.pop_back();
    assert_eq!(None, ll.back());

    ll.push_front(2);
    ll.push_front(3);
    assert_eq!(2, ll.back().expect("Value should be set"));
    ll.pop_back();
    assert_eq!(3, ll.back().expect("Value should be set"));
}

#[test]
fn pop_back_on_empty_is_a_no_op() {
    let mut ll: List<i32> = List::new();
    ll.pop_back();
    assert_eq!(None, ll.back());

    ll.push_front(4);
    ll.pop_back();
    ll.pop_back();
    assert_eq!(None, ll.back());
}

#[test]
fn remove_front_and_back_nodes() {
    let mut ll: List<i32> = List::new();

    let back_node = ll.push_front(1);
    ll.push_front(2);
    let front_node = ll.push_front(3);

    ll.remove_node(front_node);
    assert_eq!(1, ll.back().expect("Value should be set"));

    ll.remove_node(back_node);
    assert_eq!(2, ll.back().expect("Value should be set"));

    ll.pop_back();
    assert_eq!(None, ll.back());
}
