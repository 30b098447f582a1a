use lru::list::List;
use lru::list::Node;
use lru::value::Value;

#[test]
fn test_node_is_tail_works_fine() {
    let mut n = Node::new("test".to_string(), Value::Bool(true));

    assert_eq!(n.is_tail(), true);

    let n2 = Node::new("test1".to_string(), Value::Bool(false));

    n.next = Some(0);

    assert_eq!(n.is_tail(), false);

    assert_eq!(n2.is_tail(), true);
}

#[test]
fn fresh_node_is_head_and_tail() {
    let n = Node::new("k".to_string(), Value::Int(7));
    assert!(n.is_head());
    assert!(n.is_tail());
    assert!(n.prev.is_none());
    assert!(n.next.is_none());
}

#[test]
fn list_push_pop_order() {
    let mut l = List::new();
    assert_eq!(l.len(), 0);
    assert!(l.pop_back().is_none());
    l.push_front("a".to_string(), Value::Int(1));
    l.push_front("b".to_string(), Value::Int(2));
    l.push_front("c".to_string(), Value::Int(3));
    assert_eq!(l.len(), 3);
    assert_eq!(l.pop_back(), Some("a".to_string()));
    assert_eq!(l.pop_back(), Some("b".to_string()));
    assert_eq!(l.pop_back(), Some("c".to_string()));
    assert_eq!(l.len(), 0);
    assert!(l.pop_back().is_none());
}

#[test]
fn list_move_front_relocates_tail() {
    let mut l = List::new();
    let a = l.push_front("a".to_string(), Value::Int(1));
    let _b = l.push_front("b".to_string(), Value::Int(2));
    let _c = l.push_front("c".to_string(), Value::Int(3));
    // order: c b a; promote the tail
    l.move_front(a);
    assert_eq!(l.len(), 3);
    assert_eq!(l.front_value().to_text(), "1");
    // order: a c b; the tail is now b
    assert_eq!(l.pop_back(), Some("b".to_string()));
    assert_eq!(l.pop_back(), Some("c".to_string()));
    assert_eq!(l.pop_back(), Some("a".to_string()));
}

#[test]
fn list_move_front_of_head_and_single() {
    let mut l = List::new();
    let a = l.push_front("a".to_string(), Value::Int(1));
    l.move_front(a); // sole element: no change
    assert_eq!(l.len(), 1);
    let b = l.push_front("b".to_string(), Value::Int(2));
    l.move_front(b); // already the head: no change
    assert_eq!(l.pop_back(), Some("a".to_string()));
    assert_eq!(l.pop_back(), Some("b".to_string()));
}

#[test]
fn list_move_front_interior() {
    let mut l = List::new();
    let _a = l.push_front("a".to_string(), Value::Int(1));
    let b = l.push_front("b".to_string(), Value::Int(2));
    let _c = l.push_front("c".to_string(), Value::Int(3));
    // order: c b a; promote the middle entry
    l.move_front(b);
    assert_eq!(l.pop_back(), Some("a".to_string()));
    assert_eq!(l.pop_back(), Some("c".to_string()));
    assert_eq!(l.pop_back(), Some("b".to_string()));
}

#[test]
fn list_set_value_keeps_order() {
    let mut l = List::new();
    let a = l.push_front("a".to_string(), Value::Int(1));
    let _b = l.push_front("b".to_string(), Value::Int(2));
    l.set_value(a, Value::Int(9));
    assert_eq!(l.len(), 2);
    assert_eq!(l.pop_back(), Some("a".to_string()));
    assert_eq!(l.pop_back(), Some("b".to_string()));
}
