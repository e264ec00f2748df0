use lisp::gc::Heap;
use lisp::object::Object;

#[test]
fn mark_cons() {
    let mut heap: Heap<Object> = Heap::new();
    let a = heap.allocate_integer(10);
    let b = heap.allocate_integer(12);
    let c = heap.allocate_integer(42);
    let cons = heap.allocate_list(a, b);
    heap.mark(&vec![cons]);
    assert_eq!(heap.is_marked(cons), true);
    assert_eq!(heap.is_marked(a), true);
    assert_eq!(heap.is_marked(b), true);
    assert_eq!(heap.is_marked(c), false);
}

#[test]
fn swap() {
    let mut heap: Heap<Object> = Heap::new();
    let a = heap.allocate_integer(10);

    assert_eq!(*heap.dereference(a), Object::Integer(10));
    assert_eq!(
        heap.swap(a, Object::Decimal((10.0f64).to_bits())),
        Object::Integer(10)
    );
    assert_eq!(*heap.dereference(a), Object::Decimal((10.0f64).to_bits()));
}

#[test]
fn sweep_reclaims_unreachable() {
    let mut heap: Heap<Object> = Heap::new();
    let a = heap.allocate_integer(10);
    let b = heap.allocate_integer(12);
    let c = heap.allocate_integer(42);
    let p = heap.allocate_list(a, b);
    heap.mark(&vec![p]);
    assert!(heap.is_marked(p) && heap.is_marked(a) && heap.is_marked(b));
    assert!(!heap.is_marked(c));
    let reclaimed = heap.sweep();
    assert_eq!(reclaimed, 1);
    assert!(!heap.is_live(c));
    assert!(heap.is_live(a) && heap.is_live(b) && heap.is_live(p));
    assert!(!heap.is_marked(p) && !heap.is_marked(a) && !heap.is_marked(b));
}

#[test]
fn mark_cycle_terminates() {
    let mut heap: Heap<Object> = Heap::new();
    let n = heap.allocate_null();
    let p = heap.allocate_list(n, n);
    heap.swap(p, Object::List(n, p));
    heap.mark(&vec![p]);
    assert!(heap.is_marked(p));
    assert!(heap.is_marked(n));
}

#[test]
fn mark_twice_same_roots() {
    let mut heap: Heap<Object> = Heap::new();
    let a = heap.allocate_integer(10);
    let b = heap.allocate_integer(12);
    let c = heap.allocate_integer(42);
    let cons = heap.allocate_list(a, b);
    heap.mark(&vec![cons]);
    let first = (
        heap.is_marked(cons),
        heap.is_marked(a),
        heap.is_marked(b),
        heap.is_marked(c),
    );
    heap.mark(&vec![cons]);
    let second = (
        heap.is_marked(cons),
        heap.is_marked(a),
        heap.is_marked(b),
        heap.is_marked(c),
    );
    assert_eq!(first, second);
    assert_eq!(first, (true, true, true, false));
}

#[test]
fn sweep_empty_heap() {
    let mut heap: Heap<Object> = Heap::new();
    assert_eq!(heap.sweep(), 0);
}

#[test]
fn sweep_all_without_roots() {
    let mut heap: Heap<Object> = Heap::new();
    let a = heap.allocate_integer(1);
    let b = heap.allocate_integer(2);
    let c = heap.allocate_list(a, b);
    heap.mark(&vec![]);
    assert_eq!(heap.sweep(), 3);
    assert!(!heap.is_live(a) && !heap.is_live(b) && !heap.is_live(c));
}

#[test]
fn reclaimed_slot_stays_dead() {
    let mut heap: Heap<Object> = Heap::new();
    let a = heap.allocate_integer(1);
    heap.mark(&vec![]);
    assert_eq!(heap.sweep(), 1);
    assert!(!heap.is_live(a));
    let b = heap.allocate_integer(2);
    assert!(heap.is_live(b));
    assert!(!heap.is_live(a));
    assert_eq!(*heap.dereference(b), Object::Integer(2));
}

#[test]
fn dereference_mut_writes() {
    let mut heap: Heap<Object> = Heap::new();
    let a = heap.allocate_integer(1);
    *heap.dereference_mut(a) = Object::Integer(2);
    assert_eq!(*heap.dereference(a), Object::Integer(2));
}

#[test]
fn mark_keeps_payloads() {
    let mut heap: Heap<Object> = Heap::new();
    let a = heap.allocate_literal(String::from("lisp"));
    let b = heap.allocate_symbol(String::from("car"));
    let p = heap.allocate_list(a, b);
    heap.mark(&vec![p]);
    assert_eq!(*heap.dereference(a), Object::Literal(String::from("lisp")));
    assert_eq!(*heap.dereference(b), Object::Symbol(String::from("car")));
}
