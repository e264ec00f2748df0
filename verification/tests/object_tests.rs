use lisp::gc::Heap;
use lisp::object::Object;

#[test]
fn car() {
    let mut heap: Heap<Object> = Heap::new();
    let a = heap.allocate_integer(10);
    let b = heap.allocate_integer(12);
    let cons = heap.allocate_list(a, b);
    let head = heap.dereference(cons).car().unwrap();
    assert!(heap.handle_eq(head, a));
    assert!(heap.dereference(a).car().is_err());
}

#[test]
fn cdr() {
    let mut heap: Heap<Object> = Heap::new();
    let a = heap.allocate_integer(10);
    let b = heap.allocate_integer(12);
    let cons = heap.allocate_list(a, b);
    let tail = heap.dereference(cons).cdr().unwrap();
    assert!(heap.handle_eq(tail, b));
}

#[test]
fn set_car() {
    let mut heap: Heap<Object> = Heap::new();
    let a = heap.allocate_integer(10);
    let b = heap.allocate_integer(12);
    let cons = heap.allocate_list(a, b);
    heap.set_car(cons, b).unwrap();
    let head = heap.dereference(cons).car().unwrap();
    assert!(heap.handle_eq(head, b));
}

#[test]
fn set_cdr() {
    let mut heap: Heap<Object> = Heap::new();
    let a = heap.allocate_integer(10);
    let b = heap.allocate_integer(12);
    let cons = heap.allocate_list(a, b);
    let r = heap.set_cdr(cons, a).unwrap();
    assert!(heap.handle_eq(r, b));
    let tail = heap.dereference(cons).cdr().unwrap();
    assert!(heap.handle_eq(tail, b));
}

#[test]
fn handle_equality_by_payload() {
    let mut heap: Heap<Object> = Heap::new();
    let x = heap.allocate_integer(7);
    let y = heap.allocate_integer(7);
    let z = heap.allocate_integer(8);
    assert!(heap.handle_eq(x, y));
    assert!(!heap.handle_eq(x, z));
    let s1 = heap.allocate_literal(String::from("abc"));
    let s2 = heap.allocate_literal(String::from("abc"));
    let s3 = heap.allocate_symbol(String::from("abc"));
    assert!(heap.handle_eq(s1, s2));
    assert!(!heap.handle_eq(s1, s3));
}

#[test]
fn accessors_refuse_non_list() {
    let mut heap: Heap<Object> = Heap::new();
    let a = heap.allocate_integer(10);
    let b = heap.allocate_null();
    assert_eq!(
        heap.dereference(a).car().unwrap_err(),
        "function car expects list"
    );
    assert_eq!(
        heap.dereference(a).cdr().unwrap_err(),
        "function car expects list"
    );
    assert_eq!(
        heap.set_car(a, b).unwrap_err(),
        "function car expects list"
    );
    assert_eq!(
        heap.set_cdr(a, b).unwrap_err(),
        "function car expects list"
    );
    assert_eq!(*heap.dereference(a), Object::Integer(10));
}

#[test]
fn allocate_variants() {
    let mut heap: Heap<Object> = Heap::new();
    let n = heap.allocate_null();
    let d = heap.allocate_decimal((6.47573f64).to_bits());
    let l = heap.allocate_literal(String::from("lisp"));
    let s = heap.allocate_symbol(String::from("quote"));
    let p = heap.allocate_list(l, d);
    assert_eq!(*heap.dereference(n), Object::Null);
    assert_eq!(
        *heap.dereference(d),
        Object::Decimal((6.47573f64).to_bits())
    );
    assert_eq!(*heap.dereference(l), Object::Literal(String::from("lisp")));
    assert_eq!(*heap.dereference(s), Object::Symbol(String::from("quote")));
    let head = heap.dereference(p).car().unwrap();
    assert!(heap.handle_eq(head, l));
}
