use stacklang::stack::Stack;

#[test]
fn stack_push_pop_peek() {
    let mut s: Stack<isize> = Stack::new();
    assert!(s.is_empty());
    assert_eq!(s.len(), 0);
    assert_eq!(s.peek(), None);
    assert_eq!(s.pop(), None);
    s.push(4);
    s.push(7);
    assert_eq!(s.len(), 2);
    assert!(!s.is_empty());
    assert_eq!(s.peek(), Some(&7));
    assert_eq!(s.to_vec(), &vec![4, 7]);
    assert_eq!(s.pop(), Some(7));
    assert_eq!(s.pop(), Some(4));
    assert_eq!(s.pop(), None);
    assert!(s.is_empty());
}
