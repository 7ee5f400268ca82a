use my_algo::vec::{IndexError, MyVec};

#[derive(Debug)]
struct Foo(usize);

impl Drop for Foo {
    fn drop(&mut self) {
        println!("drop: {}", self.0);
    }
}

struct FooZst;

#[test]
fn test_basic() {
    let mut v: MyVec<&'static str> = MyVec::new();
    v.push("Hello");
    v.push("World");
    assert_eq!(v.pop(), Some("World"));
    assert_eq!(v.pop(), Some("Hello"));
    assert_eq!(v.pop(), None);
}

#[test]
fn vec_test_drop() {
    {
        let mut v = MyVec::new();
        v.push(Foo(1));
        v.push(Foo(2));
        v.push(Foo(3));
    }
    {
        let mut v = MyVec::new();
        v.push(Foo(1));
        v.push(Foo(2));
        v.push(Foo(3));
    }
}

#[test]
fn test_deref() {
    let mut v = MyVec::new();
    for i in 0..10 {
        v.push(i);
    }
    let mapped: Vec<_> = v.into_vec().iter().map(|v| *v * 2).collect();
    assert_eq!(mapped, vec![0, 2, 4, 6, 8, 10, 12, 14, 16, 18]);
}

#[test]
fn test_zst() {
    let mut v = MyVec::new();
    for _ in 0..100 {
        v.push(FooZst);
    }
    for _ in 0..100 {
        assert!(v.pop().is_some());
    }
}

#[test]
fn vec_index_operations() {
    let mut v = MyVec::new();
    for i in 0..5 {
        v.push(i * 10);
    }
    assert_eq!(v.len(), 5);
    assert_eq!(v.get(2), Ok(&20));
    assert_eq!(v.get(5), Err(IndexError));
    assert_eq!(v.replace(1, 11), Ok(10));
    assert_eq!(v.swap(0, 4), Ok(()));
    assert_eq!(v.swap(0, 5), Err(IndexError));
    assert_eq!(v.insert(5, 50), Ok(()));
    assert_eq!(v.insert(7, 70), Err(IndexError));
    assert_eq!(v.delete(0), Ok(40));
    assert_eq!(v.delete(9), Err(IndexError));
    assert_eq!(v.into_vec(), vec![11, 20, 30, 0, 50]);
    let w: MyVec<i32> = MyVec::default();
    assert!(w.is_empty());
    assert!(!w.is_index_read_valid(0));
    assert!(w.is_index_insert_valid(0));
}
