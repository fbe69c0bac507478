use phprs::arena::Arena;
use phprs::array::{ArrayKey, PhpArray};
use phprs::string::SmartString;

#[derive(Debug, Clone, PartialEq)]
enum Val {
    Int(i64),
    Bool(bool),
    Str(String),
}

fn s(v: &str) -> Val {
    Val::Str(v.to_string())
}

#[test]
fn test_basic_allocation() {
    let mut arena = Arena::new();

    let p1 = arena.allocate::<i64>();
    let p2 = arena.allocate::<i64>();

    assert_ne!(p1, p2);
    assert_eq!(p1.chunk, p2.chunk);
    assert_eq!(p2.offset - p1.offset, 8);
}

#[test]
fn test_alloc_val() {
    let mut arena = Arena::new();

    let x_ptr = arena.allocate::<i64>();
    arena.write_bytes(x_ptr, &42i64.to_le_bytes());

    let y_ptr = arena.allocate::<i64>();
    arena.write_bytes(y_ptr, &100i64.to_le_bytes());

    let x = arena.read_bytes(x_ptr, 8);
    let y = arena.read_bytes(y_ptr, 8);
    assert_eq!(i64::from_le_bytes(x.try_into().unwrap()), 42);
    assert_eq!(i64::from_le_bytes(y.try_into().unwrap()), 100);
}

#[test]
fn test_alloc_slice() {
    let mut arena = Arena::new();
    let slice = arena.alloc_slice::<i32>(10);
    assert_eq!(slice.len(), 10);
}

#[test]
fn test_reset() {
    let mut arena = Arena::new();

    for _ in 0..100 {
        arena.allocate::<[u8; 1024]>();
    }

    let stats_before = arena.stats();
    assert!(stats_before.total_allocated > 0);

    arena.reset();

    let stats_after = arena.stats();
    assert_eq!(stats_after.total_allocated, 0);
    assert_eq!(stats_after.alloc_count, 0);
    assert_eq!(stats_after.chunk_count, stats_before.chunk_count);
}

#[test]
fn test_grow() {
    let mut arena = Arena::with_capacity(1024);

    for _ in 0..100 {
        arena.allocate::<[u8; 256]>();
    }

    let stats = arena.stats();
    assert!(stats.chunk_count > 1);
}

#[test]
fn test_alignment() {
    let mut arena = Arena::new();

    let _ = arena.allocate::<u8>();

    let p = arena.allocate::<i64>();
    assert_eq!(p.offset % 8, 0);
}

#[test]
fn test_large_allocation() {
    let mut arena = Arena::with_capacity(1024);

    let large = arena.alloc_slice::<u8>(10000);
    assert_eq!(large.len(), 10000);
}

#[test]
fn test_many_small_allocations() {
    let mut arena = Arena::new();

    for _ in 0..10000 {
        arena.allocate::<i64>();
    }

    let stats = arena.stats();
    assert_eq!(stats.alloc_count, 10000);
    assert_eq!(stats.total_allocated, 10000 * 8);
}

#[test]
fn allocations_after_reset_start_at_zero() {
    let mut arena = Arena::with_capacity(64);
    assert_eq!(arena.stats().total_capacity, 1024);
    let a = arena.alloc_bytes(10);
    let b = arena.alloc_bytes(10);
    assert_eq!((a.chunk, a.offset), (0, 0));
    assert_eq!((b.chunk, b.offset), (0, 10));
    let c = arena.alloc_bytes(2000);
    assert_ne!(c.chunk, 0);
    assert_eq!(c.offset, 0);
    arena.reset();
    let d = arena.alloc_bytes(4);
    assert_eq!((d.chunk, d.offset), (0, 0));
    assert_eq!(arena.stats().total_allocated, 4);
}

#[test]
fn test_empty_array() {
    let arr: PhpArray<Val> = PhpArray::new();
    assert!(arr.is_empty());
    assert_eq!(arr.len(), 0);
}

#[test]
fn test_push() {
    let mut arr = PhpArray::new();
    arr.push(Val::Int(1));
    arr.push(Val::Int(2));
    arr.push(Val::Int(3));

    assert_eq!(arr.len(), 3);
    assert_eq!(arr.get_int(0), Some(&Val::Int(1)));
    assert_eq!(arr.get_int(1), Some(&Val::Int(2)));
    assert_eq!(arr.get_int(2), Some(&Val::Int(3)));
}

#[test]
fn test_set_get() {
    let mut arr = PhpArray::new();
    arr.set_str("name", s("John"));
    arr.set_str("age", Val::Int(30));
    arr.set_int(0, Val::Bool(true));

    assert_eq!(arr.len(), 3);
    assert_eq!(arr.get_str("name"), Some(&s("John")));
    assert_eq!(arr.get_str("age"), Some(&Val::Int(30)));
    assert_eq!(arr.get_int(0), Some(&Val::Bool(true)));
}

#[test]
fn test_overwrite() {
    let mut arr = PhpArray::new();
    arr.set_str("key", Val::Int(1));
    let old = arr.set_str("key", Val::Int(2));

    assert_eq!(old, Some(Val::Int(1)));
    assert_eq!(arr.get_str("key"), Some(&Val::Int(2)));
    assert_eq!(arr.len(), 1);
}

#[test]
fn test_mixed_keys() {
    let mut arr = PhpArray::new();
    arr.push(s("first"));
    arr.set_str("name", s("test"));
    arr.push(s("second"));
    arr.set_int(10, s("ten"));
    arr.push(s("third"));

    assert_eq!(arr.len(), 5);
    assert_eq!(arr.get_int(0), Some(&s("first")));
    assert_eq!(arr.get_int(1), Some(&s("second")));
    assert_eq!(arr.get_int(10), Some(&s("ten")));
    assert_eq!(arr.get_int(11), Some(&s("third")));
}

#[test]
fn test_pop() {
    let mut arr = PhpArray::new();
    arr.push(Val::Int(1));
    arr.push(Val::Int(2));

    let popped = arr.pop();
    assert_eq!(popped, Some(Val::Int(2)));
    assert_eq!(arr.len(), 1);
}

#[test]
fn test_remove() {
    let mut arr = PhpArray::new();
    arr.set_str("a", Val::Int(1));
    arr.set_str("b", Val::Int(2));
    arr.set_str("c", Val::Int(3));

    let removed = arr.remove(&ArrayKey::string("b"));
    assert_eq!(removed, Some(Val::Int(2)));
    assert_eq!(arr.len(), 2);
    assert!(arr.get_str("b").is_none());
}

#[test]
fn test_iteration_order() {
    let mut arr = PhpArray::new();
    arr.set_str("c", Val::Int(3));
    arr.set_str("a", Val::Int(1));
    arr.set_str("b", Val::Int(2));

    let keys: Vec<_> = arr.keys();
    assert_eq!(keys.len(), 3);
    assert_eq!(keys[0], &ArrayKey::string("c"));
    assert_eq!(keys[1], &ArrayKey::string("a"));
    assert_eq!(keys[2], &ArrayKey::string("b"));
}

#[test]
fn test_merge() {
    let mut arr1 = PhpArray::new();
    arr1.push(Val::Int(1));
    arr1.set_str("key", s("old"));

    let mut arr2 = PhpArray::new();
    arr2.push(Val::Int(2));
    arr2.set_str("key", s("new"));

    arr1.merge(&arr2);

    assert_eq!(arr1.len(), 3);
    assert_eq!(arr1.get_int(0), Some(&Val::Int(1)));
    assert_eq!(arr1.get_int(1), Some(&Val::Int(2)));
    assert_eq!(arr1.get_str("key"), Some(&s("new")));
}

#[test]
fn test_reverse() {
    let mut arr = PhpArray::new();
    arr.push(Val::Int(1));
    arr.push(Val::Int(2));
    arr.push(Val::Int(3));

    arr.reverse();

    let values: Vec<_> = arr.values();
    assert_eq!(values[0], &Val::Int(3));
    assert_eq!(values[1], &Val::Int(2));
    assert_eq!(values[2], &Val::Int(1));
}

#[test]
fn test_contains_key() {
    let mut arr = PhpArray::new();
    arr.set_str("exists", Val::Int(1));

    assert!(arr.contains_key(&ArrayKey::string("exists")));
    assert!(!arr.contains_key(&ArrayKey::string("not_exists")));
}

#[test]
fn get_after_set_and_other_keys_unchanged() {
    let mut arr = PhpArray::new();
    arr.set_int(5, Val::Int(50));
    arr.set_str("5", Val::Int(500));
    assert_eq!(arr.get_int(5), Some(&Val::Int(50)));
    assert_eq!(arr.get_str("5"), Some(&Val::Int(500)));
    arr.set_int(5, Val::Int(51));
    assert_eq!(arr.get_int(5), Some(&Val::Int(51)));
    assert_eq!(arr.get_str("5"), Some(&Val::Int(500)));
    arr.push(Val::Int(6));
    assert_eq!(arr.get_int(6), Some(&Val::Int(6)));
}

#[test]
fn remove_keeps_other_keys_and_order() {
    let mut arr = PhpArray::new();
    arr.push(Val::Int(10));
    arr.set_str("k", Val::Int(20));
    arr.push(Val::Int(30));
    assert_eq!(arr.remove(&ArrayKey::integer(0)), Some(Val::Int(10)));
    assert_eq!(arr.get_int(0), None);
    assert_eq!(arr.get_str("k"), Some(&Val::Int(20)));
    assert_eq!(arr.get_int(1), Some(&Val::Int(30)));
    assert_eq!(arr.int_keys(), vec![1]);
    arr.push(Val::Int(40));
    assert_eq!(arr.get_int(2), Some(&Val::Int(40)));
}

#[test]
fn int_keys_clear_and_pop_empty() {
    let mut arr = PhpArray::new();
    arr.push(Val::Int(0));
    arr.set_str("x", Val::Int(1));
    arr.set_int(7, Val::Int(2));
    assert_eq!(arr.int_keys(), vec![0, 7]);
    let pairs = arr.iter();
    assert_eq!(pairs.len(), 3);
    assert_eq!(pairs[1].0, &ArrayKey::string("x"));
    arr.clear();
    assert!(arr.is_empty());
    assert_eq!(arr.pop(), None);
    arr.push(Val::Int(9));
    assert_eq!(arr.get_int(0), Some(&Val::Int(9)));
    assert_eq!(arr.remove(&ArrayKey::integer(42)), None);
}

#[test]
fn get_mut_changes_value() {
    let mut arr = PhpArray::new();
    arr.set_str("k", Val::Int(1));
    if let Some(v) = arr.get_mut(&ArrayKey::string("k")) {
        *v = Val::Int(2);
    }
    assert_eq!(arr.get_str("k"), Some(&Val::Int(2)));
    assert!(arr.get_mut(&ArrayKey::string("none")).is_none());
}

#[test]
fn array_key_helpers() {
    let k = ArrayKey::integer(3);
    assert!(k.is_int());
    assert_eq!(k.as_int(), Some(3));
    let t = ArrayKey::from(SmartString::from_str("a"));
    assert!(!t.is_int());
    assert_eq!(t.as_int(), None);
    assert!(t.same(&ArrayKey::string("a")));
    assert!(!t.same(&k));
    assert_eq!(ArrayKey::from(3i64), k);
}
