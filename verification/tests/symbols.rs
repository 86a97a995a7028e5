use std::cmp::Ordering;
use symbol_pool::{Symbol, SymbolPool};

fn assert_sync<T: Sync>(_: T) {}

fn assert_send<T: Send>(_: T) {}

#[test]
fn symbol_ptr_equality() {
    let mut pool = SymbolPool::new();

    let s1 = Symbol::new(&mut pool, "aaa");
    let s2 = Symbol::new(&mut pool, "aaa");
    let s3 = s1.clone_in(&mut pool);
    let s4 = Symbol::new(&mut pool, "aaaa");

    assert_eq!(s1, s2);
    assert_eq!(s1, s3);
    assert_ne!(s1, s4);
}

#[test]
fn lib_ptr_equality() {
    let mut pool = SymbolPool::new();

    let s1 = Symbol::new(&mut pool, "aaa");
    let s2 = Symbol::new(&mut pool, "aaa");
    let s3 = s1.clone_in(&mut pool);
    let s4 = Symbol::new(&mut pool, "aaaa");

    assert_eq!(s1, s2);
    assert_eq!(s1, s3);
    assert_ne!(s1, s4);
}

#[test]
fn symbols_are_dropped() {
    let mut pool = SymbolPool::new();

    let s1 = Symbol::new(&mut pool, "aaa");
    let s2 = Symbol::new(&mut pool, "aaa");
    let s3 = Symbol::new(&mut pool, "aaaa");
    assert_eq!(s2.ref_count(&pool), 2);
    assert_eq!(s3.ref_count(&pool), 1);
    assert_eq!(pool.len(), 3);

    pool.release(s1);
    pool.release(s2);
    pool.release(s3);

    assert_eq!(pool.len(), 1);
}

#[test]
fn non_empty_symbols_are_dropped() {
    let mut pool = SymbolPool::new();

    let s1 = Symbol::new(&mut pool, "aaa");
    let s2 = Symbol::new(&mut pool, "aaa");
    let s3 = Symbol::new(&mut pool, "aaaa");
    assert_eq!(s2.ref_count(&pool), 2);
    assert_eq!(s3.ref_count(&pool), 1);
    assert_eq!(pool.len(), 3);

    pool.release(s1);
    pool.release(s2);
    pool.release(s3);

    assert_eq!(pool.len(), 1);
}

#[test]
fn symbol_symbol_is_sync() {
    let mut pool = SymbolPool::new();

    assert_sync(Symbol::new(&mut pool, "example"));
}

#[test]
fn symbol_symbol_is_send() {
    let mut pool = SymbolPool::new();

    assert_send(Symbol::new(&mut pool, "example"));
}

#[test]
fn lib_symbol_is_sync() {
    let mut pool = SymbolPool::new();

    assert_sync(Symbol::new(&mut pool, "example"));
}

#[test]
fn lib_symbol_is_send() {
    let mut pool = SymbolPool::new();

    assert_send(Symbol::new(&mut pool, "example"));
}

#[test]
fn symbol_symbol_sizeof_is_equal_to_pointer() {
    assert_eq!(std::mem::size_of::<Symbol>(), std::mem::size_of::<&()>());
}

#[test]
fn lib_symbol_sizeof_is_equal_to_pointer() {
    assert_eq!(std::mem::size_of::<Symbol>(), std::mem::size_of::<&()>());
}

#[test]
fn empty_symbol_pinned() {
    let mut pool = SymbolPool::new();
    assert_eq!(pool.len(), 1);

    let a = Symbol::new(&mut pool, "");
    let b = Symbol::new(&mut pool, "");
    assert_eq!(a, b);
    assert_eq!(a.ref_count(&pool), 4);
    assert_eq!(pool.len(), 1);

    pool.release(a);
    pool.release(b);

    // The bias keeps the empty entry resident with a count of 2 even
    // when nothing holds it.
    assert_eq!(pool.len(), 1);
    let c = Symbol::get(&mut pool, "").expect("empty entry must stay resident");
    assert_eq!(c.ref_count(&pool), 3);
    pool.release(c);
}

#[test]
fn resolves_to_content() {
    let mut pool = SymbolPool::new();

    let s = Symbol::new(&mut pool, "example string");
    assert_eq!(s.as_str(&pool), "example string");

    let e = Symbol::new(&mut pool, "");
    assert_eq!(e.as_str(&pool), "");
}

#[test]
fn try_get_does_not_create() {
    let mut pool = SymbolPool::new();

    assert!(Symbol::get(&mut pool, "missing").is_none());
    assert_eq!(pool.len(), 1);

    let s = Symbol::new(&mut pool, "present");
    let t = Symbol::get(&mut pool, "present").expect("resident entry must be found");
    assert_eq!(s, t);
    assert_eq!(s.ref_count(&pool), 2);
    assert_eq!(pool.len(), 2);
}

#[test]
fn refcount_counts_handles() {
    let mut pool = SymbolPool::new();

    let s1 = Symbol::new(&mut pool, "x");
    let s2 = Symbol::new(&mut pool, "x");
    let s3 = Symbol::new(&mut pool, "x");
    assert_eq!(s1.ref_count(&pool), 3);
    assert_eq!(pool.len(), 2);

    pool.release(s1);
    assert_eq!(s2.ref_count(&pool), 2);
    pool.release(s2);
    assert_eq!(s3.ref_count(&pool), 1);
    pool.release(s3);

    assert_eq!(pool.len(), 1);
    assert!(Symbol::get(&mut pool, "x").is_none());
}

#[test]
fn encode_emits_content() {
    let mut pool = SymbolPool::new();

    let s = Symbol::new(&mut pool, "example");
    assert_eq!(s.encode(&pool), "example");
}

#[test]
fn decode_interns_content() {
    let mut pool = SymbolPool::new();

    let s = Symbol::decode(&mut pool, "example");
    assert_eq!(s.as_str(&pool), "example");
}

#[test]
fn encode_decode_roundtrip_by_address() {
    let mut pool = SymbolPool::new();

    let s = Symbol::new(&mut pool, "example");
    let encoded = s.encode(&pool);
    let decoded = Symbol::decode(&mut pool, &encoded);
    assert_eq!(s, decoded);
    assert_eq!(s.ref_count(&pool), 2);
}

#[test]
fn ordering_is_content_order() {
    let mut pool = SymbolPool::new();

    let abc = Symbol::new(&mut pool, "abc");
    let abd = Symbol::new(&mut pool, "abd");
    let ab = Symbol::new(&mut pool, "ab");
    let abc2 = Symbol::new(&mut pool, "abc");

    assert_eq!(abc.cmp_in(&abd, &pool), Ordering::Less);
    assert_eq!(abd.cmp_in(&abc, &pool), Ordering::Greater);
    assert_eq!(ab.cmp_in(&abc, &pool), Ordering::Less);
    assert_eq!(abc.cmp_in(&ab, &pool), Ordering::Greater);
    assert_eq!(abc.cmp_in(&abc2, &pool), Ordering::Equal);

    let empty = Symbol::new(&mut pool, "");
    assert_eq!(empty.cmp_in(&ab, &pool), Ordering::Less);
}

#[test]
fn empty_handle_is_the_pinned_entry() {
    let mut pool = SymbolPool::new();

    let d = Symbol::empty(&mut pool);
    let e = Symbol::new(&mut pool, "");
    assert_eq!(d, e);
    assert_eq!(d.as_str(&pool), "");
    pool.release(d);
    pool.release(e);
    assert_eq!(pool.len(), 1);
}

#[test]
fn content_equality_with_borrowed_strings() {
    let mut pool = SymbolPool::new();

    let s = Symbol::new(&mut pool, "needle");
    assert!(s.eq_str(&pool, "needle"));
    assert!(!s.eq_str(&pool, "haystack"));
    assert!(!s.eq_str(&pool, ""));

    let other = Symbol::new(&mut pool, "haystack");
    assert!(other.eq_str(&pool, "haystack"));
    assert!(!other.eq_str(&pool, "needle"));
}

#[test]
fn layout_is_header_then_payload() {
    assert_eq!(symbol_pool::payload_offset(), 24);
    assert_eq!(symbol_pool::entry_size(0), 24);
    assert_eq!(symbol_pool::entry_size(5), 29);
}
