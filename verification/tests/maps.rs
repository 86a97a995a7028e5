use symbol_pool::{Symbol, SymbolMap, SymbolPool};

fn intern(pool: &mut SymbolPool, s: &str) -> Symbol {
    Symbol::new(pool, s)
}

#[test]
fn small_map_smoke_test() {
    let mut pool = SymbolPool::new();
    let mut m: SymbolMap<&str> = SymbolMap::new();

    let k1 = intern(&mut pool, "key1");
    m.insert(&mut pool, k1, "v1");
    let k2 = intern(&mut pool, "key2");
    m.insert(&mut pool, k2, "v2");
    let k1b = intern(&mut pool, "key1");
    m.insert(&mut pool, k1b, "v3");

    assert_eq!(m.len(), 2);
    assert_eq!(m.get(&pool, "key1"), Some(&"v3"));
    assert_eq!(m.get(&pool, "key4"), None);
    assert_eq!(pool.len(), 3);
}

#[test]
fn lookup_by_borrowed_content() {
    let mut pool = SymbolPool::new();
    let mut m: SymbolMap<usize> = SymbolMap::new();

    let one = intern(&mut pool, "one");
    let two = intern(&mut pool, "two");
    let three = intern(&mut pool, "three");
    m.insert(&mut pool, one, 1);
    m.insert(&mut pool, two, 2);
    m.insert(&mut pool, three, 3);

    assert_eq!(m.get(&pool, "one"), Some(&1));
    assert_eq!(m.get(&pool, "two"), Some(&2));
    assert!(m.contains_key(&pool, "three"));
    assert!(!m.contains_key(&pool, "four"));
}

#[test]
fn small_to_large_transition_preserves_associations() {
    let mut pool = SymbolPool::new();
    let mut m: SymbolMap<usize> = SymbolMap::new();

    let names = ["k0", "k1", "k2", "k3", "k4", "k5", "k6", "k7"];
    for (i, name) in names.iter().enumerate() {
        let k = intern(&mut pool, name);
        assert_eq!(m.insert(&mut pool, k, i), None);
    }
    assert_eq!(m.len(), 8);
    for (i, name) in names.iter().enumerate() {
        assert_eq!(m.get(&pool, name), Some(&i));
    }

    // The ninth distinct key crosses the threshold and builds the
    // secondary index; no earlier association may change.
    let k8 = intern(&mut pool, "k8");
    assert_eq!(m.insert(&mut pool, k8, 8), None);
    assert_eq!(m.len(), 9);
    for (i, name) in names.iter().enumerate() {
        assert_eq!(m.get(&pool, name), Some(&i));
    }
    assert_eq!(m.get(&pool, "k8"), Some(&8));
    assert_eq!(m.get(&pool, "k9"), None);
}

#[test]
fn iteration_in_insertion_order() {
    let mut pool = SymbolPool::new();
    let mut m: SymbolMap<usize> = SymbolMap::new();

    let names = ["delta", "alpha", "echo", "bravo", "charlie"];
    for (i, name) in names.iter().enumerate() {
        let k = intern(&mut pool, name);
        m.insert(&mut pool, k, i);
    }

    let mut keys = m.keys();
    let mut seen: Vec<String> = Vec::new();
    while let Some(k) = keys.next() {
        seen.push(k.as_str(&pool).to_string());
    }
    assert_eq!(seen, vec!["delta", "alpha", "echo", "bravo", "charlie"]);

    // Removing an interior key keeps the remaining relative order.
    assert_eq!(m.remove(&mut pool, "echo"), Some(2));
    let mut keys = m.keys();
    let mut seen: Vec<String> = Vec::new();
    while let Some(k) = keys.next() {
        seen.push(k.as_str(&pool).to_string());
    }
    assert_eq!(seen, vec!["delta", "alpha", "bravo", "charlie"]);
}

#[test]
fn iter_and_values_walk_pairs() {
    let mut pool = SymbolPool::new();
    let mut m: SymbolMap<usize> = SymbolMap::new();

    let a = intern(&mut pool, "a");
    let b = intern(&mut pool, "b");
    m.insert(&mut pool, a, 10);
    m.insert(&mut pool, b, 20);

    let mut it = m.iter();
    let (k, v) = it.next().expect("first pair");
    assert_eq!(k.as_str(&pool), "a");
    assert_eq!(*v, 10);
    let (k, v) = it.next().expect("second pair");
    assert_eq!(k.as_str(&pool), "b");
    assert_eq!(*v, 20);
    assert!(it.next().is_none());

    let mut vals = m.values();
    assert_eq!(vals.next(), Some(&10));
    assert_eq!(vals.next(), Some(&20));
    assert_eq!(vals.next(), None);

    // A fresh walk restarts from the beginning.
    let mut vals = m.values();
    assert_eq!(vals.next(), Some(&10));
}

#[test]
fn remove_releases_the_stored_handle() {
    let mut pool = SymbolPool::new();
    let mut m: SymbolMap<&str> = SymbolMap::new();

    let k = intern(&mut pool, "gone");
    m.insert(&mut pool, k, "value");
    assert_eq!(pool.len(), 2);

    assert_eq!(m.remove(&mut pool, "gone"), Some("value"));
    assert_eq!(m.len(), 0);
    assert_eq!(pool.len(), 1);
    assert_eq!(m.remove(&mut pool, "gone"), None);
}

#[test]
fn remove_at_and_insert_at() {
    let mut pool = SymbolPool::new();
    let mut m: SymbolMap<usize> = SymbolMap::new();

    let a = intern(&mut pool, "a");
    let b = intern(&mut pool, "b");
    let c = intern(&mut pool, "c");
    m.insert(&mut pool, a, 1);
    m.insert(&mut pool, b, 2);
    m.insert(&mut pool, c, 3);

    assert_eq!(m.remove_at(&mut pool, 1), Some(2));
    assert_eq!(m.len(), 2);
    assert_eq!(m.get(&pool, "b"), None);

    // Re-inserting "b" at the front moves it before "a" and "c".
    let b2 = intern(&mut pool, "b");
    assert_eq!(m.insert_at(&mut pool, 0, b2, 20), None);
    let mut keys = m.keys();
    let mut seen: Vec<String> = Vec::new();
    while let Some(k) = keys.next() {
        seen.push(k.as_str(&pool).to_string());
    }
    assert_eq!(seen, vec!["b", "a", "c"]);

    // Inserting an existing key positionally returns its old value.
    let a2 = intern(&mut pool, "a");
    assert_eq!(m.insert_at(&mut pool, 2, a2, 10), Some(1));
    assert_eq!(m.get(&pool, "a"), Some(&10));
    assert_eq!(m.len(), 3);
}

#[test]
fn pops_take_the_tail() {
    let mut pool = SymbolPool::new();
    let mut m: SymbolMap<usize> = SymbolMap::new();

    let a = intern(&mut pool, "a");
    let b = intern(&mut pool, "b");
    m.insert(&mut pool, a, 1);
    m.insert(&mut pool, b, 2);

    let (k, v) = m.pop_front().expect("map is not empty");
    assert_eq!(k.as_str(&pool), "b");
    assert_eq!(v, 2);
    pool.release(k);

    let (k, v) = m.pop_back().expect("map is not empty");
    assert_eq!(k.as_str(&pool), "a");
    assert_eq!(v, 1);
    pool.release(k);

    assert!(m.pop_front().is_none());
    assert!(m.pop_back().is_none());
}

#[test]
fn clear_releases_every_handle() {
    let mut pool = SymbolPool::new();
    let mut m: SymbolMap<usize> = SymbolMap::new();

    for (i, name) in ["p", "q", "r"].iter().enumerate() {
        let k = intern(&mut pool, name);
        m.insert(&mut pool, k, i);
    }
    assert_eq!(pool.len(), 4);

    m.clear(&mut pool);
    assert_eq!(m.len(), 0);
    assert_eq!(pool.len(), 1);
}

#[test]
fn replace_value_in_place() {
    let mut pool = SymbolPool::new();
    let mut m: SymbolMap<usize> = SymbolMap::new();

    let a = intern(&mut pool, "a");
    let b = intern(&mut pool, "b");
    m.insert(&mut pool, a, 1);
    m.insert(&mut pool, b, 2);

    assert_eq!(m.replace_value_at(0, 100), 1);
    assert_eq!(m.get(&pool, "a"), Some(&100));
    assert_eq!(m.get(&pool, "b"), Some(&2));
    assert_eq!(m.key_at(0).as_str(&pool), "a");
    assert_eq!(*m.value_at(1), 2);
}

#[test]
fn insert_replaces_and_releases_surplus_handle() {
    let mut pool = SymbolPool::new();
    let mut m: SymbolMap<&str> = SymbolMap::new();

    let k = intern(&mut pool, "key");
    m.insert(&mut pool, k, "old");

    let k2 = intern(&mut pool, "key");
    assert_eq!(m.insert(&mut pool, k2, "new"), Some("old"));
    assert_eq!(m.len(), 1);
    assert_eq!(m.get(&pool, "key"), Some(&"new"));

    // The map holds exactly one handle for the key.
    let probe = Symbol::get(&mut pool, "key").expect("key is resident");
    assert_eq!(probe.ref_count(&pool), 2);
    pool.release(probe);
}

#[test]
fn large_map_operations_use_the_index() {
    let mut pool = SymbolPool::new();
    let mut m: SymbolMap<usize> = SymbolMap::new();

    let names = [
        "n00", "n01", "n02", "n03", "n04", "n05", "n06", "n07", "n08", "n09", "n10", "n11",
    ];
    for (i, name) in names.iter().enumerate() {
        let k = intern(&mut pool, name);
        m.insert(&mut pool, k, i);
    }
    assert_eq!(m.len(), 12);

    // Replacement through the index: position and key unchanged.
    let k5 = intern(&mut pool, "n05");
    assert_eq!(m.insert(&mut pool, k5, 500), Some(5));
    assert_eq!(m.len(), 12);
    assert_eq!(m.get(&pool, "n05"), Some(&500));
    assert_eq!(m.key_at(5).as_str(&pool), "n05");

    // Removal through the index rebuilds it; everything else answers.
    assert_eq!(m.remove(&mut pool, "n03"), Some(3));
    assert_eq!(m.len(), 11);
    assert_eq!(m.get(&pool, "n03"), None);
    for (i, name) in names.iter().enumerate() {
        if i == 3 {
            continue;
        }
        let expected = if i == 5 { 500 } else { i };
        assert_eq!(m.get(&pool, name), Some(&expected));
    }
}

#[test]
fn capacity_management() {
    let mut pool = SymbolPool::new();
    let mut m: SymbolMap<usize> = SymbolMap::with_capacity(16);
    assert!(m.capacity() >= 16);
    assert!(m.is_empty());

    let a = intern(&mut pool, "a");
    m.insert(&mut pool, a, 1);
    m.reserve(100);
    assert!(m.capacity() >= 101);
    assert_eq!(m.get(&pool, "a"), Some(&1));

    m.shrink_to_fit();
    assert_eq!(m.len(), 1);
    assert_eq!(m.get(&pool, "a"), Some(&1));
}
