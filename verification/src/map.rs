//! An insertion-ordered map keyed by `Symbol`.
//!
//! The map is one structure in two regimes.  Its ground truth is
//! `items`, a sequence of (key, value) pairs in insertion order; while
//! the map is small a lookup simply scans it.  Once the length crosses a
//! small threshold, an optional secondary index — a hash table from the
//! key's slot number to its position in `items` — is built and kept in
//! sync, so that lookups in a large map cost one hash probe.  Any
//! structural mutation that shifts positions rebuilds the index
//! wholesale before the map is next queried.
//!
//! Lookups by borrowed string content resolve the query against the live
//! pool first (the handle's cheap identity makes the rest O(1) or one
//! scan), so a caller may query with a plain `&str` and find keys stored
//! as `Symbol`s.  The map is a plain single-owner value: only the pool
//! and the handle are meant for cross-thread sharing.

use std::collections::HashMap;
use vstd::prelude::*;

use crate::pool::can_release;
use crate::pool::entry_resident;
use crate::pool::has_resident;
use crate::pool::pool_wf;
use crate::pool::release_effect;
use crate::pool::resident_id;
use crate::pool::EntryV;
use crate::pool::Symbol;
use crate::pool::SymbolPool;

verus! {

broadcast use vstd::std_specs::hash::group_hash_axioms;

/// Map lengths at or under this stay in the scanning regime with no
/// secondary index.
pub const SMALL_MAP_SIZE: usize = 8;

/// An insertion-ordered sequence of (`Symbol`, value) pairs with an
/// optional secondary index, keyed by the handle's O(1) identity.
///
/// The map owns one handle per distinct key.  Operations that discard a
/// stored key (replacement, removal, clearing) release that handle to
/// the pool they are given, which is why the mutating operations take
/// the pool.
pub struct SymbolMap<V> {
    items: Vec<(Symbol, V)>,
    index: Option<HashMap<usize, usize>>,
}

impl<V> View for SymbolMap<V> {
    type V = Seq<(nat, V)>;

    closed spec fn view(&self) -> Seq<(nat, V)> {
        Seq::new(self.items@.len(), |j: int| (self.items@[j].0@, self.items@[j].1))
    }
}

/// Whether some pair of `m` is keyed by the handle slot `id`.
pub open spec fn has_id<V>(m: Seq<(nat, V)>, id: nat) -> bool {
    exists|j: int| 0 <= j < m.len() && m[j].0 == id
}

/// The position of the pair keyed by slot `id`; meaningful when
/// `has_id(m, id)`, unique when keys are distinct.
pub open spec fn id_pos<V>(m: Seq<(nat, V)>, id: nat) -> int {
    choose|j: int| 0 <= j < m.len() && m[j].0 == id
}

/// No two pairs share a key.
pub open spec fn distinct_keys<V>(m: Seq<(nat, V)>) -> bool {
    forall|a: int, b: int| 0 <= a < b < m.len() ==> m[a].0 != m[b].0
}

/// Every stored key is a live handle in pool image `p` (and a releasable
/// one: a stored handle to the pinned empty entry keeps the count above
/// the bias).
pub open spec fn keys_valid<V>(m: Seq<(nat, V)>, p: Seq<EntryV>) -> bool {
    forall|j: int| 0 <= j < m.len() ==> can_release(p, #[trigger] m[j].0 as int)
}

/// Whether some pair of `m` is keyed by a handle whose content in `p` is
/// `s`.
pub open spec fn has_key_content<V>(m: Seq<(nat, V)>, p: Seq<EntryV>, s: Seq<char>) -> bool {
    exists|j: int| 0 <= j < m.len() && p[#[trigger] m[j].0 as int].content == s
}

/// The position of the pair whose key's content in `p` is `s`;
/// meaningful when `has_key_content(m, p, s)`.
pub open spec fn content_pos<V>(m: Seq<(nat, V)>, p: Seq<EntryV>, s: Seq<char>) -> int {
    choose|j: int| 0 <= j < m.len() && p[#[trigger] m[j].0 as int].content == s
}

/// What `insert` does to the map image: replace in place on a hit —
/// returning the value swapped out, with every position unchanged — or
/// append on a miss.
pub open spec fn insert_effect<V>(m: Seq<(nat, V)>, id: nat, v: V) -> (Seq<(nat, V)>, Option<V>) {
    if has_id(m, id) {
        let j = id_pos(m, id);
        (m.update(j, (id, v)), Some(m[j].1))
    } else {
        (m.push((id, v)), None)
    }
}

/// The pool image after releasing every key of `m` into `p`, latest
/// pair first, as `clear` does.
pub open spec fn release_all<V>(p: Seq<EntryV>, m: Seq<(nat, V)>) -> Seq<EntryV>
    decreases m.len(),
{
    if m.len() == 0 {
        p
    } else {
        release_all(release_effect(p, m.last().0 as int), m.drop_last())
    }
}

/// The exact contents of a coherent secondary index: each stored key's
/// slot number maps to the key's current position in `items`.
pub open spec fn positions_map<V>(m: Seq<(nat, V)>) -> Map<usize, usize> {
    Map::new(|k: usize| has_id(m, k as nat), |k: usize| id_pos(m, k as nat) as usize)
}

/// The map image after inserting each pair of `kvs` in turn.
pub open spec fn insert_all<V>(m: Seq<(nat, V)>, kvs: Seq<(nat, V)>) -> Seq<(nat, V)>
    decreases kvs.len(),
{
    if kvs.len() == 0 {
        m
    } else {
        insert_all(insert_effect(m, kvs[0].0, kvs[0].1).0, kvs.skip(1))
    }
}

/// Inserting under a fresh key appends: it returns no old value,
/// and every existing pair keeps its position, key and value.
pub proof fn lemma_insert_fresh_preserves<V>(m: Seq<(nat, V)>, id: nat, v: V)
    requires
        !has_id(m, id),
    ensures
        insert_effect(m, id, v).1 is None,
        insert_effect(m, id, v).0.len() == m.len() + 1,
        forall|j: int| 0 <= j < m.len() ==> insert_effect(m, id, v).0[j] == m[j],
{
}

/// Inserting under a fresh key changes no content lookup for any other
/// content: the same pairs answer, at the same positions, before and
/// after.
pub proof fn lemma_insert_fresh_lookup<V>(
    m: Seq<(nat, V)>,
    p: Seq<EntryV>,
    id: nat,
    v: V,
    s: Seq<char>,
)
    requires
        pool_wf(p),
        distinct_keys(m),
        keys_valid(m, p),
        !has_id(m, id),
        entry_resident(p, id as int),
        p[id as int].content != s,
    ensures
        has_key_content(insert_effect(m, id, v).0, p, s) == has_key_content(m, p, s),
        has_key_content(m, p, s) ==> content_pos(insert_effect(m, id, v).0, p, s)
            == content_pos(m, p, s),
{
    let m1 = insert_effect(m, id, v).0;
    assert(m1 == m.push((id, v)));
    if has_key_content(m, p, s) {
        let j = content_pos(m, p, s);
        assert(0 <= j < m.len() && p[m[j].0 as int].content == s);
        assert(m1[j].0 == m[j].0);
        assert(has_key_content(m1, p, s));
        let j1 = content_pos(m1, p, s);
        assert(0 <= j1 < m1.len() && p[m1[j1].0 as int].content == s);
        assert(j1 != m.len());
        assert(can_release(p, m[j1].0 as int));
        assert(can_release(p, m[j].0 as int));
        crate::pool::lemma_resident_id_unique(p, m[j1].0 as int);
        crate::pool::lemma_resident_id_unique(p, m[j].0 as int);
        assert(m[j1].0 == m[j].0);
        if j1 != j {
            if j1 < j {
                assert(m[j1].0 != m[j].0);
            } else {
                assert(m[j].0 != m[j1].0);
            }
        }
    }
    if has_key_content(m1, p, s) {
        let j1 = content_pos(m1, p, s);
        assert(0 <= j1 < m1.len() && p[m1[j1].0 as int].content == s);
        assert(j1 != m.len());
        assert(m[j1].0 == m1[j1].0);
        assert(has_key_content(m, p, s));
    }
}

/// Insertion order: folding distinct fresh pairs into a map lines them
/// up after the existing pairs, in exactly the order they were
/// inserted.
pub proof fn lemma_insert_all_in_order<V>(m: Seq<(nat, V)>, kvs: Seq<(nat, V)>)
    requires
        distinct_keys(m + kvs),
    ensures
        insert_all(m, kvs) == m + kvs,
    decreases kvs.len(),
{
    if kvs.len() == 0 {
        assert(m + kvs =~= m);
    } else {
        let id = kvs[0].0;
        let v = kvs[0].1;
        if has_id(m, id) {
            let j = id_pos(m, id);
            assert(0 <= j < m.len() && m[j].0 == id);
            assert((m + kvs)[j].0 == id);
            assert((m + kvs)[m.len() as int].0 == id);
            assert(false);
        }
        assert(insert_effect(m, id, v).0 == m.push((id, v)));
        assert(m.push((id, v)) + kvs.skip(1) =~= m + kvs);
        lemma_insert_all_in_order(m.push((id, v)), kvs.skip(1));
        assert(insert_all(m, kvs) == insert_all(m.push((id, v)), kvs.skip(1)));
    }
}

/// The keys of the map's pairs, in insertion order.
pub open spec fn keys_of<V>(m: Seq<(nat, V)>) -> Seq<nat> {
    Seq::new(m.len(), |j: int| m[j].0)
}

/// Removing one pair keeps every other pair in its original relative
/// order: the keys afterwards are the keys before with one taken out.
pub proof fn lemma_remove_keeps_order<V>(m: Seq<(nat, V)>, j: int)
    requires
        0 <= j < m.len(),
    ensures
        keys_of(m.remove(j)) == keys_of(m).remove(j),
{
    assert(keys_of(m.remove(j)) =~= keys_of(m).remove(j));
}

/// With distinct keys, a key's position is determined.
pub proof fn lemma_id_pos_unique<V>(m: Seq<(nat, V)>, j: int)
    requires
        distinct_keys(m),
        0 <= j < m.len(),
    ensures
        has_id(m, m[j].0),
        id_pos(m, m[j].0) == j,
{
    assert(0 <= j < m.len() && m[j].0 == m[j].0);
    let j2 = id_pos(m, m[j].0);
    assert(0 <= j2 < m.len() && m[j2].0 == m[j].0);
    if j2 != j {
        if j < j2 {
            assert(m[j].0 != m[j2].0);
        } else {
            assert(m[j2].0 != m[j].0);
        }
    }
}

/// Two sequences with the same keys in the same order have the same
/// positions map.
pub proof fn lemma_positions_same_keys<V>(m1: Seq<(nat, V)>, m2: Seq<(nat, V)>)
    requires
        distinct_keys(m1),
        m1.len() == m2.len(),
        forall|j: int| 0 <= j < m1.len() ==> m1[j].0 == #[trigger] m2[j].0,
    ensures
        distinct_keys(m2),
        positions_map(m1) == positions_map(m2),
{
    assert(distinct_keys(m2));
    assert forall|k: usize| true implies {
        &&& (has_id(m1, k as nat) <==> has_id(m2, k as nat))
        &&& (has_id(m1, k as nat) ==> id_pos(m1, k as nat) == id_pos(m2, k as nat))
    } by {
        if has_id(m1, k as nat) {
            let j = id_pos(m1, k as nat);
            assert(0 <= j < m1.len() && m1[j].0 == k as nat);
            assert(m2[j].0 == k as nat);
            assert(has_id(m2, k as nat));
            lemma_id_pos_unique(m2, j);
        }
        if has_id(m2, k as nat) {
            let j = id_pos(m2, k as nat);
            assert(0 <= j < m2.len() && m2[j].0 == k as nat);
            assert(m1[j].0 == k as nat);
            assert(has_id(m1, k as nat));
        }
    }
    assert(positions_map(m1) =~= positions_map(m2));
}

/// Appending a pair under a fresh key extends the positions map by that
/// one key at the end.
pub proof fn lemma_positions_push<V>(m: Seq<(nat, V)>, id: usize, v: V)
    requires
        distinct_keys(m),
        !has_id(m, id as nat),
    ensures
        distinct_keys(m.push((id as nat, v))),
        positions_map(m.push((id as nat, v))) == positions_map(m).insert(id, m.len() as usize),
{
    let m1 = m.push((id as nat, v));
    assert forall|a: int, b: int| 0 <= a < b < m1.len() implies m1[a].0 != m1[b].0 by {
        if b < m.len() {
            assert(m[a].0 != m[b].0);
        } else {
            assert(m1[b].0 == id as nat);
            if m1[a].0 == id as nat {
                assert(has_id(m, id as nat));
            }
        }
    }
    assert forall|k: usize| true implies {
        &&& (has_id(m1, k as nat) <==> has_id(m, k as nat) || k == id)
        &&& (has_id(m1, k as nat) ==> id_pos(m1, k as nat) == if k == id {
            m.len() as int
        } else {
            id_pos(m, k as nat)
        })
    } by {
        if has_id(m, k as nat) {
            let j = id_pos(m, k as nat);
            assert(m1[j].0 == k as nat);
            assert(has_id(m1, k as nat));
        }
        if k == id {
            assert(m1[m.len() as int].0 == k as nat);
            assert(has_id(m1, k as nat));
        }
        if has_id(m1, k as nat) {
            let j = id_pos(m1, k as nat);
            assert(0 <= j < m1.len() && m1[j].0 == k as nat);
            if j < m.len() {
                assert(m[j].0 == k as nat);
                assert(has_id(m, k as nat));
                assert(k != id);
                lemma_id_pos_unique(m1, j);
                lemma_id_pos_unique(m, j);
            } else {
                assert(k == id);
                lemma_id_pos_unique(m1, m.len() as int);
            }
        }
    }
    assert(positions_map(m1) =~= positions_map(m).insert(id, m.len() as usize));
}

/// Content lookup factors through the pool: a pair is keyed by content
/// `s` exactly when `s` is resident and its canonical slot is one of the
/// map's keys, and its position is that key's position.
pub proof fn lemma_content_lookup<V>(m: Seq<(nat, V)>, p: Seq<EntryV>, s: Seq<char>)
    requires
        pool_wf(p),
        distinct_keys(m),
        keys_valid(m, p),
    ensures
        has_key_content(m, p, s) <==> has_resident(p, s) && has_id(m, resident_id(p, s) as nat),
        has_key_content(m, p, s) ==> content_pos(m, p, s) == id_pos(
            m,
            resident_id(p, s) as nat,
        ),
{
    if has_key_content(m, p, s) {
        let j = content_pos(m, p, s);
        assert(0 <= j < m.len() && p[m[j].0 as int].content == s);
        assert(can_release(p, m[j].0 as int));
        crate::pool::lemma_resident_id_unique(p, m[j].0 as int);
        assert(has_resident(p, s));
        assert(resident_id(p, s) == m[j].0 as int);
        lemma_id_pos_unique(m, j);
    }
    if has_resident(p, s) && has_id(m, resident_id(p, s) as nat) {
        let i = resident_id(p, s);
        assert(entry_resident(p, i) && p[i].content == s);
        let j = id_pos(m, i as nat);
        assert(0 <= j < m.len() && m[j].0 == i as nat);
        assert(p[m[j].0 as int].content == s);
        assert(has_key_content(m, p, s));
    }
}

impl<V> SymbolMap<V> {
    /// Whether the secondary index, if present, is in sync with `items`.
    pub closed spec fn index_ok(self) -> bool {
        match self.index {
            Some(ix) => ix@ == positions_map(self@),
            None => true,
        }
    }

    /// The map's invariant: distinct keys, and a coherent index when one
    /// exists.
    pub open spec fn inv(self) -> bool {
        &&& distinct_keys(self@)
        &&& self.index_ok()
    }

    /// An empty map in the scanning regime.
    pub fn new() -> (m: SymbolMap<V>)
        ensures
            m.inv(),
            m@ == Seq::<(nat, V)>::empty(),
    {
        let m = SymbolMap { items: Vec::new(), index: None };
        proof {
            assert(m@ =~= Seq::<(nat, V)>::empty());
        }
        m
    }

    /// An empty map with room for `capacity` pairs; a capacity beyond
    /// the small-map threshold starts the index straight away.
    pub fn with_capacity(capacity: usize) -> (m: SymbolMap<V>)
        ensures
            m.inv(),
            m@ == Seq::<(nat, V)>::empty(),
    {
        let index = if capacity > SMALL_MAP_SIZE {
            Some(HashMap::with_capacity(capacity))
        } else {
            None
        };
        let m = SymbolMap { items: Vec::with_capacity(capacity), index };
        proof {
            assert(m@ =~= Seq::<(nat, V)>::empty());
            if m.index is Some {
                assert(m.index->0@ =~= positions_map(m@));
            }
        }
        m
    }

    /// Scans `items` for the pair keyed by handle slot `id`.
    fn scan_pos(&self, id: usize) -> (r: Option<usize>)
        ensures
            match r {
                Some(j) => 0 <= j < self@.len() && self@[j as int].0 == id as nat,
                None => !has_id(self@, id as nat),
            },
    {
        let n = self.items.len();
        let mut j: usize = 0;
        while j < n
            invariant
                n == self@.len(),
                j <= n,
                forall|l: int| 0 <= l < j ==> self@[l].0 != id as nat,
            decreases n - j,
        {
            if self.items[j].0.slot() == id {
                return Some(j);
            }
            j += 1;
        }
        None
    }

    /// The position of the pair keyed by slot `id`: one hash probe when
    /// the index exists, else a scan.
    fn lookup_pos(&self, id: usize) -> (r: Option<usize>)
        requires
            self.inv(),
        ensures
            match r {
                Some(j) => {
                    &&& has_id(self@, id as nat)
                    &&& j as int == id_pos(self@, id as nat)
                    &&& 0 <= j < self@.len()
                    &&& self@[j as int].0 == id as nat
                },
                None => !has_id(self@, id as nat),
            },
    {
        let n = self.items.len();
        match &self.index {
            Some(ix) => {
                match ix.get(&id) {
                    Some(pos) => {
                        let j = *pos;
                        proof {
                            assert(ix@.contains_key(id));
                            assert(has_id(self@, id as nat));
                            let jj = id_pos(self@, id as nat);
                            assert(0 <= jj < self@.len() && self@[jj].0 == id as nat);
                            assert(ix@[id] == j);
                            assert(ix@[id] == id_pos(self@, id as nat) as usize);
                            assert(j as int == jj);
                        }
                        Some(j)
                    },
                    None => {
                        proof {
                            assert(!ix@.contains_key(id));
                        }
                        None
                    },
                }
            },
            None => {
                let r = self.scan_pos(id);
                proof {
                    if let Some(j) = r {
                        lemma_id_pos_unique(self@, j as int);
                    }
                }
                r
            },
        }
    }

    /// Rebuilds the secondary index from `items`: dropped at or under
    /// the small-map threshold, else refilled wholesale with every key's
    /// current position.
    fn rebuild_index(&mut self)
        requires
            distinct_keys(old(self)@),
        ensures
            final(self)@ == old(self)@,
            final(self).inv(),
    {
        if self.items.len() <= SMALL_MAP_SIZE {
            self.index = None;
        } else {
            let n = self.items.len();
            let mut ix: HashMap<usize, usize> = HashMap::with_capacity(n);
            let mut j: usize = 0;
            proof {
                assert(self@.take(0) =~= Seq::<(nat, V)>::empty());
                assert(ix@ =~= positions_map(self@.take(0)));
            }
            while j < n
                invariant
                    n == self@.len(),
                    j <= n,
                    distinct_keys(self@),
                    ix@ == positions_map(self@.take(j as int)),
                decreases n - j,
            {
                let ghost pre = self@.take(j as int);
                let id = self.items[j].0.slot();
                proof {
                    assert(distinct_keys(pre));
                    if has_id(pre, id as nat) {
                        let l = id_pos(pre, id as nat);
                        assert(pre[l] == self@[l]);
                        assert(self@[l].0 == self@[j as int].0);
                        assert(false);
                    }
                    lemma_positions_push(pre, id, self@[j as int].1);
                    assert(pre.push((id as nat, self@[j as int].1)) =~= self@.take(j + 1));
                    lemma_positions_same_keys(
                        pre.push((id as nat, self@[j as int].1)),
                        self@.take(j + 1),
                    );
                }
                ix.insert(id, j);
                j += 1;
            }
            proof {
                assert(self@.take(n as int) =~= self@);
            }
            self.index = Some(ix);
        }
    }

    /// The number of pairs.
    pub fn len(&self) -> (r: usize)
        ensures
            r == self@.len(),
    {
        self.items.len()
    }

    /// Whether the map holds no pairs.
    pub fn is_empty(&self) -> (r: bool)
        ensures
            r == (self@.len() == 0),
    {
        self.items.len() == 0
    }

    /// Inserts the pair `(k, v)`.  If a pair with the same key exists,
    /// its value is swapped for `v` in place — no position changes — and
    /// the old value is returned; the surplus incoming handle is
    /// released.  Otherwise the pair is appended, and the index is
    /// extended or, once the threshold is crossed, built.
    ///
    /// The reference-count floors in the `requires` say that the pool
    /// must hold both the map's stored handle and the incoming one,
    /// which is always so for handles obtained from the pool.
    pub fn insert(&mut self, pool: &mut SymbolPool, k: Symbol, v: V) -> (r: Option<V>)
        requires
            old(self).inv(),
            pool_wf(old(pool)@),
            keys_valid(old(self)@, old(pool)@),
            can_release(old(pool)@, k@ as int),
            has_id(old(self)@, k@) ==> old(pool)@[k@ as int].refs >= 2,
            has_id(old(self)@, k@) && k@ == 0 ==> old(pool)@[k@ as int].refs >= 4,
        ensures
            final(self).inv(),
            pool_wf(final(pool)@),
            final(self)@ == insert_effect(old(self)@, k@, v).0,
            r == insert_effect(old(self)@, k@, v).1,
            final(pool)@ == if has_id(old(self)@, k@) {
                release_effect(old(pool)@, k@ as int)
            } else {
                old(pool)@
            },
            keys_valid(final(self)@, final(pool)@),
    {
        let ghost m0 = self@;
        let ghost p0 = pool@;
        let id = k.slot();
        match self.lookup_pos(id) {
            Some(j) => {
                let ghost jj = j as int;
                let entry = &mut self.items[j];
                let mut out = v;
                core::mem::swap(&mut entry.1, &mut out);
                pool.release(k);
                proof {
                    assert(self@ =~= m0.update(jj, (k@, v)));
                    assert(forall|l: int|
                        0 <= l < self@.len() ==> self@[l].0 == #[trigger] m0[l].0);
                    lemma_positions_same_keys(m0, self@);
                    assert(pool@[k@ as int].refs > 0);
                    assert forall|l: int|
                        0 <= l < self@.len() implies can_release(
                        pool@,
                        #[trigger] self@[l].0 as int,
                    ) by {
                        assert(can_release(p0, m0[l].0 as int));
                        if m0[l].0 != k@ {
                            assert(pool@[m0[l].0 as int] == p0[m0[l].0 as int]);
                        }
                    }
                }
                Some(out)
            },
            None => {
                self.items.push((k, v));
                proof {
                    assert(self@ =~= m0.push((k@, v)));
                    lemma_positions_push(m0, id, v);
                }
                let pushed_len = self.items.len();
                match &mut self.index {
                    Some(ix) => {
                        ix.insert(id, pushed_len - 1);
                        proof {
                            assert(self.index->0@ =~= positions_map(self@));
                        }
                    },
                    None => {
                        if pushed_len > SMALL_MAP_SIZE {
                            self.rebuild_index();
                        }
                    },
                }
                proof {
                    assert(self@ =~= m0.push((k@, v)));
                    assert forall|l: int|
                        0 <= l < self@.len() implies can_release(
                        pool@,
                        #[trigger] self@[l].0 as int,
                    ) by {
                        if l < m0.len() {
                            assert(can_release(p0, m0[l].0 as int));
                        }
                    }
                }
                None
            },
        }
    }

    /// Looks up by borrowed string content: the query is resolved
    /// against the live pool first, then matched against the stored
    /// keys by identity.
    pub fn get<'a>(&'a self, pool: &SymbolPool, k: &str) -> (r: Option<&'a V>)
        requires
            self.inv(),
            pool_wf(pool@),
            keys_valid(self@, pool@),
        ensures
            match r {
                Some(v) => {
                    &&& has_key_content(self@, pool@, k@)
                    &&& *v == self@[content_pos(self@, pool@, k@)].1
                },
                None => !has_key_content(self@, pool@, k@),
            },
    {
        proof {
            lemma_content_lookup(self@, pool@, k@);
        }
        match pool.find_id(k) {
            Some(id) => {
                proof {
                    crate::pool::lemma_resident_id_unique(pool@, id as int);
                }
                match self.lookup_pos(id) {
                    Some(j) => Some(&self.items[j].1),
                    None => None,
                }
            },
            None => {
                proof {
                    if has_key_content(self@, pool@, k@) {
                        let j = content_pos(self@, pool@, k@);
                        assert(can_release(pool@, self@[j].0 as int));
                        assert(has_resident(pool@, k@));
                    }
                }
                None
            },
        }
    }

    /// Whether a pair is keyed by content equal to `k`.
    pub fn contains_key(&self, pool: &SymbolPool, k: &str) -> (r: bool)
        requires
            self.inv(),
            pool_wf(pool@),
            keys_valid(self@, pool@),
        ensures
            r == has_key_content(self@, pool@, k@),
    {
        self.get(pool, k).is_some()
    }

    /// Removes the pair keyed by handle slot `id`, releasing the stored
    /// handle.
    fn remove_id(&mut self, pool: &mut SymbolPool, id: usize) -> (r: Option<V>)
        requires
            old(self).inv(),
            pool_wf(old(pool)@),
            keys_valid(old(self)@, old(pool)@),
        ensures
            final(self).inv(),
            pool_wf(final(pool)@),
            keys_valid(final(self)@, final(pool)@),
            match r {
                Some(v) => {
                    &&& has_id(old(self)@, id as nat)
                    &&& v == old(self)@[id_pos(old(self)@, id as nat)].1
                    &&& final(self)@ == old(self)@.remove(id_pos(old(self)@, id as nat))
                    &&& final(pool)@ == release_effect(old(pool)@, id as int)
                },
                None => {
                    &&& !has_id(old(self)@, id as nat)
                    &&& final(self)@ == old(self)@
                    &&& final(pool)@ == old(pool)@
                },
            },
    {
        let ghost m0 = self@;
        let ghost p0 = pool@;
        match self.lookup_pos(id) {
            Some(j) => {
                let ghost jj = j as int;
                let e = self.items.remove(j);
                proof {
                    assert(self@ =~= m0.remove(jj));
                    assert forall|a: int, b: int|
                        0 <= a < b < self@.len() implies self@[a].0 != self@[b].0 by {
                        let a0 = if a < jj {
                            a
                        } else {
                            a + 1
                        };
                        let b0 = if b < jj {
                            b
                        } else {
                            b + 1
                        };
                        assert(self@[a].0 == m0[a0].0);
                        assert(self@[b].0 == m0[b0].0);
                    }
                    assert(e.0@ == m0[jj].0);
                    assert(can_release(p0, m0[jj].0 as int));
                }
                pool.release(e.0);
                self.rebuild_index();
                proof {
                    assert forall|l: int|
                        0 <= l < self@.len() implies can_release(
                        pool@,
                        #[trigger] self@[l].0 as int,
                    ) by {
                        let l0 = if l < jj {
                            l
                        } else {
                            l + 1
                        };
                        assert(self@[l].0 == m0[l0].0);
                        assert(can_release(p0, m0[l0].0 as int));
                        if m0[l0].0 != id as nat {
                            assert(pool@[m0[l0].0 as int] == p0[m0[l0].0 as int]);
                        } else {
                            assert(l0 != jj);
                            assert(m0[l0].0 == m0[jj].0);
                            assert(false);
                        }
                    }
                }
                Some(e.1)
            },
            None => None,
        }
    }

    /// Removes the pair keyed by content equal to `k`, releasing the
    /// stored handle; later pairs keep their relative order.
    pub fn remove(&mut self, pool: &mut SymbolPool, k: &str) -> (r: Option<V>)
        requires
            old(self).inv(),
            pool_wf(old(pool)@),
            keys_valid(old(self)@, old(pool)@),
        ensures
            final(self).inv(),
            pool_wf(final(pool)@),
            keys_valid(final(self)@, final(pool)@),
            match r {
                Some(v) => {
                    &&& has_key_content(old(self)@, old(pool)@, k@)
                    &&& v == old(self)@[content_pos(old(self)@, old(pool)@, k@)].1
                    &&& final(self)@ == old(self)@.remove(
                        content_pos(old(self)@, old(pool)@, k@),
                    )
                    &&& final(pool)@ == release_effect(
                        old(pool)@,
                        old(self)@[content_pos(old(self)@, old(pool)@, k@)].0 as int,
                    )
                },
                None => {
                    &&& !has_key_content(old(self)@, old(pool)@, k@)
                    &&& final(self)@ == old(self)@
                    &&& final(pool)@ == old(pool)@
                },
            },
    {
        proof {
            lemma_content_lookup(self@, pool@, k@);
        }
        let found = pool.find_id(k);
        match found {
            Some(id) => {
                proof {
                    crate::pool::lemma_resident_id_unique(pool@, id as int);
                }
                self.remove_id(pool, id)
            },
            None => {
                proof {
                    if has_key_content(self@, pool@, k@) {
                        let j = content_pos(self@, pool@, k@);
                        assert(can_release(pool@, self@[j].0 as int));
                        assert(has_resident(pool@, k@));
                    }
                }
                None
            },
        }
    }

    /// Removes the pair at position `index`, releasing its handle;
    /// later pairs shift down one position and the index is rebuilt.
    pub fn remove_at(&mut self, pool: &mut SymbolPool, index: usize) -> (r: Option<V>)
        requires
            old(self).inv(),
            pool_wf(old(pool)@),
            keys_valid(old(self)@, old(pool)@),
            index < old(self)@.len(),
        ensures
            final(self).inv(),
            pool_wf(final(pool)@),
            keys_valid(final(self)@, final(pool)@),
            r == Some(old(self)@[index as int].1),
            final(self)@ == old(self)@.remove(index as int),
            final(pool)@ == release_effect(old(pool)@, old(self)@[index as int].0 as int),
    {
        let ghost m0 = self@;
        let ghost p0 = pool@;
        let ghost jj = index as int;
        let e = self.items.remove(index);
        proof {
            assert(self@ =~= m0.remove(jj));
            assert forall|a: int, b: int|
                0 <= a < b < self@.len() implies self@[a].0 != self@[b].0 by {
                let a0 = if a < jj {
                    a
                } else {
                    a + 1
                };
                let b0 = if b < jj {
                    b
                } else {
                    b + 1
                };
                assert(self@[a].0 == m0[a0].0);
                assert(self@[b].0 == m0[b0].0);
            }
            assert(e.0@ == m0[jj].0);
            assert(can_release(p0, m0[jj].0 as int));
        }
        pool.release(e.0);
        self.rebuild_index();
        proof {
            assert forall|l: int|
                0 <= l < self@.len() implies can_release(pool@, #[trigger] self@[l].0 as int) by {
                let l0 = if l < jj {
                    l
                } else {
                    l + 1
                };
                assert(self@[l].0 == m0[l0].0);
                assert(can_release(p0, m0[l0].0 as int));
                if m0[l0].0 != m0[jj].0 {
                    assert(pool@[m0[l0].0 as int] == p0[m0[l0].0 as int]);
                } else {
                    assert(l0 != jj);
                    assert(false);
                }
            }
        }
        Some(e.1)
    }

    /// Inserts `(k, v)` at position `index`: any pair with the same key
    /// is first removed (its value is returned and its handle released),
    /// then the pair is placed at `index`, shifting later pairs up; the
    /// index is rebuilt.
    ///
    /// The reference-count floors in the `requires` are those of
    /// `insert`: the pool holds both the stored and the incoming handle
    /// of a key being replaced.
    pub fn insert_at(&mut self, pool: &mut SymbolPool, index: usize, k: Symbol, v: V) -> (r:
        Option<V>)
        requires
            old(self).inv(),
            pool_wf(old(pool)@),
            keys_valid(old(self)@, old(pool)@),
            can_release(old(pool)@, k@ as int),
            has_id(old(self)@, k@) ==> old(pool)@[k@ as int].refs >= 2,
            has_id(old(self)@, k@) && k@ == 0 ==> old(pool)@[k@ as int].refs >= 4,
            index as int <= old(self)@.len() - (if has_id(old(self)@, k@) {
                1int
            } else {
                0int
            }),
        ensures
            final(self).inv(),
            pool_wf(final(pool)@),
            keys_valid(final(self)@, final(pool)@),
            final(self)@ == (if has_id(old(self)@, k@) {
                old(self)@.remove(id_pos(old(self)@, k@))
            } else {
                old(self)@
            }).insert(index as int, (k@, v)),
            r == if has_id(old(self)@, k@) {
                Some(old(self)@[id_pos(old(self)@, k@)].1)
            } else {
                Option::<V>::None
            },
            final(pool)@ == if has_id(old(self)@, k@) {
                release_effect(old(pool)@, k@ as int)
            } else {
                old(pool)@
            },
    {
        let ghost m0 = self@;
        let ghost p0 = pool@;
        let id = k.slot();
        let r = self.remove_id(pool, id);
        let ghost m1 = self@;
        let ghost p1 = pool@;
        self.items.insert(index, (k, v));
        proof {
            assert(self@ =~= m1.insert(index as int, (k@, v)));
            assert(!has_id(m1, k@));
            assert forall|a: int, b: int|
                0 <= a < b < self@.len() implies self@[a].0 != self@[b].0 by {
                let ii = index as int;
                let a0 = if a < ii {
                    a
                } else {
                    a - 1
                };
                let b0 = if b < ii {
                    b
                } else {
                    b - 1
                };
                if a == ii {
                    assert(self@[b].0 == m1[b0].0);
                    if self@[a].0 == self@[b].0 {
                        assert(has_id(m1, k@));
                    }
                } else if b == ii {
                    assert(self@[a].0 == m1[a0].0);
                    if self@[a].0 == self@[b].0 {
                        assert(has_id(m1, k@));
                    }
                } else {
                    assert(self@[a].0 == m1[a0].0);
                    assert(self@[b].0 == m1[b0].0);
                }
            }
        }
        self.rebuild_index();
        proof {
            assert forall|l: int|
                0 <= l < self@.len() implies can_release(pool@, #[trigger] self@[l].0 as int) by {
                let ii = index as int;
                if l == ii {
                    assert(self@[l].0 == k@);
                    if has_id(m0, k@) {
                        assert(pool@ == release_effect(p0, k@ as int));
                        assert(p0[k@ as int].refs >= 2);
                    }
                } else {
                    let l0 = if l < ii {
                        l
                    } else {
                        l - 1
                    };
                    assert(self@[l].0 == m1[l0].0);
                    assert(can_release(p1, m1[l0].0 as int));
                }
            }
        }
        r
    }

    /// Removes and returns the pair at the map's tail, rebuilding the
    /// index, or returns nothing from an empty map.
    pub fn pop_front(&mut self) -> (r: Option<(Symbol, V)>)
        requires
            old(self).inv(),
        ensures
            final(self).inv(),
            match r {
                Some(e) => {
                    &&& old(self)@.len() > 0
                    &&& e.0@ == old(self)@.last().0
                    &&& e.1 == old(self)@.last().1
                    &&& final(self)@ == old(self)@.drop_last()
                },
                None => {
                    &&& old(self)@.len() == 0
                    &&& final(self)@ == old(self)@
                },
            },
    {
        let ghost m0 = self@;
        match self.items.pop() {
            Some(e) => {
                proof {
                    assert(self@ =~= m0.drop_last());
                    assert(forall|a: int, b: int|
                        0 <= a < b < self@.len() ==> #[trigger] self@[a].0 != #[trigger] self@[b].0);
                }
                self.rebuild_index();
                Some(e)
            },
            None => None,
        }
    }

    /// Removes and returns the pair at the map's tail, like
    /// `pop_front`; this variant reaches it by positional removal.
    pub fn pop_back(&mut self) -> (r: Option<(Symbol, V)>)
        requires
            old(self).inv(),
        ensures
            final(self).inv(),
            match r {
                Some(e) => {
                    &&& old(self)@.len() > 0
                    &&& e.0@ == old(self)@.last().0
                    &&& e.1 == old(self)@.last().1
                    &&& final(self)@ == old(self)@.drop_last()
                },
                None => {
                    &&& old(self)@.len() == 0
                    &&& final(self)@ == old(self)@
                },
            },
    {
        let ghost m0 = self@;
        if self.items.len() == 0 {
            None
        } else {
            let e = self.items.remove(self.items.len() - 1);
            proof {
                assert(self@ =~= m0.drop_last());
                assert(forall|a: int, b: int|
                    0 <= a < b < self@.len() ==> #[trigger] self@[a].0 != #[trigger] self@[b].0);
            }
            self.rebuild_index();
            Some(e)
        }
    }

    /// Empties the map, releasing every stored handle (latest pair
    /// first) and dropping the index.
    pub fn clear(&mut self, pool: &mut SymbolPool)
        requires
            old(self).inv(),
            pool_wf(old(pool)@),
            keys_valid(old(self)@, old(pool)@),
        ensures
            final(self).inv(),
            final(self)@.len() == 0,
            pool_wf(final(pool)@),
            final(pool)@ == release_all(old(pool)@, old(self)@),
    {
        let ghost m0 = self@;
        let ghost p0 = pool@;
        self.index = None;
        while self.items.len() > 0
            invariant
                self.index is None,
                distinct_keys(self@),
                pool_wf(pool@),
                keys_valid(self@, pool@),
                release_all(pool@, self@) == release_all(p0, m0),
            decreases self@.len(),
        {
            let ghost mc = self@;
            let ghost pc = pool@;
            let e = self.items.pop().unwrap();
            proof {
                assert(self@ =~= mc.drop_last());
                assert(e.0@ == mc.last().0);
                assert(can_release(pc, mc.last().0 as int));
            }
            pool.release(e.0);
            proof {
                assert forall|l: int|
                    0 <= l < self@.len() implies can_release(
                    pool@,
                    #[trigger] self@[l].0 as int,
                ) by {
                    assert(self@[l].0 == mc[l].0);
                    assert(can_release(pc, mc[l].0 as int));
                    if mc[l].0 != mc.last().0 {
                        assert(pool@[mc[l].0 as int] == pc[mc[l].0 as int]);
                    } else {
                        assert(l != mc.len() - 1);
                        assert(false);
                    }
                }
                assert(release_all(pool@, self@) == release_all(pc, mc));
            }
        }
        proof {
            assert(release_all(pool@, self@) == pool@);
        }
    }

    /// How many pairs the map can hold before its sequence reallocates.
    pub fn capacity(&self) -> (r: usize)
        ensures
            r >= self@.len(),
    {
        vec_capacity(&self.items)
    }

    /// Reserves room for at least `additional` more pairs in the
    /// sequence and, when present, the index.
    pub fn reserve(&mut self, additional: usize)
        requires
            old(self).inv(),
        ensures
            final(self).inv(),
            final(self)@ == old(self)@,
    {
        let ghost m0 = self@;
        self.items.reserve(additional);
        proof {
            assert(self@ =~= m0);
        }
        match &mut self.index {
            Some(ix) => {
                ix.reserve(additional);
            },
            None => {},
        }
    }

    /// Gives surplus capacity back, in the sequence and, when present,
    /// the index.  Contents are untouched.
    pub fn shrink_to_fit(&mut self)
        requires
            old(self).inv(),
        ensures
            final(self).inv(),
            final(self)@ == old(self)@,
    {
        let ghost m0 = self@;
        vec_shrink_to_fit(&mut self.items);
        proof {
            assert(self@ =~= m0);
        }
        match &mut self.index {
            Some(ix) => {
                hash_map_shrink_to_fit(ix);
            },
            None => {},
        }
    }

    /// The key of the pair at position `j`, in insertion order.
    pub fn key_at(&self, j: usize) -> (r: &Symbol)
        requires
            j < self@.len(),
        ensures
            r@ == self@[j as int].0,
    {
        &self.items[j].0
    }

    /// The value of the pair at position `j`, in insertion order.
    pub fn value_at(&self, j: usize) -> (r: &V)
        requires
            j < self@.len(),
        ensures
            *r == self@[j as int].1,
    {
        &self.items[j].1
    }

    /// Replaces the value at position `j` with `v`, returning the old
    /// value; the key and every position stay as they were.
    pub fn replace_value_at(&mut self, j: usize, v: V) -> (r: V)
        requires
            old(self).inv(),
            j < old(self)@.len(),
        ensures
            r == old(self)@[j as int].1,
            final(self)@ == old(self)@.update(j as int, (old(self)@[j as int].0, v)),
            final(self).inv(),
    {
        let ghost m0 = self@;
        let entry = &mut self.items[j];
        let mut out = v;
        core::mem::swap(&mut entry.1, &mut out);
        proof {
            assert(self@ =~= m0.update(j as int, (m0[j as int].0, v)));
            assert(forall|l: int| 0 <= l < self@.len() ==> self@[l].0 == #[trigger] m0[l].0);
            lemma_positions_same_keys(m0, self@);
        }
        out
    }

    /// A fresh walk over the pairs, in insertion order.
    pub fn iter(&self) -> (it: Iter<'_, V>)
        ensures
            it.entries() == self@,
            it.position() == 0,
    {
        Iter { map: self, pos: 0 }
    }

    /// A fresh walk over the keys, in insertion order.
    pub fn keys(&self) -> (it: Keys<'_, V>)
        ensures
            it.entries() == self@,
            it.position() == 0,
    {
        Keys { map: self, pos: 0 }
    }

    /// A fresh walk over the values, in insertion order.
    pub fn values(&self) -> (it: Values<'_, V>)
        ensures
            it.entries() == self@,
            it.position() == 0,
    {
        Values { map: self, pos: 0 }
    }
}

/// A finite, restartable walk over the map's pairs in insertion
/// order.  Calling the accessor again yields a fresh walk from the
/// start.
pub struct Iter<'a, V> {
    map: &'a SymbolMap<V>,
    pos: usize,
}

/// A finite, restartable walk over the map's keys in insertion order.
pub struct Keys<'a, V> {
    map: &'a SymbolMap<V>,
    pos: usize,
}

/// A finite, restartable walk over the map's values in insertion order.
pub struct Values<'a, V> {
    map: &'a SymbolMap<V>,
    pos: usize,
}

impl<'a, V> Iter<'a, V> {
    /// The pairs being walked.
    pub closed spec fn entries(self) -> Seq<(nat, V)> {
        self.map@
    }

    /// How many pairs have been handed out.
    pub closed spec fn position(self) -> int {
        self.pos as int
    }

    /// The next pair in insertion order, or nothing once the walk is
    /// exhausted.
    pub fn next(&mut self) -> (r: Option<(&'a Symbol, &'a V)>)
        ensures
            final(self).entries() == old(self).entries(),
            match r {
                Some(e) => {
                    &&& old(self).position() < old(self).entries().len()
                    &&& final(self).position() == old(self).position() + 1
                    &&& e.0@ == old(self).entries()[old(self).position()].0
                    &&& *e.1 == old(self).entries()[old(self).position()].1
                },
                None => {
                    &&& old(self).position() >= old(self).entries().len()
                    &&& final(self).position() == old(self).position()
                },
            },
    {
        if self.pos < self.map.items.len() {
            let e = &self.map.items[self.pos];
            self.pos += 1;
            Some((&e.0, &e.1))
        } else {
            None
        }
    }
}

impl<'a, V> Keys<'a, V> {
    /// The pairs being walked.
    pub closed spec fn entries(self) -> Seq<(nat, V)> {
        self.map@
    }

    /// How many keys have been handed out.
    pub closed spec fn position(self) -> int {
        self.pos as int
    }

    /// The next key in insertion order, or nothing once the walk is
    /// exhausted.
    pub fn next(&mut self) -> (r: Option<&'a Symbol>)
        ensures
            final(self).entries() == old(self).entries(),
            match r {
                Some(k) => {
                    &&& old(self).position() < old(self).entries().len()
                    &&& final(self).position() == old(self).position() + 1
                    &&& k@ == old(self).entries()[old(self).position()].0
                },
                None => {
                    &&& old(self).position() >= old(self).entries().len()
                    &&& final(self).position() == old(self).position()
                },
            },
    {
        if self.pos < self.map.items.len() {
            let e = &self.map.items[self.pos];
            self.pos += 1;
            Some(&e.0)
        } else {
            None
        }
    }
}

impl<'a, V> Values<'a, V> {
    /// The pairs being walked.
    pub closed spec fn entries(self) -> Seq<(nat, V)> {
        self.map@
    }

    /// How many values have been handed out.
    pub closed spec fn position(self) -> int {
        self.pos as int
    }

    /// The next value in insertion order, or nothing once the walk is
    /// exhausted.
    pub fn next(&mut self) -> (r: Option<&'a V>)
        ensures
            final(self).entries() == old(self).entries(),
            match r {
                Some(v) => {
                    &&& old(self).position() < old(self).entries().len()
                    &&& final(self).position() == old(self).position() + 1
                    &&& *v == old(self).entries()[old(self).position()].1
                },
                None => {
                    &&& old(self).position() >= old(self).entries().len()
                    &&& final(self).position() == old(self).position()
                },
            },
    {
        if self.pos < self.map.items.len() {
            let e = &self.map.items[self.pos];
            self.pos += 1;
            Some(&e.1)
        } else {
            None
        }
    }
}

/// Relies on `Vec::capacity`: the capacity of a vector is at least its
/// length.
#[verifier::external_body]
fn vec_capacity<T>(v: &Vec<T>) -> (r: usize)
    ensures
        r >= v@.len(),
{
    v.capacity()
}

/// Relies on `Vec::shrink_to_fit`: it only gives capacity back and
/// leaves the elements untouched.
#[verifier::external_body]
fn vec_shrink_to_fit<T>(v: &mut Vec<T>)
    ensures
        final(v)@ == old(v)@,
{
    v.shrink_to_fit()
}

/// Relies on `HashMap::shrink_to_fit`: it only gives capacity back and
/// leaves the entries untouched.
#[verifier::external_body]
fn hash_map_shrink_to_fit(m: &mut HashMap<usize, usize>)
    ensures
        final(m)@ == old(m)@,
{
    m.shrink_to_fit()
}

} // verus!
