//! The interning pool and the `Symbol` handle.
//!
//! The pool is the registry of canonical entries: one entry per distinct
//! string value, holding the value's content and a reference count.  A
//! `Symbol` is a pointer-sized handle that identifies one entry; two
//! handles to equal content are equal as values (address equality), which
//! is what interning buys.
//!
//! The pool here is an explicit value.  Callers that want a
//! process-wide registry wrap one `SymbolPool` in a lock; a `&mut
//! SymbolPool` then plays the role of holding that lock, so every
//! operation below is the serialized body of one lock-guarded critical
//! section.  Entries are identified by their slot in an append-only
//! table; a slot is never reused, so a slot number plays the role of the
//! allocation's address.  A dead slot (reference count zero) keeps no
//! payload: releasing the last handle clears the content, the model of
//! deallocating the entry's block.

use core::cmp::Ordering;
use vstd::prelude::*;

verus! {

/// Lexicographic order on string content by code point.  For UTF-8
/// payloads this is the same order as byte-wise comparison of the
/// encoded bytes, since UTF-8 preserves code-point order.
pub open spec fn lex_cmp(a: Seq<char>, b: Seq<char>) -> Ordering
    decreases a.len(),
{
    if a.len() == 0 && b.len() == 0 {
        Ordering::Equal
    } else if a.len() == 0 {
        Ordering::Less
    } else if b.len() == 0 {
        Ordering::Greater
    } else if a[0] == b[0] {
        lex_cmp(a.skip(1), b.skip(1))
    } else if (a[0] as u32) < (b[0] as u32) {
        Ordering::Less
    } else {
        Ordering::Greater
    }
}

/// Equal content compares equal.
pub proof fn lemma_lex_cmp_refl(a: Seq<char>)
    ensures
        lex_cmp(a, a) == Ordering::Equal,
    decreases a.len(),
{
    if a.len() > 0 {
        lemma_lex_cmp_refl(a.skip(1));
    }
}

/// Only equal content compares equal: the order is total and consistent
/// with content.
pub proof fn lemma_lex_cmp_eq(a: Seq<char>, b: Seq<char>)
    requires
        lex_cmp(a, b) == Ordering::Equal,
    ensures
        a == b,
    decreases a.len(),
{
    if a.len() == 0 && b.len() == 0 {
        assert(a =~= b);
    } else if a.len() == 0 || b.len() == 0 {
        assert(false);
    } else if a[0] == b[0] {
        lemma_lex_cmp_eq(a.skip(1), b.skip(1));
        assert forall|k: int| 0 <= k < a.len() implies a[k] == b[k] by {
            if k > 0 {
                assert(a.skip(1)[k - 1] == a[k]);
                assert(b.skip(1)[k - 1] == b[k]);
            }
        }
        assert(a =~= b);
    } else {
        assert(false);
    }
}

/// The mathematical image of one entry: its payload content and its
/// current reference count (zero for a dead entry).
pub ghost struct EntryV {
    pub content: Seq<char>,
    pub refs: nat,
}

/// One slot of the pool's table.
struct Entry {
    content: String,
    refs: usize,
}

impl View for Entry {
    type V = EntryV;

    closed spec fn view(&self) -> EntryV {
        EntryV { content: self.content@, refs: self.refs as nat }
    }
}

/// The interning pool: the registry of canonical entries.
///
/// Slot 0 always holds the entry for the empty string, created with a
/// reference count of 2 even though nothing holds it; this bias keeps the
/// single most common value from being destroyed and re-created by
/// ordinary traffic, so it is resident for the pool's whole lifetime.
pub struct SymbolPool {
    entries: Vec<Entry>,
}

impl View for SymbolPool {
    type V = Seq<EntryV>;

    closed spec fn view(&self) -> Seq<EntryV> {
        Seq::new(self.entries@.len(), |i: int| self.entries@[i]@)
    }
}

/// A canonical, reference-counted handle to one interned string value.
///
/// A `Symbol` is exactly one machine word: the slot number of its entry,
/// standing for the entry's address.  Equality of handles is equality of
/// slot numbers — an O(1) comparison that, by the canonicalization
/// invariant, agrees with equality of content among live handles.
#[derive(PartialEq, Eq, Structural, Hash, Debug)]
pub struct Symbol {
    id: usize,
}

impl View for Symbol {
    type V = nat;

    closed spec fn view(&self) -> nat {
        self.id as nat
    }
}

/// Whether slot `i` of pool image `p` holds a resident (live) entry.
pub open spec fn entry_resident(p: Seq<EntryV>, i: int) -> bool {
    0 <= i < p.len() && p[i].refs > 0
}

/// Whether some resident entry of `p` holds content `s`.
pub open spec fn has_resident(p: Seq<EntryV>, s: Seq<char>) -> bool {
    exists|i: int| entry_resident(p, i) && p[i].content == s
}

/// The slot of the resident entry holding content `s`; meaningful when
/// `has_resident(p, s)`, and unique by the canonicalization invariant.
pub open spec fn resident_id(p: Seq<EntryV>, s: Seq<char>) -> int {
    choose|i: int| entry_resident(p, i) && p[i].content == s
}

/// The pool's invariant.
///
/// - Slot 0 is the pinned empty entry: content empty, count at least its
///   bias of 2.
/// - Canonicalization: no two resident entries hold the same content.
pub open spec fn pool_wf(p: Seq<EntryV>) -> bool {
    &&& p.len() >= 1
    &&& p[0].content == Seq::<char>::empty()
    &&& p[0].refs >= 2
    &&& forall|i: int, j: int|
        #[trigger] entry_resident(p, i) && #[trigger] entry_resident(p, j) && i != j
            ==> p[i].content != p[j].content
}

/// Whether interning content `s` into `p` cannot overflow a reference
/// count: a machine limit, not a rule of the design.
pub open spec fn can_intern(p: Seq<EntryV>, s: Seq<char>) -> bool {
    has_resident(p, s) ==> p[resident_id(p, s)].refs < usize::MAX
}

/// Whether a handle to slot `i` may be released: the entry is resident,
/// and the pinned empty entry keeps its bias of 2 under it (a holder of a
/// live handle to slot 0 sees a count of at least 3: the bias plus its
/// own handle).
pub open spec fn can_release(p: Seq<EntryV>, i: int) -> bool {
    &&& entry_resident(p, i)
    &&& i == 0 ==> p[0].refs >= 3
}

/// What interning `s` does to pool image `p`: bump the count of the
/// resident entry for `s` and hand out its slot, or append a fresh entry
/// with count 1.  Returns the new image and the handle's slot.
pub open spec fn intern_effect(p: Seq<EntryV>, s: Seq<char>) -> (Seq<EntryV>, int) {
    if has_resident(p, s) {
        let i = resident_id(p, s);
        (p.update(i, EntryV { content: p[i].content, refs: p[i].refs + 1 }), i)
    } else {
        (p.push(EntryV { content: s, refs: 1 }), p.len() as int)
    }
}

/// What releasing a handle to slot `i` does to pool image `p`: decrement
/// the count; on the transition from one to zero the entry dies and its
/// payload is freed.
pub open spec fn release_effect(p: Seq<EntryV>, i: int) -> Seq<EntryV> {
    if p[i].refs == 1 {
        p.update(i, EntryV { content: Seq::empty(), refs: 0 })
    } else {
        p.update(i, EntryV { content: p[i].content, refs: (p[i].refs - 1) as nat })
    }
}

/// The number of resident entries of `p`: the size of the registry as a
/// set of live canonical entries.
pub open spec fn resident_count(p: Seq<EntryV>) -> nat
    decreases p.len(),
{
    if p.len() == 0 {
        0
    } else {
        resident_count(p.drop_last()) + if p.last().refs > 0 {
            1nat
        } else {
            0nat
        }
    }
}

/// Under the canonicalization invariant, a resident slot is determined by
/// its content.
pub proof fn lemma_resident_id_unique(p: Seq<EntryV>, i: int)
    requires
        pool_wf(p),
        entry_resident(p, i),
    ensures
        resident_id(p, p[i].content) == i,
        has_resident(p, p[i].content),
{
    assert(entry_resident(p, i) && p[i].content == p[i].content);
    let j = resident_id(p, p[i].content);
    assert(entry_resident(p, j) && p[j].content == p[i].content);
}

impl SymbolPool {
    /// Creates a pool holding only the pinned empty entry, biased to a
    /// count of 2 so that ordinary traffic never destroys it.
    pub fn new() -> (p: SymbolPool)
        ensures
            pool_wf(p@),
            p@.len() == 1,
            p@[0] == (EntryV { content: Seq::<char>::empty(), refs: 2nat }),
    {
        let mut entries: Vec<Entry> = Vec::new();
        entries.push(Entry { content: String::new(), refs: 2 });
        let p = SymbolPool { entries };
        proof {
            assert(p@[0] == (EntryV { content: Seq::<char>::empty(), refs: 2nat }));
        }
        p
    }

    /// Looks the registry up by content: the slot of the resident entry
    /// holding `value`, if any.
    fn find_index(&self, value: &String) -> (r: Option<usize>)
        ensures
            match r {
                Some(i) => entry_resident(self@, i as int) && self@[i as int].content == value@,
                None => !has_resident(self@, value@),
            },
    {
        let n = self.entries.len();
        let mut j: usize = 0;
        while j < n
            invariant
                n == self.entries.len(),
                j <= n,
                forall|k: int|
                    0 <= k < j ==> !(#[trigger] entry_resident(self@, k) && self@[k].content
                        == value@),
            decreases n - j,
        {
            if self.entries[j].refs > 0 && self.entries[j].content == *value {
                return Some(j);
            }
            j += 1;
        }
        None
    }

    /// Interns `value`: returns a handle to the canonical entry for it,
    /// creating the entry if no resident one exists.  Never fails: an
    /// allocation failure here is fatal to the process, not an error.
    pub fn intern(&mut self, value: &str) -> (s: Symbol)
        requires
            pool_wf(old(self)@),
            can_intern(old(self)@, value@),
        ensures
            pool_wf(final(self)@),
            final(self)@ == intern_effect(old(self)@, value@).0,
            s@ as int == intern_effect(old(self)@, value@).1,
            entry_resident(final(self)@, s@ as int),
            final(self)@[s@ as int].content == value@,
    {
        let ghost p0 = self@;
        let owned: String = value.to_owned();
        match self.find_index(&owned) {
            Some(i) => {
                proof {
                    lemma_resident_id_unique(p0, i as int);
                }
                let entry = &mut self.entries[i];
                entry.refs = entry.refs + 1;
                proof {
                    assert(self@ =~= intern_effect(p0, value@).0);
                    lemma_intern_effect_wf(p0, value@);
                }
                Symbol { id: i }
            },
            None => {
                let i = self.entries.len();
                self.entries.push(Entry { content: owned, refs: 1 });
                proof {
                    assert(self@ =~= intern_effect(p0, value@).0);
                    lemma_intern_effect_wf(p0, value@);
                }
                Symbol { id: i }
            },
        }
    }
}

impl SymbolPool {
    /// Returns a handle to the resident entry for `value`, if one exists;
    /// does not create one.  A hit takes a reference like any other
    /// handle, so the count goes up by one.
    pub fn try_get(&mut self, value: &str) -> (r: Option<Symbol>)
        requires
            pool_wf(old(self)@),
            can_intern(old(self)@, value@),
        ensures
            pool_wf(final(self)@),
            match r {
                Some(s) => {
                    &&& has_resident(old(self)@, value@)
                    &&& s@ as int == resident_id(old(self)@, value@)
                    &&& final(self)@ == intern_effect(old(self)@, value@).0
                    &&& entry_resident(final(self)@, s@ as int)
                    &&& final(self)@[s@ as int].content == value@
                },
                None => {
                    &&& !has_resident(old(self)@, value@)
                    &&& final(self)@ == old(self)@
                },
            },
    {
        let ghost p0 = self@;
        let owned: String = value.to_owned();
        match self.find_index(&owned) {
            Some(i) => {
                proof {
                    lemma_resident_id_unique(p0, i as int);
                }
                let entry = &mut self.entries[i];
                entry.refs = entry.refs + 1;
                proof {
                    assert(self@ =~= intern_effect(p0, value@).0);
                    lemma_intern_effect_wf(p0, value@);
                }
                Some(Symbol { id: i })
            },
            None => None,
        }
    }

    /// Releases one handle to slot `i = s@`: the destruction path of a
    /// handle.  The count drops by one; the thread whose release observes
    /// the transition from one to zero destroys the entry, removing it
    /// from the registry and freeing its payload.
    pub fn release(&mut self, s: Symbol)
        requires
            pool_wf(old(self)@),
            can_release(old(self)@, s@ as int),
        ensures
            pool_wf(final(self)@),
            final(self)@ == release_effect(old(self)@, s@ as int),
    {
        let ghost p0 = self@;
        let i = s.id;
        if self.entries[i].refs == 1 {
            let entry = &mut self.entries[i];
            entry.content = String::new();
            entry.refs = 0;
        } else {
            let entry = &mut self.entries[i];
            entry.refs = entry.refs - 1;
        }
        proof {
            assert(self@ =~= release_effect(p0, s@ as int));
            lemma_release_effect_wf(p0, s@ as int);
        }
    }
}

impl SymbolPool {
    /// Non-mutating content lookup for the map: the slot of the resident
    /// entry holding `value`, if any.
    pub(crate) fn find_id(&self, value: &str) -> (r: Option<usize>)
        ensures
            match r {
                Some(i) => entry_resident(self@, i as int) && self@[i as int].content == value@,
                None => !has_resident(self@, value@),
            },
    {
        let owned: String = value.to_owned();
        self.find_index(&owned)
    }

    /// Whether interning `value` is free of reference-count overflow —
    /// the one machine limit `intern` asks its callers to respect.
    pub fn can_intern_value(&self, value: &str) -> (r: bool)
        requires
            pool_wf(self@),
        ensures
            r == can_intern(self@, value@),
    {
        match self.find_id(value) {
            Some(i) => {
                proof {
                    lemma_resident_id_unique(self@, i as int);
                }
                self.entries[i].refs < usize::MAX
            },
            None => true,
        }
    }

    /// The number of resident entries: the size of the registry.
    pub fn len(&self) -> (r: usize)
        ensures
            r as nat == resident_count(self@),
    {
        let n = self.entries.len();
        let mut count: usize = 0;
        let mut j: usize = 0;
        while j < n
            invariant
                n == self.entries.len(),
                j <= n,
                count <= j,
                count as nat == resident_count(self@.take(j as int)),
            decreases n - j,
        {
            proof {
                assert(self@.take(j + 1).drop_last() =~= self@.take(j as int));
                assert(self@.take(j + 1).last() == self@[j as int]);
            }
            if self.entries[j].refs > 0 {
                count += 1;
            }
            j += 1;
        }
        proof {
            assert(self@.take(n as int) =~= self@);
        }
        count
    }
}

impl Symbol {
    /// Interns `value` in `pool`: the handle to the canonical entry,
    /// created if absent.
    pub fn new(pool: &mut SymbolPool, value: &str) -> (s: Symbol)
        requires
            pool_wf(old(pool)@),
            can_intern(old(pool)@, value@),
        ensures
            pool_wf(final(pool)@),
            final(pool)@ == intern_effect(old(pool)@, value@).0,
            s@ as int == intern_effect(old(pool)@, value@).1,
            entry_resident(final(pool)@, s@ as int),
            final(pool)@[s@ as int].content == value@,
    {
        pool.intern(value)
    }

    /// A handle to the resident entry for `value`, if one exists; does
    /// not create one.
    pub fn get(pool: &mut SymbolPool, value: &str) -> (r: Option<Symbol>)
        requires
            pool_wf(old(pool)@),
            can_intern(old(pool)@, value@),
        ensures
            pool_wf(final(pool)@),
            match r {
                Some(s) => {
                    &&& has_resident(old(pool)@, value@)
                    &&& s@ as int == resident_id(old(pool)@, value@)
                    &&& final(pool)@ == intern_effect(old(pool)@, value@).0
                    &&& entry_resident(final(pool)@, s@ as int)
                    &&& final(pool)@[s@ as int].content == value@
                },
                None => {
                    &&& !has_resident(old(pool)@, value@)
                    &&& final(pool)@ == old(pool)@
                },
            },
    {
        pool.try_get(value)
    }

    /// A second handle to the same entry: copies the address and takes
    /// one more reference.  No allocation, no content lookup.
    pub fn clone_in(&self, pool: &mut SymbolPool) -> (s: Symbol)
        requires
            pool_wf(old(pool)@),
            entry_resident(old(pool)@, self@ as int),
            old(pool)@[self@ as int].refs < usize::MAX,
        ensures
            pool_wf(final(pool)@),
            s == *self,
            final(pool)@ == old(pool)@.update(
                self@ as int,
                EntryV {
                    content: old(pool)@[self@ as int].content,
                    refs: old(pool)@[self@ as int].refs + 1,
                },
            ),
    {
        let ghost p0 = pool@;
        let i = self.id;
        let entry = &mut pool.entries[i];
        entry.refs = entry.refs + 1;
        proof {
            assert(pool@ =~= p0.update(
                i as int,
                EntryV { content: p0[i as int].content, refs: p0[i as int].refs + 1 },
            ));
            lemma_resident_id_unique(p0, i as int);
            lemma_intern_effect_wf(p0, p0[i as int].content);
            assert(pool@ =~= intern_effect(p0, p0[i as int].content).0);
        }
        Symbol { id: i }
    }

    /// The content this handle resolves to: a borrow of the entry's
    /// payload.
    pub fn as_str<'a>(&self, pool: &'a SymbolPool) -> (r: &'a str)
        requires
            entry_resident(pool@, self@ as int),
        ensures
            r@ == pool@[self@ as int].content,
    {
        pool.entries[self.id].content.as_str()
    }

    /// Whether this handle's entry is resident in `pool`.
    pub fn is_live(&self, pool: &SymbolPool) -> (r: bool)
        ensures
            r == entry_resident(pool@, self@ as int),
    {
        self.id < pool.entries.len() && pool.entries[self.id].refs > 0
    }

    /// Whether this handle may be released into `pool` — live, and for
    /// the pinned empty entry, above its bias.
    pub fn releasable(&self, pool: &SymbolPool) -> (r: bool)
        ensures
            r == can_release(pool@, self@ as int),
    {
        self.id < pool.entries.len() && pool.entries[self.id].refs > 0 && (self.id != 0
            || pool.entries[0].refs >= 3)
    }

    /// The entry's current reference count.
    pub fn ref_count(&self, pool: &SymbolPool) -> (r: usize)
        requires
            self@ < pool@.len(),
        ensures
            r as nat == pool@[self@ as int].refs,
    {
        pool.entries[self.id].refs
    }

    /// The handle's slot number, for the map's secondary index.
    pub(crate) fn slot(&self) -> (r: usize)
        ensures
            r as nat == self@,
    {
        self.id
    }

    /// Total order on handles, consistent with content: equal addresses
    /// short-circuit to `Equal`; different addresses fall back to
    /// comparing the two payloads, code point by code point.
    pub fn cmp_in(&self, other: &Symbol, pool: &SymbolPool) -> (r: Ordering)
        requires
            pool_wf(pool@),
            entry_resident(pool@, self@ as int),
            entry_resident(pool@, other@ as int),
        ensures
            r == lex_cmp(pool@[self@ as int].content, pool@[other@ as int].content),
            r == Ordering::Equal <==> self@ == other@,
    {
        let ghost ca = pool@[self@ as int].content;
        let ghost cb = pool@[other@ as int].content;
        if self.id == other.id {
            proof {
                lemma_lex_cmp_refl(ca);
            }
            return Ordering::Equal;
        }
        let a = self.as_str(pool);
        let b = other.as_str(pool);
        let na = a.unicode_len();
        let nb = b.unicode_len();
        let mut i: usize = 0;
        proof {
            assert(ca.skip(0) =~= ca);
            assert(cb.skip(0) =~= cb);
        }
        while i < na && i < nb
            invariant
                na == ca.len(),
                nb == cb.len(),
                i <= na,
                i <= nb,
                a@ == ca,
                b@ == cb,
                lex_cmp(ca, cb) == lex_cmp(ca.skip(i as int), cb.skip(i as int)),
                forall|k: int| 0 <= k < i ==> ca[k] == cb[k],
                pool_wf(pool@),
                entry_resident(pool@, self@ as int),
                entry_resident(pool@, other@ as int),
                self@ != other@,
                ca == pool@[self@ as int].content,
                cb == pool@[other@ as int].content,
            decreases na - i,
        {
            let x = a.get_char(i);
            let y = b.get_char(i);
            proof {
                assert(ca.skip(i as int)[0] == ca[i as int]);
                assert(cb.skip(i as int)[0] == cb[i as int]);
            }
            if x == y {
                proof {
                    assert(ca.skip(i as int).skip(1) =~= ca.skip(i + 1));
                    assert(cb.skip(i as int).skip(1) =~= cb.skip(i + 1));
                }
                i += 1;
            } else if (x as u32) < (y as u32) {
                return Ordering::Less;
            } else {
                return Ordering::Greater;
            }
        }
        if na < nb {
            proof {
                assert(ca.skip(i as int).len() == 0);
                assert(cb.skip(i as int).len() > 0);
            }
            Ordering::Less
        } else if na > nb {
            proof {
                assert(cb.skip(i as int).len() == 0);
                assert(ca.skip(i as int).len() > 0);
            }
            Ordering::Greater
        } else {
            // Both payloads exhausted with every code point equal: the
            // contents are equal, which the canonicalization invariant
            // rules out for two distinct resident entries.
            proof {
                assert(ca =~= cb);
                assert(entry_resident(pool@, self@ as int));
                assert(entry_resident(pool@, other@ as int));
                assert(false);
            }
            Ordering::Equal
        }
    }

    /// The empty handle: always resolves to the pinned empty entry at
    /// slot 0, taking one more reference to it.
    pub fn empty(pool: &mut SymbolPool) -> (s: Symbol)
        requires
            pool_wf(old(pool)@),
            old(pool)@[0].refs < usize::MAX,
        ensures
            pool_wf(final(pool)@),
            s@ == 0,
            final(pool)@ == old(pool)@.update(
                0,
                EntryV {
                    content: Seq::<char>::empty(),
                    refs: old(pool)@[0].refs + 1,
                },
            ),
    {
        let ghost p0 = pool@;
        proof {
            lemma_resident_id_unique(p0, 0);
            reveal_strlit("");
            assert(""@ =~= Seq::<char>::empty());
        }
        let s = pool.intern("");
        proof {
            assert(s@ as int == resident_id(p0, Seq::<char>::empty()));
        }
        s
    }

    /// Content equality against a borrowed string, through the
    /// canonicalization invariant: the handle's content equals `other`
    /// exactly when `other`'s canonical entry is this handle's entry.
    pub fn eq_str(&self, pool: &SymbolPool, other: &str) -> (r: bool)
        requires
            pool_wf(pool@),
            entry_resident(pool@, self@ as int),
        ensures
            r == (pool@[self@ as int].content == other@),
    {
        match pool.find_id(other) {
            Some(i) => {
                proof {
                    if i as nat == self@ {
                        assert(pool@[self@ as int].content == other@);
                    } else {
                        assert(entry_resident(pool@, i as int));
                        assert(entry_resident(pool@, self@ as int));
                        if pool@[self@ as int].content == other@ {
                            assert(pool@[i as int].content == pool@[self@ as int].content);
                            assert(false);
                        }
                    }
                }
                i == self.id
            },
            None => {
                proof {
                    if pool@[self@ as int].content == other@ {
                        assert(entry_resident(pool@, self@ as int)
                            && pool@[self@ as int].content == other@);
                        assert(has_resident(pool@, other@));
                    }
                }
                false
            },
        }
    }

    /// Serialization: a `Symbol` is encoded as its plain string content,
    /// with no framing of its own.
    pub fn encode(&self, pool: &SymbolPool) -> (r: String)
        requires
            entry_resident(pool@, self@ as int),
        ensures
            r@ == pool@[self@ as int].content,
    {
        pool.entries[self.id].content.clone()
    }

    /// Deserialization: an encoded string scalar decodes by interning its
    /// content.  Whether the scalar itself is well formed is the host
    /// format's question; by the time a string has been recovered,
    /// decoding cannot fail.
    pub fn decode(pool: &mut SymbolPool, value: &str) -> (s: Symbol)
        requires
            pool_wf(old(pool)@),
            can_intern(old(pool)@, value@),
        ensures
            pool_wf(final(pool)@),
            final(pool)@ == intern_effect(old(pool)@, value@).0,
            s@ as int == intern_effect(old(pool)@, value@).1,
            entry_resident(final(pool)@, s@ as int),
            final(pool)@[s@ as int].content == value@,
    {
        Symbol::new(pool, value)
    }
}

/// Releasing a live handle preserves the pool invariant.
pub proof fn lemma_release_effect_wf(p: Seq<EntryV>, i: int)
    requires
        pool_wf(p),
        can_release(p, i),
    ensures
        pool_wf(release_effect(p, i)),
{
    let p1 = release_effect(p, i);
    assert(p1[0].refs >= 2);
    assert(p1[0].content == Seq::<char>::empty());
    assert forall|a: int, b: int|
        #[trigger] entry_resident(p1, a) && #[trigger] entry_resident(p1, b) && a
            != b implies p1[a].content != p1[b].content by {
        assert(entry_resident(p, a));
        assert(entry_resident(p, b));
    }
}

/// The pool image after interning content `s` into `p`, `k` times over.
pub open spec fn intern_k(p: Seq<EntryV>, s: Seq<char>, k: nat) -> Seq<EntryV>
    decreases k,
{
    if k == 0 {
        p
    } else {
        intern_effect(intern_k(p, s, (k - 1) as nat), s).0
    }
}

/// The pool image after releasing a handle to slot `i` of `p`, `k` times
/// over.
pub open spec fn release_k(p: Seq<EntryV>, i: int, k: nat) -> Seq<EntryV>
    decreases k,
{
    if k == 0 {
        p
    } else {
        release_k(release_effect(p, i), i, (k - 1) as nat)
    }
}

/// Canonicalization: two handles made from the same content, the second
/// while the first is live, are handles to the same entry — they compare
/// equal by address and share one allocation.
pub proof fn lemma_intern_canonical(p: Seq<EntryV>, s: Seq<char>)
    requires
        pool_wf(p),
    ensures
        ({
            let (p1, i1) = intern_effect(p, s);
            let (p2, i2) = intern_effect(p1, s);
            &&& i2 == i1
            &&& pool_wf(p2)
        }),
{
    let (p1, i1) = intern_effect(p, s);
    lemma_intern_effect_wf(p, s);
    lemma_resident_id_unique(p1, i1);
    lemma_intern_effect_wf(p1, s);
}

/// Interning `k` more handles to content that is already resident raises
/// its count by `k` and changes nothing else.
pub proof fn lemma_intern_k_resident(p: Seq<EntryV>, s: Seq<char>, k: nat)
    requires
        pool_wf(p),
        has_resident(p, s),
    ensures
        ({
            let i = resident_id(p, s);
            &&& intern_k(p, s, k) == p.update(
                i,
                EntryV { content: p[i].content, refs: p[i].refs + k },
            )
            &&& pool_wf(intern_k(p, s, k))
        }),
    decreases k,
{
    let i = resident_id(p, s);
    if k == 0 {
        assert(p.update(i, EntryV { content: p[i].content, refs: p[i].refs + 0 }) =~= p);
    } else {
        lemma_intern_k_resident(p, s, (k - 1) as nat);
        let q = intern_k(p, s, (k - 1) as nat);
        assert(entry_resident(q, i) && q[i].content == s);
        lemma_resident_id_unique(q, i);
        lemma_intern_effect_wf(q, s);
        assert(intern_k(p, s, k) =~= p.update(
            i,
            EntryV { content: p[i].content, refs: p[i].refs + k },
        ));
    }
}

/// Interning fresh content `k >= 1` times creates one entry whose count
/// reads `k`, leaving every prior entry as it was.
pub proof fn lemma_intern_k_fresh(p: Seq<EntryV>, s: Seq<char>, k: nat)
    requires
        pool_wf(p),
        !has_resident(p, s),
        k >= 1,
    ensures
        intern_k(p, s, k) == p.push(EntryV { content: s, refs: k }),
        pool_wf(intern_k(p, s, k)),
    decreases k,
{
    if k == 1 {
        lemma_intern_effect_wf(p, s);
        assert(intern_k(p, s, 0) == p);
        assert(intern_k(p, s, 1) == intern_effect(p, s).0);
        assert(intern_k(p, s, k) =~= p.push(EntryV { content: s, refs: k }));
    } else {
        lemma_intern_k_fresh(p, s, (k - 1) as nat);
        let q = intern_k(p, s, (k - 1) as nat);
        let i = p.len() as int;
        assert(entry_resident(q, i) && q[i].content == s);
        lemma_resident_id_unique(q, i);
        lemma_intern_effect_wf(q, s);
        assert(intern_k(p, s, k) =~= p.push(EntryV { content: s, refs: k }));
    }
}

/// Releasing `k` handles to slot `i` while the count stays above the
/// floor (its bias plus one more to give up) just lowers the count by
/// `k`.
pub proof fn lemma_release_k_dec(q: Seq<EntryV>, i: int, k: nat)
    requires
        pool_wf(q),
        entry_resident(q, i),
        i == 0 ==> q[i].refs >= k + 2,
        i != 0 ==> q[i].refs >= k + 1,
    ensures
        release_k(q, i, k) == q.update(
            i,
            EntryV { content: q[i].content, refs: (q[i].refs - k) as nat },
        ),
        pool_wf(release_k(q, i, k)),
    decreases k,
{
    if k == 0 {
        assert(q.update(i, EntryV { content: q[i].content, refs: (q[i].refs - 0) as nat })
            =~= q);
    } else {
        lemma_release_effect_wf(q, i);
        let q1 = release_effect(q, i);
        lemma_release_k_dec(q1, i, (k - 1) as nat);
        assert(release_k(q, i, k) =~= q.update(
            i,
            EntryV { content: q[i].content, refs: (q[i].refs - k) as nat },
        ));
    }
}

/// Releasing all `k` handles to an unpinned entry whose count reads `k`
/// destroys it: the slot becomes dead and its payload is freed.
pub proof fn lemma_release_k_to_zero(q: Seq<EntryV>, i: int, k: nat)
    requires
        pool_wf(q),
        entry_resident(q, i),
        i != 0,
        q[i].refs == k,
    ensures
        release_k(q, i, k) == q.update(i, EntryV { content: Seq::<char>::empty(), refs: 0nat }),
        pool_wf(release_k(q, i, k)),
    decreases k,
{
    if k == 1 {
        lemma_release_effect_wf(q, i);
        assert(release_k(release_effect(q, i), i, 0) == release_effect(q, i));
        assert(release_k(q, i, k) =~= q.update(
            i,
            EntryV { content: Seq::<char>::empty(), refs: 0nat },
        ));
    } else {
        lemma_release_effect_wf(q, i);
        let q1 = release_effect(q, i);
        lemma_release_k_to_zero(q1, i, (k - 1) as nat);
        assert(release_k(q, i, k) =~= q.update(
            i,
            EntryV { content: Seq::<char>::empty(), refs: 0nat },
        ));
    }
}

/// Reference counting, whole story for fresh content: `k` live handles
/// to it yield an observed count of `k`; releasing all of them removes
/// the entry from the registry, whose size returns to what it was.
pub proof fn lemma_handle_counting(p: Seq<EntryV>, s: Seq<char>, k: nat)
    requires
        pool_wf(p),
        !has_resident(p, s),
        k >= 1,
    ensures
        ({
            let pk = intern_k(p, s, k);
            let pz = release_k(pk, p.len() as int, k);
            &&& pk[p.len() as int].refs == k
            &&& resident_count(pk) == resident_count(p) + 1
            &&& pool_wf(pz)
            &&& !has_resident(pz, s)
            &&& resident_count(pz) == resident_count(p)
            &&& forall|j: int| 0 <= j < p.len() ==> pz[j] == p[j]
        }),
{
    lemma_intern_k_fresh(p, s, k);
    let pk = intern_k(p, s, k);
    let i = p.len() as int;
    lemma_release_k_to_zero(pk, i, k);
    let pz = release_k(pk, i, k);
    assert(pk.drop_last() =~= p);
    assert(pz.drop_last() =~= p);
    assert(resident_count(pk) == resident_count(p) + 1);
    assert(resident_count(pz) == resident_count(p));
    if has_resident(pz, s) {
        let j = choose|j: int| entry_resident(pz, j) && pz[j].content == s;
        if j < p.len() {
            assert(pz[j] == p[j]);
            assert(entry_resident(p, j) && p[j].content == s);
        } else {
            assert(j == p.len());
            assert(pz[j].refs == 0);
        }
        assert(false);
    }
}

/// The pinned empty entry: `k` handles to the empty string raise its
/// count to its bias plus `k`; releasing them all returns the pool to
/// exactly its prior state, and the entry never leaves the registry.
pub proof fn lemma_empty_entry_pinned(p: Seq<EntryV>, k: nat)
    requires
        pool_wf(p),
    ensures
        ({
            let pk = intern_k(p, Seq::<char>::empty(), k);
            &&& pk[0].refs == p[0].refs + k
            &&& release_k(pk, 0, k) == p
            &&& entry_resident(release_k(pk, 0, k), 0)
        }),
{
    lemma_resident_id_unique(p, 0);
    lemma_intern_k_resident(p, Seq::<char>::empty(), k);
    let pk = intern_k(p, Seq::<char>::empty(), k);
    lemma_release_k_dec(pk, 0, k);
    assert(release_k(pk, 0, k) =~= p);
}

/// Serialization round-trip by address: a handle encodes as its content,
/// and decoding (interning) that content yields the same slot back.
pub proof fn lemma_decode_encode_identity(p: Seq<EntryV>, i: int)
    requires
        pool_wf(p),
        entry_resident(p, i),
    ensures
        intern_effect(p, p[i].content).1 == i,
{
    lemma_resident_id_unique(p, i);
}

/// Interning preserves the pool invariant, and the handle it returns is
/// resident with the interned content.
pub proof fn lemma_intern_effect_wf(p: Seq<EntryV>, s: Seq<char>)
    requires
        pool_wf(p),
    ensures
        ({
            let (p1, i) = intern_effect(p, s);
            &&& pool_wf(p1)
            &&& entry_resident(p1, i)
            &&& p1[i].content == s
            &&& p1[i].refs == if has_resident(p, s) {
                p[resident_id(p, s)].refs + 1
            } else {
                1nat
            }
        }),
{
    let (p1, i) = intern_effect(p, s);
    if has_resident(p, s) {
        let r = resident_id(p, s);
        assert(entry_resident(p, r) && p[r].content == s);
        assert(forall|k: int| 0 <= k < p1.len() && k != r ==> p1[k] == p[k]);
        assert(entry_resident(p1, 0));
        assert forall|a: int, b: int|
            #[trigger] entry_resident(p1, a) && #[trigger] entry_resident(p1, b) && a
                != b implies p1[a].content != p1[b].content by {
            assert(entry_resident(p, a));
            assert(entry_resident(p, b));
        }
    } else {
        assert(forall|k: int| 0 <= k < p.len() ==> p1[k] == p[k]);
        assert(entry_resident(p1, 0));
        assert forall|a: int, b: int|
            #[trigger] entry_resident(p1, a) && #[trigger] entry_resident(p1, b) && a
                != b implies p1[a].content != p1[b].content by {
            if a < p.len() && b < p.len() {
                assert(entry_resident(p, a));
                assert(entry_resident(p, b));
            } else if a == p.len() {
                assert(entry_resident(p, b));
                assert(p1[a].content == s);
                assert(!(entry_resident(p, b) && p[b].content == s));
            } else {
                assert(entry_resident(p, a));
                assert(p1[b].content == s);
                assert(!(entry_resident(p, a) && p[a].content == s));
            }
        }
    }
}

} // verus!
