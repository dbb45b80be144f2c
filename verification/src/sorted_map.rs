//! A map from byte strings, kept as a sorted list.

use vstd::prelude::*;
use crate::order::{
    ascending, compare_bytes, find, lemma_find_absent, lemma_find_concat, lemma_find_sorted,
    lemma_lex_asymmetric, lemma_lex_irreflexive, lemma_lex_total, lemma_lex_transitive, lex_less,
    KeyOrder,
};

verus! {

/// A sorted list with `value` under `key`, in the place of an entry with that key if there is one.
pub open spec fn put<V>(entries: Seq<(Seq<u8>, V)>, key: Seq<u8>, value: V) -> Seq<(Seq<u8>, V)>
    decreases entries.len(),
{
    if entries.len() == 0 || lex_less(key, entries[0].0) {
        seq![(key, value)] + entries
    } else if entries[0].0 == key {
        seq![(key, value)] + entries.drop_first()
    } else {
        seq![entries[0]] + put(entries.drop_first(), key, value)
    }
}

/// A sorted list without the entry under `key`.
pub open spec fn without<V>(entries: Seq<(Seq<u8>, V)>, key: Seq<u8>) -> Seq<(Seq<u8>, V)>
    decreases entries.len(),
{
    if entries.len() == 0 {
        entries
    } else if entries[0].0 == key {
        entries.drop_first()
    } else {
        seq![entries[0]] + without(entries.drop_first(), key)
    }
}

/// What `put` does at the place of the key.
pub proof fn lemma_put_at<V>(entries: Seq<(Seq<u8>, V)>, key: Seq<u8>, value: V, i: int)
    requires
        0 <= i <= entries.len(),
        forall|j: int| 0 <= j < i ==> lex_less((#[trigger] entries[j]).0, key),
        i < entries.len() ==> !lex_less(entries[i].0, key),
    ensures
        put(entries, key, value) == if i < entries.len() && entries[i].0 == key {
            entries.update(i, (key, value))
        } else {
            entries.insert(i, (key, value))
        },
    decreases i,
{
    if i == 0 {
        if entries.len() > 0 {
            lemma_lex_total(entries[0].0, key);
            lemma_lex_irreflexive(key);
            if entries[0].0 == key {
                assert(seq![(key, value)] + entries.drop_first() =~= entries.update(
                    0,
                    (key, value),
                ));
            } else {
                assert(seq![(key, value)] + entries =~= entries.insert(0, (key, value)));
            }
        } else {
            assert(seq![(key, value)] + entries =~= entries.insert(0, (key, value)));
        }
    } else {
        let rest = entries.drop_first();
        assert(lex_less(entries[0].0, key));
        lemma_lex_asymmetric(entries[0].0, key);
        assert forall|j: int| 0 <= j < i - 1 implies lex_less((#[trigger] rest[j]).0, key) by {
            assert(rest[j] == entries[j + 1]);
        }
        lemma_put_at(rest, key, value, i - 1);
        if i < entries.len() && entries[i].0 == key {
            assert(seq![entries[0]] + rest.update(i - 1, (key, value)) =~= entries.update(
                i,
                (key, value),
            ));
        } else {
            assert(seq![entries[0]] + rest.insert(i - 1, (key, value)) =~= entries.insert(
                i,
                (key, value),
            ));
        }
    }
}

/// What `without` does at the place of the key.
proof fn lemma_without_at<V>(entries: Seq<(Seq<u8>, V)>, key: Seq<u8>, i: int)
    requires
        0 <= i <= entries.len(),
        ascending(entries),
        forall|j: int| 0 <= j < i ==> lex_less((#[trigger] entries[j]).0, key),
        i < entries.len() ==> !lex_less(entries[i].0, key),
    ensures
        without(entries, key) == if i < entries.len() && entries[i].0 == key {
            entries.remove(i)
        } else {
            entries
        },
    decreases entries.len(),
{
    if entries.len() > 0 {
        let rest = entries.drop_first();
        assert forall|a: int, b: int| 0 <= a < b < rest.len() implies lex_less(
            #[trigger] rest[a].0,
            #[trigger] rest[b].0,
        ) by {
            assert(rest[a] == entries[a + 1] && rest[b] == entries[b + 1]);
        }
        if i == 0 {
            if entries[0].0 == key {
                assert(entries.drop_first() =~= entries.remove(0));
            } else {
                lemma_lex_total(entries[0].0, key);
                if rest.len() > 0 {
                    assert(lex_less(entries[0].0, entries[1].0));
                    lemma_lex_transitive(key, entries[0].0, entries[1].0);
                    lemma_lex_asymmetric(key, entries[1].0);
                }
                lemma_without_at(rest, key, 0);
                assert(seq![entries[0]] + rest =~= entries);
            }
        } else {
            assert(lex_less(entries[0].0, key));
            lemma_lex_irreflexive(key);
            assert forall|j: int| 0 <= j < i - 1 implies lex_less((#[trigger] rest[j]).0, key) by {
                assert(rest[j] == entries[j + 1]);
            }
            lemma_without_at(rest, key, i - 1);
            if i < entries.len() && entries[i].0 == key {
                assert(seq![entries[0]] + rest.remove(i - 1) =~= entries.remove(i));
            } else {
                assert(seq![entries[0]] + rest =~= entries);
            }
        }
    }
}

/// The place of a key in a sorted list.
proof fn lemma_place<V>(entries: Seq<(Seq<u8>, V)>, key: Seq<u8>) -> (i: int)
    requires
        ascending(entries),
    ensures
        0 <= i <= entries.len(),
        forall|j: int| 0 <= j < i ==> lex_less((#[trigger] entries[j]).0, key),
        i < entries.len() ==> !lex_less(entries[i].0, key),
    decreases entries.len(),
{
    if entries.len() == 0 || !lex_less(entries[0].0, key) {
        0
    } else {
        let rest = entries.drop_first();
        assert forall|a: int, b: int| 0 <= a < b < rest.len() implies lex_less(
            #[trigger] rest[a].0,
            #[trigger] rest[b].0,
        ) by {
            assert(rest[a] == entries[a + 1] && rest[b] == entries[b + 1]);
        }
        let i = lemma_place(rest, key) + 1;
        assert forall|j: int| 0 <= j < i implies lex_less((#[trigger] entries[j]).0, key) by {
            if j > 0 {
                assert(entries[j] == rest[j - 1]);
            }
        }
        i
    }
}

/// From the place of a key on, every other key comes after it.
proof fn lemma_after_place<V>(entries: Seq<(Seq<u8>, V)>, key: Seq<u8>, i: int, j: int)
    requires
        ascending(entries),
        0 <= i <= j < entries.len(),
        !lex_less(entries[i].0, key),
        entries[j].0 != key,
    ensures
        lex_less(key, entries[j].0),
{
    lemma_lex_total(entries[i].0, key);
    if i < j {
        assert(lex_less(entries[i].0, entries[j].0));
        if entries[i].0 != key {
            lemma_lex_transitive(key, entries[i].0, entries[j].0);
        }
    }
}

/// After `put`, the list is still sorted, the key is found with its new value, and every other key
/// as before.
pub proof fn law_put<V>(entries: Seq<(Seq<u8>, V)>, key: Seq<u8>, value: V)
    requires
        ascending(entries),
    ensures
        ascending(put(entries, key, value)),
        forall|k: Seq<u8>| #[trigger]
            find(put(entries, key, value), k) == if k == key {
                Some(value)
            } else {
                find(entries, k)
            },
{
    let i = lemma_place(entries, key);
    lemma_put_at(entries, key, value, i);
    let r = put(entries, key, value);
    let there = i < entries.len() && entries[i].0 == key;
    assert forall|a: int, b: int| 0 <= a < b < r.len() implies lex_less(
        #[trigger] r[a].0,
        #[trigger] r[b].0,
    ) by {
        if there {
            assert(r[a].0 == entries[a].0 && r[b].0 == entries[b].0);
        } else {
            if b < i {
                assert(r[a] == entries[a] && r[b] == entries[b]);
            } else if b == i {
                assert(r[a] == entries[a]);
            } else if a < i {
                assert(r[a] == entries[a] && r[b] == entries[b - 1]);
            } else if a == i {
                assert(r[b] == entries[b - 1]);
                if entries[b - 1].0 == key {
                    assert(i < b - 1);
                    assert(lex_less(entries[i].0, entries[b - 1].0));
                }
                lemma_after_place(entries, key, i, b - 1);
            } else {
                assert(r[a] == entries[a - 1] && r[b] == entries[b - 1]);
            }
        }
    }
    assert(r[i] == (key, value));
    lemma_find_sorted(r, i);
    let front = entries.take(i);
    let back = if there {
        entries.skip(i + 1)
    } else {
        entries.skip(i)
    };
    assert(r =~= front + (seq![(key, value)] + back));
    assert forall|k: Seq<u8>| k != key implies #[trigger] find(r, k) == find(entries, k) by {
        let one = seq![(key, value)];
        lemma_find_concat(front, one + back, k);
        lemma_find_concat(one, back, k);
        lemma_find_absent(one, k);
        if there {
            let old_one = seq![entries[i]];
            assert(entries =~= front + (old_one + back));
            lemma_find_concat(front, old_one + back, k);
            lemma_find_concat(old_one, back, k);
            lemma_find_absent(old_one, k);
        } else {
            assert(entries =~= front + back);
            lemma_find_concat(front, back, k);
        }
    }
}

/// After `without`, the list is still sorted, the key is not found, and every other key as before.
pub proof fn law_without<V>(entries: Seq<(Seq<u8>, V)>, key: Seq<u8>)
    requires
        ascending(entries),
    ensures
        ascending(without(entries, key)),
        forall|k: Seq<u8>| #[trigger]
            find(without(entries, key), k) == if k == key {
                None
            } else {
                find(entries, k)
            },
{
    let i = lemma_place(entries, key);
    lemma_without_at(entries, key, i);
    let r = without(entries, key);
    let there = i < entries.len() && entries[i].0 == key;
    let front = entries.take(i);
    let back = if there {
        entries.skip(i + 1)
    } else {
        entries.skip(i)
    };
    assert(r =~= front + back);
    assert forall|a: int, b: int| 0 <= a < b < r.len() implies lex_less(
        #[trigger] r[a].0,
        #[trigger] r[b].0,
    ) by {
        let shift = if there {
            1int
        } else {
            0
        };
        let a2 = if a < i {
            a
        } else {
            a + shift
        };
        let b2 = if b < i {
            b
        } else {
            b + shift
        };
        assert(r[a] == entries[a2] && r[b] == entries[b2]);
    }
    assert forall|j: int| 0 <= j < r.len() implies (#[trigger] r[j]).0 != key by {
        lemma_lex_irreflexive(key);
        if j < i {
            assert(r[j] == entries[j]);
        } else if there {
            assert(r[j] == entries[j + 1]);
            assert(lex_less(entries[i].0, entries[j + 1].0));
        } else {
            assert(r[j] == entries[j]);
            if i < j {
                assert(lex_less(entries[i].0, entries[j].0));
            }
        }
    }
    lemma_find_absent(r, key);
    assert forall|k: Seq<u8>| k != key implies #[trigger] find(r, k) == find(entries, k) by {
        lemma_find_concat(front, back, k);
        if there {
            let one = seq![entries[i]];
            assert(entries =~= front + (one + back));
            lemma_find_concat(front, one + back, k);
            lemma_find_concat(one, back, k);
            lemma_find_absent(one, k);
        } else {
            assert(entries =~= front + back);
        }
    }
}

/// A map from byte strings to values, sorted by key, no key twice.
pub struct SortedMap<V> {
    entries: Vec<(Vec<u8>, V)>,
}

impl<V> View for SortedMap<V> {
    type V = Seq<(Seq<u8>, V)>;

    closed spec fn view(&self) -> Seq<(Seq<u8>, V)> {
        self.entries@.map_values(|e: (Vec<u8>, V)| (e.0@, e.1))
    }
}

impl<V> SortedMap<V> {
    #[verifier::type_invariant]
    spec fn inv(self) -> bool {
        ascending(self@)
    }

    /// An empty map.
    pub fn new() -> (m: Self)
        ensures
            m@ == Seq::<(Seq<u8>, V)>::empty(),
    {
        let entries: Vec<(Vec<u8>, V)> = Vec::new();
        assert(entries@.map_values(|e: (Vec<u8>, V)| (e.0@, e.1)) =~= Seq::empty());
        SortedMap { entries }
    }

    /// Number of keys. The entries are sorted by key, no key twice.
    pub fn len(&self) -> (n: usize)
        ensures
            n as nat == self@.len(),
            ascending(self@),
    {
        proof {
            use_type_invariant(self);
        }
        self.entries.len()
    }

    /// The entry at place `i`.
    pub fn entry(&self, i: usize) -> (e: (&Vec<u8>, &V))
        requires
            i < self@.len(),
        ensures
            self@[i as int] == (e.0@, *e.1),
    {
        (&self.entries[i].0, &self.entries[i].1)
    }

    /// The place of a key: how many keys come before it, and whether the key is there.
    pub fn place(&self, key: &[u8]) -> (r: (usize, bool))
        ensures
            r.0 <= self@.len(),
            forall|j: int| 0 <= j < r.0 ==> lex_less((#[trigger] self@[j]).0, key@),
            r.0 < self@.len() ==> !lex_less(self@[r.0 as int].0, key@),
            r.1 == (r.0 < self@.len() && self@[r.0 as int].0 == key@),
    {
        proof {
            use_type_invariant(self);
            lemma_lex_irreflexive(key@);
        }
        let mut lo: usize = 0;
        let mut hi: usize = self.entries.len();
        while lo < hi
            invariant
                ascending(self@),
                lo <= hi <= self@.len(),
                self@.len() == self.entries@.len(),
                forall|j: int| 0 <= j < lo ==> lex_less((#[trigger] self@[j]).0, key@),
                hi < self@.len() ==> lex_less(key@, self@[hi as int].0),
                !lex_less(key@, key@),
            decreases hi - lo,
        {
            let mid: usize = lo + (hi - lo) / 2;
            assert(self@[mid as int].0 == self.entries@[mid as int].0@);
            let ghost at = self@[mid as int].0;
            match compare_bytes(self.entries[mid].0.as_slice(), key) {
                KeyOrder::Less => {
                    assert forall|j: int| 0 <= j < mid + 1 implies lex_less(
                        (#[trigger] self@[j]).0,
                        key@,
                    ) by {
                        if j < mid {
                            assert(lex_less(self@[j].0, at));
                            lemma_lex_transitive(self@[j].0, at, key@);
                        }
                    }
                    lo = mid + 1;
                },
                KeyOrder::Equal => {
                    assert forall|j: int| 0 <= j < mid implies lex_less(
                        (#[trigger] self@[j]).0,
                        key@,
                    ) by {
                        assert(lex_less(self@[j].0, at));
                    }
                    return (mid, true);
                },
                KeyOrder::Greater => {
                    hi = mid;
                },
            }
        }
        proof {
            if lo < self@.len() {
                lemma_lex_asymmetric(key@, self@[lo as int].0);
            }
        }
        (lo, false)
    }

    /// Puts a value under a key, in the place of the one that is there.
    pub fn insert(&mut self, key: Vec<u8>, value: V)
        ensures
            final(self)@ == put(old(self)@, key@, value),
    {
        let (i, there) = self.place(key.as_slice());
        proof {
            use_type_invariant(&*self);
            lemma_put_at(self@, key@, value, i as int);
            law_put(self@, key@, value);
        }
        let ghost before = self.entries@;
        let ghost e = (key, value);
        let mut entries: Vec<(Vec<u8>, V)> = Vec::new();
        std::mem::swap(&mut entries, &mut self.entries);
        if there {
            entries.set(i, (key, value));
            assert(entries@ =~= before.update(i as int, e));
        } else {
            entries.insert(i, (key, value));
            assert(entries@ =~= before.insert(i as int, e));
        }
        assert(entries@.map_values(|x: (Vec<u8>, V)| (x.0@, x.1)) =~= put(
            before.map_values(|x: (Vec<u8>, V)| (x.0@, x.1)),
            e.0@,
            e.1,
        ));
        self.entries = entries;
    }

    /// Exchanges the value at place `i`.
    pub fn exchange(&mut self, i: usize, value: V) -> (r: V)
        requires
            i < old(self)@.len(),
        ensures
            r == old(self)@[i as int].1,
            final(self)@ == old(self)@.update(i as int, (old(self)@[i as int].0, value)),
    {
        proof {
            use_type_invariant(&*self);
        }
        let ghost before = self@;
        let mut entries: Vec<(Vec<u8>, V)> = Vec::new();
        std::mem::swap(&mut entries, &mut self.entries);
        let mut kept: V = value;
        std::mem::swap(&mut entries[i].1, &mut kept);
        assert(entries@.map_values(|x: (Vec<u8>, V)| (x.0@, x.1)) =~= before.update(
            i as int,
            (before[i as int].0, value),
        ));
        self.entries = entries;
        kept
    }

    /// Removes a key.
    pub fn remove(&mut self, key: &[u8])
        ensures
            final(self)@ == without(old(self)@, key@),
    {
        let (i, there) = self.place(key);
        proof {
            use_type_invariant(&*self);
            lemma_without_at(self@, key@, i as int);
            law_without(self@, key@);
        }
        if there {
            let ghost before = self.entries@;
            let mut entries: Vec<(Vec<u8>, V)> = Vec::new();
            std::mem::swap(&mut entries, &mut self.entries);
            entries.remove(i);
            assert(entries@.map_values(|x: (Vec<u8>, V)| (x.0@, x.1)) =~= before.map_values(
                |x: (Vec<u8>, V)| (x.0@, x.1),
            ).remove(i as int));
            self.entries = entries;
        }
    }
}

} // verus!
