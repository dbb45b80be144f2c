//! Lexicographic order of byte strings, and sorted lists of entries.

use vstd::prelude::*;

verus! {

/// A key and its value.
pub type Pair = (Seq<u8>, Seq<u8>);

/// Outcome of comparing two byte strings.
#[derive(Debug, Clone, Copy, PartialEq, Eq, Structural)]
pub enum KeyOrder {
    Less,
    Equal,
    Greater,
}

/// `a` comes strictly before `b` in lexicographic order.
pub open spec fn lex_less(a: Seq<u8>, b: Seq<u8>) -> bool
    decreases a.len(),
{
    if b.len() == 0 {
        false
    } else if a.len() == 0 {
        true
    } else {
        a[0] < b[0] || (a[0] == b[0] && lex_less(a.drop_first(), b.drop_first()))
    }
}

/// Number of leading bytes that `a` and `b` have in common.
pub open spec fn shared_prefix(a: Seq<u8>, b: Seq<u8>) -> nat
    decreases a.len(),
{
    if a.len() == 0 || b.len() == 0 || a[0] != b[0] {
        0
    } else {
        1 + shared_prefix(a.drop_first(), b.drop_first())
    }
}

/// The keys of `entries` are strictly ascending.
pub open spec fn ascending<V>(entries: Seq<(Seq<u8>, V)>) -> bool {
    forall|i: int, j: int|
        0 <= i < j < entries.len() ==> lex_less(#[trigger] entries[i].0, #[trigger] entries[j].0)
}

/// The value of the first entry under `key`.
pub open spec fn find<V>(entries: Seq<(Seq<u8>, V)>, key: Seq<u8>) -> Option<V>
    decreases entries.len(),
{
    if entries.len() == 0 {
        None
    } else if entries[0].0 == key {
        Some(entries[0].1)
    } else {
        find(entries.drop_first(), key)
    }
}

/// The value of the first entry whose key is `key` or comes after it.
pub open spec fn find_at_least<V>(entries: Seq<(Seq<u8>, V)>, key: Seq<u8>) -> Option<V>
    decreases entries.len(),
{
    if entries.len() == 0 {
        None
    } else if !lex_less(entries[0].0, key) {
        Some(entries[0].1)
    } else {
        find_at_least(entries.drop_first(), key)
    }
}

/// The order is that of whole byte strings: one comes before another exactly if, behind the bytes
/// that they share from the start, it ends first or has the smaller byte.
pub proof fn law_lex_less(a: Seq<u8>, b: Seq<u8>, n: int)
    requires
        0 <= n <= a.len(),
        n <= b.len(),
        forall|i: int| 0 <= i < n ==> a[i] == b[i],
        n < a.len() && n < b.len() ==> a[n] != b[n],
    ensures
        lex_less(a, b) <==> n < b.len() && (n == a.len() || a[n] < b[n]),
    decreases n,
{
    if n > 0 {
        assert(a[0] == b[0]);
        let (x, y) = (a.drop_first(), b.drop_first());
        assert forall|i: int| 0 <= i < n - 1 implies x[i] == y[i] by {
            assert(a[i + 1] == b[i + 1]);
        }
        law_lex_less(x, y, n - 1);
    }
}

/// The common prefix is the longest one: the bytes in it agree, and those behind it do not.
pub proof fn law_shared_prefix(a: Seq<u8>, b: Seq<u8>)
    ensures
        shared_prefix(a, b) <= a.len(),
        shared_prefix(a, b) <= b.len(),
        forall|i: int| 0 <= i < shared_prefix(a, b) ==> a[i] == b[i],
        shared_prefix(a, b) < a.len() && shared_prefix(a, b) < b.len() ==> a[shared_prefix(
            a,
            b,
        ) as int] != b[shared_prefix(a, b) as int],
    decreases a.len(),
{
    if a.len() > 0 && b.len() > 0 && a[0] == b[0] {
        let (x, y) = (a.drop_first(), b.drop_first());
        law_shared_prefix(x, y);
        assert forall|i: int| 0 <= i < shared_prefix(a, b) implies a[i] == b[i] by {
            if i > 0 {
                assert(x[i - 1] == y[i - 1]);
            }
        }
    }
}

/// What is found under a key is the value of the first entry with that key.
pub proof fn law_find<V>(entries: Seq<(Seq<u8>, V)>, key: Seq<u8>, i: int)
    requires
        0 <= i <= entries.len(),
        forall|j: int| 0 <= j < i ==> (#[trigger] entries[j]).0 != key,
        i < entries.len() ==> entries[i].0 == key,
    ensures
        find(entries, key) == if i < entries.len() {
            Some(entries[i].1)
        } else {
            None
        },
    decreases entries.len(),
{
    if i > 0 {
        let rest = entries.drop_first();
        assert(entries[0].0 != key);
        assert forall|j: int| 0 <= j < i - 1 implies (#[trigger] rest[j]).0 != key by {
            assert(rest[j] == entries[j + 1]);
        }
        law_find(rest, key, i - 1);
    }
}

/// What is found at or after a key is the value of the first entry whose key is not before it.
pub proof fn law_find_at_least<V>(entries: Seq<(Seq<u8>, V)>, key: Seq<u8>, i: int)
    requires
        0 <= i <= entries.len(),
        forall|j: int| 0 <= j < i ==> lex_less((#[trigger] entries[j]).0, key),
        i < entries.len() ==> !lex_less(entries[i].0, key),
    ensures
        find_at_least(entries, key) == if i < entries.len() {
            Some(entries[i].1)
        } else {
            None
        },
    decreases entries.len(),
{
    if i > 0 {
        let rest = entries.drop_first();
        assert(lex_less(entries[0].0, key));
        assert forall|j: int| 0 <= j < i - 1 implies lex_less((#[trigger] rest[j]).0, key) by {
            assert(rest[j] == entries[j + 1]);
        }
        law_find_at_least(rest, key, i - 1);
    }
}

/// Entries are ascending exactly if the key of each comes after that of the one before it.
pub proof fn law_ascending<V>(entries: Seq<(Seq<u8>, V)>)
    ensures
        ascending(entries) <==> forall|i: int|
            0 < i < entries.len() ==> lex_less(entries[i - 1].0, (#[trigger] entries[i]).0),
{
    if ascending(entries) {
        assert forall|i: int| 0 < i < entries.len() implies lex_less(
            entries[i - 1].0,
            (#[trigger] entries[i]).0,
        ) by {}
    }
    if forall|i: int|
        0 < i < entries.len() ==> lex_less(entries[i - 1].0, (#[trigger] entries[i]).0) {
        assert forall|i: int, j: int| 0 <= i < j < entries.len() implies lex_less(
            #[trigger] entries[i].0,
            #[trigger] entries[j].0,
        ) by {
            lemma_steps_ascend(entries, i, j);
        }
    }
}

proof fn lemma_steps_ascend<V>(entries: Seq<(Seq<u8>, V)>, i: int, j: int)
    requires
        0 <= i < j < entries.len(),
        forall|k: int|
            0 < k < entries.len() ==> lex_less(entries[k - 1].0, (#[trigger] entries[k]).0),
    ensures
        lex_less(entries[i].0, entries[j].0),
    decreases j - i,
{
    if i < j - 1 {
        lemma_steps_ascend(entries, i, j - 1);
        lemma_lex_transitive(entries[i].0, entries[j - 1].0, entries[j].0);
    }
}

/// Nothing comes before itself.
pub proof fn lemma_lex_irreflexive(a: Seq<u8>)
    ensures
        !lex_less(a, a),
    decreases a.len(),
{
    if a.len() > 0 {
        lemma_lex_irreflexive(a.drop_first());
    }
}

/// The order is transitive.
pub proof fn lemma_lex_transitive(a: Seq<u8>, b: Seq<u8>, c: Seq<u8>)
    requires
        lex_less(a, b),
        lex_less(b, c),
    ensures
        lex_less(a, c),
    decreases a.len(),
{
    if a.len() > 0 && a[0] == b[0] && b[0] == c[0] {
        lemma_lex_transitive(a.drop_first(), b.drop_first(), c.drop_first());
    }
}

/// Two different byte strings are ordered one way or the other.
pub proof fn lemma_lex_total(a: Seq<u8>, b: Seq<u8>)
    ensures
        lex_less(a, b) || a == b || lex_less(b, a),
    decreases a.len(),
{
    if a.len() > 0 && b.len() > 0 && a[0] == b[0] {
        lemma_lex_total(a.drop_first(), b.drop_first());
        if a.drop_first() == b.drop_first() {
            assert(a =~= seq![a[0]] + a.drop_first());
            assert(b =~= seq![b[0]] + b.drop_first());
        }
    } else if a.len() == 0 && b.len() == 0 {
        assert(a =~= b);
    }
}

/// At most one of two byte strings comes before the other.
pub proof fn lemma_lex_asymmetric(a: Seq<u8>, b: Seq<u8>)
    requires
        lex_less(a, b),
    ensures
        !lex_less(b, a),
        a != b,
{
    lemma_lex_irreflexive(a);
    if lex_less(b, a) {
        lemma_lex_transitive(a, b, a);
    }
}

/// If `a` is not after `b` and `b` comes before `c`, then `a` comes before `c`.
pub proof fn lemma_lex_not_after_then_before(a: Seq<u8>, b: Seq<u8>, c: Seq<u8>)
    requires
        !lex_less(b, a),
        lex_less(b, c),
    ensures
        lex_less(a, c),
{
    lemma_lex_total(a, b);
    if a != b {
        lemma_lex_transitive(a, b, c);
    }
}

/// The shared prefix is a prefix of both.
pub proof fn lemma_shared_prefix(a: Seq<u8>, b: Seq<u8>)
    ensures
        shared_prefix(a, b) <= a.len(),
        shared_prefix(a, b) <= b.len(),
        a.take(shared_prefix(a, b) as int) == b.take(shared_prefix(a, b) as int),
    decreases a.len(),
{
    let n = shared_prefix(a, b) as int;
    if a.len() == 0 || b.len() == 0 || a[0] != b[0] {
        assert(a.take(0) =~= b.take(0));
    } else {
        lemma_shared_prefix(a.drop_first(), b.drop_first());
        let x = a.drop_first().take(n - 1);
        let y = b.drop_first().take(n - 1);
        assert forall|i: int| 0 <= i < n implies a.take(n)[i] == b.take(n)[i] by {
            if i > 0 {
                assert(x[i - 1] == y[i - 1]);
            }
        }
        assert(a.take(n) =~= b.take(n));
    }
}

/// A key that no entry has is not found.
pub proof fn lemma_find_absent<V>(entries: Seq<(Seq<u8>, V)>, key: Seq<u8>)
    requires
        forall|i: int| 0 <= i < entries.len() ==> #[trigger] entries[i].0 != key,
    ensures
        find(entries, key) is None,
    decreases entries.len(),
{
    if entries.len() > 0 {
        let rest = entries.drop_first();
        assert forall|i: int| 0 <= i < rest.len() implies #[trigger] rest[i].0 != key by {
            assert(rest[i] == entries[i + 1]);
        }
        lemma_find_absent(rest, key);
    }
}

/// What is found is the value of an entry with that key.
pub proof fn lemma_find_present<V>(entries: Seq<(Seq<u8>, V)>, key: Seq<u8>) -> (i: int)
    requires
        find(entries, key) is Some,
    ensures
        0 <= i < entries.len(),
        entries[i].0 == key,
        find(entries, key) == Some(entries[i].1),
    decreases entries.len(),
{
    if entries[0].0 == key {
        0
    } else {
        lemma_find_present(entries.drop_first(), key) + 1
    }
}

/// Every key of a sorted list is found with its value.
pub proof fn lemma_find_sorted<V>(entries: Seq<(Seq<u8>, V)>, i: int)
    requires
        ascending(entries),
        0 <= i < entries.len(),
    ensures
        find(entries, entries[i].0) == Some(entries[i].1),
{
    if find(entries, entries[i].0) is None {
        lemma_find_none_means_absent(entries, entries[i].0, i);
    }
    let j = lemma_find_present(entries, entries[i].0);
    if j < i {
        lemma_lex_asymmetric(entries[j].0, entries[i].0);
    } else if i < j {
        lemma_lex_asymmetric(entries[i].0, entries[j].0);
    }
}

/// If a key is not found, no entry has it.
pub proof fn lemma_find_none_means_absent<V>(entries: Seq<(Seq<u8>, V)>, key: Seq<u8>, i: int)
    requires
        find(entries, key) is None,
        0 <= i < entries.len(),
    ensures
        entries[i].0 != key,
    decreases entries.len(),
{
    if i > 0 {
        assert(entries.drop_first()[i - 1] == entries[i]);
        lemma_find_none_means_absent(entries.drop_first(), key, i - 1);
    }
}

/// Sorted entries are fixed by what is found in them.
pub proof fn lemma_same_finds<V>(a: Seq<(Seq<u8>, V)>, b: Seq<(Seq<u8>, V)>)
    requires
        ascending(a),
        ascending(b),
        forall|key: Seq<u8>| #[trigger] find(a, key) == find(b, key),
    ensures
        a == b,
    decreases a.len(),
{
    if a.len() == 0 {
        if b.len() > 0 {
            assert(find(a, b[0].0) == find(b, b[0].0));
        }
        assert(a =~= b);
    } else {
        let (x, y) = (a[0].0, b[0].0);
        assert(find(a, x) == find(b, x));
        let j = lemma_find_present(b, x);
        assert(find(a, y) == find(b, y));
        let i = lemma_find_present(a, y);
        if i > 0 && j > 0 {
            assert(lex_less(a[0].0, a[i].0));
            assert(lex_less(b[0].0, b[j].0));
            lemma_lex_asymmetric(x, y);
        }
        assert(x == y);
        let (ra, rb) = (a.drop_first(), b.drop_first());
        assert forall|m: int, n: int| 0 <= m < n < ra.len() implies lex_less(
            #[trigger] ra[m].0,
            #[trigger] ra[n].0,
        ) by {
            assert(ra[m] == a[m + 1] && ra[n] == a[n + 1]);
        }
        assert forall|m: int, n: int| 0 <= m < n < rb.len() implies lex_less(
            #[trigger] rb[m].0,
            #[trigger] rb[n].0,
        ) by {
            assert(rb[m] == b[m + 1] && rb[n] == b[n + 1]);
        }
        assert forall|key: Seq<u8>| #[trigger] find(ra, key) == find(rb, key) by {
            if key == x {
                assert forall|m: int| 0 <= m < ra.len() implies #[trigger] ra[m].0 != x by {
                    assert(lex_less(a[0].0, a[m + 1].0));
                    lemma_lex_irreflexive(x);
                }
                assert forall|m: int| 0 <= m < rb.len() implies #[trigger] rb[m].0 != x by {
                    assert(lex_less(b[0].0, b[m + 1].0));
                    lemma_lex_irreflexive(x);
                }
                lemma_find_absent(ra, x);
                lemma_find_absent(rb, x);
            } else {
                assert(find(a, key) == find(b, key));
            }
        }
        lemma_same_finds(ra, rb);
        assert(a =~= seq![a[0]] + ra);
        assert(b =~= seq![b[0]] + rb);
    }
}

/// In two lists joined, the first is looked up before the second.
pub proof fn lemma_find_concat<V>(a: Seq<(Seq<u8>, V)>, b: Seq<(Seq<u8>, V)>, key: Seq<u8>)
    ensures
        find(a + b, key) == (if find(a, key) is Some {
            find(a, key)
        } else {
            find(b, key)
        }),
    decreases a.len(),
{
    if a.len() == 0 {
        assert(a + b =~= b);
    } else {
        assert((a + b).drop_first() =~= a.drop_first() + b);
        lemma_find_concat(a.drop_first(), b, key);
    }
}

/// Looking up a key in a sorted list only needs the part in which it can lie.
pub proof fn lemma_find_within<V>(entries: Seq<(Seq<u8>, V)>, key: Seq<u8>, from: int, to: int)
    requires
        ascending(entries),
        0 <= from <= to <= entries.len(),
        from == 0 || from < entries.len() && !lex_less(key, entries[from].0),
        to == entries.len() || lex_less(key, entries[to].0),
    ensures
        find(entries, key) == find(entries.subrange(from, to), key),
{
    let a = entries.subrange(0, from);
    let b = entries.subrange(from, to);
    let c = entries.subrange(to, entries.len() as int);
    assert forall|i: int| 0 <= i < a.len() implies #[trigger] a[i].0 != key by {
        assert(a[i] == entries[i]);
        assert(lex_less(entries[i].0, entries[from].0));
        if entries[i].0 == key {
            assert(lex_less(key, entries[from].0));
        }
    }
    lemma_find_absent(a, key);
    assert forall|i: int| 0 <= i < c.len() implies #[trigger] c[i].0 != key by {
        assert(c[i] == entries[to + i]);
        if i > 0 {
            assert(lex_less(entries[to].0, entries[to + i].0));
            lemma_lex_transitive(key, entries[to].0, entries[to + i].0);
        }
        lemma_lex_irreflexive(key);
    }
    lemma_find_absent(c, key);
    assert(entries =~= a + (b + c));
    lemma_find_concat(a, b + c, key);
    lemma_find_concat(b, c, key);
}

/// Compares two byte strings lexicographically.
pub fn compare_bytes(a: &[u8], b: &[u8]) -> (r: KeyOrder)
    ensures
        r == KeyOrder::Less <==> lex_less(a@, b@),
        r == KeyOrder::Equal <==> a@ == b@,
        r == KeyOrder::Greater <==> lex_less(b@, a@),
{
    let mut i: usize = 0;
    assert(a@.skip(0) =~= a@);
    assert(b@.skip(0) =~= b@);
    proof {
        if lex_less(a@, b@) {
            lemma_lex_asymmetric(a@, b@);
        }
        if lex_less(b@, a@) {
            lemma_lex_asymmetric(b@, a@);
        }
    }
    while i < a.len() && i < b.len()
        invariant
            i <= a@.len(),
            i <= b@.len(),
            a@.take(i as int) == b@.take(i as int),
            lex_less(a@, b@) == lex_less(a@.skip(i as int), b@.skip(i as int)),
            lex_less(b@, a@) == lex_less(b@.skip(i as int), a@.skip(i as int)),
            lex_less(a@, b@) ==> !lex_less(b@, a@) && a@ != b@,
            lex_less(b@, a@) ==> !lex_less(a@, b@) && a@ != b@,
        decreases a@.len() - i,
    {
        if a[i] < b[i] {
            return KeyOrder::Less;
        }
        if a[i] > b[i] {
            return KeyOrder::Greater;
        }
        assert(a@.skip(i as int).drop_first() =~= a@.skip(i + 1));
        assert(b@.skip(i as int).drop_first() =~= b@.skip(i + 1));
        assert(a@.take(i + 1) =~= a@.take(i as int).push(a@[i as int]));
        assert(b@.take(i + 1) =~= b@.take(i as int).push(b@[i as int]));
        i += 1;
    }
    if i < b.len() {
        KeyOrder::Less
    } else if i < a.len() {
        KeyOrder::Greater
    } else {
        assert(a@ =~= a@.take(i as int));
        assert(b@ =~= b@.take(i as int));
        KeyOrder::Equal
    }
}

/// Counts the leading bytes that two byte strings have in common.
pub fn shared_prefix_len(a: &[u8], b: &[u8]) -> (n: usize)
    ensures
        n as nat == shared_prefix(a@, b@),
{
    let mut i: usize = 0;
    assert(a@.skip(0) =~= a@);
    assert(b@.skip(0) =~= b@);
    while i < a.len() && i < b.len() && a[i] == b[i]
        invariant
            i <= a@.len(),
            i <= b@.len(),
            shared_prefix(a@, b@) == i + shared_prefix(a@.skip(i as int), b@.skip(i as int)),
        decreases a@.len() - i,
    {
        assert(a@.skip(i as int).drop_first() =~= a@.skip(i + 1));
        assert(b@.skip(i as int).drop_first() =~= b@.skip(i + 1));
        i += 1;
    }
    i
}

} // verus!
