//! A size-bounded least-recently-used cache for decoded audio buffers.
//!
//! The cache pairs an ordered key-to-value index (the `lru` crate, used
//! unbounded, so the cache itself decides all evictions) with a running
//! byte-size account. Keys are clip paths; a value is an opaque handle
//! to a decoded buffer, and its byte size is supplied by the caller and
//! treated as ground truth.
//!
//! The model of the index is a sequence of `(key, value, byte_size)`
//! triples, most-recently-used first. All contracts speak of that
//! sequence, of the running byte count, and of the fixed capacity.

use vstd::prelude::*;

verus! {

/// One modelled cache entry: the key's characters, the opaque value
/// handle, and the byte size recorded for the entry.
pub type Entry = (Seq<char>, u64, usize);

/// The contents of the underlying recency-ordered index,
/// most-recently-used first.
pub uninterp spec fn lru_contents(c: lru::LruCache<String, (u64, usize)>) -> Seq<Entry>;

/// No two entries share a key.
pub open spec fn distinct_keys(s: Seq<Entry>) -> bool {
    forall|i: int, j: int| 0 <= i < j < s.len() ==> s[i].0 != s[j].0
}

/// Some entry carries the key `k`.
pub open spec fn has_key(s: Seq<Entry>, k: Seq<char>) -> bool {
    exists|i: int| 0 <= i < s.len() && s[i].0 == k
}

/// The position of the entry carrying `k` (meaningful when keys are
/// distinct and `has_key(s, k)` holds).
pub open spec fn key_index(s: Seq<Entry>, k: Seq<char>) -> int {
    choose|i: int| 0 <= i < s.len() && s[i].0 == k
}

/// The sequence with the entry at `i` moved to the most-recently-used end.
pub open spec fn move_to_front(s: Seq<Entry>, i: int) -> Seq<Entry>
    recommends
        0 <= i < s.len(),
{
    seq![s[i]] + s.remove(i)
}

/// The sequence with the entry for `k` removed, if one is there.
pub open spec fn remove_key(s: Seq<Entry>, k: Seq<char>) -> Seq<Entry> {
    if has_key(s, k) {
        s.remove(key_index(s, k))
    } else {
        s
    }
}

/// The total byte size accounted to the entries of `s`.
pub open spec fn sum_sizes(s: Seq<Entry>) -> int
    decreases s.len(),
{
    if s.len() == 0 {
        0
    } else {
        sum_sizes(s.drop_last()) + s.last().2
    }
}

/// What remains after evicting least-recently-used entries until an
/// incoming entry of `incoming` bytes fits within `cap`, or nothing is
/// left to evict.
pub open spec fn evict_to_fit(s: Seq<Entry>, incoming: int, cap: int) -> Seq<Entry>
    decreases s.len(),
{
    if s.len() == 0 || sum_sizes(s) + incoming <= cap {
        s
    } else {
        evict_to_fit(s.drop_last(), incoming, cap)
    }
}

/// The index contents after a push of `(k, v, n)` against capacity `cap`:
/// any old entry for `k` goes away, least-recently-used entries are
/// evicted until the new entry fits (or nothing is left), and the new
/// entry stands at the most-recently-used end.
pub open spec fn push_entries(s: Seq<Entry>, k: Seq<char>, v: u64, n: usize, cap: int) -> Seq<
    Entry,
> {
    seq![(k, v, n)] + evict_to_fit(remove_key(s, k), n as int, cap)
}

#[verifier::external_type_specification]
#[verifier::external_body]
#[verifier::reject_recursive_types(K)]
#[verifier::reject_recursive_types(V)]
#[verifier::reject_recursive_types(S)]
pub struct ExLruCache<K, V, S>(lru::LruCache<K, V, S>);

#[verifier::external_type_specification]
#[verifier::external_body]
pub struct ExLruDefaultHasher(lru::DefaultHasher);

/// Relies on `lru::LruCache::unbounded`: a cache that starts empty and
/// never evicts on its own.
#[verifier::external_body]
fn lru_unbounded() -> (r: lru::LruCache<String, (u64, usize)>)
    ensures
        lru_contents(r) == Seq::<Entry>::empty(),
{
    lru::LruCache::unbounded()
}

/// Relies on `lru::LruCache::get`: a hit hands back the stored value and
/// moves its entry to the most-recently-used position; a miss changes
/// nothing.
#[verifier::external_body]
fn lru_get(c: &mut lru::LruCache<String, (u64, usize)>, key: &String) -> (r: Option<(u64, usize)>)
    requires
        distinct_keys(lru_contents(*old(c))),
    ensures
        has_key(lru_contents(*old(c)), key@) ==> ({
            let s = lru_contents(*old(c));
            let i = key_index(s, key@);
            &&& r == Some((s[i].1, s[i].2))
            &&& lru_contents(*final(c)) == move_to_front(s, i)
        }),
        !has_key(lru_contents(*old(c)), key@) ==> ({
            &&& r == None::<(u64, usize)>
            &&& lru_contents(*final(c)) == lru_contents(*old(c))
        }),
{
    c.get(key).map(|v| (v.0, v.1))
}

/// Relies on `lru::LruCache::pop`: removes the entry for the key, if one
/// is there, leaving the recency order of the rest unchanged.
#[verifier::external_body]
fn lru_pop(c: &mut lru::LruCache<String, (u64, usize)>, key: &String) -> (r: Option<(u64, usize)>)
    requires
        distinct_keys(lru_contents(*old(c))),
    ensures
        has_key(lru_contents(*old(c)), key@) ==> ({
            let s = lru_contents(*old(c));
            let i = key_index(s, key@);
            &&& r == Some((s[i].1, s[i].2))
            &&& lru_contents(*final(c)) == s.remove(i)
        }),
        !has_key(lru_contents(*old(c)), key@) ==> ({
            &&& r == None::<(u64, usize)>
            &&& lru_contents(*final(c)) == lru_contents(*old(c))
        }),
{
    c.pop(key)
}

/// Relies on `lru::LruCache::pop_lru`: removes and returns the
/// least-recently-used entry of a non-empty cache.
#[verifier::external_body]
fn lru_pop_lru(c: &mut lru::LruCache<String, (u64, usize)>) -> (r: Option<(String, u64, usize)>)
    ensures
        lru_contents(*old(c)).len() > 0 ==> ({
            let s = lru_contents(*old(c));
            &&& r matches Some(p) && p.0@ == s.last().0 && p.1 == s.last().1 && p.2 == s.last().2
            &&& lru_contents(*final(c)) == s.drop_last()
        }),
        lru_contents(*old(c)).len() == 0 ==> ({
            &&& r is None
            &&& lru_contents(*final(c)) == lru_contents(*old(c))
        }),
{
    c.pop_lru().map(|(k, v)| (k, v.0, v.1))
}

/// Relies on `lru::LruCache::push` on an unbounded cache: inserts at the
/// most-recently-used position; when the key is already present it
/// replaces that entry and returns the old one, and nothing else is ever
/// displaced (the inner cache has no capacity of its own).
#[verifier::external_body]
fn lru_push(c: &mut lru::LruCache<String, (u64, usize)>, key: String, value: (u64, usize)) -> (r:
    Option<(String, u64, usize)>)
    requires
        distinct_keys(lru_contents(*old(c))),
    ensures
        has_key(lru_contents(*old(c)), key@) ==> ({
            let s = lru_contents(*old(c));
            let i = key_index(s, key@);
            &&& r matches Some(p) && p.0@ == key@ && p.1 == s[i].1 && p.2 == s[i].2
            &&& lru_contents(*final(c)) == seq![(key@, value.0, value.1)] + s.remove(i)
        }),
        !has_key(lru_contents(*old(c)), key@) ==> ({
            &&& r is None
            &&& lru_contents(*final(c)) == seq![(key@, value.0, value.1)] + lru_contents(*old(c))
        }),
{
    c.push(key, value).map(|(k, v)| (k, v.0, v.1))
}

/// Relies on `lru::LruCache::is_empty`.
#[verifier::external_body]
fn lru_is_empty(c: &lru::LruCache<String, (u64, usize)>) -> (r: bool)
    ensures
        r == (lru_contents(*c).len() == 0),
{
    c.is_empty()
}

/// Relies on `lru::LruCache::len`: the number of entries held.
#[verifier::external_body]
fn lru_len(c: &lru::LruCache<String, (u64, usize)>) -> (r: usize)
    ensures
        r == lru_contents(*c).len(),
{
    c.len()
}

/// A cache of opaque value handles keyed by clip path, bounded by a byte
/// budget fixed at construction. Pushing a new entry evicts
/// least-recently-used entries until the newcomer fits; the one entry
/// whose own size exceeds the whole budget is still stored, but alone.
pub struct SizeBoundedLruCache {
    inner: lru::LruCache<String, (u64, usize)>,
    byte_size: usize,
    max_byte_size: usize,
}

impl SizeBoundedLruCache {
    /// The cached entries, most-recently-used first.
    pub closed spec fn entries(&self) -> Seq<Entry> {
        lru_contents(self.inner)
    }

    /// The bytes currently accounted to the cache.
    pub closed spec fn used_bytes(&self) -> int {
        self.byte_size as int
    }

    /// The byte budget fixed at construction.
    pub closed spec fn capacity(&self) -> int {
        self.max_byte_size as int
    }

    /// Well-formedness: keys are unique, the byte account matches the
    /// entries, and the budget is kept except by a lone oversized entry.
    pub open spec fn wf(&self) -> bool {
        &&& distinct_keys(self.entries())
        &&& self.used_bytes() == sum_sizes(self.entries())
        &&& (self.used_bytes() <= self.capacity() || self.entries().len() == 1)
    }

    /// A fresh, empty cache with the given byte budget. A budget of zero
    /// is allowed and disables caching in all but name: every later push
    /// first empties the cache and then stores the newcomer alone.
    pub fn new(max_byte_size: usize) -> (r: SizeBoundedLruCache)
        ensures
            r.wf(),
            r.entries() == Seq::<Entry>::empty(),
            r.used_bytes() == 0,
            r.capacity() == max_byte_size,
    {
        SizeBoundedLruCache { inner: lru_unbounded(), byte_size: 0, max_byte_size }
    }

    /// The bytes currently accounted to the cache.
    pub fn current_byte_size(&self) -> (r: usize)
        ensures
            r == self.used_bytes(),
    {
        self.byte_size
    }

    /// The byte budget fixed at construction.
    pub fn max_byte_size(&self) -> (r: usize)
        ensures
            r == self.capacity(),
    {
        self.max_byte_size
    }

    /// How many entries the cache holds.
    pub fn len(&self) -> (r: usize)
        ensures
            r == self.entries().len(),
    {
        lru_len(&self.inner)
    }

    /// Looks the key up. A hit hands back the stored value handle and
    /// makes the entry the most recently used; a miss returns nothing and
    /// leaves the cache exactly as it was, byte account included.
    pub fn get(&mut self, key: &String) -> (r: Option<u64>)
        requires
            old(self).wf(),
        ensures
            final(self).wf(),
            final(self).capacity() == old(self).capacity(),
            final(self).used_bytes() == old(self).used_bytes(),
            has_key(old(self).entries(), key@) ==> ({
                let s = old(self).entries();
                let i = key_index(s, key@);
                &&& r == Some(s[i].1)
                &&& final(self).entries() == move_to_front(s, i)
            }),
            !has_key(old(self).entries(), key@) ==> ({
                &&& r == None::<u64>
                &&& final(self).entries() == old(self).entries()
            }),
    {
        let ghost s = lru_contents(self.inner);
        let res = lru_get(&mut self.inner, key);
        proof {
            if has_key(s, key@) {
                let i = key_index(s, key@);
                assert(0 <= i < s.len() && s[i].0 == key@);
                lemma_mtf_sum(s, i);
                lemma_mtf_distinct(s, i);
                assert(move_to_front(s, i).len() == s.len());
            }
        }
        match res {
            Some(p) => Some(p.0),
            None => None,
        }
    }

    /// Inserts or replaces the entry for `key` with `value`, accounted at
    /// `byte_size` bytes. A previous entry for the key is dropped first
    /// (its size leaves the account: no double counting). Entries are
    /// then evicted from the least-recently-used end until the newcomer
    /// fits within the budget or nothing is left, and the newcomer goes
    /// in as most recently used. Returns the last entry evicted during
    /// this call, or nothing when no eviction happened (a plain
    /// replacement reports nothing). An entry larger than the whole
    /// budget is stored anyway, but alone.
    pub fn push(&mut self, key: String, value: u64, byte_size: usize) -> (r: Option<(String, u64)>)
        requires
            old(self).wf(),
        ensures
            final(self).wf(),
            final(self).capacity() == old(self).capacity(),
            final(self).entries() == push_entries(
                old(self).entries(),
                key@,
                value,
                byte_size,
                old(self).capacity(),
            ),
            final(self).used_bytes() == sum_sizes(final(self).entries()),
            ({
                let stayed = remove_key(old(self).entries(), key@);
                let kept = evict_to_fit(stayed, byte_size as int, old(self).capacity());
                &&& (r is Some <==> kept.len() < stayed.len())
                &&& (r matches Some(p) ==> ({
                    let last_out = stayed[kept.len() as int];
                    p.0@ == last_out.0 && p.1 == last_out.1
                }))
            }),
            byte_size <= old(self).capacity() ==> final(self).used_bytes() <= final(self).capacity(),
            byte_size > old(self).capacity() ==> final(self).entries() == seq![(key@, value, byte_size)],
    {
        let ghost s0 = lru_contents(self.inner);
        match lru_pop(&mut self.inner, &key) {
            Some(old_entry) => {
                proof {
                    let i = key_index(s0, key@);
                    assert(0 <= i < s0.len() && s0[i].0 == key@);
                    lemma_sum_remove(s0, i);
                    lemma_remove_keeps(s0, i);
                    lemma_sum_nonneg(s0.remove(i));
                }
                self.byte_size = self.byte_size - old_entry.1;
            },
            None => {},
        }
        let ghost s1 = lru_contents(self.inner);
        proof {
            assert(s1 == remove_key(s0, key@));
            assert(distinct_keys(s1) && !has_key(s1, key@));
            assert(self.byte_size == sum_sizes(s1));
            assert(s1.subrange(0, s1.len() as int) =~= s1);
        }
        let ghost mut j: int = s1.len() as int;
        let mut last_evicted: Option<(String, u64)> = None;
        while (byte_size > self.max_byte_size || self.byte_size > self.max_byte_size - byte_size)
            && !lru_is_empty(&self.inner)
            invariant
                0 <= j <= s1.len(),
                lru_contents(self.inner) == s1.subrange(0, j),
                distinct_keys(s1),
                !has_key(s1, key@),
                self.byte_size == sum_sizes(s1.subrange(0, j)),
                self.max_byte_size == old(self).max_byte_size,
                evict_to_fit(s1.subrange(0, j), byte_size as int, self.max_byte_size as int)
                    == evict_to_fit(s1, byte_size as int, self.max_byte_size as int),
                j == s1.len() ==> last_evicted is None,
                j < s1.len() ==> (last_evicted matches Some(p) && p.0@ == s1[j].0 && p.1
                    == s1[j].1),
            decreases j,
        {
            proof {
                assert(s1.subrange(0, j).len() > 0);
                lemma_sum_nonneg(s1.subrange(0, j));
            }
            let victim = lru_pop_lru(&mut self.inner).unwrap();
            proof {
                let t = s1.subrange(0, j);
                assert(t.last() == s1[j - 1]);
                assert(t.drop_last() =~= s1.subrange(0, j - 1));
                lemma_sum_nonneg(s1.subrange(0, j - 1));
            }
            self.byte_size = self.byte_size - victim.2;
            last_evicted = Some((victim.0, victim.1));
            proof {
                j = j - 1;
            }
        }
        proof {
            let t = s1.subrange(0, j);
            lemma_sum_nonneg(t);
            assert(evict_to_fit(t, byte_size as int, self.max_byte_size as int) == t);
        }
        self.byte_size = self.byte_size + byte_size;
        let ghost s2 = lru_contents(self.inner);
        lru_push(&mut self.inner, key, (value, byte_size));
        proof {
            lemma_prefix_props(s1, key@, j);
            lemma_prepend_distinct((key@, value, byte_size), s2);
            lemma_sum_concat(seq![(key@, value, byte_size)], s2);
            lemma_sum_singleton((key@, value, byte_size));
            if byte_size > self.max_byte_size {
                lemma_evict_oversized(s1, byte_size as int, self.max_byte_size as int);
                assert(lru_contents(self.inner) =~= seq![(key@, value, byte_size)]);
            }
        }
        last_evicted
    }
}

/// The byte account of a sequence of entries is never negative.
proof fn lemma_sum_nonneg(s: Seq<Entry>)
    ensures
        sum_sizes(s) >= 0,
    decreases s.len(),
{
    if s.len() > 0 {
        lemma_sum_nonneg(s.drop_last());
    }
}

/// Byte accounts add up over concatenation.
proof fn lemma_sum_concat(a: Seq<Entry>, b: Seq<Entry>)
    ensures
        sum_sizes(a + b) == sum_sizes(a) + sum_sizes(b),
    decreases b.len(),
{
    if b.len() == 0 {
        assert(a + b =~= a);
    } else {
        lemma_sum_concat(a, b.drop_last());
        assert((a + b).drop_last() =~= a + b.drop_last());
        assert((a + b).last() == b.last());
    }
}

/// The byte account of a single entry is its size.
proof fn lemma_sum_singleton(e: Entry)
    ensures
        sum_sizes(seq![e]) == e.2,
{
    assert(seq![e].drop_last() =~= Seq::<Entry>::empty());
    assert(sum_sizes(Seq::<Entry>::empty()) == 0);
    assert(seq![e].last() == e);
}

/// Removing an entry takes exactly its size out of the account.
proof fn lemma_sum_remove(s: Seq<Entry>, i: int)
    requires
        0 <= i < s.len(),
    ensures
        sum_sizes(s.remove(i)) == sum_sizes(s) - s[i].2,
{
    let a = s.subrange(0, i);
    let mid = s.subrange(i, i + 1);
    let b = s.subrange(i + 1, s.len() as int);
    assert(s =~= a + mid + b);
    lemma_sum_concat(a + mid, b);
    lemma_sum_concat(a, mid);
    assert(mid =~= seq![s[i]]);
    lemma_sum_singleton(s[i]);
    lemma_sum_concat(a, b);
    assert(s.remove(i) == a + b);
}

/// Moving an entry to the front leaves the byte account unchanged.
proof fn lemma_mtf_sum(s: Seq<Entry>, i: int)
    requires
        0 <= i < s.len(),
    ensures
        sum_sizes(move_to_front(s, i)) == sum_sizes(s),
{
    lemma_sum_concat(seq![s[i]], s.remove(i));
    lemma_sum_singleton(s[i]);
    lemma_sum_remove(s, i);
}

/// Removing the entry at `i` keeps keys distinct and removes its key.
proof fn lemma_remove_keeps(s: Seq<Entry>, i: int)
    requires
        0 <= i < s.len(),
        distinct_keys(s),
    ensures
        distinct_keys(s.remove(i)),
        !has_key(s.remove(i), s[i].0),
{
    s.remove_ensures(i);
    let t = s.remove(i);
    assert forall|m: int, n: int| 0 <= m < n < t.len() implies t[m].0 != t[n].0 by {
        let m2 = if m < i {
            m
        } else {
            m + 1
        };
        let n2 = if n < i {
            n
        } else {
            n + 1
        };
        assert(t[m] == s[m2]);
        assert(t[n] == s[n2]);
    }
    if has_key(t, s[i].0) {
        let w = key_index(t, s[i].0);
        assert(0 <= w < t.len() && t[w].0 == s[i].0);
        let w2 = if w < i {
            w
        } else {
            w + 1
        };
        assert(t[w] == s[w2]);
        assert(false);
    }
}

/// Putting a fresh key in front keeps keys distinct.
proof fn lemma_prepend_distinct(e: Entry, t: Seq<Entry>)
    requires
        distinct_keys(t),
        !has_key(t, e.0),
    ensures
        distinct_keys(seq![e] + t),
{
    let u = seq![e] + t;
    assert forall|m: int, n: int| 0 <= m < n < u.len() implies u[m].0 != u[n].0 by {
        if m == 0 {
            assert(u[n] == t[n - 1]);
            if u[n].0 == e.0 {
                assert(0 <= n - 1 < t.len() && t[n - 1].0 == e.0);
                assert(has_key(t, e.0));
            }
        } else {
            assert(u[m] == t[m - 1]);
            assert(u[n] == t[n - 1]);
        }
    }
}

/// Moving an entry to the front keeps keys distinct.
proof fn lemma_mtf_distinct(s: Seq<Entry>, i: int)
    requires
        0 <= i < s.len(),
        distinct_keys(s),
    ensures
        distinct_keys(move_to_front(s, i)),
{
    lemma_remove_keeps(s, i);
    lemma_prepend_distinct(s[i], s.remove(i));
}

/// A prefix of a sequence with distinct keys, none of them `k`, is the
/// same kind of sequence.
proof fn lemma_prefix_props(s: Seq<Entry>, k: Seq<char>, j: int)
    requires
        0 <= j <= s.len(),
        distinct_keys(s),
        !has_key(s, k),
    ensures
        distinct_keys(s.subrange(0, j)),
        !has_key(s.subrange(0, j), k),
{
    let t = s.subrange(0, j);
    assert forall|m: int, n: int| 0 <= m < n < t.len() implies t[m].0 != t[n].0 by {
        assert(t[m] == s[m]);
        assert(t[n] == s[n]);
    }
    if has_key(t, k) {
        let w = key_index(t, k);
        assert(0 <= w < t.len() && t[w].0 == k);
        assert(s[w].0 == k);
        assert(has_key(s, k));
    }
}

/// Eviction keeps keys distinct and introduces no key.
proof fn lemma_evict_props(s: Seq<Entry>, incoming: int, cap: int, k: Seq<char>)
    requires
        distinct_keys(s),
        !has_key(s, k),
    ensures
        distinct_keys(evict_to_fit(s, incoming, cap)),
        !has_key(evict_to_fit(s, incoming, cap), k),
    decreases s.len(),
{
    if s.len() == 0 || sum_sizes(s) + incoming <= cap {
    } else {
        lemma_prefix_props(s, k, s.len() - 1);
        assert(s.drop_last() =~= s.subrange(0, s.len() - 1));
        lemma_evict_props(s.drop_last(), incoming, cap, k);
    }
}

/// After a push, the pushed key stands exactly once: in the front entry,
/// with the pushed value and size, and the byte account is that size
/// plus what the remaining, unrelated entries weigh.
pub proof fn lemma_push_entries_key_once(s: Seq<Entry>, k: Seq<char>, v: u64, n: usize, cap: int)
    requires
        distinct_keys(s),
    ensures
        ({
            let e = push_entries(s, k, v, n, cap);
            &&& e.len() >= 1
            &&& e[0] == (k, v, n)
            &&& distinct_keys(e)
            &&& !has_key(e.subrange(1, e.len() as int), k)
            &&& sum_sizes(e) == n + sum_sizes(e.subrange(1, e.len() as int))
        }),
{
    let s1 = remove_key(s, k);
    if has_key(s, k) {
        let i = key_index(s, k);
        assert(0 <= i < s.len() && s[i].0 == k);
        lemma_remove_keeps(s, i);
    }
    assert(distinct_keys(s1) && !has_key(s1, k));
    lemma_evict_props(s1, n as int, cap, k);
    let t = evict_to_fit(s1, n as int, cap);
    lemma_prepend_distinct((k, v, n), t);
    lemma_sum_concat(seq![(k, v, n)], t);
    lemma_sum_singleton((k, v, n));
    let e = push_entries(s, k, v, n, cap);
    assert(e.subrange(1, e.len() as int) =~= t);
}

/// Pushing the same key twice accounts the second size only: afterwards
/// the key stands in exactly one entry, carrying the second value and
/// size, and the byte account is that size plus the sizes of the other,
/// unrelated entries — the first size is gone entirely.
pub proof fn lemma_replacement_accounting(
    s: Seq<Entry>,
    k: Seq<char>,
    v1: u64,
    n1: usize,
    v2: u64,
    n2: usize,
    cap: int,
)
    requires
        distinct_keys(s),
    ensures
        ({
            let twice = push_entries(push_entries(s, k, v1, n1, cap), k, v2, n2, cap);
            &&& twice.len() >= 1
            &&& twice[0] == (k, v2, n2)
            &&& distinct_keys(twice)
            &&& !has_key(twice.subrange(1, twice.len() as int), k)
            &&& sum_sizes(twice) == n2 + sum_sizes(twice.subrange(1, twice.len() as int))
        }),
{
    lemma_push_entries_key_once(s, k, v1, n1, cap);
    lemma_push_entries_key_once(push_entries(s, k, v1, n1, cap), k, v2, n2, cap);
}

/// The least-recently-used entry goes, not the most recently touched
/// one: with budget for exactly two entries of size `sz`, after pushing
/// `ka` then `kb` into an empty cache, a hit on `ka` refreshes it, so a
/// push of `kc` evicts `kb` and keeps `ka`.
pub proof fn lemma_lru_order(
    ka: Seq<char>,
    kb: Seq<char>,
    kc: Seq<char>,
    va: u64,
    vb: u64,
    vc: u64,
    sz: usize,
    cap: int,
)
    requires
        ka != kb,
        ka != kc,
        kb != kc,
        2 * (sz as int) <= cap,
        cap < 3 * (sz as int),
    ensures
        ({
            let e1 = push_entries(Seq::<Entry>::empty(), ka, va, sz, cap);
            let e2 = push_entries(e1, kb, vb, sz, cap);
            let e3 = move_to_front(e2, key_index(e2, ka));
            let e4 = push_entries(e3, kc, vc, sz, cap);
            &&& e4 == seq![(kc, vc, sz), (ka, va, sz)]
            &&& !has_key(e4, kb)
        }),
{
    let ea: Entry = (ka, va, sz);
    let eb: Entry = (kb, vb, sz);
    let ec: Entry = (kc, vc, sz);
    lemma_sum_singleton(ea);
    lemma_sum_singleton(eb);
    lemma_sum_singleton(ec);

    let e1 = push_entries(Seq::<Entry>::empty(), ka, va, sz, cap);
    assert(!has_key(Seq::<Entry>::empty(), ka));
    assert(e1 =~= seq![ea]);

    let e2 = push_entries(e1, kb, vb, sz, cap);
    if has_key(e1, kb) {
        let w = key_index(e1, kb);
        assert(0 <= w < e1.len() && e1[w].0 == kb);
        assert(false);
    }
    assert(sum_sizes(e1) == sz);
    assert(evict_to_fit(e1, sz as int, cap) == e1);
    assert(e2 =~= seq![eb, ea]);

    assert(e2[1].0 == ka);
    assert(has_key(e2, ka));
    let i = key_index(e2, ka);
    assert(0 <= i < e2.len() && e2[i].0 == ka);
    assert(i == 1);
    let e3 = move_to_front(e2, i);
    assert(e2.remove(1) =~= seq![eb]);
    assert(e3 =~= seq![ea, eb]);

    let e4 = push_entries(e3, kc, vc, sz, cap);
    if has_key(e3, kc) {
        let w = key_index(e3, kc);
        assert(0 <= w < e3.len() && e3[w].0 == kc);
        assert(false);
    }
    assert(e3 =~= seq![ea] + seq![eb]);
    lemma_sum_concat(seq![ea], seq![eb]);
    assert(sum_sizes(e3) == 2 * (sz as int));
    assert(e3.drop_last() =~= seq![ea]);
    assert(evict_to_fit(seq![ea], sz as int, cap) == seq![ea]);
    assert(evict_to_fit(e3, sz as int, cap) == seq![ea]);
    assert(e4 =~= seq![ec, ea]);
    if has_key(e4, kb) {
        let w = key_index(e4, kb);
        assert(0 <= w < e4.len() && e4[w].0 == kb);
        assert(false);
    }
}

/// An entry larger than the whole budget never fits: the eviction loop
/// runs until nothing is left.
proof fn lemma_evict_oversized(s: Seq<Entry>, incoming: int, cap: int)
    requires
        incoming > cap,
    ensures
        evict_to_fit(s, incoming, cap).len() == 0,
    decreases s.len(),
{
    lemma_sum_nonneg(s);
    if s.len() != 0 {
        lemma_evict_oversized(s.drop_last(), incoming, cap);
    }
}

} // verus!
