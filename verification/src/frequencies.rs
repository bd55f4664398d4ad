//! Frequency tables of captured values: small maps kept as listings in
//! increasing key order, with a cap on the number of distinct values per
//! group.
//!
//! Texts are ordered as `String`s are: lexicographically by character
//! (which is the byte order of their UTF-8 encodings).

use vstd::prelude::*;

use crate::text::{chars_of, push_all, string_from};

verus! {

/// Whether `a` comes before `b` in lexicographic character order.
pub open spec fn text_less(a: Seq<char>, b: Seq<char>) -> bool
    decreases a.len(),
{
    if a.len() == 0 {
        b.len() > 0
    } else if b.len() == 0 {
        false
    } else if (a[0] as int) < (b[0] as int) {
        true
    } else if (a[0] as int) > (b[0] as int) {
        false
    } else {
        text_less(a.drop_first(), b.drop_first())
    }
}

/// No text comes before itself.
pub proof fn lemma_text_less_irreflexive(a: Seq<char>)
    ensures
        !text_less(a, a),
    decreases a.len(),
{
    if a.len() > 0 {
        lemma_text_less_irreflexive(a.drop_first());
    }
}

/// Two texts are equal or one comes before the other, and not both ways.
pub proof fn lemma_text_less_total(a: Seq<char>, b: Seq<char>)
    ensures
        a == b || text_less(a, b) || text_less(b, a),
        !(text_less(a, b) && text_less(b, a)),
    decreases a.len(),
{
    if a.len() > 0 && b.len() > 0 {
        lemma_text_less_total(a.drop_first(), b.drop_first());
        if a[0] == b[0] {
            assert((a[0] as int) == (b[0] as int));
            assert(text_less(a, b) == text_less(a.drop_first(), b.drop_first()));
            assert(text_less(b, a) == text_less(b.drop_first(), a.drop_first()));
            if a.drop_first() == b.drop_first() {
                assert forall|i: int| 0 <= i < a.len() implies a[i] == b[i] by {
                    if i > 0 {
                        assert(a[i] == a.drop_first()[i - 1]);
                        assert(b[i] == b.drop_first()[i - 1]);
                    }
                }
                assert(a =~= b);
            }
        } else {
            assert((a[0] as int) != (b[0] as int));
            if (a[0] as int) < (b[0] as int) {
                assert(text_less(a, b));
                assert(!text_less(b, a));
            } else {
                assert(text_less(b, a));
                assert(!text_less(a, b));
            }
        }
    } else if a.len() == 0 && b.len() == 0 {
        assert(a =~= b);
    }
}

/// The order on texts is transitive.
pub proof fn lemma_text_less_transitive(a: Seq<char>, b: Seq<char>, c: Seq<char>)
    requires
        text_less(a, b),
        text_less(b, c),
    ensures
        text_less(a, c),
    decreases a.len(),
{
    if a.len() > 0 && b.len() > 0 && c.len() > 0 {
        if (a[0] as int) == (b[0] as int) && (b[0] as int) == (c[0] as int) {
            lemma_text_less_transitive(a.drop_first(), b.drop_first(), c.drop_first());
        }
    }
}

/// How two texts compare.
pub enum TextOrder {
    Before,
    Same,
    After,
}

/// Compares `a` with `b`.
pub fn compare_text(a: &[char], b: &[char]) -> (r: TextOrder)
    ensures
        r is Before <==> text_less(a@, b@),
        r is Same <==> a@ == b@,
        r is After <==> text_less(b@, a@),
{
    proof {
        lemma_text_less_total(a@, b@);
        lemma_text_less_irreflexive(a@);
    }
    let mut k: usize = 0;
    assert(a@.skip(0) =~= a@);
    assert(b@.skip(0) =~= b@);
    while k < a.len() && k < b.len() && a[k] == b[k]
        invariant
            k <= a@.len(),
            k <= b@.len(),
            a@.subrange(0, k as int) == b@.subrange(0, k as int),
            text_less(a@, b@) == text_less(a@.skip(k as int), b@.skip(k as int)),
            text_less(b@, a@) == text_less(b@.skip(k as int), a@.skip(k as int)),
        decreases a@.len() - k,
    {
        assert(a@.skip(k as int).drop_first() =~= a@.skip(k + 1));
        assert(b@.skip(k as int).drop_first() =~= b@.skip(k + 1));
        assert(a@.subrange(0, k + 1) =~= a@.subrange(0, k as int).push(a@[k as int]));
        assert(b@.subrange(0, k + 1) =~= b@.subrange(0, k as int).push(b@[k as int]));
        k = k + 1;
    }
    if k < a.len() && k < b.len() {
        if a[k] < b[k] {
            TextOrder::Before
        } else {
            TextOrder::After
        }
    } else if k < b.len() {
        assert(a@ =~= a@.subrange(0, k as int));
        assert(a@ != b@);
        TextOrder::Before
    } else if k < a.len() {
        assert(b@ =~= b@.subrange(0, k as int));
        assert(a@ != b@);
        TextOrder::After
    } else {
        assert(a@ =~= a@.subrange(0, k as int));
        assert(b@ =~= b@.subrange(0, k as int));
        TextOrder::Same
    }
}

/// The keys of a listing.
pub open spec fn keys_of<V>(l: Seq<(Seq<char>, V)>) -> Seq<Seq<char>> {
    l.map_values(|e: (Seq<char>, V)| e.0)
}

/// Whether the keys come in strictly increasing order.
pub open spec fn increasing_keys(ks: Seq<Seq<char>>) -> bool {
    forall|i: int, j: int| 0 <= i < j < ks.len() ==> text_less(ks[i], ks[j])
}

/// Where `k` is or would be in the increasing keys `ks`: the number of keys
/// before it.
pub open spec fn key_slot(ks: Seq<Seq<char>>, k: Seq<char>) -> int
    decreases ks.len(),
{
    if ks.len() == 0 {
        0
    } else if text_less(ks[0], k) {
        1 + key_slot(ks.drop_first(), k)
    } else {
        0
    }
}

/// Whether `k` is among the keys.
pub open spec fn has_key(ks: Seq<Seq<char>>, k: Seq<char>) -> bool {
    key_slot(ks, k) < ks.len() && ks[key_slot(ks, k)] == k
}

/// `key_slot` is within bounds and splits the keys.
pub proof fn lemma_key_slot(ks: Seq<Seq<char>>, k: Seq<char>)
    requires
        increasing_keys(ks),
    ensures
        0 <= key_slot(ks, k) <= ks.len(),
        forall|i: int| 0 <= i < key_slot(ks, k) ==> text_less(#[trigger] ks[i], k),
        forall|i: int| key_slot(ks, k) <= i < ks.len() ==> !text_less(#[trigger] ks[i], k),
        has_key(ks, k) <==> ks.contains(k),
    decreases ks.len(),
{
    if ks.len() > 0 {
        let rest = ks.drop_first();
        assert(increasing_keys(rest)) by {
            assert forall|i: int, j: int| 0 <= i < j < rest.len() implies text_less(rest[i], rest[j]) by {
                assert(rest[i] == ks[i + 1] && rest[j] == ks[j + 1]);
            }
        }
        lemma_key_slot(rest, k);
        if text_less(ks[0], k) {
            assert forall|i: int| 0 <= i < key_slot(ks, k) implies text_less(#[trigger] ks[i], k) by {
                if i > 0 {
                    assert(ks[i] == rest[i - 1]);
                }
            }
            assert forall|i: int| key_slot(ks, k) <= i < ks.len() implies !text_less(#[trigger] ks[i], k) by {
                assert(ks[i] == rest[i - 1]);
            }
            if ks.contains(k) {
                let i = choose|i: int| 0 <= i < ks.len() && ks[i] == k;
                lemma_text_less_irreflexive(k);
                assert(i > 0);
                assert(rest[i - 1] == k);
            }
            if rest.contains(k) {
                let i = choose|i: int| 0 <= i < rest.len() && rest[i] == k;
                assert(ks[i + 1] == k);
            }
        } else {
            assert forall|i: int| key_slot(ks, k) <= i < ks.len() implies !text_less(#[trigger] ks[i], k) by {
                if i > 0 {
                    lemma_text_less_total(ks[i], k);
                    if text_less(ks[i], k) {
                        lemma_text_less_total(ks[0], k);
                        if ks[0] == k {
                        } else {
                            lemma_text_less_transitive(k, ks[0], ks[i]);
                            lemma_text_less_total(k, ks[i]);
                        }
                        assert(text_less(ks[0], ks[i]));
                        lemma_text_less_total(ks[0], k);
                        if text_less(k, ks[0]) {
                            lemma_text_less_transitive(k, ks[0], ks[i]);
                            lemma_text_less_total(k, ks[i]);
                        } else {
                            assert(ks[0] == k);
                            lemma_text_less_total(k, ks[i]);
                        }
                    }
                }
            }
            if ks.contains(k) {
                let i = choose|i: int| 0 <= i < ks.len() && ks[i] == k;
                if i > 0 {
                    lemma_text_less_total(ks[0], k);
                    assert(text_less(ks[0], ks[i]));
                }
            }
        }
    }
}

/// Inserting a key at its slot keeps the keys increasing.
pub proof fn lemma_insert_at_slot<V>(l: Seq<(Seq<char>, V)>, k: Seq<char>, v: V)
    requires
        increasing_keys(keys_of(l)),
        !keys_of(l).contains(k),
    ensures
        increasing_keys(keys_of(l.insert(key_slot(keys_of(l), k), (k, v)))),
{
    let ks = keys_of(l);
    lemma_key_slot(ks, k);
    let p = key_slot(ks, k);
    let nl = l.insert(p, (k, v));
    let nks = keys_of(nl);
    assert forall|i: int, j: int| 0 <= i < j < nks.len() implies text_less(nks[i], nks[j]) by {
        if j < p {
            assert(nks[i] == ks[i] && nks[j] == ks[j]);
        } else if j == p {
            assert(nks[i] == ks[i] && nks[j] == k);
        } else if i < p {
            assert(nks[i] == ks[i] && nks[j] == ks[j - 1]);
            if i < j - 1 {
            }
            assert(text_less(ks[i], k));
            assert(!text_less(ks[j - 1], k));
            lemma_text_less_total(ks[j - 1], k);
            assert(ks.contains(ks[j - 1]));
            lemma_text_less_transitive(ks[i], k, ks[j - 1]);
        } else if i == p {
            assert(nks[i] == k && nks[j] == ks[j - 1]);
            assert(!text_less(ks[j - 1], k));
            lemma_text_less_total(ks[j - 1], k);
            assert(ks[j - 1] != k) by {
                assert(ks.contains(ks[j - 1]));
            }
        } else {
            assert(nks[i] == ks[i - 1] && nks[j] == ks[j - 1]);
        }
    }
}

/// The keys of stored entries.
pub open spec fn entry_keys<V>(entries: Seq<(Vec<char>, V)>) -> Seq<Seq<char>> {
    entries.map_values(|e: (Vec<char>, V)| e.0@)
}

/// Where `key` is or would be among the keys of `entries`, and whether it
/// is there.
fn find_slot<V>(entries: &Vec<(Vec<char>, V)>, key: &[char]) -> (r: (usize, bool))
    requires
        increasing_keys(entry_keys(entries@)),
    ensures
        r.0 == key_slot(entry_keys(entries@), key@),
        r.1 == has_key(entry_keys(entries@), key@),
{
    let ghost ks = entry_keys(entries@);
    proof {
        lemma_key_slot(ks, key@);
        lemma_text_less_irreflexive(key@);
    }
    let mut k: usize = 0;
    while k < entries.len()
        invariant
            ks == entry_keys(entries@),
            increasing_keys(ks),
            k <= entries@.len(),
            k <= key_slot(ks, key@),
            0 <= key_slot(ks, key@) <= ks.len(),
            forall|i: int| 0 <= i < key_slot(ks, key@) ==> text_less(#[trigger] ks[i], key@),
            forall|i: int| key_slot(ks, key@) <= i < ks.len() ==> !text_less(#[trigger] ks[i], key@),
        decreases entries@.len() - k,
    {
        assert(ks[k as int] == entries@[k as int].0@);
        match compare_text(entries[k].0.as_slice(), key) {
            TextOrder::Before => {
                k = k + 1;
            },
            TextOrder::Same => {
                assert(!text_less(ks[k as int], key@));
                assert(k == key_slot(ks, key@));
                return (k, true);
            },
            TextOrder::After => {
                proof {
                    lemma_text_less_total(ks[k as int], key@);
                }
                assert(!text_less(ks[k as int], key@));
                assert(k == key_slot(ks, key@));
                assert(ks[k as int] != key@);
                return (k, false);
            },
        }
    }
    (k, false)
}

/// The counts of captured values, kept in increasing value order.
pub struct ValueCounts {
    entries: Vec<(Vec<char>, u64)>,
}

/// The listing of a counts table after adding `c` to `k`: an existing count
/// grows (wrapping), a new value is inserted in order when fewer than `cap`
/// values are present, and is dropped otherwise.
pub open spec fn counts_after_add(l: Seq<(Seq<char>, u64)>, k: Seq<char>, c: u64, cap: nat) -> Seq<
    (Seq<char>, u64),
> {
    let p = key_slot(keys_of(l), k);
    if has_key(keys_of(l), k) {
        l.update(p, (k, vstd::wrapping::u64_specs::wrapping_add(l[p].1, c)))
    } else if l.len() < cap {
        l.insert(p, (k, c))
    } else {
        l
    }
}

/// The count of `k` in a listing, if it is there.
pub open spec fn count_of(l: Seq<(Seq<char>, u64)>, k: Seq<char>) -> Option<u64> {
    if has_key(keys_of(l), k) {
        Some(l[key_slot(keys_of(l), k)].1)
    } else {
        None
    }
}

/// Cap law: a table never grows past its cap; a value already counted
/// goes on being counted (its count grows by the added amount, wrapping);
/// a new value is counted only while the table has room, and otherwise
/// nothing changes.
pub proof fn law_counts_capped(l: Seq<(Seq<char>, u64)>, k: Seq<char>, c: u64, cap: nat)
    requires
        increasing_keys(keys_of(l)),
        l.len() <= cap,
    ensures
        counts_after_add(l, k, c, cap).len() <= cap,
        increasing_keys(keys_of(counts_after_add(l, k, c, cap))),
        count_of(l, k) matches Some(old_count) ==> count_of(counts_after_add(l, k, c, cap), k) == Some(
            vstd::wrapping::u64_specs::wrapping_add(old_count, c),
        ),
        (count_of(l, k) is None && l.len() < cap) ==> count_of(counts_after_add(l, k, c, cap), k) == Some(c),
        (count_of(l, k) is None && l.len() == cap) ==> counts_after_add(l, k, c, cap) == l,
{
    let ks = keys_of(l);
    lemma_key_slot(ks, k);
    let p = key_slot(ks, k);
    let after = counts_after_add(l, k, c, cap);
    if has_key(ks, k) {
        assert(keys_of(after) =~= ks);
    } else if l.len() < cap {
        lemma_insert_at_slot(l, k, c);
        let nks = keys_of(after);
        lemma_key_slot(nks, k);
        assert(nks[p] == k);
        lemma_text_less_irreflexive(k);
        let q = key_slot(nks, k);
        if q < p {
            assert(nks[q] == ks[q]);
        } else if q > p {
            assert(text_less(nks[p], k));
        }
    }
}

/// The value stored under key `k` in a listing, if it is there.
pub open spec fn entry_of<V>(l: Seq<(Seq<char>, V)>, k: Seq<char>) -> Option<V> {
    if has_key(keys_of(l), k) {
        Some(l[key_slot(keys_of(l), k)].1)
    } else {
        None
    }
}

/// In a listing with increasing keys, the slot of a key that is there is
/// its position.
pub proof fn lemma_slot_at<V>(l: Seq<(Seq<char>, V)>, q: int)
    requires
        increasing_keys(keys_of(l)),
        0 <= q < l.len(),
    ensures
        key_slot(keys_of(l), l[q].0) == q,
        has_key(keys_of(l), l[q].0),
        entry_of(l, l[q].0) == Some(l[q].1),
{
    let ks = keys_of(l);
    let k = l[q].0;
    assert(ks[q] == k);
    lemma_key_slot(ks, k);
    lemma_text_less_irreflexive(k);
    let s = key_slot(ks, k);
    if s < q {
        assert(text_less(ks[s], ks[q]));
    } else if s > q {
        assert(text_less(ks[q], k));
    }
}

/// Replacing the value stored at a position changes what that key holds
/// and nothing else.
pub proof fn lemma_entry_after_update<V>(l: Seq<(Seq<char>, V)>, p: int, v: V, k: Seq<char>)
    requires
        increasing_keys(keys_of(l)),
        0 <= p < l.len(),
    ensures
        keys_of(l.update(p, (l[p].0, v))) == keys_of(l),
        entry_of(l.update(p, (l[p].0, v)), k) == (if k == l[p].0 {
            Some(v)
        } else {
            entry_of(l, k)
        }),
{
    let nl = l.update(p, (l[p].0, v));
    assert(keys_of(nl) =~= keys_of(l));
    lemma_slot_at(l, p);
    let ks = keys_of(l);
    if has_key(ks, k) {
        lemma_key_slot(ks, k);
    }
}

/// Inserting a new key at its slot stores its value there and changes
/// what no other key holds.
pub proof fn lemma_entry_after_insert<V>(l: Seq<(Seq<char>, V)>, kp: Seq<char>, v: V, k: Seq<char>)
    requires
        increasing_keys(keys_of(l)),
        !keys_of(l).contains(kp),
    ensures
        increasing_keys(keys_of(l.insert(key_slot(keys_of(l), kp), (kp, v)))),
        entry_of(l.insert(key_slot(keys_of(l), kp), (kp, v)), k) == (if k == kp {
            Some(v)
        } else {
            entry_of(l, k)
        }),
{
    let ks = keys_of(l);
    lemma_key_slot(ks, kp);
    let p = key_slot(ks, kp);
    let nl = l.insert(p, (kp, v));
    lemma_insert_at_slot(l, kp, v);
    let nks = keys_of(nl);
    assert(nl[p] == (kp, v));
    lemma_slot_at(nl, p);
    if k != kp {
        lemma_key_slot(ks, k);
        lemma_key_slot(nks, k);
        if has_key(ks, k) {
            let q = key_slot(ks, k);
            assert(l[q].0 == k);
            if q < p {
                assert(nl[q] == l[q]);
                lemma_slot_at(nl, q);
            } else {
                assert(nl[q + 1] == l[q]);
                lemma_slot_at(nl, q + 1);
            }
        } else if has_key(nks, k) {
            let s = key_slot(nks, k);
            assert(nks[s] == k);
            assert(s != p);
            if s < p {
                assert(ks[s] == k);
            } else {
                assert(ks[s - 1] == k);
            }
            assert(ks.contains(k));
        }
    }
}

/// What adding to a counts table does to the count of each value: the
/// added value's count grows (wrapping), or it is put in with the added
/// amount while the table has room; every other count stays.
pub proof fn lemma_counts_after_add_entries(l: Seq<(Seq<char>, u64)>, kp: Seq<char>, c: u64, cap: nat, k: Seq<char>)
    requires
        increasing_keys(keys_of(l)),
    ensures
        increasing_keys(keys_of(counts_after_add(l, kp, c, cap))),
        k != kp ==> count_of(counts_after_add(l, kp, c, cap), k) == count_of(l, k),
        k == kp ==> count_of(counts_after_add(l, kp, c, cap), k) == match count_of(l, k) {
            Some(old_count) => Some(vstd::wrapping::u64_specs::wrapping_add(old_count, c)),
            None => if l.len() < cap {
                Some(c)
            } else {
                None
            },
        },
{
    let ks = keys_of(l);
    lemma_key_slot(ks, kp);
    let p = key_slot(ks, kp);
    if has_key(ks, kp) {
        assert(l[p].0 == kp);
        lemma_entry_after_update(l, p, vstd::wrapping::u64_specs::wrapping_add(l[p].1, c), k);
    } else if l.len() < cap {
        lemma_entry_after_insert(l, kp, c, k);
    }
}

impl ValueCounts {
    /// The (value, count) pairs in increasing value order.
    pub closed spec fn listing(&self) -> Seq<(Seq<char>, u64)> {
        self.entries@.map_values(|e: (Vec<char>, u64)| (e.0@, e.1))
    }

    /// The values come in strictly increasing order.
    pub closed spec fn wf(&self) -> bool {
        increasing_keys(keys_of(self.listing()))
    }

    proof fn lemma_keys(&self)
        ensures
            keys_of(self.listing()) == entry_keys(self.entries@),
    {
        assert(keys_of(self.listing()) =~= entry_keys(self.entries@));
    }

    /// An empty table.
    pub fn new() -> (r: Self)
        ensures
            r.wf(),
            r.listing() == Seq::<(Seq<char>, u64)>::empty(),
    {
        let r = ValueCounts { entries: Vec::new() };
        assert(r.listing() =~= Seq::<(Seq<char>, u64)>::empty());
        r
    }

    /// The number of distinct values.
    pub fn len(&self) -> (r: usize)
        ensures
            r == self.listing().len(),
    {
        self.entries.len()
    }

    /// The count of `value`, if it is present.
    pub fn get(&self, value: &str) -> (r: Option<u64>)
        requires
            self.wf(),
        ensures
            r == (if has_key(keys_of(self.listing()), value@) {
                Some(self.listing()[key_slot(keys_of(self.listing()), value@)].1)
            } else {
                None::<u64>
            }),
    {
        let key = chars_of(value);
        proof {
            self.lemma_keys();
        }
        let (p, found) = find_slot(&self.entries, key.as_slice());
        if found {
            Some(self.entries[p].1)
        } else {
            None
        }
    }

    /// Adds `count` to `value`; a new value is only admitted while fewer
    /// than `cap` values are present.
    pub fn add_capped(&mut self, value: &[char], count: u64, cap: usize)
        requires
            old(self).wf(),
        ensures
            final(self).wf(),
            final(self).listing() == counts_after_add(old(self).listing(), value@, count, cap as nat),
    {
        proof {
            self.lemma_keys();
        }
        let ghost l = self.listing();
        proof {
            lemma_key_slot(keys_of(l), value@);
        }
        let (p, found) = find_slot(&self.entries, value);
        if found {
            let current = self.entries[p].1;
            let key = self.entries[p].0.clone();
            let mut replacement: Vec<char> = Vec::new();
            push_all(&mut replacement, key.as_slice());
            self.entries.set(p, (replacement, current.wrapping_add(count)));
            assert(self.listing() =~= l.update(p as int, (value@, vstd::wrapping::u64_specs::wrapping_add(l[p as int].1, count))));
            assert(keys_of(self.listing()) =~= keys_of(l));
        } else if self.entries.len() < cap {
            let mut key: Vec<char> = Vec::new();
            push_all(&mut key, value);
            self.entries.insert(p, (key, count));
            assert(self.listing() =~= l.insert(p as int, (value@, count)));
            proof {
                lemma_key_slot(keys_of(l), value@);
                lemma_insert_at_slot(l, value@, count);
            }
        }
    }

    /// The (value, count) pairs in increasing value order.
    pub fn pairs(&self) -> (r: Vec<(String, u64)>)
        ensures
            r@.len() == self.listing().len(),
            forall|k: int|
                0 <= k < r@.len() ==> (#[trigger] r@[k]).0@ == self.listing()[k].0 && r@[k].1
                    == self.listing()[k].1,
    {
        let mut out: Vec<(String, u64)> = Vec::new();
        let mut k: usize = 0;
        while k < self.entries.len()
            invariant
                k <= self.entries@.len(),
                out@.len() == k,
                forall|j: int|
                    0 <= j < k ==> (#[trigger] out@[j]).0@ == self.listing()[j].0 && out@[j].1
                        == self.listing()[j].1,
            decreases self.entries@.len() - k,
        {
            out.push((string_from(self.entries[k].0.as_slice()), self.entries[k].1));
            k = k + 1;
        }
        out
    }
}

/// Where group `g` is or would be among the increasing group indices `gs`.
pub open spec fn index_slot(gs: Seq<usize>, g: usize) -> int
    decreases gs.len(),
{
    if gs.len() == 0 {
        0
    } else if gs[0] < g {
        1 + index_slot(gs.drop_first(), g)
    } else {
        0
    }
}

/// Whether the group indices come in strictly increasing order.
pub open spec fn increasing_indices(gs: Seq<usize>) -> bool {
    forall|i: int, j: int| 0 <= i < j < gs.len() ==> gs[i] < gs[j]
}

/// `index_slot` is within bounds and splits the indices.
pub proof fn lemma_index_slot(gs: Seq<usize>, g: usize)
    requires
        increasing_indices(gs),
    ensures
        0 <= index_slot(gs, g) <= gs.len(),
        forall|i: int| 0 <= i < index_slot(gs, g) ==> #[trigger] gs[i] < g,
        forall|i: int| index_slot(gs, g) <= i < gs.len() ==> #[trigger] gs[i] >= g,
    decreases gs.len(),
{
    if gs.len() > 0 {
        let rest = gs.drop_first();
        assert(increasing_indices(rest)) by {
            assert forall|i: int, j: int| 0 <= i < j < rest.len() implies rest[i] < rest[j] by {
                assert(rest[i] == gs[i + 1] && rest[j] == gs[j + 1]);
            }
        }
        lemma_index_slot(rest, g);
        assert forall|i: int| 0 <= i < index_slot(gs, g) implies #[trigger] gs[i] < g by {
            if i > 0 {
                assert(gs[i] == rest[i - 1]);
            }
        }
        assert forall|i: int| index_slot(gs, g) <= i < gs.len() implies #[trigger] gs[i] >= g by {
            if gs[0] < g {
                assert(gs[i] == rest[i - 1]);
            } else if i > 0 {
                assert(gs[0] < gs[i]);
            }
        }
    }
}

/// The group indices of a batch listing.
pub open spec fn indices_of<V>(l: Seq<(usize, V)>) -> Seq<usize> {
    l.map_values(|e: (usize, V)| e.0)
}

/// The listing of a batch after adding `c` to value `k` of group `g`: the
/// group is created when missing, then its counts are updated as
/// `counts_after_add` says.
pub open spec fn batch_after_add(
    l: Seq<(usize, Seq<(Seq<char>, u64)>)>,
    g: usize,
    k: Seq<char>,
    c: u64,
    cap: nat,
) -> Seq<(usize, Seq<(Seq<char>, u64)>)> {
    let gs = indices_of(l);
    let p = index_slot(gs, g);
    if p < gs.len() && gs[p] == g {
        l.update(p, (g, counts_after_add(l[p].1, k, c, cap)))
    } else {
        l.insert(p, (g, counts_after_add(seq![], k, c, cap)))
    }
}

/// The value stored under group index `g` in a listing by group index, if
/// it is there.
pub open spec fn entry_at<V>(l: Seq<(usize, V)>, g: usize) -> Option<V> {
    let p = index_slot(indices_of(l), g);
    if p < l.len() && l[p].0 == g {
        Some(l[p].1)
    } else {
        None
    }
}

/// The count of value `k` in the table of group `g` of a batch listing, if
/// both are there.
pub open spec fn batch_count(l: Seq<(usize, Seq<(Seq<char>, u64)>)>, g: usize, k: Seq<char>) -> Option<u64> {
    match entry_at(l, g) {
        Some(t) => count_of(t, k),
        None => None,
    }
}

/// Group tables in increasing index order, each with values in increasing
/// order.
pub open spec fn batch_wf(l: Seq<(usize, Seq<(Seq<char>, u64)>)>) -> bool {
    &&& increasing_indices(indices_of(l))
    &&& forall|i: int| 0 <= i < l.len() ==> increasing_keys(keys_of(#[trigger] l[i].1))
}

/// In a listing with increasing indices, the slot of an index that is there
/// is its position.
pub proof fn lemma_index_at<V>(l: Seq<(usize, V)>, q: int)
    requires
        increasing_indices(indices_of(l)),
        0 <= q < l.len(),
    ensures
        index_slot(indices_of(l), l[q].0) == q,
        entry_at(l, l[q].0) == Some(l[q].1),
{
    let gs = indices_of(l);
    let g = l[q].0;
    assert(gs[q] == g);
    lemma_index_slot(gs, g);
    let s = index_slot(gs, g);
    if s < q {
        assert(gs[s] < gs[q]);
    } else if s > q {
        assert(gs[q] < g);
    }
}

/// Inserting group `gp`, missing from `l`, at its slot keeps the indices
/// increasing, stores its value there and changes no other group's value.
pub proof fn lemma_entry_at_after_insert<V>(l: Seq<(usize, V)>, gp: usize, v: V, h: usize)
    requires
        increasing_indices(indices_of(l)),
        entry_at(l, gp) is None,
    ensures
        increasing_indices(indices_of(l.insert(index_slot(indices_of(l), gp), (gp, v)))),
        entry_at(l.insert(index_slot(indices_of(l), gp), (gp, v)), h) == (if h == gp {
            Some(v)
        } else {
            entry_at(l, h)
        }),
{
    let gs = indices_of(l);
    lemma_index_slot(gs, gp);
    let p = index_slot(gs, gp);
    let nl = l.insert(p, (gp, v));
    let ngs = indices_of(nl);
    assert(p < gs.len() ==> gs[p] != gp);
    assert(increasing_indices(ngs)) by {
        assert forall|i: int, j: int| 0 <= i < j < ngs.len() implies ngs[i] < ngs[j] by {
            if j < p {
                assert(ngs[i] == gs[i] && ngs[j] == gs[j]);
            } else if j == p {
                assert(ngs[i] == gs[i]);
            } else if i < p {
                assert(ngs[i] == gs[i] && ngs[j] == gs[j - 1]);
                if j - 1 > p {
                    assert(gs[p] < gs[j - 1]);
                }
            } else if i == p {
                assert(ngs[j] == gs[j - 1]);
                if j - 1 > p {
                    assert(gs[p] < gs[j - 1]);
                }
            } else {
                assert(ngs[i] == gs[i - 1] && ngs[j] == gs[j - 1]);
            }
        }
    }
    assert(nl[p] == (gp, v));
    lemma_index_at(nl, p);
    if h != gp {
        lemma_index_slot(gs, h);
        let q = index_slot(gs, h);
        if q < l.len() && l[q].0 == h {
            if q < p {
                assert(nl[q] == l[q]);
                lemma_index_at(nl, q);
            } else {
                assert(nl[q + 1] == l[q]);
                lemma_index_at(nl, q + 1);
            }
        } else {
            lemma_index_slot(ngs, h);
            let s = index_slot(ngs, h);
            if s < nl.len() && nl[s].0 == h {
                assert(s != p);
                if s < p {
                    assert(nl[s] == l[s]);
                    lemma_index_at(l, s);
                } else {
                    assert(nl[s] == l[s - 1]);
                    lemma_index_at(l, s - 1);
                }
            }
        }
    }
}

/// What adding `c` to value `kp` of group `gp` of a batch does to each
/// count: that count grows (wrapping), or is put in with `c` while its table
/// has room (a missing group has room); every other count, and every other
/// group's table, stays.
pub proof fn lemma_batch_after_add(
    l: Seq<(usize, Seq<(Seq<char>, u64)>)>,
    gp: usize,
    kp: Seq<char>,
    c: u64,
    cap: nat,
    k: Seq<char>,
)
    requires
        batch_wf(l),
        cap > 0,
    ensures
        batch_wf(batch_after_add(l, gp, kp, c, cap)),
        forall|h: usize| h != gp ==> #[trigger] entry_at(batch_after_add(l, gp, kp, c, cap), h) == entry_at(l, h),
        k != kp ==> batch_count(batch_after_add(l, gp, kp, c, cap), gp, k) == batch_count(l, gp, k),
        batch_count(batch_after_add(l, gp, kp, c, cap), gp, kp) == match batch_count(l, gp, kp) {
            Some(old_count) => Some(vstd::wrapping::u64_specs::wrapping_add(old_count, c)),
            None => match entry_at(l, gp) {
                Some(t) => if t.len() < cap {
                    Some(c)
                } else {
                    None
                },
                None => Some(c),
            },
        },
{
    let gs = indices_of(l);
    lemma_index_slot(gs, gp);
    let p = index_slot(gs, gp);
    let after = batch_after_add(l, gp, kp, c, cap);
    if p < gs.len() && gs[p] == gp {
        let t = l[p].1;
        let nt = counts_after_add(t, kp, c, cap);
        lemma_counts_after_add_entries(t, kp, c, cap, k);
        lemma_counts_after_add_entries(t, kp, c, cap, kp);
        assert(after == l.update(p, (gp, nt)));
        assert(indices_of(after) =~= gs);
        assert(after[p] == (gp, nt));
        lemma_index_at(after, p);
        assert forall|h: usize| h != gp implies #[trigger] entry_at(after, h) == entry_at(l, h) by {
            lemma_index_slot(gs, h);
            let q = index_slot(gs, h);
            if q < l.len() && q != p {
                assert(after[q] == l[q]);
            }
        }
        assert forall|i: int| 0 <= i < after.len() implies increasing_keys(keys_of(#[trigger] after[i].1)) by {
            if i != p {
                assert(after[i] == l[i]);
            }
        }
    } else {
        let e = Seq::<(Seq<char>, u64)>::empty();
        let nt = counts_after_add(e, kp, c, cap);
        assert(increasing_keys(keys_of(e)));
        lemma_counts_after_add_entries(e, kp, c, cap, k);
        lemma_counts_after_add_entries(e, kp, c, cap, kp);
        assert(count_of(e, k) is None);
        assert(count_of(e, kp) is None);
        assert(entry_at(l, gp) is None);
        lemma_entry_at_after_insert(l, gp, nt, gp);
        assert forall|h: usize| h != gp implies #[trigger] entry_at(after, h) == entry_at(l, h) by {
            lemma_entry_at_after_insert(l, gp, nt, h);
        }
        assert forall|i: int| 0 <= i < after.len() implies increasing_keys(keys_of(#[trigger] after[i].1)) by {
            if i < p {
                assert(after[i] == l[i]);
            } else if i > p {
                assert(after[i] == l[i - 1]);
            }
        }
    }
}

/// Captured-value counts of one scanned chunk, per capture group index, in
/// increasing group order.
pub struct FrequencyBatch {
    groups: Vec<(usize, ValueCounts)>,
}

impl FrequencyBatch {
    /// Each group's index with the listing of its counts.
    pub closed spec fn listing(&self) -> Seq<(usize, Seq<(Seq<char>, u64)>)> {
        self.groups@.map_values(|e: (usize, ValueCounts)| (e.0, e.1.listing()))
    }

    /// Groups come in increasing index order and each table is well formed.
    pub closed spec fn wf(&self) -> bool {
        &&& increasing_indices(indices_of(self.listing()))
        &&& forall|i: int| 0 <= i < self.groups@.len() ==> (#[trigger] self.groups@[i]).1.wf()
    }

    /// The listing of a well-formed batch is in order, as the counting law
    /// asks (`law_named_group_counts_its_capture`).
    pub proof fn lemma_listing_in_order(&self)
        requires
            self.wf(),
        ensures
            batch_wf(self.listing()),
    {
        assert forall|i: int| 0 <= i < self.listing().len() implies increasing_keys(
            keys_of(#[trigger] self.listing()[i].1),
        ) by {
            assert(self.groups@[i].1.wf());
        }
    }

    /// An empty batch.
    pub fn new() -> (r: Self)
        ensures
            r.wf(),
            r.listing() == Seq::<(usize, Seq<(Seq<char>, u64)>)>::empty(),
    {
        let r = FrequencyBatch { groups: Vec::new() };
        assert(r.listing() =~= Seq::<(usize, Seq<(Seq<char>, u64)>)>::empty());
        r
    }

    /// The number of groups with counts.
    pub fn len(&self) -> (r: usize)
        ensures
            r == self.listing().len(),
    {
        self.groups.len()
    }

    /// Where group `g` is or would be, and whether it is there.
    fn slot(&self, g: usize) -> (r: (usize, bool))
        requires
            self.wf(),
        ensures
            r.0 == index_slot(indices_of(self.listing()), g),
            r.1 == (r.0 < self.listing().len() && self.listing()[r.0 as int].0 == g),
    {
        let ghost gs = indices_of(self.listing());
        proof {
            lemma_index_slot(gs, g);
        }
        let mut k: usize = 0;
        while k < self.groups.len() && self.groups[k].0 < g
            invariant
                gs == indices_of(self.listing()),
                k <= self.groups@.len(),
                k <= index_slot(gs, g),
                forall|i: int| index_slot(gs, g) <= i < gs.len() ==> #[trigger] gs[i] >= g,
            decreases self.groups@.len() - k,
        {
            assert(gs[k as int] == self.groups@[k as int].0);
            k = k + 1;
        }
        if k < self.groups.len() {
            assert(gs[k as int] == self.groups@[k as int].0);
        }
        let found = k < self.groups.len() && self.groups[k].0 == g;
        (k, found)
    }

    /// The counts of group `group_idx`, if it has any.
    pub fn get(&self, group_idx: usize) -> (r: Option<&ValueCounts>)
        requires
            self.wf(),
        ensures
            match r {
                Some(v) => {
                    let p = index_slot(indices_of(self.listing()), group_idx);
                    &&& p < self.listing().len()
                    &&& self.listing()[p].0 == group_idx
                    &&& v.listing() == self.listing()[p].1
                    &&& v.wf()
                },
                None => !indices_of(self.listing()).contains(group_idx),
            },
    {
        let (p, found) = self.slot(group_idx);
        if found {
            Some(&self.groups[p].1)
        } else {
            proof {
                let gs = indices_of(self.listing());
                lemma_index_slot(gs, group_idx);
                if gs.contains(group_idx) {
                    let i = choose|i: int| 0 <= i < gs.len() && gs[i] == group_idx;
                    if i < p {
                        assert(gs[i] < group_idx);
                    } else if i > p {
                        assert(gs[p as int] < gs[i]);
                        assert(gs[p as int] >= group_idx);
                    }
                }
            }
            None
        }
    }

    /// Adds `count` to `value` in group `group_idx`, creating the group when
    /// it is missing; a new value is only admitted while the group has fewer
    /// than `cap` values.
    pub fn add_capped(&mut self, group_idx: usize, value: &[char], count: u64, cap: usize)
        requires
            old(self).wf(),
        ensures
            final(self).wf(),
            final(self).listing() == batch_after_add(old(self).listing(), group_idx, value@, count, cap as nat),
    {
        let ghost l = self.listing();
        proof {
            lemma_index_slot(indices_of(l), group_idx);
        }
        let (p, found) = self.slot(group_idx);
        if found {
            let (g, mut counts) = self.groups.remove(p);
            assert(counts.wf()) by {
                assert(old(self).groups@[p as int].1 == counts);
            }
            counts.add_capped(value, count, cap);
            self.groups.insert(p, (g, counts));
            assert(self.listing() =~= l.update(p as int, (group_idx, counts_after_add(l[p as int].1, value@, count, cap as nat))));
            assert(indices_of(self.listing()) =~= indices_of(l));
            assert forall|i: int| 0 <= i < self.groups@.len() implies (#[trigger] self.groups@[i]).1.wf() by {
                if i != p {
                    assert(self.groups@[i] == old(self).groups@[i]);
                }
            }
        } else {
            let mut counts = ValueCounts::new();
            counts.add_capped(value, count, cap);
            self.groups.insert(p, (group_idx, counts));
            assert(self.listing() =~= l.insert(p as int, (group_idx, counts_after_add(seq![], value@, count, cap as nat))));
            assert(increasing_indices(indices_of(self.listing()))) by {
                let gs = indices_of(l);
                let ngs = indices_of(self.listing());
                assert forall|i: int, j: int| 0 <= i < j < ngs.len() implies ngs[i] < ngs[j] by {
                    if j < p {
                        assert(ngs[i] == gs[i] && ngs[j] == gs[j]);
                    } else if j == p {
                        assert(ngs[i] == gs[i]);
                    } else if i < p {
                        assert(ngs[i] == gs[i] && ngs[j] == gs[j - 1]);
                        assert(gs[j - 1] >= group_idx);
                        assert(gs[j - 1] != group_idx) by {
                            if p < gs.len() {
                                assert(gs[p as int] != group_idx);
                                if j - 1 > p {
                                    assert(gs[p as int] < gs[j - 1]);
                                }
                            }
                        }
                    } else if i == p {
                        assert(ngs[j] == gs[j - 1]);
                        assert(gs[j - 1] >= group_idx);
                        assert(gs[j - 1] != group_idx) by {
                            assert(gs[p as int] != group_idx);
                            if j - 1 > p {
                                assert(gs[p as int] < gs[j - 1]);
                            }
                        }
                    } else {
                        assert(ngs[i] == gs[i - 1] && ngs[j] == gs[j - 1]);
                    }
                }
            }
            assert forall|i: int| 0 <= i < self.groups@.len() implies (#[trigger] self.groups@[i]).1.wf() by {
                if i < p {
                    assert(self.groups@[i] == old(self).groups@[i]);
                } else if i > p {
                    assert(self.groups@[i] == old(self).groups@[i - 1]);
                }
            }
        }
    }

    /// Empties the batch, handing back what it held.
    pub fn take(&mut self) -> (r: FrequencyBatch)
        requires
            old(self).wf(),
        ensures
            r.wf(),
            r.listing() == old(self).listing(),
            final(self).wf(),
            final(self).listing() == Seq::<(usize, Seq<(Seq<char>, u64)>)>::empty(),
    {
        let mut empty = FrequencyBatch::new();
        std::mem::swap(self, &mut empty);
        empty
    }

    /// The groups with their counts, in increasing group order.
    pub fn groups(&self) -> (r: &Vec<(usize, ValueCounts)>)
        ensures
            r@.len() == self.listing().len(),
            forall|i: int|
                0 <= i < r@.len() ==> (#[trigger] r@[i]).0 == self.listing()[i].0 && r@[i].1.listing()
                    == self.listing()[i].1,
            self.wf() ==> forall|i: int| 0 <= i < r@.len() ==> (#[trigger] r@[i]).1.wf(),
    {
        &self.groups
    }
}

/// The listing of the group tables after adding `c` to value `k` of the
/// group named `g`: the group is created when missing, then its counts are
/// updated as `counts_after_add` says.
pub open spec fn groups_after_add(
    l: Seq<(Seq<char>, Seq<(Seq<char>, u64)>)>,
    g: Seq<char>,
    k: Seq<char>,
    c: u64,
    cap: nat,
) -> Seq<(Seq<char>, Seq<(Seq<char>, u64)>)> {
    let p = key_slot(keys_of(l), g);
    if has_key(keys_of(l), g) {
        l.update(p, (g, counts_after_add(l[p].1, k, c, cap)))
    } else {
        l.insert(p, (g, counts_after_add(seq![], k, c, cap)))
    }
}

/// The count of value `k` in the table of the group named `g`, if both are
/// there.
pub open spec fn group_count(l: Seq<(Seq<char>, Seq<(Seq<char>, u64)>)>, g: Seq<char>, k: Seq<char>) -> Option<u64> {
    match entry_of(l, g) {
        Some(t) => count_of(t, k),
        None => None,
    }
}

/// Group tables in increasing name order, each with values in increasing
/// order.
pub open spec fn groups_wf(l: Seq<(Seq<char>, Seq<(Seq<char>, u64)>)>) -> bool {
    &&& increasing_keys(keys_of(l))
    &&& forall|i: int| 0 <= i < l.len() ==> increasing_keys(keys_of(#[trigger] l[i].1))
}

/// What adding `c` to value `kp` of group `gp` does to each count: that
/// count grows (wrapping), or is put in with `c` while its table has room
/// (a missing group has room); every other count stays.
pub proof fn lemma_groups_after_add(
    l: Seq<(Seq<char>, Seq<(Seq<char>, u64)>)>,
    gp: Seq<char>,
    kp: Seq<char>,
    c: u64,
    cap: nat,
    g: Seq<char>,
    k: Seq<char>,
)
    requires
        groups_wf(l),
        cap > 0,
    ensures
        groups_wf(groups_after_add(l, gp, kp, c, cap)),
        !(g == gp && k == kp) ==> group_count(groups_after_add(l, gp, kp, c, cap), g, k) == group_count(l, g, k),
        (g == gp && k == kp) ==> group_count(groups_after_add(l, gp, kp, c, cap), g, k) == match group_count(l, g, k) {
            Some(old_count) => Some(vstd::wrapping::u64_specs::wrapping_add(old_count, c)),
            None => match entry_of(l, g) {
                Some(t) => if t.len() < cap {
                    Some(c)
                } else {
                    None
                },
                None => Some(c),
            },
        },
{
    let ks = keys_of(l);
    lemma_key_slot(ks, gp);
    let p = key_slot(ks, gp);
    let after = groups_after_add(l, gp, kp, c, cap);
    if has_key(ks, gp) {
        assert(l[p].0 == gp);
        let t = l[p].1;
        let nt = counts_after_add(t, kp, c, cap);
        lemma_counts_after_add_entries(t, kp, c, cap, k);
        lemma_entry_after_update(l, p, nt, g);
        assert(after == l.update(p, (l[p].0, nt)));
        assert forall|i: int| 0 <= i < after.len() implies increasing_keys(keys_of(#[trigger] after[i].1)) by {
            if i != p {
                assert(after[i] == l[i]);
            }
        }
    } else {
        let e = Seq::<(Seq<char>, u64)>::empty();
        let nt = counts_after_add(e, kp, c, cap);
        assert(increasing_keys(keys_of(e)));
        lemma_counts_after_add_entries(e, kp, c, cap, k);
        assert(count_of(e, k) is None);
        assert(!ks.contains(gp));
        lemma_entry_after_insert(l, gp, nt, g);
        assert forall|i: int| 0 <= i < after.len() implies increasing_keys(keys_of(#[trigger] after[i].1)) by {
            if i < p {
                assert(after[i] == l[i]);
            } else if i > p {
                assert(after[i] == l[i - 1]);
            }
        }
    }
}

/// The total of a table's counts, wrapping around as `u64` addition does.
pub open spec fn counts_total(l: Seq<(Seq<char>, u64)>) -> u64
    decreases l.len(),
{
    if l.len() == 0 {
        0
    } else {
        vstd::wrapping::u64_specs::wrapping_add(counts_total(l.drop_last()), l.last().1)
    }
}

/// The position of the group with the largest total among the first `n`
/// groups, the last one on a tie.
pub open spec fn busiest_group(l: Seq<(Seq<char>, Seq<(Seq<char>, u64)>)>, n: int) -> int
    decreases n,
{
    if n <= 1 {
        0
    } else {
        let b = busiest_group(l, n - 1);
        if counts_total(l[n - 1].1) >= counts_total(l[b].1) {
            n - 1
        } else {
            b
        }
    }
}

/// Busiest group law: among the first `n` groups, the one chosen has the
/// largest total of counts, and every group after it has a smaller total
/// (the last of the largest is chosen).
pub proof fn law_busiest_group_has_largest_total(l: Seq<(Seq<char>, Seq<(Seq<char>, u64)>)>, n: int)
    requires
        1 <= n <= l.len(),
    ensures
        0 <= busiest_group(l, n) < n,
        forall|h: int| 0 <= h < n ==> counts_total(#[trigger] l[h].1) <= counts_total(l[busiest_group(l, n)].1),
        forall|h: int| busiest_group(l, n) < h < n ==> counts_total(#[trigger] l[h].1) < counts_total(
            l[busiest_group(l, n)].1,
        ),
    decreases n,
{
    if n > 1 {
        law_busiest_group_has_largest_total(l, n - 1);
    }
}

/// Whether bar `a` is listed before bar `b`: a larger count first, then
/// the smaller value.
pub open spec fn bar_before(a: (Seq<char>, u64), b: (Seq<char>, u64)) -> bool {
    a.1 > b.1 || (a.1 == b.1 && text_less(a.0, b.0))
}

/// Whether `bars` lists the entries of `l` in bar order.
pub open spec fn ranked(bars: Seq<(Seq<char>, u64)>, l: Seq<(Seq<char>, u64)>) -> bool {
    &&& bars.len() == l.len()
    &&& bars.to_set() == l.to_set()
    &&& forall|i: int, j: int| 0 <= i < j < bars.len() ==> bar_before(bars[i], bars[j])
}

/// Values of group tables, kept in increasing group name order.
pub struct GroupFrequencies {
    groups: Vec<(Vec<char>, ValueCounts)>,
}

impl GroupFrequencies {
    /// Each group's name with the listing of its counts.
    pub closed spec fn listing(&self) -> Seq<(Seq<char>, Seq<(Seq<char>, u64)>)> {
        self.groups@.map_values(|e: (Vec<char>, ValueCounts)| (e.0@, e.1.listing()))
    }

    /// Groups come in increasing name order and each table is well formed.
    pub closed spec fn wf(&self) -> bool {
        &&& increasing_keys(keys_of(self.listing()))
        &&& forall|i: int| 0 <= i < self.groups@.len() ==> (#[trigger] self.groups@[i]).1.wf()
    }

    proof fn lemma_keys(&self)
        ensures
            keys_of(self.listing()) == entry_keys(self.groups@),
    {
        assert(keys_of(self.listing()) =~= entry_keys(self.groups@));
    }

    /// The listing of well-formed group tables is in order.
    pub proof fn lemma_listing_in_order(&self)
        requires
            self.wf(),
        ensures
            groups_wf(self.listing()),
    {
        assert forall|i: int| 0 <= i < self.listing().len() implies increasing_keys(
            keys_of(#[trigger] self.listing()[i].1),
        ) by {
            assert(self.groups@[i].1.wf());
        }
    }

    /// No groups.
    pub fn new() -> (r: Self)
        ensures
            r.wf(),
            r.listing() == Seq::<(Seq<char>, Seq<(Seq<char>, u64)>)>::empty(),
    {
        let r = GroupFrequencies { groups: Vec::new() };
        assert(r.listing() =~= Seq::<(Seq<char>, Seq<(Seq<char>, u64)>)>::empty());
        r
    }

    /// The number of groups.
    pub fn len(&self) -> (r: usize)
        ensures
            r == self.listing().len(),
    {
        self.groups.len()
    }

    /// Adds `count` to `value` in the group named `group`, creating the
    /// group when it is missing; a new value is only admitted while the
    /// group has fewer than `cap` values.
    pub fn add_capped(&mut self, group: &[char], value: &[char], count: u64, cap: usize)
        requires
            old(self).wf(),
        ensures
            final(self).wf(),
            final(self).listing() == groups_after_add(old(self).listing(), group@, value@, count, cap as nat),
    {
        let ghost l = self.listing();
        proof {
            self.lemma_keys();
            lemma_key_slot(keys_of(l), group@);
        }
        let (p, found) = find_slot(&self.groups, group);
        if found {
            let (name, mut counts) = self.groups.remove(p);
            assert(counts.wf()) by {
                assert(old(self).groups@[p as int].1 == counts);
            }
            counts.add_capped(value, count, cap);
            self.groups.insert(p, (name, counts));
            assert(self.listing() =~= l.update(p as int, (group@, counts_after_add(l[p as int].1, value@, count, cap as nat))));
            assert(keys_of(self.listing()) =~= keys_of(l));
            assert forall|i: int| 0 <= i < self.groups@.len() implies (#[trigger] self.groups@[i]).1.wf() by {
                if i != p {
                    assert(self.groups@[i] == old(self).groups@[i]);
                }
            }
        } else {
            let mut counts = ValueCounts::new();
            counts.add_capped(value, count, cap);
            let mut name: Vec<char> = Vec::new();
            push_all(&mut name, group);
            self.groups.insert(p, (name, counts));
            let ghost entry = (group@, counts_after_add(seq![], value@, count, cap as nat));
            assert(self.listing() =~= l.insert(p as int, entry));
            proof {
                lemma_insert_at_slot(l, group@, entry.1);
            }
            assert forall|i: int| 0 <= i < self.groups@.len() implies (#[trigger] self.groups@[i]).1.wf() by {
                if i < p {
                    assert(self.groups@[i] == old(self).groups@[i]);
                } else if i > p {
                    assert(self.groups@[i] == old(self).groups@[i - 1]);
                }
            }
        }
    }
}

/// Bar order is transitive.
proof fn lemma_bar_transitive(a: (Seq<char>, u64), b: (Seq<char>, u64), c: (Seq<char>, u64))
    requires
        bar_before(a, b),
        bar_before(b, c),
    ensures
        bar_before(a, c),
{
    if a.1 == b.1 && b.1 == c.1 {
        lemma_text_less_transitive(a.0, b.0, c.0);
    }
}

/// Bars with different values are ordered one way or the other, never both.
proof fn lemma_bar_total(a: (Seq<char>, u64), b: (Seq<char>, u64))
    ensures
        a.0 != b.0 ==> bar_before(a, b) || bar_before(b, a),
        !(bar_before(a, b) && bar_before(b, a)),
        !bar_before(a, a),
{
    lemma_text_less_total(a.0, b.0);
    lemma_text_less_irreflexive(a.0);
}

/// Whether `a` is listed before `b` in bar order.
fn bar_first(a: &(Vec<char>, u64), b: &(Vec<char>, u64)) -> (r: bool)
    ensures
        r == bar_before((a.0@, a.1), (b.0@, b.1)),
{
    if a.1 > b.1 {
        true
    } else if a.1 == b.1 {
        match compare_text(a.0.as_slice(), b.0.as_slice()) {
            TextOrder::Before => true,
            _ => false,
        }
    } else {
        false
    }
}

/// The plain view of stored (value, count) entries.
pub open spec fn entries_view(v: Seq<(Vec<char>, u64)>) -> Seq<(Seq<char>, u64)> {
    v.map_values(|e: (Vec<char>, u64)| (e.0@, e.1))
}

/// The plain view of (value, count) bars.
pub open spec fn bars_view(v: Seq<(String, u64)>) -> Seq<(Seq<char>, u64)> {
    v.map_values(|e: (String, u64)| (e.0@, e.1))
}

impl ValueCounts {
    /// The total of the counts (wrapping).
    pub fn total(&self) -> (r: u64)
        ensures
            r == counts_total(self.listing()),
    {
        let mut t: u64 = 0;
        let mut k: usize = 0;
        while k < self.entries.len()
            invariant
                k <= self.entries@.len(),
                t == counts_total(self.listing().take(k as int)),
            decreases self.entries@.len() - k,
        {
            assert(self.listing().take(k + 1).drop_last() =~= self.listing().take(k as int));
            t = t.wrapping_add(self.entries[k].1);
            k = k + 1;
        }
        assert(self.listing().take(k as int) =~= self.listing());
        t
    }

    /// The (value, count) entries in bar order: larger counts first, then
    /// smaller values.
    fn ranked_entries(&self) -> (r: Vec<(Vec<char>, u64)>)
        requires
            self.wf(),
        ensures
            ranked(entries_view(r@), self.listing()),
    {
        let ghost l = self.listing();
        let mut sorted: Vec<(Vec<char>, u64)> = Vec::new();
        let mut k: usize = 0;
        assert(entries_view(sorted@).to_set() =~= l.take(0).to_set());
        while k < self.entries.len()
            invariant
                l == self.listing(),
                increasing_keys(keys_of(l)),
                k <= self.entries@.len(),
                entries_view(sorted@).len() == k,
                entries_view(sorted@).to_set() == l.take(k as int).to_set(),
                forall|i: int, j: int|
                    0 <= i < j < sorted@.len() ==> bar_before(
                        entries_view(sorted@)[i],
                        entries_view(sorted@)[j],
                    ),
            decreases self.entries@.len() - k,
        {
            let ghost sv = entries_view(sorted@);
            let e = &self.entries[k];
            let ghost ev = (e.0@, e.1);
            assert(ev == l[k as int]);
            // every value placed so far differs from the new one
            assert forall|i: int| 0 <= i < sv.len() implies (#[trigger] sv[i]).0 != ev.0 by {
                assert(sv.to_set().contains(sv[i]));
                assert(l.take(k as int).contains(sv[i]));
                let lt = l.take(k as int);
                let j = choose|j: int| 0 <= j < lt.len() && lt[j] == sv[i];
                assert(keys_of(l)[j] == sv[i].0);
                assert(keys_of(l)[k as int] == ev.0);
                assert(text_less(keys_of(l)[j], keys_of(l)[k as int]));
                lemma_text_less_irreflexive(ev.0);
            }
            let mut p: usize = 0;
            while p < sorted.len() && !bar_first(e, &sorted[p])
                invariant
                    sv == entries_view(sorted@),
                    ev == (e.0@, e.1),
                    p <= sorted@.len(),
                    forall|i: int| 0 <= i < p ==> !bar_before(ev, #[trigger] sv[i]),
                decreases sorted@.len() - p,
            {
                assert(sv[p as int] == (sorted@[p as int].0@, sorted@[p as int].1));
                p = p + 1;
            }
            if p < sorted.len() {
                assert(sv[p as int] == (sorted@[p as int].0@, sorted@[p as int].1));
            }
            let mut copy: Vec<char> = Vec::new();
            push_all(&mut copy, e.0.as_slice());
            sorted.insert(p, (copy, e.1));
            let ghost nv = entries_view(sorted@);
            assert(nv =~= sv.insert(p as int, ev));
            assert forall|i: int, j: int| 0 <= i < j < nv.len() implies bar_before(nv[i], nv[j]) by {
                if j < p {
                    assert(nv[i] == sv[i] && nv[j] == sv[j]);
                } else if j == p {
                    assert(nv[i] == sv[i]);
                    lemma_bar_total(ev, sv[i]);
                } else if i < p {
                    assert(nv[i] == sv[i] && nv[j] == sv[j - 1]);
                } else if i == p {
                    assert(nv[j] == sv[j - 1]);
                    if j - 1 == p {
                        assert(bar_before(ev, sv[p as int]));
                    } else {
                        assert(bar_before(ev, sv[p as int]));
                        lemma_bar_transitive(ev, sv[p as int], sv[j - 1]);
                    }
                } else {
                    assert(nv[i] == sv[i - 1] && nv[j] == sv[j - 1]);
                }
            }
            assert(nv.to_set() =~= l.take(k + 1).to_set()) by {
                assert(l.take(k + 1) =~= l.take(k as int).push(ev));
                assert forall|x: (Seq<char>, u64)| nv.contains(x) <==> l.take(k + 1).contains(x) by {
                    if nv.contains(x) {
                        let i = choose|i: int| 0 <= i < nv.len() && nv[i] == x;
                        if i < p {
                            assert(sv.contains(x) && sv.to_set().contains(x));
                            let lt = l.take(k as int);
                            let j = choose|j: int| 0 <= j < lt.len() && lt[j] == x;
                            assert(l.take(k + 1)[j] == x);
                        } else if i > p {
                            assert(sv[i - 1] == x);
                            assert(sv.to_set().contains(x));
                            let lt = l.take(k as int);
                            let j = choose|j: int| 0 <= j < lt.len() && lt[j] == x;
                            assert(l.take(k + 1)[j] == x);
                        } else {
                            assert(l.take(k + 1)[k as int] == x);
                        }
                    }
                    if l.take(k + 1).contains(x) {
                        let lk = l.take(k + 1);
                        let j = choose|j: int| 0 <= j < lk.len() && lk[j] == x;
                        if j < k {
                            assert(l.take(k as int)[j] == x);
                            assert(sv.to_set().contains(x));
                            let i = choose|i: int| 0 <= i < sv.len() && sv[i] == x;
                            if i < p {
                                assert(nv[i] == x);
                            } else {
                                assert(nv[i + 1] == x);
                            }
                        } else {
                            assert(nv[p as int] == x);
                        }
                    }
                }
            }
            k = k + 1;
        }
        assert(l.take(k as int) =~= l);
        sorted
    }
}

/// The first `n` of `bars` (all of them when there are fewer).
pub open spec fn first_bars(bars: Seq<(Seq<char>, u64)>, n: nat) -> Seq<(Seq<char>, u64)> {
    if bars.len() <= n {
        bars
    } else {
        bars.take(n as int)
    }
}

impl GroupFrequencies {
    /// The group with the largest total (the last such group in name order)
    /// and at most `limit` of its values in bar order; `None` when there are
    /// no groups.
    pub fn top_bars(&self, limit: usize) -> (r: Option<(String, Vec<(String, u64)>)>)
        requires
            self.wf(),
        ensures
            match r {
                None => self.listing().len() == 0,
                Some((name, bars)) => {
                    let l = self.listing();
                    let b = busiest_group(l, l.len() as int);
                    &&& l.len() > 0
                    &&& name@ == l[b].0
                    &&& forall|h: int| 0 <= h < l.len() ==> counts_total(#[trigger] l[h].1) <= counts_total(l[b].1)
                    &&& exists|all: Seq<(Seq<char>, u64)>|
                        ranked(all, l[b].1) && bars_view(bars@) == first_bars(all, limit as nat)
                },
            },
    {
        let ghost l = self.listing();
        if self.groups.len() == 0 {
            return None;
        }
        let mut best: usize = 0;
        let mut best_total = self.groups[0].1.total();
        let mut i: usize = 1;
        while i < self.groups.len()
            invariant
                l == self.listing(),
                1 <= i <= self.groups@.len(),
                best < i,
                best == busiest_group(l, i as int),
                best_total == counts_total(l[best as int].1),
            decreases self.groups@.len() - i,
        {
            let t = self.groups[i].1.total();
            assert(l[i as int].1 == self.groups@[i as int].1.listing());
            if t >= best_total {
                best = i;
                best_total = t;
            }
            i = i + 1;
        }
        proof {
            law_busiest_group_has_largest_total(l, l.len() as int);
        }
        let group = &self.groups[best];
        assert(group.1.wf());
        let ranked_all = group.1.ranked_entries();
        let mut bars: Vec<(String, u64)> = Vec::new();
        let mut k: usize = 0;
        while k < ranked_all.len() && k < limit
            invariant
                k <= ranked_all@.len(),
                k <= limit,
                bars_view(bars@) == entries_view(ranked_all@).take(k as int),
            decreases ranked_all@.len() - k,
        {
            let ghost before = bars@;
            let bar = (string_from(ranked_all[k].0.as_slice()), ranked_all[k].1);
            bars.push(bar);
            assert(bars@ == before.push(bar));
            assert(bars_view(bars@) =~= bars_view(before).push((bar.0@, bar.1)));
            assert(entries_view(ranked_all@).take(k + 1) =~= entries_view(ranked_all@).take(k as int).push(entries_view(ranked_all@)[k as int]));
            k = k + 1;
        }
        let ghost all = entries_view(ranked_all@);
        assert(bars_view(bars@) == first_bars(all, limit as nat)) by {
            if all.len() <= limit {
                assert(all.take(k as int) =~= all);
            }
        }
        Some((string_from(group.0.as_slice()), bars))
    }
}

} // verus!
