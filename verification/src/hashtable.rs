//! Fixed-capacity open-addressed hash table with a linear probe of stride 3.
//!
//! The slot for a key is found by hashing the key with SHA-256, taking the
//! last 28 bits of the digest (the value of the last seven hex digits of its
//! hex encoding), reducing modulo the capacity, and stepping by 3 on each
//! collision. Values are combined on insert: inserting under a key that is
//! already present merges the new value into the stored one.

use vstd::prelude::*;
use vstd::arithmetic::div_mod::*;
use vstd::arithmetic::mul::lemma_mul_is_associative;
use sha2::Digest;

verus! {

/// The SHA-256 digest of the UTF-8 bytes of a string, a pure function of the
/// string alone.
pub uninterp spec fn sha_digest_of(key: Seq<char>) -> Seq<u8>;

/// Relies on sha2::Sha256 (via the Digest trait): the digest is 32 bytes and
/// depends only on the hashed bytes.
#[verifier::external_body]
fn sha256_digest(key: &str) -> (r: Vec<u8>)
    ensures
        r@ == sha_digest_of(key@),
        r@.len() == 32,
{
    sha2::Sha256::digest(key.as_bytes()).to_vec()
}

/// The value of the last 28 bits of the key's digest: equal to the last seven
/// hex digits of the digest's lowercase hex encoding read as a base-16 number.
pub open spec fn spec_hash_u28(key: Seq<char>) -> int {
    let d = sha_digest_of(key);
    (d[28] % 16) * 0x1000000 + d[29] * 0x10000 + d[30] * 0x100 + d[31]
}

/// The home slot of `key` in a table of `size` slots.
pub open spec fn spec_hash(key: Seq<char>, size: int) -> int
    recommends
        size > 0,
{
    spec_hash_u28(key) % size
}

/// The slot visited by the `j`-th probe step for home slot `h0`.
pub open spec fn probe_at(h0: int, j: int, size: int) -> int
    recommends
        size > 0,
{
    (h0 + 3 * j) % size
}

/// Hashes `key` into `[0, size)`: SHA-256, last seven hex digits of the hex
/// encoding as an integer, reduced modulo `size`.
pub fn hash_function(key: &str, size: usize) -> (r: usize)
    requires
        size > 0,
    ensures
        r == spec_hash(key@, size as int),
        r < size,
{
    let d = sha256_digest(key);
    let v: usize = (d[28] % 16) as usize * 0x1000000 + d[29] as usize * 0x10000 + d[30]
        as usize * 0x100 + d[31] as usize;
    proof {
        lemma_mod_bound(spec_hash_u28(key@), size as int);
    }
    v % size
}

/// The next slot of the probe sequence: step 3, wrapping at `size`.
pub fn rehash(hash: usize, size: usize) -> (r: usize)
    requires
        size > 0,
        hash < size,
        size <= usize::MAX - 3,
    ensures
        r == (hash + 3) % (size as int),
        r < size,
{
    (hash + 3) % size
}

/// Values storable in the table support a combine operation, applied when a
/// key is inserted twice: addition for counts, appending for posting buckets.
pub trait Combine: Sized {
    /// When combining is allowed (e.g. no arithmetic overflow).
    spec fn combine_ok(&self, other: &Self) -> bool;

    /// `r` is the combination of `self` and `other`.
    spec fn combines_to(&self, other: &Self, r: &Self) -> bool;

    /// An additive size of a value: combining adds the measures.
    spec fn measure(&self) -> int;

    /// Merges `other` into `self`.
    fn combine(&mut self, other: Self)
        requires
            old(self).combine_ok(&other),
        ensures
            old(self).combines_to(&other, final(self)),
    ;

    /// Combining adds the measures.
    proof fn lemma_combine_measure(a: &Self, b: &Self, r: &Self)
        requires
            a.combines_to(b, r),
        ensures
            r.measure() == a.measure() + b.measure(),
    ;

    /// Measures are never negative.
    proof fn lemma_measure_nonneg(a: &Self)
        ensures
            a.measure() >= 0,
    ;
}

impl Combine for usize {
    open spec fn combine_ok(&self, other: &Self) -> bool {
        *self + *other <= usize::MAX
    }

    open spec fn combines_to(&self, other: &Self, r: &Self) -> bool {
        *r == *self + *other
    }

    open spec fn measure(&self) -> int {
        *self as int
    }

    fn combine(&mut self, other: Self) {
        *self = *self + other;
    }

    proof fn lemma_combine_measure(a: &Self, b: &Self, r: &Self) {
    }

    proof fn lemma_measure_nonneg(a: &Self) {
    }
}

/// The sum of the measures of the occupied slots.
pub open spec fn slots_measure<V: Combine>(s: Seq<Option<TableEntry<V>>>) -> int
    decreases s.len(),
{
    if s.len() == 0 {
        0
    } else {
        slots_measure(s.drop_last()) + match s.last() {
            Some(e) => e.value.measure(),
            None => 0int,
        }
    }
}

pub proof fn lemma_slots_measure_update<V: Combine>(
    s: Seq<Option<TableEntry<V>>>,
    i: int,
    e: TableEntry<V>,
)
    requires
        0 <= i < s.len(),
    ensures
        slots_measure(s.update(i, Some(e))) == slots_measure(s) + e.value.measure() - match s[i] {
            Some(e0) => e0.value.measure(),
            None => 0int,
        },
    decreases s.len(),
{
    let s2 = s.update(i, Some(e));
    if i == s.len() - 1 {
        assert(s2.drop_last() =~= s.drop_last());
        assert(s2.last() == Some(e));
    } else {
        assert(s2.drop_last() =~= s.drop_last().update(i, Some(e)));
        assert(s2.last() == s.last());
        lemma_slots_measure_update(s.drop_last(), i, e);
    }
}

pub proof fn lemma_slots_measure_take_step<V: Combine>(s: Seq<Option<TableEntry<V>>>, i: int)
    requires
        0 <= i < s.len(),
    ensures
        slots_measure(s.take(i + 1)) == slots_measure(s.take(i)) + match s[i] {
            Some(e) => e.value.measure(),
            None => 0int,
        },
{
    assert(s.take(i + 1).drop_last() =~= s.take(i));
    assert(s.take(i + 1).last() == s[i]);
}

/// Measures of whole tables are non-negative, and each occupied slot's
/// measure is at most the whole table's.
pub proof fn lemma_slots_measure_nonneg<V: Combine>(s: Seq<Option<TableEntry<V>>>)
    ensures
        slots_measure(s) >= 0,
        forall|i: int|
            0 <= i < s.len() && #[trigger] s[i] is Some ==> s[i]->Some_0.value.measure()
                <= slots_measure(s),
    decreases s.len(),
{
    if s.len() > 0 {
        lemma_slots_measure_nonneg(s.drop_last());
        match s.last() {
            Some(e) => {
                V::lemma_measure_nonneg(&e.value);
            },
            None => {},
        }
        assert forall|i: int|
            0 <= i < s.len() && #[trigger] s[i] is Some implies s[i]->Some_0.value.measure()
            <= slots_measure(s) by {
            if i < s.len() - 1 {
                assert(s.drop_last()[i] == s[i]);
                match s.last() {
                    Some(e) => {
                        V::lemma_measure_nonneg(&e.value);
                    },
                    None => {},
                }
            }
        }
    }
}

pub proof fn lemma_slots_measure_empty<V: Combine>(s: Seq<Option<TableEntry<V>>>)
    requires
        forall|i: int| 0 <= i < s.len() ==> !(#[trigger] s[i] is Some),
    ensures
        slots_measure(s) == 0,
    decreases s.len(),
{
    if s.len() > 0 {
        assert(forall|i: int|
            0 <= i < s.drop_last().len() ==> !(#[trigger] s.drop_last()[i] is Some));
        lemma_slots_measure_empty(s.drop_last());
    }
}

/// A present key's stored value weighs no more than the whole table.
pub proof fn lemma_contents_measure_le<V: Combine>(s: Seq<Option<TableEntry<V>>>, k: Seq<char>)
    requires
        table_wf(s),
        entries_map(s).contains_key(k),
    ensures
        entries_map(s)[k].measure() <= slots_measure(s),
{
    lemma_entries_map_domain(s, k);
    let i = choose|i: int| 0 <= i < s.len() && #[trigger] s[i] is Some && slot_key(s[i]) == k;
    assert forall|i2: int|
        0 <= i2 < s.len() && #[trigger] s[i2] is Some && i2 != i implies slot_key(s[i2])
        != slot_key(s[i]) by {
        if slot_key(s[i2]) == slot_key(s[i]) {
            lemma_key_unique(s, i2, i);
        }
    }
    lemma_entries_map_value(s, i);
    lemma_slots_measure_nonneg(s);
}

/// One occupied slot: a key and the value stored under it.
#[derive(Clone)]
pub struct TableEntry<V> {
    pub key: String,
    pub value: V,
}

/// Open-addressed hash table: a fixed array of optional entries plus a count
/// of the occupied slots.
pub struct HashTable<V> {
    buckets: Vec<Option<TableEntry<V>>>,
    num_elements: usize,
}

/// The key of an occupied slot.
pub open spec fn slot_key<V>(e: Option<TableEntry<V>>) -> Seq<char> {
    e->Some_0.key@
}

/// The first `j` slots of `k`'s probe path are occupied by other keys.
pub open spec fn path_blocked<V>(s: Seq<Option<TableEntry<V>>>, k: Seq<char>, j: int) -> bool {
    forall|j2: int|
        0 <= j2 < j ==> {
            &&& s[#[trigger] probe_at(spec_hash(k, s.len() as int), j2, s.len() as int)] is Some
            &&& slot_key(s[probe_at(spec_hash(k, s.len() as int), j2, s.len() as int)]) != k
        }
}

/// Slot `i` holds a key whose probe path reaches `i` before any empty slot.
pub open spec fn slot_reachable<V>(s: Seq<Option<TableEntry<V>>>, i: int) -> bool {
    exists|j: int|
        0 <= j && #[trigger] probe_at(spec_hash(slot_key(s[i]), s.len() as int), j, s.len() as int)
            == i && path_blocked(s, slot_key(s[i]), j)
}

/// Every occupied slot is reachable by its own key's probe sequence.
pub open spec fn table_wf<V>(s: Seq<Option<TableEntry<V>>>) -> bool {
    forall|i: int| 0 <= i < s.len() && #[trigger] s[i] is Some ==> slot_reachable(s, i)
}

/// Some slot holds key `k`.
pub open spec fn has_key<V>(s: Seq<Option<TableEntry<V>>>, k: Seq<char>) -> bool {
    exists|i: int| 0 <= i < s.len() && #[trigger] s[i] is Some && slot_key(s[i]) == k
}

/// The number of occupied slots.
pub open spec fn count_occupied<V>(s: Seq<Option<TableEntry<V>>>) -> nat
    decreases s.len(),
{
    if s.len() == 0 {
        0
    } else {
        count_occupied(s.drop_last()) + if s.last() is Some {
            1nat
        } else {
            0nat
        }
    }
}

/// The table's contents as a map, later slots shadowing earlier ones (under
/// well-formedness the keys are distinct, so nothing is shadowed).
pub open spec fn entries_map<V>(s: Seq<Option<TableEntry<V>>>) -> Map<Seq<char>, V>
    decreases s.len(),
{
    if s.len() == 0 {
        Map::empty()
    } else {
        match s.last() {
            Some(e) => entries_map(s.drop_last()).insert(e.key@, e.value),
            None => entries_map(s.drop_last()),
        }
    }
}

/// The first probe step at which `k`'s probe, started at step `j`, meets a
/// slot that is empty or holds `k`; `None` if no stop within `size` steps.
pub open spec fn first_stop_from<V>(s: Seq<Option<TableEntry<V>>>, k: Seq<char>, j: int) -> Option<
    int,
>
    recommends
        0 <= j <= s.len(),
    decreases s.len() - j,
        when 0 <= j <= s.len()
{
    if j >= s.len() {
        None
    } else {
        let p = probe_at(spec_hash(k, s.len() as int), j, s.len() as int);
        if s[p] is None || slot_key(s[p]) == k {
            Some(j)
        } else {
            first_stop_from(s, k, j + 1)
        }
    }
}

/// The first stop of `k`'s probe sequence from its home slot.
pub open spec fn first_stop<V>(s: Seq<Option<TableEntry<V>>>, k: Seq<char>) -> Option<int> {
    first_stop_from(s, k, 0)
}

/// `n` empty slots.
pub open spec fn empty_slots<V>(n: nat) -> Seq<Option<TableEntry<V>>> {
    Seq::new(n, |i: int| None)
}

/// The slot array after re-inserting one entry during a rehash: it lands on
/// the first empty slot of its probe; a stop on a matching key or a fully
/// blocked probe drops the entry.
pub open spec fn spec_reinsert_one<V>(
    t: Seq<Option<TableEntry<V>>>,
    e: TableEntry<V>,
) -> Seq<Option<TableEntry<V>>> {
    match first_stop(t, e.key@) {
        Some(j) => {
            let p = probe_at(spec_hash(e.key@, t.len() as int), j, t.len() as int);
            if t[p] is None {
                t.update(p, Some(e))
            } else {
                t
            }
        },
        None => t,
    }
}

/// The table of `newcap` slots holding the entries of the first `n` old
/// slots, re-inserted in slot order.
pub open spec fn spec_reinsert_upto<V>(
    olds: Seq<Option<TableEntry<V>>>,
    newcap: nat,
    n: int,
) -> Seq<Option<TableEntry<V>>>
    decreases n,
{
    if n <= 0 {
        empty_slots(newcap)
    } else {
        let t = spec_reinsert_upto(olds, newcap, n - 1);
        match olds[n - 1] {
            Some(e) => spec_reinsert_one(t, e),
            None => t,
        }
    }
}

proof fn lemma_count_occupied_le<V>(s: Seq<Option<TableEntry<V>>>)
    ensures
        count_occupied(s) <= s.len(),
    decreases s.len(),
{
    if s.len() > 0 {
        lemma_count_occupied_le(s.drop_last());
    }
}

proof fn lemma_count_occupied_update<V>(s: Seq<Option<TableEntry<V>>>, i: int, e: TableEntry<V>)
    requires
        0 <= i < s.len(),
    ensures
        count_occupied(s.update(i, Some(e))) == count_occupied(s) + if s[i] is Some {
            0nat
        } else {
            1nat
        },
    decreases s.len(),
{
    let s2 = s.update(i, Some(e));
    if i == s.len() - 1 {
        assert(s2.drop_last() =~= s.drop_last());
        assert(s2.last() == Some(e));
    } else {
        assert(s2.drop_last() =~= s.drop_last().update(i, Some(e)));
        assert(s2.last() == s.last());
        lemma_count_occupied_update(s.drop_last(), i, e);
    }
}

/// If not all slots are occupied, some slot is empty.
proof fn lemma_exists_empty_slot<V>(s: Seq<Option<TableEntry<V>>>)
    requires
        count_occupied(s) < s.len(),
    ensures
        exists|i: int| 0 <= i < s.len() && !(#[trigger] s[i] is Some),
    decreases s.len(),
{
    if s.len() > 0 {
        if s.last() is Some {
            lemma_exists_empty_slot(s.drop_last());
            let i = choose|i: int|
                0 <= i < s.drop_last().len() && !(#[trigger] s.drop_last()[i] is Some);
            assert(!(s[i] is Some));
        } else {
            assert(!(s[s.len() - 1] is Some));
        }
    }
}

/// With a capacity not divisible by 3, the probe sequence visits every slot
/// within `size` steps.
proof fn lemma_probe_covers(h0: int, t: int, size: int)
    requires
        size > 0,
        size % 3 != 0,
        0 <= h0 < size,
        0 <= t < size,
    ensures
        exists|j: int| 0 <= j < size && #[trigger] probe_at(h0, j, size) == t,
{
    let d = (t - h0) % size;
    lemma_mod_bound(t - h0 + size, size);
    lemma_mod_adds(t - h0, size, size);
    let inv = if size % 3 == 1 {
        (2 * size + 1) / 3
    } else {
        (size + 1) / 3
    };
    assert(3 * inv % size == 1int % size) by {
        if size % 3 == 1 {
            let q = size / 3;
            lemma_fundamental_div_mod(size, 3);
            assert(2 * size + 1 == 3 * (2 * q + 1));
            lemma_div_multiples_vanish(2 * q + 1, 3);
            assert(inv == 2 * q + 1);
            assert(3 * inv == 2 * size + 1);
            lemma_mod_multiples_vanish(2, 1, size);
        } else {
            assert(size % 3 == 2) by {
                lemma_mod_bound(size, 3);
            }
            let q = size / 3;
            lemma_fundamental_div_mod(size, 3);
            assert(size + 1 == 3 * (q + 1));
            lemma_div_multiples_vanish(q + 1, 3);
            assert(inv == q + 1);
            assert(3 * inv == size + 1);
            lemma_mod_multiples_vanish(1, 1, size);
        }
    }
    let j = (d * inv) % size;
    lemma_mod_bound(d * inv, size);
    lemma_mod_bound(t - h0 + size, size);
    assert(0 <= j < size);
    // 3 * j == 3 * (d * inv) mod size == d * (3 * inv) mod size == d mod size
    assert(probe_at(h0, j, size) == t) by {
        lemma_mul_mod_noop_right(3, d * inv, size);
        assert(3 * ((d * inv) % size) % size == (3 * (d * inv)) % size);
        lemma_mul_is_associative(3, d, inv);
        lemma_mul_is_associative(d, 3, inv);
        assert(3 * (d * inv) == d * (3 * inv));
        lemma_mul_mod_noop_right(d, 3 * inv, size);
        assert((d * (3 * inv)) % size == (d * ((3 * inv) % size)) % size);
        assert((3 * inv) % size == 1int % size);
        if size == 1 {
            lemma_mod_bound(h0 + 3 * j, size);
            assert(probe_at(h0, j, size) == 0);
        } else {
            assert(1int % size == 1) by {
                lemma_small_mod(1nat, size as nat);
            }
            assert((d * 1) == d);
            lemma_mod_bound(d, size);
            assert(d % size == d) by {
                lemma_small_mod(d as nat, size as nat);
            }
            assert((3 * j) % size == d);
            lemma_add_mod_noop(h0, 3 * j, size);
            assert((h0 + 3 * j) % size == (h0 % size + (3 * j) % size) % size);
            lemma_small_mod(h0 as nat, size as nat);
            assert((h0 + d) % size == t) by {
                lemma_add_mod_noop(h0, t - h0 + size, size);
                lemma_small_mod(t as nat, size as nat);
                lemma_mod_multiples_vanish(1, t, size);
                assert((h0 + (t - h0 + size)) % size == t % size);
                assert((h0 % size + (t - h0 + size) % size) % size == t);
            }
        }
    }
}

/// Two occupied slots never hold the same key.
pub proof fn lemma_key_unique<V>(s: Seq<Option<TableEntry<V>>>, i1: int, i2: int)
    requires
        table_wf(s),
        0 <= i1 < s.len(),
        0 <= i2 < s.len(),
        s[i1] is Some,
        s[i2] is Some,
        slot_key(s[i1]) == slot_key(s[i2]),
    ensures
        i1 == i2,
{
    let k = slot_key(s[i1]);
    let h0 = spec_hash(k, s.len() as int);
    let j1 = choose|j: int|
        0 <= j && #[trigger] probe_at(h0, j, s.len() as int) == i1 && path_blocked(s, k, j);
    let j2 = choose|j: int|
        0 <= j && #[trigger] probe_at(h0, j, s.len() as int) == i2 && path_blocked(s, k, j);
    if j1 < j2 {
        assert(s[probe_at(h0, j1, s.len() as int)] is Some && slot_key(
            s[probe_at(h0, j1, s.len() as int)],
        ) != k);
    } else if j2 < j1 {
        assert(s[probe_at(h0, j2, s.len() as int)] is Some && slot_key(
            s[probe_at(h0, j2, s.len() as int)],
        ) != k);
    }
}

/// A present key has a probe witness within `size` steps.
pub proof fn lemma_witness_bounded<V>(s: Seq<Option<TableEntry<V>>>, i: int, j: int)
    requires
        0 <= i < s.len(),
        s[i] is Some,
        0 <= j,
        probe_at(spec_hash(slot_key(s[i]), s.len() as int), j, s.len() as int) == i,
        path_blocked(s, slot_key(s[i]), j),
    ensures
        exists|j2: int|
            0 <= j2 < s.len() && #[trigger] probe_at(
                spec_hash(slot_key(s[i]), s.len() as int),
                j2,
                s.len() as int,
            ) == i && path_blocked(s, slot_key(s[i]), j2),
    decreases j,
{
    let size = s.len() as int;
    let k = slot_key(s[i]);
    let h0 = spec_hash(k, size);
    if j < size {
        assert(0 <= j < s.len() && probe_at(h0, j, size) == i && path_blocked(s, k, j));
    } else {
        // wrap around: the probe has period dividing size * 3 / gcd; stepping
        // back `size` steps in the residue pattern of 3*j mod size repeats
        // after size steps only when 3*size % size == 0, which always holds.
        let j2 = j - size;
        assert(probe_at(h0, j2, size) == i) by {
            assert(h0 + 3 * j == h0 + 3 * j2 + 3 * size);
            lemma_mod_multiples_vanish(3, h0 + 3 * j2, size);
            assert((3 * size + (h0 + 3 * j2)) % size == (h0 + 3 * j2) % size);
        }
        assert(path_blocked(s, k, j2));
        lemma_witness_bounded(s, i, j2);
    }
}

/// If the whole probe path of `k` is blocked, `k` is not in the table.
proof fn lemma_fully_blocked_absent<V>(s: Seq<Option<TableEntry<V>>>, k: Seq<char>)
    requires
        table_wf(s),
        path_blocked(s, k, s.len() as int),
    ensures
        !has_key(s, k),
{
    let size = s.len() as int;
    let h0 = spec_hash(k, size);
    if has_key(s, k) {
        let i = choose|i: int| 0 <= i < s.len() && #[trigger] s[i] is Some && slot_key(s[i]) == k;
        assert(slot_reachable(s, i));
        let j = choose|j: int|
            0 <= j && #[trigger] probe_at(spec_hash(slot_key(s[i]), size), j, size) == i
                && path_blocked(s, slot_key(s[i]), j);
        lemma_witness_bounded(s, i, j);
        let j2 = choose|j2: int|
            0 <= j2 < s.len() && #[trigger] probe_at(spec_hash(slot_key(s[i]), size), j2, size)
                == i && path_blocked(s, slot_key(s[i]), j2);
        assert(s[probe_at(h0, j2, size)] is Some && slot_key(s[probe_at(h0, j2, size)]) != k);
    }
}

/// `entries_map` contains exactly the keys of the occupied slots.
pub proof fn lemma_entries_map_domain<V>(s: Seq<Option<TableEntry<V>>>, k: Seq<char>)
    ensures
        entries_map(s).contains_key(k) <==> has_key(s, k),
    decreases s.len(),
{
    if s.len() > 0 {
        lemma_entries_map_domain(s.drop_last(), k);
        if entries_map(s).contains_key(k) {
            if s.last() is Some && s.last()->Some_0.key@ == k {
                assert(s[s.len() - 1] is Some && slot_key(s[s.len() - 1]) == k);
            } else {
                let i = choose|i: int|
                    0 <= i < s.drop_last().len() && #[trigger] s.drop_last()[i] is Some && slot_key(
                        s.drop_last()[i],
                    ) == k;
                assert(s[i] is Some && slot_key(s[i]) == k);
            }
        }
        if has_key(s, k) {
            let i = choose|i: int|
                0 <= i < s.len() && #[trigger] s[i] is Some && slot_key(s[i]) == k;
            if i < s.len() - 1 {
                assert(s.drop_last()[i] is Some && slot_key(s.drop_last()[i]) == k);
            }
        }
    }
}

/// Under distinct keys, the map holds each occupied slot's value.
pub proof fn lemma_entries_map_value<V>(s: Seq<Option<TableEntry<V>>>, i: int)
    requires
        0 <= i < s.len(),
        s[i] is Some,
        forall|i2: int|
            0 <= i2 < s.len() && #[trigger] s[i2] is Some && i2 != i ==> slot_key(s[i2])
                != slot_key(s[i]),
    ensures
        entries_map(s).contains_key(slot_key(s[i])),
        entries_map(s)[slot_key(s[i])] == s[i]->Some_0.value,
    decreases s.len(),
{
    lemma_entries_map_domain(s, slot_key(s[i]));
    if i == s.len() - 1 {
    } else {
        assert(forall|i2: int|
            0 <= i2 < s.drop_last().len() && #[trigger] s.drop_last()[i2] is Some && i2 != i
                ==> slot_key(s.drop_last()[i2]) != slot_key(s.drop_last()[i]));
        lemma_entries_map_value(s.drop_last(), i);
        if s.last() is Some {
            assert(slot_key(s[s.len() - 1]) != slot_key(s[i]));
        }
    }
}

/// Updating slot `i` with an entry whose key no other slot holds inserts that
/// key into the contents map.
proof fn lemma_entries_map_update<V>(s: Seq<Option<TableEntry<V>>>, i: int, e: TableEntry<V>)
    requires
        0 <= i < s.len(),
        s[i] is None || slot_key(s[i]) == e.key@,
        forall|i2: int|
            0 <= i2 < s.len() && #[trigger] s[i2] is Some && i2 != i ==> slot_key(s[i2]) != e.key@,
    ensures
        entries_map(s.update(i, Some(e))) =~= entries_map(s).insert(e.key@, e.value),
    decreases s.len(),
{
    let s2 = s.update(i, Some(e));
    if i == s.len() - 1 {
        assert(s2.drop_last() =~= s.drop_last());
        assert(s2.last() == Some(e));
        match s.last() {
            Some(e2) => {
                assert(e2.key@ == e.key@);
                assert(entries_map(s2) =~= entries_map(s).insert(e.key@, e.value));
            },
            None => {
                assert(entries_map(s2) =~= entries_map(s).insert(e.key@, e.value));
            },
        }
    } else {
        assert(s2.drop_last() =~= s.drop_last().update(i, Some(e)));
        assert(s2.last() == s.last());
        assert(forall|i2: int|
            0 <= i2 < s.drop_last().len() && #[trigger] s.drop_last()[i2] is Some && i2 != i
                ==> slot_key(s.drop_last()[i2]) != e.key@) by {
            assert(forall|i2: int|
                0 <= i2 < s.len() - 1 ==> s.drop_last()[i2] == s[i2]);
        }
        lemma_entries_map_update(s.drop_last(), i, e);
        match s.last() {
            Some(e2) => {
                assert(s[s.len() - 1] is Some);
                assert(e2.key@ != e.key@);
                assert(entries_map(s2) == entries_map(s2.drop_last()).insert(e2.key@, e2.value));
                assert(entries_map(s2) =~= entries_map(s).insert(e.key@, e.value));
            },
            None => {
                assert(entries_map(s2) =~= entries_map(s).insert(e.key@, e.value));
            },
        }
    }
}

/// Well-formedness depends only on occupancy and keys, not on values.
proof fn lemma_wf_same_shape<V>(s: Seq<Option<TableEntry<V>>>, s2: Seq<Option<TableEntry<V>>>)
    requires
        s.len() == s2.len(),
        forall|i: int| 0 <= i < s.len() ==> (s[i] is Some <==> #[trigger] s2[i] is Some),
        forall|i: int|
            0 <= i < s.len() && s[i] is Some ==> slot_key(#[trigger] s2[i]) == slot_key(s[i]),
        table_wf(s),
    ensures
        table_wf(s2),
{
    let size = s.len() as int;
    assert forall|i: int| 0 <= i < s2.len() && #[trigger] s2[i] is Some implies slot_reachable(
        s2,
        i,
    ) by {
        assert(s[i] is Some);
        let k = slot_key(s[i]);
        let j = choose|j: int|
            0 <= j && #[trigger] probe_at(spec_hash(k, size), j, size) == i && path_blocked(
                s,
                k,
                j,
            );
        assert(path_blocked(s2, k, j)) by {
            assert forall|j2: int| 0 <= j2 < j implies {
                &&& s2[#[trigger] probe_at(spec_hash(k, size), j2, size)] is Some
                &&& slot_key(s2[probe_at(spec_hash(k, size), j2, size)]) != k
            } by {
                let p = probe_at(spec_hash(k, size), j2, size);
                assert(s[p] is Some && slot_key(s[p]) != k);
            }
        }
        assert(slot_key(s2[i]) == k);
        assert(probe_at(spec_hash(slot_key(s2[i]), size), j, size) == i);
    }
}

/// Filling the empty slot at the end of a blocked probe keeps the table
/// well-formed.
proof fn lemma_wf_after_fill<V>(
    s: Seq<Option<TableEntry<V>>>,
    cur: int,
    e: TableEntry<V>,
    jstop: int,
)
    requires
        table_wf(s),
        0 <= cur < s.len(),
        s[cur] is None,
        0 <= jstop,
        probe_at(spec_hash(e.key@, s.len() as int), jstop, s.len() as int) == cur,
        path_blocked(s, e.key@, jstop),
    ensures
        table_wf(s.update(cur, Some(e))),
{
    let size = s.len() as int;
    let s2 = s.update(cur, Some(e));
    assert forall|i: int| 0 <= i < s2.len() && #[trigger] s2[i] is Some implies slot_reachable(
        s2,
        i,
    ) by {
        if i == cur {
            assert(slot_key(s2[cur]) == e.key@);
            assert(path_blocked(s2, e.key@, jstop)) by {
                assert forall|j2: int| 0 <= j2 < jstop implies {
                    &&& s2[#[trigger] probe_at(spec_hash(e.key@, size), j2, size)] is Some
                    &&& slot_key(s2[probe_at(spec_hash(e.key@, size), j2, size)]) != e.key@
                } by {
                    let p = probe_at(spec_hash(e.key@, size), j2, size);
                    assert(s[p] is Some && slot_key(s[p]) != e.key@);
                    assert(p != cur);
                }
            }
        } else {
            assert(s[i] is Some);
            let k = slot_key(s[i]);
            let j = choose|j: int|
                0 <= j && #[trigger] probe_at(spec_hash(k, size), j, size) == i && path_blocked(
                    s,
                    k,
                    j,
                );
            assert(path_blocked(s2, k, j)) by {
                assert forall|j2: int| 0 <= j2 < j implies {
                    &&& s2[#[trigger] probe_at(spec_hash(k, size), j2, size)] is Some
                    &&& slot_key(s2[probe_at(spec_hash(k, size), j2, size)]) != k
                } by {
                    let p = probe_at(spec_hash(k, size), j2, size);
                    assert(s[p] is Some && slot_key(s[p]) != k);
                    assert(p != cur);
                }
            }
            assert(slot_key(s2[i]) == k);
        }
    }
}

impl<V: Combine> HashTable<V> {
    /// The slot array, empty slots included.
    pub closed spec fn slots(self) -> Seq<Option<TableEntry<V>>> {
        self.buckets@
    }

    /// The number of slots.
    pub open spec fn capacity(self) -> nat {
        self.slots().len()
    }

    /// The number of occupied slots.
    pub closed spec fn num_elems(self) -> nat {
        self.num_elements as nat
    }

    /// The table's contents as a map from key to stored value.
    pub open spec fn contents(self) -> Map<Seq<char>, V> {
        entries_map(self.slots())
    }

    /// Structural invariant: every occupied slot lies on its key's probe path
    /// behind occupied slots only, the element count matches the occupied
    /// slots, and the capacity is coprime with the probe stride.
    pub open spec fn wf(self) -> bool {
        &&& table_wf(self.slots())
        &&& self.num_elems() == count_occupied(self.slots())
        &&& self.capacity() % 3 != 0 || self.capacity() == 0
        &&& self.capacity() <= usize::MAX - 3
    }

    /// A fresh table of `size` empty slots.
    pub fn new(size: usize) -> (r: Self)
        requires
            size % 3 != 0 || size == 0,
            size <= usize::MAX - 3,
        ensures
            r.wf(),
            r.capacity() == size,
            r.contents() == Map::<Seq<char>, V>::empty(),
            r.num_elems() == 0,
            forall|i: int| 0 <= i < size ==> !(#[trigger] r.slots()[i] is Some),
    {
        let mut buckets: Vec<Option<TableEntry<V>>> = Vec::new();
        let mut i: usize = 0;
        while i < size
            invariant
                i <= size,
                buckets@.len() == i,
                forall|j: int| 0 <= j < i ==> !(#[trigger] buckets@[j] is Some),
            decreases size - i,
        {
            buckets.push(None);
            i = i + 1;
        }
        let r = Self { buckets, num_elements: 0 };
        proof {
            lemma_all_empty_props(r.slots());
        }
        r
    }

    /// Empties every slot, keeping the capacity.
    pub fn reset(&mut self)
        requires
            old(self).wf(),
        ensures
            final(self).wf(),
            final(self).capacity() == old(self).capacity(),
            final(self).contents() == Map::<Seq<char>, V>::empty(),
            final(self).num_elems() == 0,
            forall|i: int|
                0 <= i < final(self).capacity() ==> !(#[trigger] final(self).slots()[i] is Some),
    {
        let n = self.buckets.len();
        let mut i: usize = 0;
        while i < n
            invariant
                i <= n,
                self.buckets@.len() == n,
                forall|j: int| 0 <= j < i ==> !(#[trigger] self.buckets@[j] is Some),
                self.num_elements == old(self).num_elements,
                self.capacity() % 3 != 0 || self.capacity() == 0,
            decreases n - i,
        {
            self.buckets.set(i, None);
            i = i + 1;
        }
        self.num_elements = 0;
        proof {
            lemma_all_empty_props(self.slots());
        }
    }

    /// Looks up `key`, returning a reference to its value when present.
    pub fn get<'a>(&'a self, key: &String) -> (r: Option<&'a V>)
        requires
            self.wf(),
            self.capacity() >= 1,
        ensures
            match r {
                Some(v) => self.contents().contains_key(key@) && *v == self.contents()[key@],
                None => !self.contents().contains_key(key@),
            },
    {
        let ghost s = self.slots();
        let ghost size_i = self.capacity() as int;
        let ghost h0 = spec_hash(key@, size_i);
        let size = self.buckets.len();
        let mut cur = hash_function(key.as_str(), size);
        let mut i: usize = 0;
        proof {
            lemma_mod_bound(spec_hash_u28(key@), size_i);
            lemma_small_mod(h0 as nat, size_i as nat);
            assert(probe_at(h0, 0, size_i) == h0);
        }
        while i < size
            invariant
                self.wf(),
                s == self.slots(),
                size == self.capacity(),
                size >= 1,
                size_i == size as int,
                h0 == spec_hash(key@, size_i),
                i <= size,
                cur < size,
                cur == probe_at(h0, i as int, size_i),
                path_blocked(s, key@, i as int),
            decreases size - i,
        {
            match &self.buckets[cur] {
                Some(entry) => {
                    if entry.key == *key {
                        proof {
                            assert(s[cur as int] is Some && slot_key(s[cur as int]) == key@);
                            assert(has_key(s, key@));
                            lemma_entries_map_domain(s, key@);
                            assert forall|i2: int|
                                0 <= i2 < s.len() && #[trigger] s[i2] is Some && i2 != cur as int
                                    implies slot_key(s[i2]) != slot_key(
                                s[cur as int],
                            ) by {
                                if slot_key(s[i2]) == slot_key(s[cur as int]) {
                                    lemma_key_unique(s, i2, cur as int);
                                }
                            }
                            lemma_entries_map_value(s, cur as int);
                        }
                        return Some(&entry.value);
                    }
                },
                None => {
                    proof {
                        // the probe met an empty slot: were the key present, its
                        // probe witness would contradict the blocked prefix
                        if has_key(s, key@) {
                            let ii = choose|ii: int|
                                0 <= ii < s.len() && #[trigger] s[ii] is Some && slot_key(s[ii])
                                    == key@;
                            assert(slot_reachable(s, ii));
                            let j = choose|j: int|
                                0 <= j && #[trigger] probe_at(spec_hash(key@, size_i), j, size_i)
                                    == ii && path_blocked(s, key@, j);
                            if j < i {
                                assert(s[probe_at(h0, j, size_i)] is Some && slot_key(
                                    s[probe_at(h0, j, size_i)],
                                ) != key@);
                            } else if j == i {
                                assert(probe_at(h0, j, size_i) == cur as int);
                            } else {
                                assert(s[probe_at(h0, i as int, size_i)] is Some);
                            }
                        }
                        lemma_entries_map_domain(s, key@);
                    }
                    return None;
                },
            }
            proof {
                assert(s[cur as int] is Some && slot_key(s[cur as int]) != key@);
                assert forall|j2: int| 0 <= j2 < i + 1 implies {
                    &&& s[#[trigger] probe_at(h0, j2, size_i)] is Some
                    &&& slot_key(s[probe_at(h0, j2, size_i)]) != key@
                } by {
                    if j2 < i {
                        assert(path_blocked(s, key@, i as int));
                    } else {
                        assert(probe_at(h0, j2, size_i) == cur as int);
                    }
                }
                assert((cur + 3) % size_i == probe_at(h0, i + 1, size_i)) by {
                    lemma_add_mod_noop(cur as int, 3, size_i);
                    lemma_small_mod(cur as nat, size_i as nat);
                    lemma_add_mod_noop(h0 + 3 * (i as int), 3, size_i);
                    assert(h0 + 3 * (i + 1) == h0 + 3 * (i as int) + 3);
                    assert((h0 + 3 * (i as int)) % size_i == cur as int);
                };
            }
            cur = rehash(cur, size);
            i = i + 1;
        }
        proof {
            lemma_fully_blocked_absent(s, key@);
            lemma_entries_map_domain(s, key@);
        }
        None
    }

    /// Whether `key` is present.
    pub fn intable(&self, key: &String) -> (r: bool)
        requires
            self.wf(),
            self.capacity() >= 1,
        ensures
            r == self.contents().contains_key(key@),
    {
        self.get(key).is_some()
    }

    /// The slot array, for slot-by-slot serialization.
    pub fn get_buckets(&self) -> (r: &Vec<Option<TableEntry<V>>>)
        ensures
            r@ == self.slots(),
    {
        &self.buckets
    }

    /// The capacity.
    pub fn get_size(&self) -> (r: usize)
        ensures
            r == self.capacity(),
    {
        self.buckets.len()
    }

    /// The number of occupied slots.
    pub fn get_num_elements(&self) -> (r: usize)
        ensures
            r == self.num_elems(),
    {
        self.num_elements
    }

    /// The slot array after the growth step: doubled and rebuilt when the
    /// table is over half full (and doubling cannot overflow), else as is.
    pub open spec fn spec_reindexed(self) -> Seq<Option<TableEntry<V>>> {
        if self.num_elems() * 2 > self.capacity() && self.capacity() * 2 <= usize::MAX - 3 {
            spec_reinsert_upto(self.slots(), self.capacity() * 2, self.slots().len() as int)
        } else {
            self.slots()
        }
    }

    /// Doubles the capacity and re-inserts every entry when the load factor
    /// exceeds one half.
    fn reindex(&mut self)
        requires
            old(self).wf(),
        ensures
            final(self).wf(),
            final(self).slots() == old(self).spec_reindexed(),
            final(self).contents() =~= old(self).contents(),
            final(self).num_elems() == old(self).num_elems(),
            final(self).capacity() >= old(self).capacity(),
            slots_measure(final(self).slots()) == slots_measure(old(self).slots()),
            (old(self).num_elems() < old(self).capacity() || old(self).capacity() <= (usize::MAX
                - 3) / 2) ==> (final(self).num_elems() < final(self).capacity() || final(self).capacity() == 0),
    {
        let ghost oldself = *self;
        let len = self.buckets.len();
        proof {
            assert(self.num_elements > len / 2 <==> self.num_elems() * 2 > self.capacity()) by {
                lemma_fundamental_div_mod(len as int, 2);
            }
            assert(len <= (usize::MAX - 3) / 2 <==> len * 2 <= usize::MAX - 3) by {
                lemma_fundamental_div_mod((usize::MAX - 3) as int, 2);
            }
        }
        if self.num_elements > len / 2 && len <= (usize::MAX - 3) / 2 {
            let ghost olds = self.slots();
            let mut old_buckets: Vec<Option<TableEntry<V>>> = Vec::new();
            core::mem::swap(&mut self.buckets, &mut old_buckets);
            let newcap = len * 2;
            let mut i: usize = 0;
            while i < newcap
                invariant
                    i <= newcap,
                    self.buckets@.len() == i,
                    forall|j: int| 0 <= j < i ==> !(#[trigger] self.buckets@[j] is Some),
                    old_buckets@ == olds,
                    self.num_elements == oldself.num_elems(),
                decreases newcap - i,
            {
                self.buckets.push(None);
                i = i + 1;
            }
            self.num_elements = 0;
            proof {
                lemma_all_empty_props(self.slots());
                assert(self.slots() =~= empty_slots(newcap as nat));
                assert(self.slots() =~= spec_reinsert_upto(olds, newcap as nat, 0));
                assert(entries_map(olds.take(0)) =~= Map::<Seq<char>, V>::empty());
                lemma_count_occupied_le(olds);
                lemma_slots_measure_empty(self.slots());
                assert(slots_measure(olds.take(0)) == 0) by {
                    assert(olds.take(0) =~= Seq::<Option<TableEntry<V>>>::empty());
                }
            }
            let mut k: usize = 0;
            while k < len
                invariant
                    k <= len,
                    olds.len() == len,
                    old_buckets@ == olds.subrange(k as int, len as int),
                    self.wf(),
                    self.capacity() == newcap,
                    newcap == len * 2,
                    newcap <= usize::MAX - 3,
                    newcap % 3 != 0 || newcap == 0,
                    table_wf(olds),
                    self.slots() == spec_reinsert_upto(olds, newcap as nat, k as int),
                    self.contents() =~= entries_map(olds.take(k as int)),
                    self.num_elems() == count_occupied(olds.take(k as int)),
                    slots_measure(self.slots()) == slots_measure(olds.take(k as int)),
                    count_occupied(olds.take(k as int)) <= count_occupied(olds),
                    count_occupied(olds) <= len,
                decreases len - k,
            {
                proof {
                    assert(olds.subrange(k as int, len as int)[0] == olds[k as int]);
                    assert(olds.take(k + 1).drop_last() =~= olds.take(k as int));
                    assert(olds.take(k + 1).last() == olds[k as int]);
                    lemma_count_take_le(olds, k + 1);
                    lemma_slots_measure_take_step(olds, k as int);
                }
                let slot = old_buckets.remove(0);
                proof {
                    assert(old_buckets@ =~= olds.subrange(k + 1, len as int));
                }
                match slot {
                    Some(entry) => {
                        proof {
                            // the entry's key is not yet in the rebuilt table
                            lemma_entries_map_domain(self.slots(), entry.key@);
                            if has_key(self.slots(), entry.key@) {
                                lemma_entries_map_domain(olds.take(k as int), entry.key@);
                                let i2 = choose|i2: int|
                                    0 <= i2 < olds.take(k as int).len() && #[trigger] olds.take(
                                        k as int,
                                    )[i2] is Some && slot_key(olds.take(k as int)[i2])
                                        == entry.key@;
                                assert(olds[i2] is Some && slot_key(olds[i2]) == entry.key@);
                                assert(olds[k as int] is Some && slot_key(olds[k as int])
                                    == entry.key@);
                                lemma_key_unique(olds, i2, k as int);
                            }
                            assert(self.num_elems() < self.capacity()) by {
                                lemma_count_take_le(olds, k as int);
                            }
                        }
                        self.reinsert_helper(entry);
                    },
                    None => {
                    },
                }
                k = k + 1;
            }
            proof {
                assert(olds.take(len as int) =~= olds);
                assert(oldself.contents() =~= entries_map(olds));
            }
        } else {
            proof {
                assert(self.slots() == oldself.spec_reindexed());
            }
        }
    }

    /// Re-inserts one entry during a rehash; its key must not be present.
    fn reinsert_helper(&mut self, entry: TableEntry<V>)
        requires
            old(self).wf(),
            old(self).capacity() >= 1,
            old(self).num_elems() < old(self).capacity(),
            !has_key(old(self).slots(), entry.key@),
        ensures
            final(self).wf(),
            final(self).capacity() == old(self).capacity(),
            final(self).slots() == spec_reinsert_one(old(self).slots(), entry),
            final(self).contents() =~= old(self).contents().insert(entry.key@, entry.value),
            final(self).num_elems() == old(self).num_elems() + 1,
            slots_measure(final(self).slots()) == slots_measure(old(self).slots())
                + entry.value.measure(),
    {
        let ghost s = self.slots();
        let ghost size_i = self.capacity() as int;
        let ghost h0 = spec_hash(entry.key@, size_i);
        let size = self.buckets.len();
        let mut cur = hash_function(entry.key.as_str(), size);
        let mut i: usize = 0;
        proof {
            lemma_mod_bound(spec_hash_u28(entry.key@), size_i);
            lemma_small_mod(h0 as nat, size_i as nat);
            assert(probe_at(h0, 0, size_i) == h0);
        }
        while i < size
            invariant
                self.wf(),
                s == self.slots(),
                s == old(self).slots(),
                self.num_elems() == old(self).num_elems(),
                size == self.capacity(),
                size >= 1,
                size_i == size as int,
                h0 == spec_hash(entry.key@, size_i),
                i <= size,
                cur < size,
                cur == probe_at(h0, i as int, size_i),
                path_blocked(s, entry.key@, i as int),
                first_stop(s, entry.key@) == first_stop_from(s, entry.key@, i as int),
                !has_key(s, entry.key@),
                count_occupied(s) < s.len(),
            decreases size - i,
        {
            let occupied = self.buckets[cur].is_some();
            if !occupied {
                proof {
                    assert(first_stop(s, entry.key@) == Some(i as int));
                    assert forall|i2: int|
                        0 <= i2 < s.len() && #[trigger] s[i2] is Some && i2 != cur as int
                            implies slot_key(s[i2]) != entry.key@ by {}
                    lemma_wf_after_fill(s, cur as int, entry, i as int);
                    lemma_count_occupied_update(s, cur as int, entry);
                    lemma_entries_map_update(s, cur as int, entry);
                    lemma_slots_measure_update(s, cur as int, entry);
                }
                self.buckets.set(cur, Some(entry));
                self.num_elements = self.num_elements + 1;
                return ;
            }
            proof {
                assert(s[cur as int] is Some);
                assert(slot_key(s[cur as int]) != entry.key@);
                assert forall|j2: int| 0 <= j2 < i + 1 implies {
                    &&& s[#[trigger] probe_at(h0, j2, size_i)] is Some
                    &&& slot_key(s[probe_at(h0, j2, size_i)]) != entry.key@
                } by {
                    if j2 < i {
                        assert(path_blocked(s, entry.key@, i as int));
                    } else {
                        assert(probe_at(h0, j2, size_i) == cur as int);
                    }
                }
                assert((cur + 3) % size_i == probe_at(h0, i + 1, size_i)) by {
                    lemma_add_mod_noop(cur as int, 3, size_i);
                    lemma_small_mod(cur as nat, size_i as nat);
                    lemma_add_mod_noop(h0 + 3 * (i as int), 3, size_i);
                    assert(h0 + 3 * (i + 1) == h0 + 3 * (i as int) + 3);
                    assert((h0 + 3 * (i as int)) % size_i == cur as int);
                };
            }
            cur = rehash(cur, size);
            i = i + 1;
        }
        proof {
            // a fully blocked probe is impossible: some slot is empty and the
            // probe visits every slot within `size` steps
            lemma_exists_empty_slot(s);
            let t = choose|t: int| 0 <= t < s.len() && !(#[trigger] s[t] is Some);
            lemma_mod_bound(spec_hash_u28(entry.key@), size_i);
            lemma_probe_covers(h0, t, size_i);
            let j = choose|j: int| 0 <= j < size_i && #[trigger] probe_at(h0, j, size_i) == t;
            assert(s[probe_at(h0, j, size_i)] is Some);
            assert(false);
        }
    }

    /// Inserts `value` under `key`, combining with the stored value when the
    /// key is already present. Grows the table first when it is over half
    /// full.
    pub fn insert_combine(&mut self, key: &String, value: V)
        requires
            old(self).wf(),
            old(self).capacity() >= 1,
            old(self).num_elems() < old(self).capacity() || old(self).capacity() <= (usize::MAX
                - 3) / 2,
            old(self).contents().contains_key(key@) ==> old(self).contents()[key@].combine_ok(
                &value,
            ),
        ensures
            final(self).wf(),
            final(self).capacity() >= old(self).capacity(),
            ({
                let rs = old(self).spec_reindexed();
                let size = rs.len() as int;
                match first_stop(rs, key@) {
                    Some(j) => {
                        let p = probe_at(spec_hash(key@, size), j, size);
                        &&& final(self).slots().len() == rs.len()
                        &&& (forall|q: int|
                            0 <= q < rs.len() && q != p ==> final(self).slots()[q] == rs[q])
                        &&& final(self).slots()[p] is Some
                        &&& (match rs[p] {
                            Some(e) => final(self).slots()[p]->Some_0.key == e.key
                                && e.value.combines_to(
                                &value,
                                &final(self).slots()[p]->Some_0.value,
                            ),
                            None => final(self).slots()[p]->Some_0.key == *key
                                && final(self).slots()[p]->Some_0.value == value,
                        })
                    },
                    None => final(self).slots() == rs,
                }
            }),
            final(self).contents().contains_key(key@),
            final(self).contents().remove(key@) =~= old(self).contents().remove(key@),
            old(self).contents().contains_key(key@) ==> old(self).contents()[key@].combines_to(
                &value,
                &final(self).contents()[key@],
            ),
            !old(self).contents().contains_key(key@) ==> final(self).contents()[key@] == value,
            final(self).num_elems() == old(self).num_elems() + (if old(self).contents().contains_key(key@) {
                0int
            } else {
                1int
            }),
            slots_measure(final(self).slots()) == slots_measure(old(self).slots())
                + value.measure(),
    {
        let ghost oldself = *self;
        self.reindex();
        let ghost s = self.slots();
        let ghost size_i = self.capacity() as int;
        let ghost h0 = spec_hash(key@, size_i);
        let size = self.buckets.len();
        let mut cur = hash_function(key.as_str(), size);
        let mut i: usize = 0;
        proof {
            lemma_mod_bound(spec_hash_u28(key@), size_i);
            lemma_small_mod(h0 as nat, size_i as nat);
            assert(probe_at(h0, 0, size_i) == h0);
        }
        while i < size
            invariant
                self.wf(),
                oldself == *old(self),
                s == self.slots(),
                self.num_elems() == oldself.num_elems(),
                self.contents() =~= oldself.contents(),
                slots_measure(s) == slots_measure(oldself.slots()),
                size == self.capacity(),
                size >= oldself.capacity(),
                size >= 1,
                size_i == size as int,
                h0 == spec_hash(key@, size_i),
                i <= size,
                cur < size,
                cur == probe_at(h0, i as int, size_i),
                path_blocked(s, key@, i as int),
                first_stop(s, key@) == first_stop_from(s, key@, i as int),
                count_occupied(s) < s.len(),
                s == oldself.spec_reindexed(),
                oldself.contents().contains_key(key@) ==> oldself.contents()[key@].combine_ok(
                    &value,
                ),
            decreases size - i,
        {
            let mut taken: Option<TableEntry<V>> = None;
            self.buckets.set_and_swap(cur, &mut taken);
            match taken {
                Some(mut e) => {
                    if e.key == *key {
                        proof {
                            assert(first_stop(s, key@) == Some(i as int));
                            assert(s[cur as int] is Some && slot_key(s[cur as int]) == key@);
                            assert(has_key(s, key@));
                            lemma_entries_map_domain(s, key@);
                            assert forall|i2: int|
                                0 <= i2 < s.len() && #[trigger] s[i2] is Some && i2 != cur as int
                                    implies slot_key(s[i2]) != key@ by {
                                if slot_key(s[i2]) == key@ {
                                    lemma_key_unique(s, i2, cur as int);
                                }
                            }
                            lemma_entries_map_value(s, cur as int);
                        }
                        e.value.combine(value);
                        let ghost e2 = e;
                        self.buckets.set(cur, Some(e));
                        proof {
                            assert(self.slots() =~= s.update(cur as int, Some(e2)));
                            lemma_wf_same_shape(s, self.slots());
                            lemma_count_occupied_update(s, cur as int, e2);
                            lemma_entries_map_update(s, cur as int, e2);
                            lemma_slots_measure_update(s, cur as int, e2);
                            V::lemma_combine_measure(&s[cur as int]->Some_0.value, &value, &e2.value);
                        }
                        return ;
                    } else {
                        self.buckets.set(cur, Some(e));
                        proof {
                            assert(self.slots() =~= s);
                            assert(s[cur as int] is Some);
                            assert(slot_key(s[cur as int]) != key@);
                            assert forall|j2: int| 0 <= j2 < i + 1 implies {
                                &&& s[#[trigger] probe_at(h0, j2, size_i)] is Some
                                &&& slot_key(s[probe_at(h0, j2, size_i)]) != key@
                            } by {
                                if j2 < i {
                                    assert(path_blocked(s, key@, i as int));
                                } else {
                                    assert(probe_at(h0, j2, size_i) == cur as int);
                                }
                            }
                            assert((cur + 3) % size_i == probe_at(h0, i + 1, size_i)) by {
                                lemma_add_mod_noop(cur as int, 3, size_i);
                                lemma_small_mod(cur as nat, size_i as nat);
                                lemma_add_mod_noop(h0 + 3 * (i as int), 3, size_i);
                                assert(h0 + 3 * (i + 1) == h0 + 3 * (i as int) + 3);
                                assert((h0 + 3 * (i as int)) % size_i == cur as int);
                            };
                        }
                        cur = rehash(cur, size);
                        i = i + 1;
                    }
                },
                None => {
                    proof {
                        assert(first_stop(s, key@) == Some(i as int));
                        // the key is absent: its probe witness would contradict
                        // the blocked prefix ending at this empty slot
                        if has_key(s, key@) {
                            let ii = choose|ii: int|
                                0 <= ii < s.len() && #[trigger] s[ii] is Some && slot_key(s[ii])
                                    == key@;
                            assert(slot_reachable(s, ii));
                            let j = choose|j: int|
                                0 <= j && #[trigger] probe_at(spec_hash(key@, size_i), j, size_i)
                                    == ii && path_blocked(s, key@, j);
                            if j < i {
                                assert(s[probe_at(h0, j, size_i)] is Some && slot_key(
                                    s[probe_at(h0, j, size_i)],
                                ) != key@);
                            } else if j == i {
                                assert(probe_at(h0, j, size_i) == cur as int);
                            } else {
                                assert(s[probe_at(h0, i as int, size_i)] is Some);
                            }
                        }
                        lemma_entries_map_domain(s, key@);
                    }
                    let e = TableEntry { key: key.clone(), value: value };
                    let ghost enew = e;
                    self.buckets.set(cur, Some(e));
                    self.num_elements = self.num_elements + 1;
                    proof {
                        assert(self.slots() =~= s.update(cur as int, Some(enew)));
                        assert forall|i2: int|
                            0 <= i2 < s.len() && #[trigger] s[i2] is Some && i2 != cur as int
                                implies slot_key(s[i2]) != enew.key@ by {}
                        lemma_wf_after_fill(s, cur as int, enew, i as int);
                        lemma_count_occupied_update(s, cur as int, enew);
                        lemma_entries_map_update(s, cur as int, enew);
                        lemma_slots_measure_update(s, cur as int, enew);
                    }
                    return ;
                },
            }
        }
        proof {
            lemma_exists_empty_slot(s);
            let t = choose|t: int| 0 <= t < s.len() && !(#[trigger] s[t] is Some);
            lemma_mod_bound(spec_hash_u28(key@), size_i);
            lemma_probe_covers(h0, t, size_i);
            let j = choose|j: int| 0 <= j < size_i && #[trigger] probe_at(h0, j, size_i) == t;
            assert(s[probe_at(h0, j, size_i)] is Some);
            assert(false);
        }
    }
}

proof fn lemma_count_take_le<V>(s: Seq<Option<TableEntry<V>>>, n: int)
    requires
        0 <= n <= s.len(),
    ensures
        count_occupied(s.take(n)) <= count_occupied(s),
    decreases s.len() - n,
{
    if n < s.len() {
        lemma_count_take_le(s, n + 1);
        assert(s.take(n + 1).drop_last() =~= s.take(n));
        assert(count_occupied(s.take(n)) <= count_occupied(s.take(n + 1)));
    } else {
        assert(s.take(n) =~= s);
    }
}

proof fn lemma_all_empty_props<V>(s: Seq<Option<TableEntry<V>>>)
    requires
        forall|i: int| 0 <= i < s.len() ==> !(#[trigger] s[i] is Some),
    ensures
        table_wf(s),
        count_occupied(s) == 0,
        entries_map(s) == Map::<Seq<char>, V>::empty(),
    decreases s.len(),
{
    if s.len() > 0 {
        assert(forall|i: int|
            0 <= i < s.drop_last().len() ==> !(#[trigger] s.drop_last()[i] is Some));
        lemma_all_empty_props(s.drop_last());
        assert(entries_map(s) =~= Map::<Seq<char>, V>::empty());
    } else {
        assert(entries_map(s) =~= Map::<Seq<char>, V>::empty());
    }
}

/// Rebuilding into `newcap` slots keeps the capacity.
pub proof fn lemma_reinsert_upto_len<V: Combine>(
    olds: Seq<Option<TableEntry<V>>>,
    newcap: nat,
    n: int,
)
    requires
        n >= 0,
    ensures
        spec_reinsert_upto(olds, newcap, n).len() == newcap,
    decreases n,
{
    if n > 0 {
        lemma_reinsert_upto_len(olds, newcap, n - 1);
    }
}

/// The capacity after the growth step: doubled exactly when the table was
/// over half full and doubling cannot overflow.
pub proof fn lemma_spec_reindexed_len<V: Combine>(t: HashTable<V>)
    ensures
        t.spec_reindexed().len() == if t.num_elems() * 2 > t.capacity() && t.capacity() * 2
            <= usize::MAX - 3 {
            2 * t.capacity() as int
        } else {
            t.capacity() as int
        },
{
    if t.num_elems() * 2 > t.capacity() && t.capacity() * 2 <= usize::MAX - 3 {
        lemma_reinsert_upto_len(t.slots(), t.capacity() * 2, t.slots().len() as int);
    }
}

proof fn lemma_count_le_measure_slots<V: Combine>(s: Seq<Option<TableEntry<V>>>)
    requires
        forall|i: int|
            0 <= i < s.len() && #[trigger] s[i] is Some ==> s[i]->Some_0.value.measure() >= 1,
    ensures
        count_occupied(s) <= slots_measure(s),
    decreases s.len(),
{
    if s.len() > 0 {
        assert(forall|i: int|
            0 <= i < s.drop_last().len() && #[trigger] s.drop_last()[i] is Some
                ==> s.drop_last()[i]->Some_0.value.measure() >= 1);
        lemma_count_le_measure_slots(s.drop_last());
        if s.last() is Some {
            assert(s[s.len() - 1] is Some);
        }
    }
}

/// When every stored value has a positive measure, the element count is
/// bounded by the table's measure.
pub proof fn lemma_num_le_measure<V: Combine>(s: Seq<Option<TableEntry<V>>>)
    requires
        table_wf(s),
        forall|k: Seq<char>|
            #[trigger] entries_map(s).contains_key(k) ==> entries_map(s)[k].measure() >= 1,
    ensures
        count_occupied(s) <= slots_measure(s),
{
    assert forall|i: int|
        0 <= i < s.len() && #[trigger] s[i] is Some implies s[i]->Some_0.value.measure()
        >= 1 by {
        let k = slot_key(s[i]);
        assert(has_key(s, k));
        lemma_entries_map_domain(s, k);
        assert forall|i2: int|
            0 <= i2 < s.len() && #[trigger] s[i2] is Some && i2 != i implies slot_key(s[i2])
            != slot_key(s[i]) by {
            if slot_key(s[i2]) == slot_key(s[i]) {
                lemma_key_unique(s, i2, i);
            }
        }
        lemma_entries_map_value(s, i);
    }
    lemma_count_le_measure_slots(s);
}

} // verus!
