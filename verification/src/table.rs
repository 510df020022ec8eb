//! The hash table: a string-keyed map with open addressing, double hashing,
//! tombstone deletion and load-factor driven resizing.
//!
//! A table is well formed (`HashTable::wf`) when its slot array has exactly
//! its prime capacity, its count equals the number of occupied slots, no key
//! occupies two slots, and every occupied slot lies on its key's probe path
//! with no empty slot at an earlier attempt. That last invariant is what
//! makes a scan that stops at the first empty slot complete: a key that the
//! scan did not meet is not in the table at all.

use crate::hashing::spec_probe;
use crate::hashing::PRIME_1;
use crate::hashing::PRIME_2;
use crate::prime::is_next_prime_from;
use crate::prime::lemma_composite_has_small_factor;
use crate::prime::spec_is_prime;
use crate::prime::Prime;
use vstd::prelude::*;

verus! {

/// Default base size of a new table, and the floor below which a table never
/// shrinks.
pub const INITIAL_BASE_SIZE: usize = 53;

/// One stored entry: an owned key and its value.
pub struct HashTableItem {
    pub key: String,
    pub value: String,
}

impl HashTableItem {
    /// Build an entry that owns copies of the given key and value.
    pub fn new(key: &str, value: &str) -> (r: Self)
        ensures
            r.key@ == key@,
            r.value@ == value@,
    {
        Self { key: key.to_owned(), value: value.to_owned() }
    }
}

/// One slot of the table: never used, deleted (a tombstone that keeps probe
/// sequences intact), or holding an entry.
pub enum Slot {
    Empty,
    Tombstone,
    Occupied(HashTableItem),
}

/// The key stored in an occupied slot.
pub open spec fn slot_key(s: Slot) -> Seq<char> {
    s->Occupied_0.key@
}

/// The value stored in an occupied slot.
pub open spec fn slot_value(s: Slot) -> Seq<char> {
    s->Occupied_0.value@
}

/// Slot `i` holds the key `k`.
pub open spec fn key_at(slots: Seq<Slot>, k: Seq<char>, i: int) -> bool {
    &&& 0 <= i < slots.len()
    &&& slots[i] is Occupied
    &&& slot_key(slots[i]) == k
}

/// Some slot holds the key `k`.
pub open spec fn contains_key(slots: Seq<Slot>, k: Seq<char>) -> bool {
    exists|i: int| key_at(slots, k, i)
}

/// Some slot binds the key `k` to the value `v`.
pub open spec fn maps_to(slots: Seq<Slot>, k: Seq<char>, v: Seq<char>) -> bool {
    exists|i: int| key_at(slots, k, i) && slot_value(slots[i]) == v
}

/// How many slots are occupied.
pub open spec fn count_occupied(s: Seq<Slot>) -> int
    decreases s.len(),
{
    if s.len() == 0 {
        0
    } else {
        count_occupied(s.drop_last()) + if s.last() is Occupied {
            1int
        } else {
            0int
        }
    }
}

/// No two occupied slots hold the same key.
pub open spec fn keys_unique(slots: Seq<Slot>) -> bool {
    forall|i: int, j: int|
        0 <= i < slots.len() && 0 <= j < slots.len() && i != j && #[trigger] slots[i] is Occupied
            && #[trigger] slots[j] is Occupied ==> slot_key(slots[i]) != slot_key(slots[j])
}

/// Index `i` lies on the probe path of key `k` at some attempt whose earlier
/// attempts all land on non-empty slots, so a scan for `k` reaches it.
pub open spec fn reachable_at(slots: Seq<Slot>, k: Seq<char>, i: int) -> bool {
    exists|a: int|
        0 <= a < slots.len() && #[trigger] spec_probe(k, slots.len() as int, a) == i && (forall|
            b: int,
        |
            0 <= b < a ==> !(slots[#[trigger] spec_probe(k, slots.len() as int, b)] is Empty))
}

/// The slot-array invariant: unique keys, every entry reachable by probing.
pub open spec fn slots_wf(slots: Seq<Slot>) -> bool {
    &&& keys_unique(slots)
    &&& forall|i: int|
        0 <= i < slots.len() && #[trigger] slots[i] is Occupied ==> reachable_at(
            slots,
            slot_key(slots[i]),
            i,
        )
}

/// The key `k` either already has a slot or some probe attempt below the
/// capacity lands on a slot that is free for it.
pub open spec fn can_insert(slots: Seq<Slot>, k: Seq<char>) -> bool {
    ||| contains_key(slots, k)
    ||| exists|a: int|
        0 <= a < slots.len() && !(slots[#[trigger] spec_probe(
            k,
            slots.len() as int,
            a,
        )] is Occupied)
}

/// Attempt `a` is the first one on the probe path of key `k` whose slot is
/// not occupied: the slot a fresh key is written into.
pub open spec fn first_free_attempt(slots: Seq<Slot>, k: Seq<char>, a: int) -> bool {
    &&& 0 <= a < slots.len()
    &&& !(slots[spec_probe(k, slots.len() as int, a)] is Occupied)
    &&& forall|b: int|
        0 <= b < a ==> (slots[#[trigger] spec_probe(k, slots.len() as int, b)]) is Occupied
}

/// Every key stored in the table has a nonzero probe step modulo `cap`, so
/// its probe sequence in a table of that capacity visits every slot.
pub open spec fn all_keys_nondegenerate(slots: Seq<Slot>, cap: int) -> bool {
    forall|i: int|
        0 <= i < slots.len() && #[trigger] slots[i] is Occupied ==> crate::hashing::step_nonzero(
            slot_key(slots[i]),
            cap,
        )
}

/// A rebuild at base size `base` is certain to complete with capacity `p`:
/// `p` is the next prime at or above `base`, it is representable, the stored
/// entries leave at least one slot free, and no stored key degenerates at
/// that capacity.
pub open spec fn rebuild_fits(slots: Seq<Slot>, base: int, p: int) -> bool {
    &&& is_next_prime_from(base, p)
    &&& p <= usize::MAX
    &&& count_occupied(slots) < base
    &&& all_keys_nondegenerate(slots, p)
}

/// The pair `(k, v)` is stored in one of the first `n` slots.
pub open spec fn entry_in_prefix(slots: Seq<Slot>, n: int, k: Seq<char>, v: Seq<char>) -> bool {
    exists|i: int|
        0 <= i < n && #[trigger] slots[i] is Occupied && slot_key(slots[i]) == k && slot_value(
            slots[i],
        ) == v
}

/// The hash table.
pub struct HashTable {
    /// Physical length of the slot array; always prime.
    pub capacity: usize,
    /// Number of occupied slots.
    pub count: usize,
    /// The requested size that resize arithmetic works on, before rounding
    /// up to the prime capacity.
    pub base_size: usize,
    /// The slot array.
    pub slots: Vec<Slot>,
}

impl HashTable {
    /// The table invariant.
    pub open spec fn wf(self) -> bool {
        &&& self.slots@.len() == self.capacity
        &&& self.capacity >= 2
        &&& spec_is_prime(self.capacity as int)
        &&& self.count as int == count_occupied(self.slots@)
        &&& slots_wf(self.slots@)
    }
}

/// Updating one slot changes the occupied count by the difference of the old
/// and new slot states.
proof fn lemma_count_update(s: Seq<Slot>, i: int, x: Slot)
    requires
        0 <= i < s.len(),
    ensures
        count_occupied(s.update(i, x)) == count_occupied(s) - (if s[i] is Occupied {
            1int
        } else {
            0int
        }) + (if x is Occupied {
            1int
        } else {
            0int
        }),
    decreases s.len(),
{
    if i == s.len() - 1 {
        assert(s.update(i, x).drop_last() =~= s.drop_last());
    } else {
        assert(s.update(i, x).drop_last() =~= s.drop_last().update(i, x));
        lemma_count_update(s.drop_last(), i, x);
    }
}

/// The occupied count is between zero and the length.
proof fn lemma_count_bounds(s: Seq<Slot>)
    ensures
        0 <= count_occupied(s) <= s.len(),
    decreases s.len(),
{
    if s.len() > 0 {
        lemma_count_bounds(s.drop_last());
    }
}

/// A slot that is not occupied keeps the occupied count below the length.
proof fn lemma_count_nonfull(s: Seq<Slot>, i: int)
    requires
        0 <= i < s.len(),
        !(s[i] is Occupied),
    ensures
        count_occupied(s) < s.len(),
    decreases s.len(),
{
    lemma_count_bounds(s.drop_last());
    if i < s.len() - 1 {
        lemma_count_nonfull(s.drop_last(), i);
    }
}

/// An occupied slot makes the occupied count positive.
proof fn lemma_count_positive(s: Seq<Slot>, i: int)
    requires
        0 <= i < s.len(),
        s[i] is Occupied,
    ensures
        count_occupied(s) >= 1,
    decreases s.len(),
{
    lemma_count_bounds(s.drop_last());
    if i < s.len() - 1 {
        lemma_count_positive(s.drop_last(), i);
    }
}

/// Counting one more prefix slot adds that slot's contribution.
proof fn lemma_count_take_step(s: Seq<Slot>, i: int)
    requires
        0 <= i < s.len(),
    ensures
        count_occupied(s.take(i + 1)) == count_occupied(s.take(i)) + (if s[i] is Occupied {
            1int
        } else {
            0int
        }),
{
    assert(s.take(i + 1).drop_last() =~= s.take(i));
    assert(s.take(i + 1).last() == s[i]);
}

/// A prefix never holds more occupied slots than the whole sequence.
proof fn lemma_count_take_le(s: Seq<Slot>, i: int)
    requires
        0 <= i <= s.len(),
    ensures
        count_occupied(s.take(i)) <= count_occupied(s),
    decreases s.len() - i,
{
    if i == s.len() {
        assert(s.take(i) =~= s);
    } else {
        lemma_count_take_step(s, i);
        lemma_count_take_le(s, i + 1);
    }
}

/// If no slot is occupied, the occupied count is zero.
proof fn lemma_count_none(s: Seq<Slot>)
    requires
        forall|i: int| 0 <= i < s.len() ==> !(#[trigger] s[i] is Occupied),
    ensures
        count_occupied(s) == 0,
    decreases s.len(),
{
    if s.len() > 0 {
        lemma_count_none(s.drop_last());
    }
}

/// If the occupied count is below the length, some slot is not occupied.
proof fn lemma_count_nonfull_converse(s: Seq<Slot>)
    requires
        count_occupied(s) < s.len(),
    ensures
        exists|i: int| 0 <= i < s.len() && !(#[trigger] s[i] is Occupied),
    decreases s.len(),
{
    lemma_count_bounds(s.drop_last());
    if s.last() is Occupied {
        lemma_count_nonfull_converse(s.drop_last());
        let i = choose|i: int| 0 <= i < s.len() - 1 && !(#[trigger] s.drop_last()[i] is Occupied);
        assert(!(s[i] is Occupied));
    } else {
        assert(!(s[s.len() - 1] is Occupied));
    }
}

/// A table that is not full can always take one more entry under any key
/// whose probe step is nonzero: some slot is free, and the probe sequence
/// of such a key reaches every slot.
pub proof fn lemma_nonfull_can_insert(slots: Seq<Slot>, k: Seq<char>)
    requires
        spec_is_prime(slots.len() as int),
        crate::hashing::step_nonzero(k, slots.len() as int),
        count_occupied(slots) < slots.len(),
    ensures
        can_insert(slots, k),
{
    lemma_count_nonfull_converse(slots);
    let i = choose|i: int| 0 <= i < slots.len() && !(#[trigger] slots[i] is Occupied);
    crate::hashing::lemma_probe_covers(k, slots.len() as int, i);
    let a = choose|a: int| 0 <= a < slots.len() && spec_probe(k, slots.len() as int, a) == i;
    assert(0 <= a < slots.len() && !(slots[spec_probe(k, slots.len() as int, a)] is Occupied));
}

/// Reachability survives any change that leaves non-empty slots non-empty.
proof fn lemma_reachable_monotone(s1: Seq<Slot>, s2: Seq<Slot>, k: Seq<char>, i: int)
    requires
        s1.len() == s2.len(),
        reachable_at(s1, k, i),
        forall|p: int| 0 <= p < s1.len() && !(#[trigger] s1[p] is Empty) ==> !(s2[p] is Empty),
    ensures
        reachable_at(s2, k, i),
{
    let cap = s1.len() as int;
    let a = choose|a: int|
        0 <= a < s1.len() && #[trigger] spec_probe(k, cap, a) == i && (forall|b: int|
            0 <= b < a ==> !(s1[#[trigger] spec_probe(k, cap, b)] is Empty));
    assert forall|b: int| 0 <= b < a implies !(s2[#[trigger] spec_probe(k, cap, b)] is Empty) by {
        vstd::arithmetic::div_mod::lemma_mod_bound(
            crate::hashing::poly_hash(k, PRIME_1 as int, cap) + b * (crate::hashing::poly_hash(
                k,
                PRIME_2 as int,
                cap,
            ) + 1),
            cap,
        );
        assert(!(s1[spec_probe(k, cap, b)] is Empty));
    }
    assert(0 <= a < s2.len() && spec_probe(k, cap, a) == i);
}

/// A scan that saw no match and no empty slot over the attempts `0..a`, and
/// then either exhausted every attempt or hit an empty slot, proves the key
/// absent: a present key would be reachable at some attempt the scan covered.
proof fn lemma_key_absent(slots: Seq<Slot>, k: Seq<char>, a: int)
    requires
        slots.len() >= 1,
        slots_wf(slots),
        0 <= a <= slots.len(),
        forall|b: int|
            0 <= b < a ==> !key_at(slots, k, #[trigger] spec_probe(k, slots.len() as int, b)),
        forall|b: int|
            0 <= b < a ==> !(slots[#[trigger] spec_probe(k, slots.len() as int, b)] is Empty),
        a == slots.len() || slots[spec_probe(k, slots.len() as int, a)] is Empty,
    ensures
        !contains_key(slots, k),
{
    let cap = slots.len() as int;
    if contains_key(slots, k) {
        let i = choose|i: int| key_at(slots, k, i);
        assert(reachable_at(slots, k, i));
        let am = choose|am: int|
            0 <= am < slots.len() && #[trigger] spec_probe(k, cap, am) == i && (forall|b: int|
                0 <= b < am ==> !(slots[#[trigger] spec_probe(k, cap, b)] is Empty));
        if am < a {
            assert(key_at(slots, k, spec_probe(k, cap, am)));
            assert(false);
        } else {
            assert(a < slots.len());
            assert(!(slots[spec_probe(k, cap, a)] is Empty));
            assert(false);
        }
    }
}

/// With unique keys, a key is bound to at most one value.
pub proof fn lemma_maps_to_unique(slots: Seq<Slot>, k: Seq<char>, v1: Seq<char>, v2: Seq<char>)
    requires
        keys_unique(slots),
        maps_to(slots, k, v1),
        maps_to(slots, k, v2),
    ensures
        v1 == v2,
{
    let i1 = choose|i: int| key_at(slots, k, i) && slot_value(slots[i]) == v1;
    let i2 = choose|i: int| key_at(slots, k, i) && slot_value(slots[i]) == v2;
    if i1 != i2 {
        assert(slot_key(slots[i1]) == slot_key(slots[i2]));
        assert(false);
    }
}

/// The default base size is prime.
proof fn lemma_initial_base_is_prime()
    ensures
        spec_is_prime(INITIAL_BASE_SIZE as int),
{
    if !spec_is_prime(53) {
        let d = choose|d: int| 2 <= d < 53 && #[trigger] (53int % d) == 0;
        lemma_composite_has_small_factor(53, d);
        let f = choose|f: int| 2 <= f < 53 && f * f <= 53 && (#[trigger] (53int % f)) == 0;
        assert(2 <= f <= 7) by (nonlinear_arith)
            requires
                f * f <= 53,
                f >= 2,
        ;
        assert(53int % 2 == 1);
        assert(53int % 3 == 2);
        assert(53int % 4 == 1);
        assert(53int % 5 == 3);
        assert(53int % 6 == 5);
        assert(53int % 7 == 4);
        assert(false);
    }
}

impl HashTable {
    /// The polynomial string hash: the value of the key's code-point
    /// polynomial in `prime`, reduced modulo `m` after every step.
    pub fn hash(text: &str, prime: u128, m: u128) -> (r: usize)
        requires
            1 <= m <= usize::MAX as u128,
            prime <= u64::MAX as u128,
        ensures
            r as int == crate::hashing::poly_hash(text@, prime as int, m as int),
            r < m,
    {
        let text_len = text.unicode_len();
        let mut h: u128 = 0;
        let mut i: usize = 0;
        assert(text@.take(0) =~= Seq::<char>::empty());
        proof {
            vstd::arithmetic::div_mod::lemma_small_mod(0, m as nat);
        }
        while i < text_len
            invariant
                0 <= i <= text_len,
                text_len == text@.len(),
                h as int == crate::hashing::poly_hash(text@.take(i as int), prime as int, m as int),
                h < m,
            decreases text_len - i,
        {
            let c = text.get_char(i);
            proof {
                let pre = text@.take(i as int);
                let cur = text@.take(i + 1);
                assert(cur.drop_last() =~= pre);
                assert(cur.last() == text@[i as int]);
                let x = crate::hashing::poly(pre, prime as int);
                vstd::arithmetic::div_mod::lemma_mul_mod_noop_left(x, prime as int, m as int);
                vstd::arithmetic::div_mod::lemma_add_mod_noop(
                    (x % m as int) * prime as int,
                    c as int,
                    m as int,
                );
                vstd::arithmetic::div_mod::lemma_add_mod_noop(
                    x * prime as int,
                    c as int,
                    m as int,
                );
                assert((h as int * prime as int + c as int) % m as int == crate::hashing::poly_hash(
                    cur,
                    prime as int,
                    m as int,
                ));
                assert(h * prime + (c as u128) <= u128::MAX) by (nonlinear_arith)
                    requires
                        h < m,
                        m <= 0xffff_ffff_ffff_ffff_u128 + 1,
                        prime <= 0xffff_ffff_ffff_ffff_u128,
                        c as u128 <= 0x10ffff_u128,
                ;
            }
            h = (h * prime + (c as u128)) % m;
            i = i + 1;
        }
        assert(text@.take(text_len as int) =~= text@);
        proof {
            vstd::arithmetic::div_mod::lemma_mod_bound(
                crate::hashing::poly(text@, prime as int),
                m as int,
            );
        }
        h as usize
    }

    /// The probe index for a key on the given attempt: double hashing with
    /// the step `hash_b + 1`.
    pub fn get_hash(text: &str, num_buckets: usize, attempt: usize) -> (r: usize)
        requires
            num_buckets >= 1,
        ensures
            r as int == spec_probe(text@, num_buckets as int, attempt as int),
            r < num_buckets,
    {
        let m = num_buckets as u128;
        let hash_a = Self::hash(text, PRIME_1, m);
        let hash_b = Self::hash(text, PRIME_2, m);
        proof {
            assert((hash_a as u128) + (attempt as u128) * ((hash_b as u128) + 1) <= u128::MAX)
                by (nonlinear_arith)
                requires
                    hash_a as u128 <= 0xffff_ffff_ffff_ffff_u128,
                    attempt as u128 <= 0xffff_ffff_ffff_ffff_u128,
                    (hash_b as u128) + 1 <= 0xffff_ffff_ffff_ffff_u128 + 1,
            ;
        }
        let idx = ((hash_a as u128) + (attempt as u128) * ((hash_b as u128) + 1)) % m;
        proof {
            vstd::arithmetic::div_mod::lemma_mod_bound(
                hash_a as int + attempt as int * (hash_b as int + 1),
                num_buckets as int,
            );
        }
        idx as usize
    }

    /// Store the entry in the slot the probe sequence selects, without any
    /// load-factor bookkeeping: overwrite the key's slot if the key is
    /// present, otherwise reclaim the first tombstone met or fill the first
    /// empty slot. Returns whether the entry was stored; it is not when every
    /// probed slot holds some other key, which the load-factor policy keeps
    /// from happening except at the degenerate probe-step boundary.
    #[verifier::rlimit(100)]
    fn place(&mut self, key: &str, value: &str) -> (placed: bool)
        requires
            old(self).wf(),
        ensures
            final(self).wf(),
            final(self).capacity == old(self).capacity,
            final(self).base_size == old(self).base_size,
            can_insert(old(self).slots@, key@) ==> placed,
            placed ==> maps_to(final(self).slots@, key@, value@) && contains_key(
                final(self).slots@,
                key@,
            ),
            !placed ==> *final(self) == *old(self) && !contains_key(old(self).slots@, key@),
            forall|k2: Seq<char>, v2: Seq<char>|
                k2 != key@ ==> (maps_to(final(self).slots@, k2, v2) <==> maps_to(
                    old(self).slots@,
                    k2,
                    v2,
                )),
            contains_key(old(self).slots@, key@) ==> final(self).count == old(self).count,
            placed && !contains_key(old(self).slots@, key@) ==> final(self).count as int == old(self).count as int + 1,
            !contains_key(final(self).slots@, key@) ==> final(self).count == old(self).count,
            forall|ii: int|
                0 <= ii < final(self).slots@.len() && #[trigger] final(self).slots@[ii] is Tombstone ==> old(self).slots@[ii] is Tombstone,
            placed && !contains_key(old(self).slots@, key@) ==> (exists|a: int|
                first_free_attempt(old(self).slots@, key@, a) && key_at(
                    final(self).slots@,
                    key@,
                    spec_probe(key@, old(self).capacity as int, a),
                ) && slot_value(
                    final(self).slots@[spec_probe(key@, old(self).capacity as int, a)],
                ) == value@ && (forall|ii: int|
                    0 <= ii < final(self).slots@.len() && ii != spec_probe(
                        key@,
                        old(self).capacity as int,
                        a,
                    ) ==> final(self).slots@[ii] == old(self).slots@[ii])),
            placed && contains_key(old(self).slots@, key@) ==> (exists|j: int|
                key_at(old(self).slots@, key@, j) && key_at(final(self).slots@, key@, j)
                    && slot_value(final(self).slots@[j]) == value@ && (forall|ii: int|
                    0 <= ii < final(self).slots@.len() && ii != j ==> final(self).slots@[ii]
                        == old(self).slots@[ii])),
    {
        let cap = self.capacity;
        let ghost k = key@;
        let key_s: String = key.to_owned();
        let mut a: usize = 0;
        let mut first_free: Option<usize> = None;
        let mut match_at: Option<usize> = None;
        let mut done: bool = false;
        let ghost mut ffb: int = 0;
        while a < cap && !done
            invariant
                a <= cap,
                key_s@ == k,
                forall|b: int|
                    0 <= b < a ==> !(self.slots@[#[trigger] spec_probe(
                        k,
                        cap as int,
                        b,
                    )] is Empty),
                forall|b: int|
                    0 <= b < a ==> !key_at(self.slots@, k, #[trigger] spec_probe(
                        k,
                        cap as int,
                        b,
                    )),
                match_at matches Some(j) ==> done && key_at(self.slots@, k, j as int),
                first_free is None ==> (forall|b: int|
                    0 <= b < a ==> (self.slots@[#[trigger] spec_probe(
                        k,
                        cap as int,
                        b,
                    )]) is Occupied),
                first_free matches Some(j)
                    ==> 0 <= ffb < cap && spec_probe(k, cap as int, ffb) == j as int && j < cap
                    && !((self.slots@[j as int]) is Occupied) && (forall|b: int|
                    0 <= b < ffb ==> (self.slots@[#[trigger] spec_probe(
                        k,
                        cap as int,
                        b,
                    )]) is Occupied),
                done && match_at is None ==> a < cap && (self.slots@[spec_probe(
                    k,
                    cap as int,
                    a as int,
                )]) is Empty && first_free is Some,
            decreases cap - a + (if done {
                0int
            } else {
                1int
            }),
        {
            let j = Self::get_hash(key, cap, a);
            match &self.slots[j] {
                Slot::Occupied(it) => {
                    if it.key == key_s {
                        match_at = Some(j);
                        done = true;
                    } else {
                        a = a + 1;
                    }
                },
                Slot::Tombstone => {
                    if first_free.is_none() {
                        first_free = Some(j);
                        proof {
                            ffb = a as int;
                        }
                    }
                    a = a + 1;
                },
                Slot::Empty => {
                    if first_free.is_none() {
                        first_free = Some(j);
                        proof {
                            ffb = a as int;
                        }
                    }
                    done = true;
                },
            }
        }
        let ghost pre = self.slots@;
        if match_at.is_some() {
            let j = match match_at {
                Some(j) => j,
                None => 0,
            };
            let item = HashTableItem::new(key, value);
            proof {
                lemma_count_update(pre, j as int, Slot::Occupied(item));
            }
            self.slots[j] = Slot::Occupied(item);
            proof {
                let post = self.slots@;
                assert(post == pre.update(j as int, Slot::Occupied(item)));
                assert(keys_unique(post)) by {
                    assert forall|i1: int, i2: int|
                        0 <= i1 < post.len() && 0 <= i2 < post.len() && i1 != i2
                            && #[trigger] post[i1] is Occupied
                            && #[trigger] post[i2] is Occupied implies slot_key(post[i1])
                        != slot_key(post[i2]) by {
                        if i1 != j && i2 != j {
                            assert(post[i1] == pre[i1] && post[i2] == pre[i2]);
                        } else if i1 == j {
                            assert(pre[i2] == post[i2]);
                            assert(slot_key(pre[j as int]) == k);
                        } else {
                            assert(pre[i1] == post[i1]);
                            assert(slot_key(pre[j as int]) == k);
                        }
                    }
                }
                assert forall|i: int|
                    0 <= i < post.len() && #[trigger] post[i] is Occupied implies reachable_at(
                    post,
                    slot_key(post[i]),
                    i,
                ) by {
                    if i == j as int {
                        assert(reachable_at(pre, k, i));
                        lemma_reachable_monotone(pre, post, k, i);
                        assert(slot_key(post[i]) == k);
                    } else {
                        assert(pre[i] == post[i]);
                        assert(reachable_at(pre, slot_key(pre[i]), i));
                        lemma_reachable_monotone(pre, post, slot_key(pre[i]), i);
                    }
                }
                assert(maps_to(post, k, value@)) by {
                    assert(key_at(post, k, j as int) && slot_value(post[j as int]) == value@);
                }
                assert forall|k2: Seq<char>, v2: Seq<char>| k2 != k implies (maps_to(post, k2, v2)
                    <==> maps_to(pre, k2, v2)) by {
                    if maps_to(post, k2, v2) {
                        let i = choose|i: int| key_at(post, k2, i) && slot_value(post[i]) == v2;
                        assert(i != j as int);
                        assert(key_at(pre, k2, i) && slot_value(pre[i]) == v2);
                    }
                    if maps_to(pre, k2, v2) {
                        let i = choose|i: int| key_at(pre, k2, i) && slot_value(pre[i]) == v2;
                        assert(i != j as int) by {
                            if i == j as int {
                                assert(slot_key(pre[j as int]) == k);
                            }
                        }
                        assert(key_at(post, k2, i) && slot_value(post[i]) == v2);
                    }
                }
                assert(contains_key(pre, k)) by {
                    assert(key_at(pre, k, j as int));
                }
            }
            true
        } else if first_free.is_some() {
            let j = match first_free {
                Some(j) => j,
                None => 0,
            };
            proof {
                // the scan ended at an empty slot or ran out of attempts
                if done {
                    lemma_key_absent(pre, k, a as int);
                } else {
                    lemma_key_absent(pre, k, cap as int);
                }
                lemma_count_nonfull(pre, j as int);
            }
            let item = HashTableItem::new(key, value);
            proof {
                lemma_count_update(pre, j as int, Slot::Occupied(item));
            }
            self.slots[j] = Slot::Occupied(item);
            self.count = self.count + 1;
            proof {
                let post = self.slots@;
                assert(post == pre.update(j as int, Slot::Occupied(item)));
                assert(keys_unique(post)) by {
                    assert forall|i1: int, i2: int|
                        0 <= i1 < post.len() && 0 <= i2 < post.len() && i1 != i2
                            && #[trigger] post[i1] is Occupied
                            && #[trigger] post[i2] is Occupied implies slot_key(post[i1])
                        != slot_key(post[i2]) by {
                        if i1 != j && i2 != j {
                            assert(post[i1] == pre[i1] && post[i2] == pre[i2]);
                        } else if i1 == j {
                            assert(pre[i2] == post[i2]);
                            if slot_key(post[i2]) == k {
                                assert(key_at(pre, k, i2));
                                assert(false);
                            }
                        } else {
                            assert(pre[i1] == post[i1]);
                            if slot_key(post[i1]) == k {
                                assert(key_at(pre, k, i1));
                                assert(false);
                            }
                        }
                    }
                }
                assert forall|i: int|
                    0 <= i < post.len() && #[trigger] post[i] is Occupied implies reachable_at(
                    post,
                    slot_key(post[i]),
                    i,
                ) by {
                    if i == j as int {
                        assert forall|b: int| 0 <= b < ffb implies !(post[#[trigger] spec_probe(
                            k,
                            cap as int,
                            b,
                        )] is Empty) by {
                            assert(pre[spec_probe(k, cap as int, b)] is Occupied);
                            if spec_probe(k, cap as int, b) != j as int {
                                assert(post[spec_probe(k, cap as int, b)] == pre[spec_probe(
                                    k,
                                    cap as int,
                                    b,
                                )]);
                            }
                        }
                        assert(0 <= ffb < post.len() && spec_probe(k, post.len() as int, ffb)
                            == i);
                        assert(reachable_at(post, k, i));
                        assert(slot_key(post[i]) == k);
                    } else {
                        assert(pre[i] == post[i]);
                        assert(reachable_at(pre, slot_key(pre[i]), i));
                        lemma_reachable_monotone(pre, post, slot_key(pre[i]), i);
                    }
                }
                assert(maps_to(post, k, value@)) by {
                    assert(key_at(post, k, j as int) && slot_value(post[j as int]) == value@);
                }
                assert forall|k2: Seq<char>, v2: Seq<char>| k2 != k implies (maps_to(post, k2, v2)
                    <==> maps_to(pre, k2, v2)) by {
                    if maps_to(post, k2, v2) {
                        let i = choose|i: int| key_at(post, k2, i) && slot_value(post[i]) == v2;
                        assert(i != j as int);
                        assert(key_at(pre, k2, i) && slot_value(pre[i]) == v2);
                    }
                    if maps_to(pre, k2, v2) {
                        let i = choose|i: int| key_at(pre, k2, i) && slot_value(pre[i]) == v2;
                        assert(i != j as int);
                        assert(key_at(post, k2, i) && slot_value(post[i]) == v2);
                    }
                }
                assert(first_free_attempt(pre, k, ffb));
                assert(key_at(post, k, spec_probe(k, cap as int, ffb)) && slot_value(
                    post[spec_probe(k, cap as int, ffb)],
                ) == value@);
            }
            true
        } else {
            proof {
                lemma_key_absent(pre, k, cap as int);
                assert(!can_insert(pre, k)) by {
                    if can_insert(pre, k) {
                        let aa = choose|aa: int|
                            0 <= aa < pre.len() && !(pre[#[trigger] spec_probe(
                                k,
                                pre.len() as int,
                                aa,
                            )] is Occupied);
                        assert((pre[spec_probe(k, cap as int, aa)]) is Occupied);
                        assert(false);
                    }
                }
            }
            false
        }
    }

    /// A table with the default base size.
    pub fn new() -> (r: Self)
        ensures
            r.wf(),
            r.count == 0,
            r.base_size == INITIAL_BASE_SIZE,
            r.capacity == INITIAL_BASE_SIZE,
            forall|k: Seq<char>| !contains_key(r.slots@, k),
            forall|i: int| 0 <= i < r.slots@.len() ==> (#[trigger] r.slots@[i]) is Empty,
    {
        proof {
            lemma_initial_base_is_prime();
        }
        let r = Self::new_sized(INITIAL_BASE_SIZE);
        proof {
            assert(is_next_prime_from(INITIAL_BASE_SIZE as int, r.capacity as int));
            if r.capacity > INITIAL_BASE_SIZE {
                assert(!spec_is_prime(INITIAL_BASE_SIZE as int));
            }
        }
        r
    }

    /// A table whose capacity is the next prime at or above the requested
    /// base size.
    pub fn new_sized(base_size: usize) -> (r: Self)
        ensures
            r.wf(),
            r.count == 0,
            r.base_size == base_size,
            forall|k: Seq<char>| !contains_key(r.slots@, k),
            forall|i: int| 0 <= i < r.slots@.len() ==> (#[trigger] r.slots@[i]) is Empty,
            (exists|p: int| base_size <= p <= usize::MAX && spec_is_prime(p))
                ==> is_next_prime_from(base_size as int, r.capacity as int),
    {
        let mut pr = Prime(base_size);
        let cap = pr.next_prime();
        let mut slots: Vec<Slot> = Vec::new();
        let mut i: usize = 0;
        while i < cap
            invariant
                i <= cap,
                slots@.len() == i,
                forall|j: int| 0 <= j < i ==> (#[trigger] slots@[j]) is Empty,
            decreases cap - i,
        {
            slots.push(Slot::Empty);
            i = i + 1;
        }
        proof {
            lemma_count_none(slots@);
        }
        let r = Self { capacity: cap, count: 0, base_size, slots };
        proof {
            assert forall|k: Seq<char>| !contains_key(r.slots@, k) by {
                if contains_key(r.slots@, k) {
                    let ii = choose|ii: int| key_at(r.slots@, k, ii);
                    assert(false);
                }
            }
        }
        r
    }

    /// Look the key up: its stored value, or `None` when a scan of the
    /// probe sequence meets an empty slot or exhausts the capacity first.
    pub fn search(&self, key: &str) -> (r: Option<String>)
        requires
            self.wf(),
        ensures
            r is Some <==> contains_key(self.slots@, key@),
            r matches Some(v) ==> maps_to(self.slots@, key@, v@),
    {
        let cap = self.capacity;
        let ghost k = key@;
        let key_s: String = key.to_owned();
        let mut a: usize = 0;
        let mut result: Option<String> = None;
        let mut done: bool = false;
        while a < cap && !done
            invariant
                a <= cap,
                key_s@ == k,
                forall|b: int|
                    0 <= b < a ==> !(self.slots@[#[trigger] spec_probe(
                        k,
                        cap as int,
                        b,
                    )] is Empty),
                forall|b: int|
                    0 <= b < a ==> !key_at(self.slots@, k, #[trigger] spec_probe(
                        k,
                        cap as int,
                        b,
                    )),
                result matches Some(v) ==> done && maps_to(self.slots@, k, v@) && contains_key(
                    self.slots@,
                    k,
                ),
                done && result is None ==> a < cap && (self.slots@[spec_probe(
                    k,
                    cap as int,
                    a as int,
                )]) is Empty,
            decreases cap - a + (if done {
                0int
            } else {
                1int
            }),
        {
            let j = Self::get_hash(key, cap, a);
            match &self.slots[j] {
                Slot::Occupied(it) => {
                    if it.key == key_s {
                        result = Some(it.value.clone());
                        done = true;
                        proof {
                            assert(key_at(self.slots@, k, j as int));
                        }
                    } else {
                        a = a + 1;
                    }
                },
                Slot::Tombstone => {
                    a = a + 1;
                },
                Slot::Empty => {
                    done = true;
                },
            }
        }
        proof {
            if result is None {
                if done {
                    lemma_key_absent(self.slots@, k, a as int);
                } else {
                    lemma_key_absent(self.slots@, k, cap as int);
                }
            }
        }
        result
    }

    /// Remove the key if present, replacing its slot with a tombstone so
    /// that other keys' probe sequences stay intact. A delete of an absent
    /// key leaves the table as it was; a shrink may fire first when the load
    /// factor has fallen under 10%, but never below the base-size floor.
    pub fn delete(&mut self, key: &str)
        requires
            old(self).wf(),
        ensures
            final(self).wf(),
            !contains_key(final(self).slots@, key@),
            forall|k2: Seq<char>, v2: Seq<char>|
                k2 != key@ ==> (maps_to(final(self).slots@, k2, v2) <==> maps_to(
                    old(self).slots@,
                    k2,
                    v2,
                )),
            contains_key(old(self).slots@, key@) ==> final(self).count as int == old(self).count as int - 1,
            !contains_key(old(self).slots@, key@) ==> final(self).count == old(self).count,
            old(self).count as int * 100 / old(self).capacity as int >= 10 ==> final(self).capacity == old(self).capacity && final(self).base_size == old(self).base_size,
            final(self).base_size == old(self).base_size || (final(self).base_size == old(self).base_size / 2 && old(self).base_size / 2 >= INITIAL_BASE_SIZE),
            final(self).capacity == old(self).capacity || (final(self).base_size == old(self).base_size / 2 && ((exists|q: int|
                old(self).base_size / 2 <= q <= usize::MAX && spec_is_prime(q))
                ==> is_next_prime_from(
                old(self).base_size as int / 2,
                final(self).capacity as int,
            ))),
            forall|p: int|
                (old(self).count as int * 100 / old(self).capacity as int) < 10 && old(self).base_size / 2 >= INITIAL_BASE_SIZE && #[trigger] rebuild_fits(
                    old(self).slots@,
                    old(self).base_size as int / 2,
                    p,
                ) ==> final(self).base_size == old(self).base_size / 2 && final(self).capacity
                    == p,
            old(self).count as int * 100 / old(self).capacity as int >= 10 && contains_key(
                old(self).slots@,
                key@,
            ) ==> (exists|j: int|
                key_at(old(self).slots@, key@, j) && final(self).slots@ == old(
                    self,
                ).slots@.update(j, Slot::Tombstone)),
    {
        let load = ((self.count as u128) * 100) / (self.capacity as u128);
        if load < 10 {
            self.resize_down();
        }
        let ghost mid = *self;
        let cap = self.capacity;
        let ghost k = key@;
        let key_s: String = key.to_owned();
        let mut a: usize = 0;
        let mut match_at: Option<usize> = None;
        let mut done: bool = false;
        while a < cap && !done
            invariant
                a <= cap,
                key_s@ == k,
                *self == mid,
                forall|b: int|
                    0 <= b < a ==> !(self.slots@[#[trigger] spec_probe(
                        k,
                        cap as int,
                        b,
                    )] is Empty),
                forall|b: int|
                    0 <= b < a ==> !key_at(self.slots@, k, #[trigger] spec_probe(
                        k,
                        cap as int,
                        b,
                    )),
                match_at matches Some(j) ==> done && key_at(self.slots@, k, j as int),
                done && match_at is None ==> a < cap && (self.slots@[spec_probe(
                    k,
                    cap as int,
                    a as int,
                )]) is Empty,
            decreases cap - a + (if done {
                0int
            } else {
                1int
            }),
        {
            let j = Self::get_hash(key, cap, a);
            match &self.slots[j] {
                Slot::Occupied(it) => {
                    if it.key == key_s {
                        match_at = Some(j);
                        done = true;
                        proof {
                            assert(key_at(self.slots@, k, j as int));
                        }
                    } else {
                        a = a + 1;
                    }
                },
                Slot::Tombstone => {
                    a = a + 1;
                },
                Slot::Empty => {
                    done = true;
                },
            }
        }
        let ghost pre = self.slots@;
        if match_at.is_some() {
            let j = match match_at {
                Some(j) => j,
                None => 0,
            };
            proof {
                lemma_count_positive(pre, j as int);
                lemma_count_update(pre, j as int, Slot::Tombstone);
            }
            self.slots[j] = Slot::Tombstone;
            self.count = self.count - 1;
            proof {
                let post = self.slots@;
                assert(post == pre.update(j as int, Slot::Tombstone));
                assert(keys_unique(post)) by {
                    assert forall|i1: int, i2: int|
                        0 <= i1 < post.len() && 0 <= i2 < post.len() && i1 != i2
                            && #[trigger] post[i1] is Occupied
                            && #[trigger] post[i2] is Occupied implies slot_key(post[i1])
                        != slot_key(post[i2]) by {
                        assert(i1 != j && i2 != j);
                        assert(post[i1] == pre[i1] && post[i2] == pre[i2]);
                    }
                }
                assert forall|i: int|
                    0 <= i < post.len() && #[trigger] post[i] is Occupied implies reachable_at(
                    post,
                    slot_key(post[i]),
                    i,
                ) by {
                    assert(i != j);
                    assert(pre[i] == post[i]);
                    assert(reachable_at(pre, slot_key(pre[i]), i));
                    lemma_reachable_monotone(pre, post, slot_key(pre[i]), i);
                }
                assert(!contains_key(post, k)) by {
                    if contains_key(post, k) {
                        let i = choose|i: int| key_at(post, k, i);
                        assert(i != j);
                        assert(key_at(pre, k, i));
                        assert(key_at(pre, k, j as int));
                        assert(false);
                    }
                }
                assert forall|k2: Seq<char>, v2: Seq<char>| k2 != k implies (maps_to(post, k2, v2)
                    <==> maps_to(pre, k2, v2)) by {
                    if maps_to(post, k2, v2) {
                        let i = choose|i: int| key_at(post, k2, i) && slot_value(post[i]) == v2;
                        assert(i != j);
                        assert(key_at(pre, k2, i) && slot_value(pre[i]) == v2);
                    }
                    if maps_to(pre, k2, v2) {
                        let i = choose|i: int| key_at(pre, k2, i) && slot_value(pre[i]) == v2;
                        assert(i != j) by {
                            if i == j as int {
                                assert(slot_key(pre[j as int]) == k);
                            }
                        }
                        assert(key_at(post, k2, i) && slot_value(post[i]) == v2);
                    }
                }
                assert(contains_key(mid.slots@, k)) by {
                    assert(key_at(mid.slots@, k, j as int));
                }
            }
        } else {
            proof {
                if done {
                    lemma_key_absent(pre, k, a as int);
                } else {
                    lemma_key_absent(pre, k, cap as int);
                }
            }
        }
    }

    /// Rebuild the table into a fresh slot array whose capacity is the next
    /// prime at or above the requested base size, reinserting every entry
    /// and dropping tombstones. A request below the base-size floor is a
    /// no-op. If some entry cannot be placed in the new array (possible only
    /// at the degenerate probe-step boundary), the whole resize is abandoned
    /// and the table is left exactly as it was, rather than losing entries;
    /// whenever the entries fit and no stored key degenerates at the new
    /// capacity (`rebuild_fits`), the rebuild is guaranteed to complete.
    fn resize(&mut self, base_size: usize)
        requires
            old(self).wf(),
        ensures
            final(self).wf(),
            forall|k2: Seq<char>, v2: Seq<char>|
                maps_to(final(self).slots@, k2, v2) <==> maps_to(old(self).slots@, k2, v2),
            forall|k2: Seq<char>|
                contains_key(final(self).slots@, k2) <==> contains_key(old(self).slots@, k2),
            final(self).count == old(self).count,
            *final(self) == *old(self) || (final(self).base_size == base_size && ((exists|p: int|
                base_size <= p <= usize::MAX && spec_is_prime(p)) ==> is_next_prime_from(
                base_size as int,
                final(self).capacity as int,
            ))),
            base_size < INITIAL_BASE_SIZE ==> *final(self) == *old(self),
            forall|p: int|
                base_size >= INITIAL_BASE_SIZE && #[trigger] rebuild_fits(
                    old(self).slots@,
                    base_size as int,
                    p,
                ) ==> final(self).base_size == base_size && final(self).capacity == p && (forall|
                    ii: int,
                |
                    0 <= ii < final(self).slots@.len() ==> !(#[trigger] final(self).slots@[ii] is Tombstone)),
    {
        if base_size < INITIAL_BASE_SIZE {
            return ;
        }
        let mut fresh = Self::new_sized(base_size);
        let ghost fresh0 = fresh;
        proof {
            assert forall|k2: Seq<char>, v2: Seq<char>| !maps_to(fresh.slots@, k2, v2) by {
                if maps_to(fresh.slots@, k2, v2) {
                    let ii = choose|ii: int|
                        key_at(fresh.slots@, k2, ii) && slot_value(fresh.slots@[ii]) == v2;
                    assert(contains_key(fresh.slots@, k2));
                }
            }
        }
        let cap = self.capacity;
        let mut i: usize = 0;
        let mut ok: bool = true;
        while i < cap && ok
            invariant
                i <= cap,
                cap == self.capacity,
                self.wf(),
                fresh.wf(),
                fresh.capacity == fresh0.capacity,
                fresh.base_size == fresh0.base_size,
                ok ==> fresh.count as int == count_occupied(self.slots@.take(i as int)),
                ok ==> (forall|k2: Seq<char>, v2: Seq<char>|
                    maps_to(fresh.slots@, k2, v2) <==> entry_in_prefix(
                        self.slots@,
                        i as int,
                        k2,
                        v2,
                    )),
                (exists|p: int|
                    #[trigger] rebuild_fits(self.slots@, base_size as int, p)) ==> ok,
                forall|ii: int|
                    0 <= ii < fresh.slots@.len() ==> !(#[trigger] fresh.slots@[ii] is Tombstone),
            decreases cap - i,
        {
            let ghost before = fresh;
            match &self.slots[i] {
                Slot::Occupied(it) => {
                    proof {
                        assert(!contains_key(before.slots@, it.key@)) by {
                            if contains_key(before.slots@, it.key@) {
                                let jj = choose|jj: int| key_at(before.slots@, it.key@, jj);
                                assert(maps_to(
                                    before.slots@,
                                    it.key@,
                                    slot_value(before.slots@[jj]),
                                ));
                                let ii = choose|ii: int|
                                    0 <= ii < i && #[trigger] self.slots@[ii] is Occupied
                                        && slot_key(self.slots@[ii]) == it.key@ && slot_value(
                                        self.slots@[ii],
                                    ) == slot_value(before.slots@[jj]);
                                assert(self.slots@[i as int] is Occupied);
                                assert(false);
                            }
                        }
                    }
                    let placed = fresh.place(it.key.as_str(), it.value.as_str());
                    ok = placed;
                    proof {
                        // under the fit premise, this placement cannot fail
                        if exists|p: int|
                            #[trigger] rebuild_fits(self.slots@, base_size as int, p) {
                            let p = choose|p: int|
                                #[trigger] rebuild_fits(self.slots@, base_size as int, p);
                            assert(base_size <= p <= usize::MAX && spec_is_prime(p));
                            assert(is_next_prime_from(base_size as int, fresh0.capacity as int));
                            crate::prime::lemma_next_prime_unique(
                                base_size as int,
                                p,
                                fresh0.capacity as int,
                            );
                            lemma_count_take_le(self.slots@, i as int);
                            assert(count_occupied(before.slots@) < before.slots@.len());
                            assert(self.slots@[i as int] is Occupied);
                            assert(crate::hashing::step_nonzero(
                                slot_key(self.slots@[i as int]),
                                p,
                            ));
                            lemma_nonfull_can_insert(before.slots@, it.key@);
                            assert(placed);
                        }
                        if ok {
                            lemma_count_take_step(self.slots@, i as int);
                            assert forall|k2: Seq<char>, v2: Seq<char>|
                                maps_to(fresh.slots@, k2, v2) <==> entry_in_prefix(
                                    self.slots@,
                                    i as int + 1,
                                    k2,
                                    v2,
                                ) by {
                                if maps_to(fresh.slots@, k2, v2) {
                                    if k2 == it.key@ {
                                        lemma_maps_to_unique(fresh.slots@, k2, v2, it.value@);
                                        assert(self.slots@[i as int] is Occupied && slot_key(
                                            self.slots@[i as int],
                                        ) == k2 && slot_value(self.slots@[i as int]) == v2);
                                    } else {
                                        assert(maps_to(before.slots@, k2, v2));
                                        assert(entry_in_prefix(self.slots@, i as int, k2, v2));
                                        let ii = choose|ii: int|
                                            0 <= ii < i && #[trigger] self.slots@[ii] is Occupied
                                                && slot_key(self.slots@[ii]) == k2 && slot_value(
                                                self.slots@[ii],
                                            ) == v2;
                                        assert(entry_in_prefix(
                                            self.slots@,
                                            i as int + 1,
                                            k2,
                                            v2,
                                        ));
                                    }
                                }
                                if entry_in_prefix(self.slots@, i as int + 1, k2, v2) {
                                    let ii = choose|ii: int|
                                        0 <= ii < i as int + 1 && #[trigger] self.slots@[ii] is Occupied
                                            && slot_key(self.slots@[ii]) == k2 && slot_value(
                                            self.slots@[ii],
                                        ) == v2;
                                    if ii == i as int {
                                        assert(maps_to(fresh.slots@, k2, v2));
                                    } else {
                                        assert(k2 != it.key@) by {
                                            if k2 == it.key@ {
                                                assert(self.slots@[i as int] is Occupied);
                                                assert(false);
                                            }
                                        }
                                        assert(entry_in_prefix(self.slots@, i as int, k2, v2));
                                        assert(maps_to(before.slots@, k2, v2));
                                    }
                                }
                            }
                        }
                    }
                },
                _ => {
                    proof {
                        lemma_count_take_step(self.slots@, i as int);
                        assert forall|k2: Seq<char>, v2: Seq<char>|
                            entry_in_prefix(self.slots@, i as int + 1, k2, v2) <==> entry_in_prefix(
                                self.slots@,
                                i as int,
                                k2,
                                v2,
                            ) by {
                            if entry_in_prefix(self.slots@, i as int + 1, k2, v2) {
                                let ii = choose|ii: int|
                                    0 <= ii < i as int + 1 && #[trigger] self.slots@[ii] is Occupied
                                        && slot_key(self.slots@[ii]) == k2 && slot_value(
                                        self.slots@[ii],
                                    ) == v2;
                                assert(ii < i as int);
                            }
                        }
                    }
                },
            }
            i = i + 1;
        }
        if ok {
            proof {
                assert(self.slots@.take(cap as int) =~= self.slots@);
                assert forall|k2: Seq<char>, v2: Seq<char>|
                    maps_to(fresh.slots@, k2, v2) <==> maps_to(self.slots@, k2, v2) by {
                    if maps_to(fresh.slots@, k2, v2) {
                        let ii = choose|ii: int|
                            0 <= ii < cap && #[trigger] self.slots@[ii] is Occupied && slot_key(
                                self.slots@[ii],
                            ) == k2 && slot_value(self.slots@[ii]) == v2;
                        assert(key_at(self.slots@, k2, ii));
                    }
                    if maps_to(self.slots@, k2, v2) {
                        let ii = choose|ii: int|
                            key_at(self.slots@, k2, ii) && slot_value(self.slots@[ii]) == v2;
                        assert(entry_in_prefix(self.slots@, cap as int, k2, v2));
                    }
                }
            }
            self.capacity = fresh.capacity;
            self.base_size = fresh.base_size;
            self.count = fresh.count;
            self.slots = fresh.slots;
        }
        proof {
            assert forall|p: int|
                base_size >= INITIAL_BASE_SIZE && #[trigger] rebuild_fits(
                    old(self).slots@,
                    base_size as int,
                    p,
                ) implies self.base_size == base_size && self.capacity == p && (forall|ii: int|
                0 <= ii < self.slots@.len() ==> !(#[trigger] self.slots@[ii] is Tombstone)) by {
                assert(ok);
                assert(base_size <= p <= usize::MAX && spec_is_prime(p));
                assert(is_next_prime_from(base_size as int, fresh0.capacity as int));
                crate::prime::lemma_next_prime_unique(base_size as int, p, fresh0.capacity as int);
            }
            assert forall|k2: Seq<char>|
                contains_key(self.slots@, k2) <==> contains_key(old(self).slots@, k2) by {
                if contains_key(self.slots@, k2) {
                    let ii = choose|ii: int| key_at(self.slots@, k2, ii);
                    let v = slot_value(self.slots@[ii]);
                    assert(maps_to(self.slots@, k2, v));
                    assert(maps_to(old(self).slots@, k2, v));
                    let jj = choose|jj: int|
                        key_at(old(self).slots@, k2, jj) && slot_value(old(self).slots@[jj]) == v;
                    assert(contains_key(old(self).slots@, k2));
                }
                if contains_key(old(self).slots@, k2) {
                    let ii = choose|ii: int| key_at(old(self).slots@, k2, ii);
                    let v = slot_value(old(self).slots@[ii]);
                    assert(maps_to(old(self).slots@, k2, v));
                    assert(maps_to(self.slots@, k2, v));
                    let jj = choose|jj: int|
                        key_at(self.slots@, k2, jj) && slot_value(self.slots@[jj]) == v;
                    assert(contains_key(self.slots@, k2));
                }
            }
        }
    }

    /// Grow: rebuild at twice the current base size. Skipped when doubling
    /// would not fit in the machine's integers.
    fn resize_up(&mut self)
        requires
            old(self).wf(),
        ensures
            final(self).wf(),
            forall|k2: Seq<char>, v2: Seq<char>|
                maps_to(final(self).slots@, k2, v2) <==> maps_to(old(self).slots@, k2, v2),
            forall|k2: Seq<char>|
                contains_key(final(self).slots@, k2) <==> contains_key(old(self).slots@, k2),
            final(self).count == old(self).count,
            *final(self) == *old(self) || (final(self).base_size == 2 * old(self).base_size && ((
            exists|p: int|
                2 * old(self).base_size <= p <= usize::MAX && spec_is_prime(p))
                ==> is_next_prime_from(
                2 * old(self).base_size as int,
                final(self).capacity as int,
            ))),
            forall|p: int|
                2 * old(self).base_size >= INITIAL_BASE_SIZE && #[trigger] rebuild_fits(
                    old(self).slots@,
                    2 * old(self).base_size as int,
                    p,
                ) ==> final(self).base_size == 2 * old(self).base_size && final(self).capacity
                    == p,
    {
        let b = self.base_size;
        if b <= usize::MAX / 2 {
            self.resize(b * 2);
        } else {
            proof {
                // doubling would overflow, so no prime at or above it is
                // representable and the fit premise is vacuous
                assert forall|p: int|
                    !(2 * self.base_size >= INITIAL_BASE_SIZE && #[trigger] rebuild_fits(
                        self.slots@,
                        2 * self.base_size as int,
                        p,
                    )) by {
                    if rebuild_fits(self.slots@, 2 * self.base_size as int, p) {
                        assert(p >= 2 * self.base_size > usize::MAX);
                    }
                }
            }
        }
    }

    /// Shrink: rebuild at half the current base size; a no-op at or below
    /// the base-size floor.
    fn resize_down(&mut self)
        requires
            old(self).wf(),
        ensures
            final(self).wf(),
            forall|k2: Seq<char>, v2: Seq<char>|
                maps_to(final(self).slots@, k2, v2) <==> maps_to(old(self).slots@, k2, v2),
            forall|k2: Seq<char>|
                contains_key(final(self).slots@, k2) <==> contains_key(old(self).slots@, k2),
            final(self).count == old(self).count,
            final(self).base_size == old(self).base_size || (final(self).base_size == old(self).base_size / 2 && old(self).base_size / 2 >= INITIAL_BASE_SIZE),
            *final(self) == *old(self) || (final(self).base_size == old(self).base_size / 2 && ((
            exists|q: int|
                old(self).base_size / 2 <= q <= usize::MAX && spec_is_prime(q))
                ==> is_next_prime_from(
                old(self).base_size as int / 2,
                final(self).capacity as int,
            ))),
            forall|p: int|
                old(self).base_size / 2 >= INITIAL_BASE_SIZE && #[trigger] rebuild_fits(
                    old(self).slots@,
                    old(self).base_size as int / 2,
                    p,
                ) ==> final(self).base_size == old(self).base_size / 2 && final(self).capacity
                    == p,
    {
        let b = self.base_size / 2;
        self.resize(b);
    }

    /// Insert or overwrite: if placing one more entry would push the load
    /// factor past 70%, grow the table first, then store the value under the
    /// key. An existing key keeps its slot and count; a new key takes the
    /// first reclaimable slot on its probe path. A key can fail to be stored
    /// only when not even the final table offers it a slot (the degenerate
    /// probe-step boundary), and then the table's contents are unchanged.
    pub fn insert(&mut self, key: &str, value: &str)
        requires
            old(self).wf(),
        ensures
            final(self).wf(),
            contains_key(final(self).slots@, key@) ==> maps_to(final(self).slots@, key@, value@),
            contains_key(old(self).slots@, key@) ==> contains_key(final(self).slots@, key@),
            forall|k2: Seq<char>, v2: Seq<char>|
                k2 != key@ ==> (maps_to(final(self).slots@, k2, v2) <==> maps_to(
                    old(self).slots@,
                    k2,
                    v2,
                )),
            contains_key(old(self).slots@, key@) ==> final(self).count == old(self).count,
            !contains_key(old(self).slots@, key@) && contains_key(final(self).slots@, key@)
                ==> final(self).count as int == old(self).count as int + 1,
            !contains_key(final(self).slots@, key@) ==> final(self).count == old(self).count
                && !contains_key(old(self).slots@, key@),
            !contains_key(final(self).slots@, key@) ==> !can_insert(final(self).slots@, key@),
            (old(self).count as int + 1) * 100 / old(self).capacity as int <= 70 ==> final(self).capacity == old(self).capacity && final(self).base_size == old(self).base_size && (
            can_insert(old(self).slots@, key@) ==> contains_key(final(self).slots@, key@)),
            (old(self).count as int + 1) * 100 / old(self).capacity as int <= 70
                && crate::hashing::step_nonzero(key@, old(self).capacity as int) ==> contains_key(
                final(self).slots@,
                key@,
            ),
            (old(self).count as int + 1) * 100 / old(self).capacity as int <= 70
                && !contains_key(old(self).slots@, key@) && contains_key(
                final(self).slots@,
                key@,
            ) ==> (exists|a: int|
                first_free_attempt(old(self).slots@, key@, a) && key_at(
                    final(self).slots@,
                    key@,
                    spec_probe(key@, old(self).capacity as int, a),
                ) && slot_value(
                    final(self).slots@[spec_probe(key@, old(self).capacity as int, a)],
                ) == value@ && (forall|ii: int|
                    0 <= ii < final(self).slots@.len() && ii != spec_probe(
                        key@,
                        old(self).capacity as int,
                        a,
                    ) ==> final(self).slots@[ii] == old(self).slots@[ii])),
            (old(self).count as int + 1) * 100 / old(self).capacity as int <= 70
                && contains_key(old(self).slots@, key@) ==> (exists|j: int|
                key_at(old(self).slots@, key@, j) && key_at(final(self).slots@, key@, j)
                    && slot_value(final(self).slots@[j]) == value@ && (forall|ii: int|
                    0 <= ii < final(self).slots@.len() && ii != j ==> final(self).slots@[ii]
                        == old(self).slots@[ii])),
            forall|p: int|
                (old(self).count as int + 1) * 100 / old(self).capacity as int > 70 && 2 * old(self).base_size >= INITIAL_BASE_SIZE && #[trigger] rebuild_fits(
                    old(self).slots@,
                    2 * old(self).base_size as int,
                    p,
                ) && crate::hashing::step_nonzero(key@, p) ==> final(self).base_size == 2 * old(self).base_size && final(self).capacity == p && contains_key(
                    final(self).slots@,
                    key@,
                ),
            final(self).base_size == old(self).base_size || final(self).base_size == 2 * old(self).base_size,
    {
        let load_with_entry = ((self.count as u128 + 1) * 100) / (self.capacity as u128);
        if load_with_entry > 70 {
            self.resize_up();
        }
        let ghost mid = *self;
        // placement fails only when no probed slot is free for this key;
        // the contract's can_insert clause accounts for that outcome
        let _placed = self.place(key, value);
        proof {
            if contains_key(old(self).slots@, key@) {
                assert(contains_key(mid.slots@, key@));
                assert(can_insert(mid.slots@, key@));
            }
            let oldcap = old(self).capacity as int;
            let oldcount = old(self).count as int;
            if (oldcount + 1) * 100 / oldcap <= 70 {
                assert(oldcount < oldcap) by {
                    vstd::arithmetic::div_mod::lemma_fundamental_div_mod(
                        (oldcount + 1) * 100,
                        oldcap,
                    );
                    assert(oldcount < oldcap) by (nonlinear_arith)
                        requires
                            oldcap >= 2,
                            oldcount >= 0,
                            (oldcount + 1) * 100 / oldcap <= 70,
                            (oldcount + 1) * 100 == oldcap * ((oldcount + 1) * 100 / oldcap) + ((
                            oldcount + 1) * 100) % oldcap,
                            0 <= ((oldcount + 1) * 100) % oldcap,
                            ((oldcount + 1) * 100) % oldcap < oldcap,
                    ;
                }
                if crate::hashing::step_nonzero(key@, oldcap) {
                    lemma_nonfull_can_insert(old(self).slots@, key@);
                }
            } else {
                assert forall|p: int|
                    2 * old(self).base_size >= INITIAL_BASE_SIZE && #[trigger] rebuild_fits(
                        old(self).slots@,
                        2 * old(self).base_size as int,
                        p,
                    ) && crate::hashing::step_nonzero(key@, p) implies final(self).base_size == 2
                    * old(self).base_size && final(self).capacity == p && contains_key(
                    final(self).slots@,
                    key@,
                ) by {
                    assert(mid.base_size == 2 * old(self).base_size && mid.capacity == p);
                    assert(count_occupied(mid.slots@) < mid.slots@.len()) by {
                        assert(p >= 2 * old(self).base_size);
                        assert(mid.count == old(self).count);
                    }
                    lemma_nonfull_can_insert(mid.slots@, key@);
                }
            }
        }
    }
}

} // verus!

