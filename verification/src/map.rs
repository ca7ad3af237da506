//! The fixed-capacity map: slot storage, the probing insert, primary-slot
//! lookup and delete, and the laws the operations obey.

use vstd::prelude::*;
use crate::hash::Hashable;
use crate::render::Render;
use vstd::string::StringExecFns;
use vstd::arithmetic::div_mod::{
    lemma_fundamental_div_mod, lemma_fundamental_div_mod_converse,
    lemma_mod_add_multiples_vanish, lemma_mod_division_less_than_divisor, lemma_small_mod,
};
verus! {

/// Why an insertion was refused.
#[derive(Clone, Copy, Debug, PartialEq, Eq, Structural)]
pub enum ErrorKind {
    /// Every slot is occupied: `count == capacity`.
    Full,
    /// The key's own primary slot already holds an equal key.
    DuplicateKey,
}

/// How many slots of `slots` are occupied.
pub open spec fn count_occupied<K>(slots: Seq<Option<K>>) -> nat
    decreases slots.len(),
{
    if slots.len() == 0 {
        0
    } else {
        count_occupied(slots.drop_last()) + (if slots.last() is Some {
            1nat
        } else {
            0nat
        })
    }
}

pub proof fn lemma_count_occupied_le_len<K>(slots: Seq<Option<K>>)
    ensures
        count_occupied(slots) <= slots.len(),
    decreases slots.len(),
{
    if slots.len() > 0 {
        lemma_count_occupied_le_len(slots.drop_last());
    }
}

pub proof fn lemma_count_occupied_all_some<K>(slots: Seq<Option<K>>)
    requires
        forall|i: int| 0 <= i < slots.len() ==> slots[i] is Some,
    ensures
        count_occupied(slots) == slots.len(),
    decreases slots.len(),
{
    if slots.len() > 0 {
        lemma_count_occupied_all_some(slots.drop_last());
    }
}

pub proof fn lemma_count_occupied_all_none<K>(slots: Seq<Option<K>>)
    requires
        forall|i: int| 0 <= i < slots.len() ==> slots[i] is None,
    ensures
        count_occupied(slots) == 0,
    decreases slots.len(),
{
    if slots.len() > 0 {
        lemma_count_occupied_all_none(slots.drop_last());
    }
}

/// Overwriting one slot changes the occupied count by the difference in
/// occupancy at that slot.
pub proof fn lemma_count_occupied_update<K>(slots: Seq<Option<K>>, j: int, v: Option<K>)
    requires
        0 <= j < slots.len(),
    ensures
        count_occupied(slots.update(j, v)) as int == count_occupied(slots) as int - (
        if slots[j] is Some {
            1int
        } else {
            0int
        }) + (if v is Some {
            1int
        } else {
            0int
        }),
    decreases slots.len(),
{
    let s2 = slots.update(j, v);
    if j == slots.len() - 1 {
        assert(s2.drop_last() =~= slots.drop_last());
    } else {
        assert(s2.drop_last() =~= slots.drop_last().update(j, v));
        lemma_count_occupied_update(slots.drop_last(), j, v);
    }
}

/// `j` is the slot that linear probing from `primary` settles on after
/// exactly `d` occupied steps: the first empty slot at or after the
/// primary slot, indices taken modulo the capacity.
pub open spec fn is_probe_result_at<K>(
    slots: Seq<Option<K>>,
    primary: int,
    j: int,
    d: int,
) -> bool {
    &&& 0 <= d < slots.len()
    &&& j == (primary + d) % (slots.len() as int)
    &&& slots[j] is None
    &&& forall|e: int| 0 <= e < d ==> slots[#[trigger] ((primary + e) % (slots.len() as int))] is Some
}

/// `j` is the first empty slot that linear probing from `primary` reaches.
pub open spec fn is_probe_result<K>(slots: Seq<Option<K>>, primary: int, j: int) -> bool {
    exists|d: int| is_probe_result_at(slots, primary, j, d)
}

/// The first empty slot that linear probing from `primary` reaches
/// (meaningful whenever such a slot exists).
pub open spec fn probe_free_slot<K>(slots: Seq<Option<K>>, primary: int) -> int {
    choose|j: int| is_probe_result(slots, primary, j)
}

/// Probing from a fixed primary slot has at most one possible result.
pub proof fn lemma_probe_result_unique<K>(slots: Seq<Option<K>>, primary: int, j1: int, j2: int)
    requires
        is_probe_result(slots, primary, j1),
        is_probe_result(slots, primary, j2),
    ensures
        j1 == j2,
{
    let d1 = choose|d: int| is_probe_result_at(slots, primary, j1, d);
    let d2 = choose|d: int| is_probe_result_at(slots, primary, j2, d);
    if d1 < d2 {
        assert(slots[(primary + d1) % (slots.len() as int)] is Some);
    } else if d2 < d1 {
        assert(slots[(primary + d2) % (slots.len() as int)] is Some);
    }
}

/// If every slot of the probe window starting at `primary` is occupied,
/// the whole storage is occupied.
pub proof fn lemma_probe_window_full<K>(slots: Seq<Option<K>>, primary: int)
    requires
        0 <= primary < slots.len(),
        forall|e: int| 0 <= e < slots.len()
            ==> slots[#[trigger] ((primary + e) % (slots.len() as int))] is Some,
    ensures
        count_occupied(slots) == slots.len(),
{
    let n = slots.len() as int;
    assert forall|i: int| 0 <= i < n implies slots[i] is Some by {
        if i >= primary {
            let e = i - primary;
            lemma_small_mod(i as nat, n as nat);
            assert(slots[(primary + e) % n] is Some);
        } else {
            let e = i + n - primary;
            lemma_mod_add_multiples_vanish(i, n);
            lemma_small_mod(i as nat, n as nat);
            assert(slots[(primary + e) % n] is Some);
        }
    }
    lemma_count_occupied_all_some(slots);
}

/// The mathematical model of a map: the slot sequence, the parallel value
/// sequence, and the live-entry count.
#[verifier::ext_equal]
pub struct MapModel<K, V> {
    pub slots: Seq<Option<K>>,
    pub vals: Seq<V>,
    pub count: nat,
}

impl<K, V> MapModel<K, V> {
    /// The fixed number of slots.
    pub open spec fn cap(self) -> nat {
        self.slots.len()
    }

    /// Well-formedness: the value array parallels the slot array and the
    /// count is exactly the number of occupied slots.
    pub open spec fn wf(self) -> bool {
        &&& self.vals.len() == self.slots.len()
        &&& self.count == count_occupied(self.slots)
    }
}

impl<K: Hashable, V> MapModel<K, V> {
    /// The primary slot of `key`: its hash taken modulo the capacity.
    pub open spec fn primary(self, key: K) -> int
        recommends
            self.cap() > 0,
    {
        key.hash_spec() as int % (self.cap() as int)
    }
}

impl<K: Hashable, V> MapModel<K, V> {
    /// The key's own primary slot holds a key equal to it.  Only this one
    /// slot is ever consulted by the duplicate check and by lookup.
    pub open spec fn key_at_primary(self, key: K) -> bool
        recommends
            self.cap() > 0,
    {
        let p = self.primary(key);
        &&& self.slots[p] is Some
        &&& key.key_eq_spec(&(self.slots[p]->0))
    }

    /// What insertion does to the model: refuse `Full` when the count has
    /// reached the capacity, refuse `DuplicateKey` when the key's primary
    /// slot holds an equal key, and otherwise place the pair in the first
    /// empty slot that linear probing from the primary slot reaches.
    pub open spec fn insert_model(self, key: K, value: V) -> (MapModel<K, V>, Result<
        (),
        ErrorKind,
    >) {
        if self.count == self.cap() {
            (self, Err(ErrorKind::Full))
        } else if self.key_at_primary(key) {
            (self, Err(ErrorKind::DuplicateKey))
        } else {
            let j = probe_free_slot(self.slots, self.primary(key));
            (
                MapModel {
                    slots: self.slots.update(j, Some(key)),
                    vals: self.vals.update(j, value),
                    count: self.count + 1,
                },
                Ok(()),
            )
        }
    }
}

/// Stepping a wrapped index: adding one before reducing modulo `n` either
/// advances the reduced value by one or wraps it to zero.
proof fn lemma_wrap_step(a: int, n: int)
    requires
        n > 0,
        a >= 0,
    ensures
        (a + 1) % n == if (a % n) + 1 == n {
            0int
        } else {
            (a % n) + 1
        },
{
    lemma_mod_division_less_than_divisor(a, n);
    lemma_fundamental_div_mod(a, n);
    let q = a / n;
    let r = a % n;
    if r + 1 == n {
        assert(a + 1 == (q + 1) * n) by (nonlinear_arith)
            requires
                a == n * q + r,
                r + 1 == n,
        ;
        lemma_fundamental_div_mod_converse(a + 1, n, q + 1, 0);
    } else {
        assert(a + 1 == q * n + (r + 1)) by (nonlinear_arith)
            requires
                a == n * q + r,
        ;
        lemma_fundamental_div_mod_converse(a + 1, n, q, r + 1);
    }
}

/// The primary slot of a key lies within the storage.
pub proof fn lemma_primary_in_range<K: Hashable, V>(m: MapModel<K, V>, key: K)
    requires
        m.cap() > 0,
    ensures
        0 <= m.primary(key) < m.cap(),
{
    lemma_mod_division_less_than_divisor(key.hash_spec() as int, m.cap() as int);
}

/// Law: a well-formed map never holds more entries than it has slots.
pub proof fn lemma_count_at_most_capacity<K, V>(m: MapModel<K, V>)
    requires
        m.wf(),
    ensures
        m.count <= m.cap(),
{
    lemma_count_occupied_le_len(m.slots);
}

/// Law: inserting into a map whose count equals its capacity always fails
/// with `Full`, regardless of the key, and leaves the map unchanged.
pub proof fn lemma_insert_full<K: Hashable, V>(m: MapModel<K, V>, key: K, value: V)
    requires
        m.count == m.cap(),
    ensures
        m.insert_model(key, value).1 == Err::<(), ErrorKind>(ErrorKind::Full),
        m.insert_model(key, value).0 == m,
{
}

/// Law: on a map with room, inserting a key equal to the key already
/// occupying its own primary slot fails with `DuplicateKey` and leaves the
/// map unchanged.  (On a map without room the capacity check runs first
/// and reports `Full` instead.)
pub proof fn lemma_insert_duplicate_key<K: Hashable, V>(
    m: MapModel<K, V>,
    key: K,
    value: V,
)
    requires
        m.count < m.cap(),
        m.key_at_primary(key),
    ensures
        m.insert_model(key, value).1 == Err::<(), ErrorKind>(ErrorKind::DuplicateKey),
        m.insert_model(key, value).0 == m,
{
}

/// The model after inserting each entry of `entries` in turn, paired with
/// whether every single insertion succeeded.
pub open spec fn insert_all<K: Hashable, V>(
    m: MapModel<K, V>,
    entries: Seq<(K, V)>,
) -> (MapModel<K, V>, bool)
    decreases entries.len(),
{
    if entries.len() == 0 {
        (m, true)
    } else {
        let step = m.insert_model(entries[0].0, entries[0].1);
        let rest = insert_all(step.0, entries.drop_first());
        (rest.0, step.1 is Ok && rest.1)
    }
}

/// Inserting entries whose primary slots are empty and pairwise distinct
/// succeeds throughout and grows the count by the number of entries.
proof fn lemma_insert_all_free_primaries<K: Hashable, V>(
    m: MapModel<K, V>,
    entries: Seq<(K, V)>,
)
    requires
        m.wf(),
        m.cap() >= 1,
        m.count + entries.len() <= m.cap(),
        forall|i: int| 0 <= i < entries.len()
            ==> m.slots[m.primary(#[trigger] entries[i].0)] is None,
        forall|i: int, j: int|
            0 <= i < j < entries.len() ==> m.primary(entries[i].0) != m.primary(entries[j].0),
    ensures
        insert_all(m, entries).1,
        insert_all(m, entries).0.count == m.count + entries.len(),
    decreases entries.len(),
{
    if entries.len() > 0 {
        let key = entries[0].0;
        let value = entries[0].1;
        let p = m.primary(key);
        lemma_primary_in_range(m, key);
        lemma_count_occupied_le_len(m.slots);
        lemma_small_mod(p as nat, m.cap());
        assert(is_probe_result_at(m.slots, p, p, 0));
        let jj = probe_free_slot(m.slots, p);
        assert(is_probe_result(m.slots, p, p));
        lemma_probe_result_unique(m.slots, p, jj, p);
        lemma_count_occupied_update(m.slots, p, Some(key));
        let m1 = m.insert_model(key, value).0;
        assert forall|i: int| 0 <= i < entries.drop_first().len() implies m1.slots[m1.primary(
            #[trigger] entries.drop_first()[i].0,
        )] is None by {
            assert(entries.drop_first()[i] == entries[i + 1]);
            assert(m1.primary(entries[i + 1].0) == m.primary(entries[i + 1].0));
            assert(m.primary(entries[i + 1].0) != p);
        }
        assert forall|i: int, j: int|
            0 <= i < j < entries.drop_first().len() implies m1.primary(
            entries.drop_first()[i].0,
        ) != m1.primary(entries.drop_first()[j].0) by {
            assert(entries.drop_first()[i] == entries[i + 1]);
            assert(entries.drop_first()[j] == entries[j + 1]);
        }
        lemma_insert_all_free_primaries(m1, entries.drop_first());
    }
}

/// Law: starting from a freshly constructed map with `n >= 1` empty slots,
/// inserting any sequence of at most `n` distinct keys whose primary slots
/// are pairwise distinct succeeds for every entry, and the count afterwards
/// equals the number of entries inserted.
pub proof fn lemma_distinct_primaries_all_fit<K: Hashable, V>(
    m: MapModel<K, V>,
    entries: Seq<(K, V)>,
)
    requires
        m.wf(),
        m.cap() >= 1,
        m.count == 0,
        forall|i: int| 0 <= i < m.cap() ==> m.slots[i] is None,
        entries.len() <= m.cap(),
        forall|i: int, j: int| 0 <= i < j < entries.len() ==> entries[i].0 != entries[j].0,
        forall|i: int, j: int|
            0 <= i < j < entries.len() ==> m.primary(entries[i].0) != m.primary(entries[j].0),
    ensures
        insert_all(m, entries).1,
        insert_all(m, entries).0.count == entries.len(),
{
    assert forall|i: int| 0 <= i < entries.len() implies m.slots[m.primary(
        #[trigger] entries[i].0,
    )] is None by {
        lemma_primary_in_range(m, entries[i].0);
    }
    lemma_insert_all_free_primaries(m, entries);
}

/// A fixed-capacity associative container: open addressing with linear
/// probing.  Keys live in a fixed-length array of optional slots, values in
/// a parallel array; `count` tracks the occupied slots.
pub struct HashMap<K, V> {
    keys: Vec<Option<K>>,
    values: Vec<V>,
    count: usize,
}

impl<K, V> View for HashMap<K, V> {
    type V = MapModel<K, V>;

    closed spec fn view(&self) -> MapModel<K, V> {
        MapModel { slots: self.keys@, vals: self.values@, count: self.count as nat }
    }
}

impl<K, V> HashMap<K, V> {
    /// A map with no slots at all.  Every insertion into it fails with
    /// `Full`, since `count == capacity` holds trivially.
    pub fn empty() -> (m: Self)
        ensures
            m@.wf(),
            m@.cap() == 0,
            m@.count == 0,
    {
        Self { keys: Vec::new(), values: Vec::new(), count: 0 }
    }

    /// How many entries the map holds.
    pub fn len(&self) -> (n: usize)
        ensures
            n as nat == self@.count,
    {
        self.count
    }

    /// How many slots the map was constructed with.
    pub fn capacity(&self) -> (n: usize)
        ensures
            n as nat == self@.cap(),
    {
        self.keys.len()
    }

    /// Decides well-formedness by scanning the storage: the value array
    /// parallels the slot array and the count matches the occupied slots.
    /// Lets an unverified caller check the operations' precondition.
    pub fn is_well_formed(&self) -> (b: bool)
        ensures
            b == self@.wf(),
    {
        if self.values.len() != self.keys.len() {
            return false;
        }
        let mut n: usize = 0;
        let mut i: usize = 0;
        while i < self.keys.len()
            invariant
                i <= self@.slots.len(),
                n <= i,
                n as nat == count_occupied(self@.slots.take(i as int)),
            decreases self@.slots.len() - i,
        {
            proof {
                assert(self@.slots.take(i as int + 1).drop_last() =~= self@.slots.take(i as int));
                assert(self@.slots.take(i as int + 1).last() == self@.slots[i as int]);
            }
            if self.keys[i].is_some() {
                n = n + 1;
            }
            i = i + 1;
        }
        proof {
            assert(self@.slots.take(i as int) =~= self@.slots);
        }
        n == self.count
    }

    /// Places `key` and `value` in slot `index`, overwriting whatever was
    /// there; the count is not adjusted.
    pub fn insert_into(&mut self, index: usize, key: K, value: V)
        requires
            index < old(self)@.cap(),
            old(self)@.vals.len() == old(self)@.slots.len(),
        ensures
            final(self)@.slots == old(self)@.slots.update(index as int, Some(key)),
            final(self)@.vals == old(self)@.vals.update(index as int, value),
            final(self)@.count == old(self)@.count,
    {
        self.keys[index] = Some(key);
        self.values[index] = value;
    }
}

impl<K, V: Default> HashMap<K, V> {
    /// A map with `size` slots, all empty, each value a fresh default; the
    /// count starts at zero.  `size == 0` behaves exactly like `empty()`.
    pub fn with_capacity(size: usize) -> (m: Self)
        ensures
            m@.wf(),
            m@.cap() == size,
            m@.count == 0,
            forall|i: int| 0 <= i < size ==> m@.slots[i] is None,
            forall|i: int|
                0 <= i < size ==> call_ensures(V::default, (), #[trigger] m@.vals[i]),
    {
        let mut keys: Vec<Option<K>> = Vec::new();
        let mut values: Vec<V> = Vec::new();
        let mut i: usize = 0;
        while i < size
            invariant
                i <= size,
                keys@.len() == i as nat,
                values@.len() == i as nat,
                forall|j: int| 0 <= j < i ==> keys@[j] is None,
                forall|j: int|
                    0 <= j < i ==> call_ensures(V::default, (), #[trigger] values@[j]),
            decreases size - i,
        {
            keys.push(None);
            values.push(V::default());
            i = i + 1;
        }
        proof {
            lemma_count_occupied_all_none(keys@);
        }
        Self { keys, values, count: 0 }
    }
}

impl<K: Hashable, V> HashMap<K, V> {
    /// Looks at the key's primary slot and nothing else: if that slot is
    /// occupied, returns a reference to the value stored beside it, whether
    /// or not the occupying key equals `key`; if it is empty, returns
    /// nothing.  A key relocated by probing is therefore never found, and
    /// a map without slots has nothing to find.
    pub fn get(&self, key: K) -> (r: Option<&V>)
        requires
            self@.wf(),
        ensures
            self@.cap() == 0 ==> r is None,
            self@.cap() > 0 ==> ({
                let p = self@.primary(key);
                match r {
                    Some(v) => self@.slots[p] is Some && *v == self@.vals[p],
                    None => self@.slots[p] is None,
                }
            }),
    {
        if self.keys.len() == 0 {
            return None;
        }
        proof {
            lemma_primary_in_range(self@, key);
        }
        let index = key.hash() % self.keys.len();
        if self.keys[index].is_some() {
            Some(&self.values[index])
        } else {
            None
        }
    }

    /// Clears the key's primary slot if it is occupied — by whatever key —
    /// and decrements the count; if the slot is empty, does nothing.  No
    /// tombstone is left: the slot becomes indistinguishable from a
    /// never-used one.  On a map without slots this is a silent no-op.
    pub fn delete(&mut self, key: K)
        requires
            old(self)@.wf(),
        ensures
            final(self)@.wf(),
            final(self)@.cap() == old(self)@.cap(),
            final(self)@.vals == old(self)@.vals,
            old(self)@.cap() == 0 ==> final(self)@ == old(self)@,
            old(self)@.cap() > 0 && old(self)@.slots[old(self)@.primary(key)] is Some ==> {
                &&& final(self)@.slots == old(self)@.slots.update(
                    old(self)@.primary(key),
                    None::<K>,
                )
                &&& final(self)@.count == old(self)@.count - 1
            },
            old(self)@.cap() > 0 && old(self)@.slots[old(self)@.primary(key)] is None
                ==> final(self)@ == old(self)@,
    {
        if self.keys.len() == 0 {
            return;
        }
        proof {
            lemma_primary_in_range(self@, key);
        }
        let index = key.hash() % self.keys.len();
        if self.keys[index].is_some() {
            proof {
                lemma_count_occupied_update(self@.slots, index as int, None::<K>);
            }
            self.keys[index] = None;
            self.count = self.count - 1;
        }
    }
}

/// The delimiter line that brackets a dump: a run of dashes and a
/// newline.
pub open spec fn dashes_line() -> Seq<char> {
    "---------------------------------------------\n"@
}

/// One line of the dump: an occupied slot renders as the key and the
/// value joined by a separator, an empty slot as a placeholder marker.
pub open spec fn slot_line<K: Render, V: Render>(slot: Option<K>, value: V) -> Seq<char> {
    match slot {
        Some(k) => k.render_spec() + " -- "@ + value.render_spec() + "\n"@,
        None => "...\n"@,
    }
}

/// The dump lines of all slots in storage order.
pub open spec fn slot_lines<K: Render, V: Render>(
    slots: Seq<Option<K>>,
    vals: Seq<V>,
) -> Seq<char>
    decreases slots.len(),
{
    if slots.len() == 0 {
        Seq::empty()
    } else {
        slot_lines(slots.drop_last(), vals.drop_last()) + slot_line(slots.last(), vals.last())
    }
}

/// The full dump of a map: every slot line in order, bracketed by
/// delimiter lines.
pub open spec fn dump_spec<K: Render, V: Render>(m: MapModel<K, V>) -> Seq<char> {
    dashes_line() + slot_lines(m.slots, m.vals) + dashes_line()
}

impl<K: Render, V: Render> HashMap<K, V> {
    /// Produces the human-readable dump of every slot in order, for
    /// diagnostics.  Taking the map by shared reference, it can mutate
    /// neither the slots nor the count, however often it is called.
    pub fn display(&self) -> (s: String)
        requires
            self@.wf(),
        ensures
            s@ == dump_spec(self@),
    {
        let mut s = String::new();
        s.append("---------------------------------------------\n");
        proof {
            assert(self@.slots.take(0) =~= Seq::<Option<K>>::empty());
            assert(Seq::<char>::empty() + dashes_line() =~= dashes_line());
            assert(dashes_line() + slot_lines(self@.slots.take(0), self@.vals.take(0))
                =~= dashes_line());
        }
        let mut i: usize = 0;
        while i < self.keys.len()
            invariant
                self@.wf(),
                i <= self@.slots.len(),
                s@ == dashes_line() + slot_lines(
                    self@.slots.take(i as int),
                    self@.vals.take(i as int),
                ),
            decreases self@.slots.len() - i,
        {
            proof {
                assert(self@.slots.take(i as int + 1).drop_last() =~= self@.slots.take(
                    i as int,
                ));
                assert(self@.vals.take(i as int + 1).drop_last() =~= self@.vals.take(i as int));
                assert(self@.slots.take(i as int + 1).last() == self@.slots[i as int]);
                assert(self@.vals.take(i as int + 1).last() == self@.vals[i as int]);
            }
            match &self.keys[i] {
                Some(k) => {
                    let piece = k.render();
                    s.append(piece.as_str());
                    s.append(" -- ");
                    let vpiece = self.values[i].render();
                    s.append(vpiece.as_str());
                    s.append("\n");
                },
                None => {
                    s.append("...\n");
                },
            }
            proof {
                assert(s@ =~= dashes_line() + slot_lines(
                    self@.slots.take(i as int + 1),
                    self@.vals.take(i as int + 1),
                ));
            }
            i = i + 1;
        }
        proof {
            assert(self@.slots.take(i as int) =~= self@.slots);
            assert(self@.vals.take(i as int) =~= self@.vals);
        }
        s.append("---------------------------------------------\n");
        proof {
            assert(s@ =~= dump_spec(self@));
        }
        s
    }
}

impl<K: Hashable, V> HashMap<K, V> {
    /// Reports whether the key's own primary slot — and only that slot —
    /// holds a key equal to `key`.  A duplicate relocated by probing is
    /// not detected.
    pub fn does_key_exists(&self, key: &K) -> (r: bool)
        requires
            self@.wf(),
        ensures
            r == (self@.cap() > 0 && self@.key_at_primary(*key)),
    {
        if self.keys.len() == 0 {
            return false;
        }
        proof {
            lemma_primary_in_range(self@, *key);
        }
        let index = key.hash() % self.keys.len();
        match &self.keys[index] {
            Some(k) => key.key_eq(k),
            None => false,
        }
    }

    /// Inserts the pair, or reports why it cannot.  The checks run in
    /// order: a map whose count has reached its capacity refuses with
    /// `Full`; a key equal to the occupant of its own primary slot refuses
    /// with `DuplicateKey` (only that slot is inspected, so a duplicate
    /// whose primary slot holds a different key slips through); otherwise
    /// the pair lands in the first empty slot that linear probing from the
    /// primary slot reaches, and the count grows by one.
    pub fn insert(&mut self, key: K, value: V) -> (r: Result<(), ErrorKind>)
        requires
            old(self)@.wf(),
        ensures
            final(self)@.wf(),
            final(self)@.cap() == old(self)@.cap(),
            final(self)@ == old(self)@.insert_model(key, value).0,
            r == old(self)@.insert_model(key, value).1,
            r is Ok ==> is_probe_result(
                old(self)@.slots,
                old(self)@.primary(key),
                probe_free_slot(old(self)@.slots, old(self)@.primary(key)),
            ),
    {
        let ghost m0 = self@;
        if self.count == self.keys.len() {
            return Err(ErrorKind::Full);
        }
        proof {
            lemma_count_occupied_le_len(m0.slots);
            lemma_primary_in_range(m0, key);
        }
        let index = key.hash() % self.keys.len();
        if self.does_key_exists(&key) {
            return Err(ErrorKind::DuplicateKey);
        }
        if self.keys[index].is_none() {
            proof {
                lemma_small_mod(index as nat, m0.cap());
                assert(is_probe_result_at(m0.slots, index as int, index as int, 0));
                let jj = probe_free_slot(m0.slots, index as int);
                assert(is_probe_result(m0.slots, index as int, index as int));
                lemma_probe_result_unique(m0.slots, index as int, jj, index as int);
                lemma_count_occupied_update(m0.slots, index as int, Some(key));
            }
            self.insert_into(index, key, value);
            self.count = self.count + 1;
            proof {
                assert(self@ =~= m0.insert_model(key, value).0);
            }
            return Ok(());
        }
        let mut j = index;
        let ghost mut d: int = 0;
        proof {
            lemma_small_mod(index as nat, m0.cap());
        }
        loop
            invariant
                m0 == old(self)@,
                self@ == m0,
                m0.wf(),
                0 < m0.cap(),
                m0.cap() <= usize::MAX,
                m0.count < m0.cap(),
                index < m0.cap(),
                index as int == m0.primary(key),
                !m0.key_at_primary(key),
                0 <= d < m0.cap(),
                j < m0.cap(),
                j as int == (index as int + d) % (m0.cap() as int),
                forall|e: int| 0 <= e < d
                    ==> m0.slots[#[trigger] ((index as int + e) % (m0.cap() as int))] is Some,
            decreases m0.cap() - d,
        {
            if self.keys[j].is_none() {
                proof {
                    assert(is_probe_result_at(m0.slots, index as int, j as int, d));
                    let jj = probe_free_slot(m0.slots, index as int);
                    assert(is_probe_result(m0.slots, index as int, j as int));
                    lemma_probe_result_unique(m0.slots, index as int, jj, j as int);
                    lemma_count_occupied_update(m0.slots, j as int, Some(key));
                }
                self.insert_into(j, key, value);
                self.count = self.count + 1;
                proof {
                    assert(self@ =~= m0.insert_model(key, value).0);
                }
                return Ok(());
            }
            proof {
                let n = m0.cap() as int;
                let a = index as int + d;
                assert(m0.slots[(index as int + d) % n] is Some);
                if d + 1 == n {
                    lemma_probe_window_full(m0.slots, index as int);
                    assert(false);
                }
                lemma_wrap_step(a, n);
                d = d + 1;
            }
            j = if j + 1 == self.keys.len() {
                0
            } else {
                j + 1
            };
        }
    }
}

} // verus!
