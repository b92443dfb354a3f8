//! Leader rotation over the validators in name order, each leading a window
//! of consecutive slots.

use vstd::prelude::*;

use vstd::relations::{sorted_by, total_ordering};
use vstd::utf8::{encode_utf8, encode_utf8_decode_utf8};

use crate::types::messages::{Slot, ValidatorId};

verus! {

/// Lexicographic order on byte strings: `a` is at most `b`.
pub open spec fn bytes_le(a: Seq<u8>, b: Seq<u8>) -> bool
    decreases a.len(),
{
    if a.len() == 0 {
        true
    } else if b.len() == 0 {
        false
    } else if a[0] < b[0] {
        true
    } else if a[0] > b[0] {
        false
    } else {
        bytes_le(a.drop_first(), b.drop_first())
    }
}

/// The order of names: that of their UTF-8 bytes, as `String`'s `Ord` compares them.
pub open spec fn name_le(a: Seq<char>, b: Seq<char>) -> bool {
    bytes_le(encode_utf8(a), encode_utf8(b))
}

/// Whether names are in ascending order.
pub open spec fn names_sorted(s: Seq<String>) -> bool {
    forall|i: int, j: int| 0 <= i < j < s.len() ==> name_le(#[trigger] s[i]@, #[trigger] s[j]@)
}

proof fn lemma_bytes_le_total(a: Seq<u8>, b: Seq<u8>)
    ensures
        bytes_le(a, b) || bytes_le(b, a),
    decreases a.len(),
{
    if a.len() > 0 && b.len() > 0 && a[0] == b[0] {
        lemma_bytes_le_total(a.drop_first(), b.drop_first());
    }
}

proof fn lemma_bytes_le_trans(a: Seq<u8>, b: Seq<u8>, c: Seq<u8>)
    requires
        bytes_le(a, b),
        bytes_le(b, c),
    ensures
        bytes_le(a, c),
    decreases a.len(),
{
    if a.len() > 0 && b.len() > 0 && c.len() > 0 && a[0] == b[0] && b[0] == c[0] {
        lemma_bytes_le_trans(a.drop_first(), b.drop_first(), c.drop_first());
    }
}

/// Compares two names as `String`'s `Ord` does: byte by byte.
fn name_le_exec(a: &String, b: &String) -> (r: bool)
    ensures
        r == name_le(a@, b@),
{
    let x = a.as_str().as_bytes();
    let y = b.as_str().as_bytes();
    assert(x@ == encode_utf8(a@));
    assert(y@ == encode_utf8(b@));
    let mut i: usize = 0;
    assert(x@.skip(0) =~= x@);
    assert(y@.skip(0) =~= y@);
    while i < x.len() && i < y.len()
        invariant
            i <= x@.len(),
            i <= y@.len(),
            x@ == encode_utf8(a@),
            y@ == encode_utf8(b@),
            bytes_le(x@, y@) == bytes_le(x@.skip(i as int), y@.skip(i as int)),
        decreases x@.len() - i,
    {
        assert(x@.skip(i as int).drop_first() =~= x@.skip(i + 1));
        assert(y@.skip(i as int).drop_first() =~= y@.skip(i + 1));
        assert(x@.skip(i as int)[0] == x@[i as int]);
        assert(y@.skip(i as int)[0] == y@[i as int]);
        assert(x@.skip(i as int).len() > 0 && y@.skip(i as int).len() > 0);
        if x[i] < y[i] {
            assert(bytes_le(x@.skip(i as int), y@.skip(i as int)));
            return true;
        }
        if x[i] > y[i] {
            assert(!bytes_le(x@.skip(i as int), y@.skip(i as int)));
            return false;
        }
        i = i + 1;
    }
    i == x.len()
}

/// How many consecutive slots a leader holds.
pub const LEADER_WINDOW: u64 = 4;

/// The leader of each slot: the validators in name order take turns, each
/// leading a window of [`LEADER_WINDOW`] consecutive slots.
pub struct LeaderSchedule {
    validators: Vec<ValidatorId>,
}

impl LeaderSchedule {
    /// The validators in the order the schedule rotates through them.
    pub closed spec fn order(&self) -> Seq<String> {
        self.validators@
    }

    /// The leader of `slot`: validator number `(slot / 4) mod n`, the leader
    /// of the slot's window.
    pub open spec fn spec_leader(&self, slot: u64) -> Seq<char> {
        self.order()[((slot / LEADER_WINDOW) % (self.order().len() as u64)) as int]@
    }

    /// Whether the validator named `id` leads `slot`.
    pub open spec fn spec_is_leader(&self, slot: u64, id: Seq<char>) -> bool {
        self.spec_leader(slot) == id
    }

    /// A schedule over the given validators, sorted by name.
    pub fn new(validators: Vec<ValidatorId>) -> (s: LeaderSchedule)
        ensures
            names_sorted(s.order()),
            s.order().to_multiset() == validators@.to_multiset(),
    {
        broadcast use {vstd::seq_lib::to_multiset_insert, vstd::seq_lib::to_multiset_build};

        let mut input = validators;
        let ghost all = input@;
        assert(all.take(0) =~= Seq::<String>::empty());
        assert(Seq::<String>::empty().to_multiset() =~= vstd::multiset::Multiset::empty()) by {
            broadcast use vstd::seq_lib::group_to_multiset_ensures;
        }
        let mut sorted: Vec<ValidatorId> = Vec::new();
        let mut k: usize = 0;
        let n = input.len();
        while k < n
            invariant
                n == all.len(),
                k <= n,
                names_sorted(sorted@),
                sorted@.to_multiset() == all.take(k as int).to_multiset(),
                input@ == all,
            decreases n - k,
        {
            let name = input[k].clone();
            let mut p: usize = 0;
            while p < sorted.len() && name_le_exec(&sorted[p], &name)
                invariant
                    p <= sorted@.len(),
                    forall|q: int| 0 <= q < p ==> name_le(#[trigger] sorted@[q]@, name@),
                decreases sorted@.len() - p,
            {
                p = p + 1;
            }
            let ghost before = sorted@;
            proof {
                if p < sorted@.len() {
                    assert(!name_le(sorted@[p as int]@, name@));
                    lemma_bytes_le_total(encode_utf8(sorted@[p as int]@), encode_utf8(name@));
                    assert forall|q: int| p <= q < before.len() implies name_le(name@, #[trigger] before[q]@) by {
                        if q > p {
                            lemma_bytes_le_trans(encode_utf8(name@), encode_utf8(before[p as int]@), encode_utf8(before[q]@));
                        }
                    }
                }
            }
            sorted.insert(p, name);
            proof {
                assert(sorted@ == before.insert(p as int, name));
                assert forall|i: int, j: int| 0 <= i < j < sorted@.len() implies name_le(#[trigger] sorted@[i]@, #[trigger] sorted@[j]@) by {
                    if i < p && j > p {
                        lemma_bytes_le_trans(encode_utf8(sorted@[i]@), encode_utf8(name@), encode_utf8(sorted@[j]@));
                    }
                }
                assert(all.take(k + 1) =~= all.take(k as int).push(all[k as int]));
                vstd::seq_lib::to_multiset_insert(before, p as int, name);
                vstd::seq_lib::to_multiset_build(all.take(k as int), all[k as int]);
            }
            k = k + 1;
        }
        assert(all.take(n as int) =~= all);
        LeaderSchedule { validators: sorted }
    }

    /// The leader of `slot`.
    pub fn get_leader(&self, slot: Slot) -> (leader: &ValidatorId)
        requires
            self.order().len() > 0,
        ensures
            leader@ == self.spec_leader(slot),
    {
        let n = self.validators.len() as u64;
        let index = ((slot / LEADER_WINDOW) % n) as usize;
        &self.validators[index]
    }

    /// Whether the validator named `validator_id` leads `slot`.
    pub fn is_leader(&self, slot: Slot, validator_id: &ValidatorId) -> (r: bool)
        requires
            self.order().len() > 0,
        ensures
            r == self.spec_is_leader(slot, validator_id@),
    {
        *self.get_leader(slot) == *validator_id
    }

    /// The first slot after `current_slot`, within the next `4 n` slots (`n`
    /// the number of validators, so one full turn of the windows), that
    /// `validator_id` leads; `current_slot + 4 n` where there is none.
    pub fn next_leader_slot(&self, current_slot: Slot, validator_id: &ValidatorId) -> (r: Slot)
        requires
            current_slot + LEADER_WINDOW * self.order().len() <= u64::MAX,
        ensures
            current_slot <= r <= current_slot + LEADER_WINDOW * self.order().len(),
            self.order().len() > 0 ==> current_slot < r,
            forall|s: u64| current_slot < s < r ==> !#[trigger] self.spec_is_leader(s, validator_id@),
            r < current_slot + LEADER_WINDOW * self.order().len() ==> self.spec_is_leader(r, validator_id@),
            (exists|s: u64|
                current_slot < s <= current_slot + LEADER_WINDOW * self.order().len() && #[trigger] self.spec_is_leader(
                    s,
                    validator_id@,
                )) ==> self.spec_is_leader(r, validator_id@),
    {
        let n = self.validators.len() as u64;
        let last = current_slot + LEADER_WINDOW * n;
        let mut slot = current_slot;
        while slot < last
            invariant
                current_slot <= slot <= last,
                last == current_slot + LEADER_WINDOW * self.order().len(),
                n == self.order().len(),
                forall|s: u64| current_slot < s <= slot ==> !#[trigger] self.spec_is_leader(s, validator_id@),
            decreases last - slot,
        {
            slot = slot + 1;
            if self.is_leader(slot, validator_id) {
                return slot;
            }
        }
        last
    }
}

} // verus!

verus! {

/// Law: the schedule repeats every `4 n` slots, `n` the number of validators:
/// each of them leads one window of 4 slots in turn.
pub proof fn law_schedule_is_periodic(s: LeaderSchedule, slot: u64)
    requires
        s.order().len() > 0,
        slot + LEADER_WINDOW * s.order().len() <= u64::MAX,
    ensures
        s.spec_leader((slot + LEADER_WINDOW * s.order().len()) as u64) == s.spec_leader(slot),
{
    let n = s.order().len() as int;
    assert((slot + 4 * n) / 4 == slot / 4 + n);
    vstd::arithmetic::div_mod::lemma_mod_add_multiples_vanish((slot / 4) as int, n);
}

/// Law: all slots of a window have the same leader.
pub proof fn law_window_has_one_leader(s: LeaderSchedule, slot: u64)
    requires
        s.order().len() > 0,
    ensures
        s.spec_leader(slot) == s.spec_leader((slot - slot % LEADER_WINDOW) as u64),
{
    assert((slot - slot % 4) / 4 == slot / 4);
}

proof fn lemma_index_within(current: int, n: int, i: int)
    requires
        0 <= i < n,
        0 <= current,
    ensures
        exists|w: int| current < w <= current + n && #[trigger] (w % n) == i,
{
    let a = current + 1;
    let k = a % n;
    let offset = (i - k + n) % n;
    assert(0 <= offset < n);
    let w = a + offset;
    vstd::arithmetic::div_mod::lemma_add_mod_noop(a, offset, n);
    vstd::arithmetic::div_mod::lemma_mod_twice(a, n);
    vstd::arithmetic::div_mod::lemma_add_mod_noop_right(k, i - k + n, n);
    vstd::arithmetic::div_mod::lemma_mod_add_multiples_vanish(i, n);
    vstd::arithmetic::div_mod::lemma_small_mod(i as nat, n as nat);
    vstd::arithmetic::div_mod::lemma_small_mod(offset as nat, n as nat);
    assert((a + offset) % n == (k + offset) % n);
    assert((k + offset) % n == i);
    assert(w % n == i);
}

/// Law: every validator of the schedule leads some slot among the `4 n` slots
/// after any slot (the first slot of its next window).
pub proof fn law_every_validator_leads_within_n_windows(s: LeaderSchedule, current: u64, i: int)
    requires
        0 <= i < s.order().len(),
        current + LEADER_WINDOW * s.order().len() <= u64::MAX,
    ensures
        exists|slot: u64|
            current < slot <= current + LEADER_WINDOW * s.order().len() && #[trigger] s.spec_is_leader(
                slot,
                s.order()[i]@,
            ),
{
    let n = s.order().len() as int;
    let cw = (current / 4) as int;
    lemma_index_within(cw, n, i);
    let w = choose|w: int| cw < w <= cw + n && #[trigger] (w % n) == i;
    let slot = (4 * w) as u64;
    assert(4 * w > current);
    assert(4 * w <= current + 4 * n);
    assert(slot / 4 == w);
    assert(s.spec_is_leader(slot, s.order()[i]@));
}

proof fn lemma_bytes_le_refl(a: Seq<u8>)
    ensures
        bytes_le(a, a),
    decreases a.len(),
{
    if a.len() > 0 {
        lemma_bytes_le_refl(a.drop_first());
    }
}

proof fn lemma_bytes_le_antisym(a: Seq<u8>, b: Seq<u8>)
    requires
        bytes_le(a, b),
        bytes_le(b, a),
    ensures
        a == b,
    decreases a.len(),
{
    if a.len() > 0 && b.len() > 0 {
        lemma_bytes_le_antisym(a.drop_first(), b.drop_first());
        assert(a =~= seq![a[0]] + a.drop_first());
        assert(b =~= seq![b[0]] + b.drop_first());
    } else {
        assert(a =~= b);
    }
}

/// The names of a list of validators.
pub open spec fn names_of(s: Seq<String>) -> Seq<Seq<char>> {
    s.map_values(|v: String| v@)
}

proof fn lemma_name_order_total()
    ensures
        total_ordering(|a: Seq<char>, b: Seq<char>| name_le(a, b)),
{
    let leq = |a: Seq<char>, b: Seq<char>| name_le(a, b);
    assert forall|x: Seq<char>| #[trigger] leq(x, x) by {
        lemma_bytes_le_refl(encode_utf8(x));
    }
    assert forall|x: Seq<char>, y: Seq<char>| #[trigger] leq(x, y) && #[trigger] leq(y, x) implies x == y by {
        lemma_bytes_le_antisym(encode_utf8(x), encode_utf8(y));
        encode_utf8_decode_utf8(x);
        encode_utf8_decode_utf8(y);
    }
    assert forall|x: Seq<char>, y: Seq<char>, z: Seq<char>| #[trigger] leq(x, y) && #[trigger] leq(y, z) implies leq(
        x,
        z,
    ) by {
        lemma_bytes_le_trans(encode_utf8(x), encode_utf8(y), encode_utf8(z));
    }
    assert forall|x: Seq<char>, y: Seq<char>| #[trigger] leq(x, y) || #[trigger] leq(y, x) by {
        lemma_bytes_le_total(encode_utf8(x), encode_utf8(y));
    }
}

proof fn lemma_names_multiset(p: Seq<String>, q: Seq<String>)
    requires
        p.to_multiset() == q.to_multiset(),
    ensures
        names_of(p).to_multiset() == names_of(q).to_multiset(),
    decreases p.len(),
{
    broadcast use vstd::seq_lib::group_to_multiset_ensures, vstd::multiset::group_multiset_axioms;

    if p.len() == 0 {
        assert(p.to_multiset().len() == 0);
        assert(q.len() == 0);
        assert(names_of(p) =~= names_of(q));
    } else {
        let x = p.last();
        let rest = p.drop_last();
        assert(p =~= rest.push(x));
        assert(p.to_multiset().contains(x));
        assert(q.contains(x));
        let k = choose|k: int| 0 <= k < q.len() && q[k] == x;
        let q2 = q.remove(k);
        assert(rest.to_multiset() =~= q2.to_multiset());
        lemma_names_multiset(rest, q2);
        assert(names_of(p) =~= names_of(rest).push(x@));
        assert(names_of(q) =~= names_of(q2).insert(k, x@));
    }
}

/// Law: the schedule depends on the set of validators alone, not on the
/// order they are given in: two sorted schedules over the same validators
/// (as [`LeaderSchedule::new`] makes them) list the same names in the same
/// order, so they name the same leader for every slot.
pub proof fn law_schedule_depends_on_validators_alone(a: LeaderSchedule, b: LeaderSchedule, slot: u64)
    requires
        names_sorted(a.order()),
        names_sorted(b.order()),
        a.order().to_multiset() == b.order().to_multiset(),
        a.order().len() > 0,
    ensures
        names_of(a.order()) == names_of(b.order()),
        a.order().len() <= u64::MAX ==> a.spec_leader(slot) == b.spec_leader(slot),
{
    broadcast use vstd::seq_lib::group_to_multiset_ensures;

    let leq = |x: Seq<char>, y: Seq<char>| name_le(x, y);
    lemma_name_order_total();
    lemma_names_multiset(a.order(), b.order());
    let na = names_of(a.order());
    let nb = names_of(b.order());
    assert(sorted_by(na, leq)) by {
        assert forall|i: int, j: int| 0 <= i < j < na.len() implies #[trigger] leq(na[i], na[j]) by {
            assert(name_le(a.order()[i]@, a.order()[j]@));
        }
    }
    assert(sorted_by(nb, leq)) by {
        assert forall|i: int, j: int| 0 <= i < j < nb.len() implies #[trigger] leq(nb[i], nb[j]) by {
            assert(name_le(b.order()[i]@, b.order()[j]@));
        }
    }
    vstd::seq_lib::lemma_sorted_unique(na, nb, leq);
    assert(a.order().len() == b.order().len());
    if a.order().len() <= u64::MAX {
        let n = a.order().len() as u64;
        let idx = ((slot / LEADER_WINDOW) % n) as int;
        assert(0 <= idx < n);
        assert(na[idx] == nb[idx]);
    }
}

} // verus!
