//! The validators of the network and their stake.

use vstd::prelude::*;

use crate::types::messages::ValidatorId;

verus! {

/// A validator: its name, its address (`host:port`) and its stake.
#[derive(Debug)]
pub struct ValidatorInfo {
    pub id: ValidatorId,
    pub address: String,
    pub stake: u64,
}

impl Clone for ValidatorInfo {
    fn clone(&self) -> (r: Self)
        ensures
            r == *self,
    {
        ValidatorInfo { id: self.id.clone(), address: self.address.clone(), stake: self.stake }
    }
}

/// The network as a validator sees it: all validators, its own name, and the
/// address it listens on.
#[derive(Debug)]
pub struct NetworkConfig {
    pub validators: Vec<ValidatorInfo>,
    pub local_validator_id: ValidatorId,
    pub bind_address: String,
}

/// The sum of the validators' stakes.
pub open spec fn stake_sum(vs: Seq<ValidatorInfo>) -> int
    decreases vs.len(),
{
    if vs.len() == 0 {
        0
    } else {
        stake_sum(vs.drop_last()) + vs.last().stake
    }
}

/// The first validator named `id`, if any.
pub open spec fn first_validator(vs: Seq<ValidatorInfo>, id: Seq<char>) -> Option<ValidatorInfo>
    decreases vs.len(),
{
    if vs.len() == 0 {
        None
    } else if vs[0].id@ == id {
        Some(vs[0])
    } else {
        first_validator(vs.drop_first(), id)
    }
}

/// The stake of the first validator named `id`, 0 where there is none.
pub open spec fn stake_of(vs: Seq<ValidatorInfo>, id: Seq<char>) -> u64 {
    match first_validator(vs, id) {
        Some(v) => v.stake,
        None => 0,
    }
}

proof fn lemma_stake_sum_push(vs: Seq<ValidatorInfo>, v: ValidatorInfo)
    ensures
        stake_sum(vs.push(v)) == stake_sum(vs) + v.stake,
{
    assert(vs.push(v).drop_last() =~= vs);
}

pub proof fn lemma_stake_sum_nonneg(vs: Seq<ValidatorInfo>)
    ensures
        stake_sum(vs) >= 0,
    decreases vs.len(),
{
    if vs.len() > 0 {
        lemma_stake_sum_nonneg(vs.drop_last());
    }
}

/// A prefix's stake is at most the whole stake.
pub proof fn lemma_stake_sum_prefix(vs: Seq<ValidatorInfo>, i: int)
    requires
        0 <= i <= vs.len(),
    ensures
        0 <= stake_sum(vs.take(i)) <= stake_sum(vs),
    decreases vs.len() - i,
{
    lemma_stake_sum_nonneg(vs.take(i));
    if i < vs.len() {
        lemma_stake_sum_prefix(vs, i + 1);
        assert(vs.take(i + 1) =~= vs.take(i).push(vs[i]));
        lemma_stake_sum_push(vs.take(i), vs[i]);
    } else {
        assert(vs.take(i) =~= vs);
    }
}

/// The stake of a non-empty list is its first validator's stake plus that of
/// the rest.
pub proof fn lemma_stake_sum_first(vs: Seq<ValidatorInfo>)
    requires
        vs.len() > 0,
    ensures
        stake_sum(vs) == vs[0].stake + stake_sum(vs.drop_first()),
    decreases vs.len(),
{
    if vs.len() > 1 {
        lemma_stake_sum_first(vs.drop_last());
        assert(vs.drop_last().drop_first() =~= vs.drop_first().drop_last());
        assert(vs.drop_last()[0] == vs[0]);
        assert(vs.drop_first().last() == vs.last());
        assert(stake_sum(vs.drop_first()) == stake_sum(vs.drop_first().drop_last()) + vs.drop_first().last().stake);
    } else {
        assert(vs.drop_first().len() == 0);
        assert(vs.drop_last().len() == 0);
        assert(stake_sum(vs.drop_last()) == 0);
        assert(stake_sum(vs.drop_first()) == 0);
        assert(vs.last() == vs[0]);
    }
}

impl Clone for NetworkConfig {
    fn clone(&self) -> (r: Self)
        ensures
            r.validators@ == self.validators@,
            r.local_validator_id == self.local_validator_id,
            r.bind_address == self.bind_address,
    {
        let validators = self.validators.clone();
        assert(validators@ =~= self.validators@);
        NetworkConfig {
            validators,
            local_validator_id: self.local_validator_id.clone(),
            bind_address: self.bind_address.clone(),
        }
    }
}

impl NetworkConfig {
    /// The total stake of the network.
    pub open spec fn spec_total_stake(&self) -> int {
        stake_sum(self.validators@)
    }

    /// The stake of the validator named `id`.
    pub open spec fn spec_stake(&self, id: Seq<char>) -> u64 {
        stake_of(self.validators@, id)
    }

    /// The first validator named `id`, if any.
    pub fn get_validator(&self, id: &ValidatorId) -> (r: Option<&ValidatorInfo>)
        ensures
            match r {
                Some(v) => first_validator(self.validators@, id@) == Some(*v),
                None => first_validator(self.validators@, id@) is None,
            },
    {
        let mut i: usize = 0;
        assert(self.validators@.skip(0) =~= self.validators@);
        while i < self.validators.len()
            invariant
                i <= self.validators@.len(),
                first_validator(self.validators@, id@) == first_validator(
                    self.validators@.skip(i as int),
                    id@,
                ),
            decreases self.validators@.len() - i,
        {
            assert(self.validators@.skip(i as int)[0] == self.validators@[i as int]);
            assert(self.validators@.skip(i as int).drop_first() =~= self.validators@.skip(
                i + 1,
            ));
            if self.validators[i].id == *id {
                return Some(&self.validators[i]);
            }
            i = i + 1;
        }
        assert(self.validators@.skip(i as int).len() == 0);
        None
    }

    /// The sum of all validators' stakes.
    pub fn total_stake(&self) -> (total: u64)
        requires
            self.spec_total_stake() <= u64::MAX,
        ensures
            total == self.spec_total_stake(),
    {
        let mut total: u64 = 0;
        let mut i: usize = 0;
        while i < self.validators.len()
            invariant
                i <= self.validators@.len(),
                stake_sum(self.validators@) <= u64::MAX,
                total == stake_sum(self.validators@.take(i as int)),
            decreases self.validators@.len() - i,
        {
            proof {
                lemma_stake_sum_prefix(self.validators@, i + 1);
                assert(self.validators@.take(i + 1) =~= self.validators@.take(i as int).push(
                    self.validators@[i as int],
                ));
                lemma_stake_sum_push(self.validators@.take(i as int), self.validators@[i as int]);
            }
            total = total + self.validators[i].stake;
            i = i + 1;
        }
        assert(self.validators@.take(i as int) =~= self.validators@);
        total
    }

    /// The stake of the first validator named `id`, 0 where there is none.
    pub fn get_stake(&self, id: &ValidatorId) -> (stake: u64)
        ensures
            stake == self.spec_stake(id@),
    {
        match self.get_validator(id) {
            Some(v) => v.stake,
            None => 0,
        }
    }
}

} // verus!
