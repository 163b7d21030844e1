//! Inverse-proportional reward allocation: each positive-stake account gets
//! an inverse share, the scaled total stake divided by its own stake, so
//! that the eventual reward, the pool divided by that share, is proportional
//! to the account's fraction of the total stake.

use vstd::prelude::*;
use crate::data::{AuditError, Block0};
use crate::stake::{calculate_stake, genesis_funds, stake_sum, stake_table, table_view};

verus! {

/// Monetary subunits per whole unit.
pub const ADA_TO_LOVELACE_FACTOR: u64 = 1_000_000;

/// The zero-stake diagnostic names the first account whose row holds no
/// stake at all.
pub open spec fn zero_stake_err(t: Seq<(u64, u64)>, e: AuditError) -> bool {
    exists|p: int|
        {
            &&& 0 <= p < t.len()
            &&& (#[trigger] t[p]).1 == 0
            &&& forall|q: int| 0 <= q < p ==> (#[trigger] t[q]).1 != 0
            &&& e == (AuditError::ZeroStake { address: t[p].0 })
        }
}

/// Maps each account's stake to its inverse share: the (already scaled)
/// total stake divided by the account's stake, truncated. Rows keep their
/// order and accounts. A zero-stake row is fatal and names its account.
pub fn calculate_inverse_reward_share(total_stake: u64, stake_per_voter: &Vec<(u64, u64)>) -> (r:
    Result<Vec<(u64, u64)>, AuditError>)
    ensures
        match r {
            Ok(shares) => {
                &&& forall|p: int| 0 <= p < stake_per_voter@.len() ==> (#[trigger] stake_per_voter@[p]).1 > 0
                &&& shares@.len() == stake_per_voter@.len()
                &&& forall|p: int|
                    0 <= p < shares@.len() ==> (#[trigger] shares@[p]).0 == stake_per_voter@[p].0
                        && shares@[p].1 as int == total_stake as int / stake_per_voter@[p].1 as int
            },
            Err(e) => zero_stake_err(stake_per_voter@, e),
        },
{
    let mut shares: Vec<(u64, u64)> = Vec::new();
    let mut p: usize = 0;
    while p < stake_per_voter.len()
        invariant
            p <= stake_per_voter@.len(),
            shares@.len() == p,
            forall|q: int| 0 <= q < p ==> (#[trigger] stake_per_voter@[q]).1 > 0,
            forall|q: int|
                0 <= q < p ==> (#[trigger] shares@[q]).0 == stake_per_voter@[q].0
                    && shares@[q].1 as int == total_stake as int / stake_per_voter@[q].1 as int,
        decreases stake_per_voter@.len() - p,
    {
        let (address, stake) = stake_per_voter[p];
        if stake == 0 {
            return Err(AuditError::ZeroStake { address });
        }
        shares.push((address, total_stake / stake));
        p = p + 1;
    }
    Ok(shares)
}

/// One row of the reward report: an account, its stake, and its inverse
/// share of the scaled total stake.
#[derive(Clone, Copy, PartialEq, Eq, Debug)]
pub struct RewardRow {
    pub address: u64,
    pub stake: u64,
    pub inverse_share: u64,
}

/// Builds the reward table of a genesis ledger: per non-committee account,
/// its accumulated stake and its inverse share of the total stake scaled to
/// subunits. Returns the total stake beside the rows.
pub fn reward_table(committee_keys: &Vec<u64>, block0: &Block0) -> (r: Result<
    (u64, Vec<RewardRow>),
    AuditError,
>)
    ensures
        match r {
            Ok((total, rows)) => {
                &&& total as int == stake_sum(genesis_funds(*block0), committee_keys@)
                &&& total as int * ADA_TO_LOVELACE_FACTOR as int <= u64::MAX
                &&& rows@.len() == stake_table(genesis_funds(*block0), committee_keys@).len()
                &&& forall|p: int|
                    0 <= p < rows@.len() ==> {
                        let t = stake_table(genesis_funds(*block0), committee_keys@);
                        &&& (#[trigger] rows@[p]).address == t[p].0
                        &&& rows@[p].stake as int == t[p].1
                        &&& t[p].1 > 0
                        &&& rows@[p].inverse_share as int == (total as int
                            * ADA_TO_LOVELACE_FACTOR as int) / t[p].1
                    }
                &&& forall|p: int|
                    0 <= p < rows@.len() ==> !committee_keys@.contains(
                        (#[trigger] rows@[p]).address,
                    )
            },
            Err(e) => match e {
                AuditError::StakeOverflow { .. } => crate::stake::stake_overflow_err(
                    genesis_funds(*block0),
                    committee_keys@,
                    e,
                ),
                AuditError::ScaledStakeOverflow => stake_sum(
                    genesis_funds(*block0),
                    committee_keys@,
                ) * ADA_TO_LOVELACE_FACTOR as int > u64::MAX,
                AuditError::ZeroStake { .. } => exists|p: int|
                    {
                        &&& 0 <= p < stake_table(genesis_funds(*block0), committee_keys@).len()
                        &&& (#[trigger] stake_table(genesis_funds(*block0), committee_keys@)[p]).1
                            == 0
                        &&& forall|q: int|
                            0 <= q < p ==> stake_table(genesis_funds(*block0), committee_keys@)[q].1
                                != 0
                        &&& e == (AuditError::ZeroStake {
                            address: stake_table(genesis_funds(*block0), committee_keys@)[p].0,
                        })
                    },
                _ => false,
            },
        },
{
    let (total_stake, stake_per_voter) = match calculate_stake(committee_keys, block0) {
        Ok(ts) => ts,
        Err(e) => {
            return Err(e);
        },
    };
    let ghost t = stake_table(genesis_funds(*block0), committee_keys@);
    let scaled = match total_stake.checked_mul(ADA_TO_LOVELACE_FACTOR) {
        Some(s) => s,
        None => {
            return Err(AuditError::ScaledStakeOverflow);
        },
    };
    let shares = match calculate_inverse_reward_share(scaled, &stake_per_voter) {
        Ok(s) => s,
        Err(e) => {
            proof {
                let p = choose|p: int|
                    {
                        &&& 0 <= p < stake_per_voter@.len()
                        &&& (#[trigger] stake_per_voter@[p]).1 == 0
                        &&& forall|q: int| 0 <= q < p ==> (#[trigger] stake_per_voter@[q]).1 != 0
                        &&& e == (AuditError::ZeroStake { address: stake_per_voter@[p].0 })
                    };
                assert(t[p].1 == 0 && t[p].0 == stake_per_voter@[p].0);
                assert(forall|q: int| 0 <= q < p ==> t[q].1 != 0);
            }
            return Err(e);
        },
    };
    let mut rows: Vec<RewardRow> = Vec::new();
    let mut p: usize = 0;
    while p < stake_per_voter.len()
        invariant
            p <= stake_per_voter@.len(),
            shares@.len() == stake_per_voter@.len(),
            rows@.len() == p,
            t == stake_table(genesis_funds(*block0), committee_keys@),
            table_view(stake_per_voter@) == t,
            forall|q: int| 0 <= q < stake_per_voter@.len() ==> (#[trigger] stake_per_voter@[q]).1 > 0,
            forall|q: int|
                0 <= q < shares@.len() ==> (#[trigger] shares@[q]).0 == stake_per_voter@[q].0
                    && shares@[q].1 as int == scaled as int / stake_per_voter@[q].1 as int,
            scaled == total_stake as int * ADA_TO_LOVELACE_FACTOR as int,
            forall|q: int|
                0 <= q < stake_per_voter@.len() ==> !committee_keys@.contains(
                    (#[trigger] stake_per_voter@[q]).0,
                ),
            forall|q: int|
                0 <= q < p ==> {
                    &&& (#[trigger] rows@[q]).address == stake_per_voter@[q].0
                    &&& rows@[q].stake == stake_per_voter@[q].1
                    &&& rows@[q].inverse_share == shares@[q].1
                },
        decreases stake_per_voter@.len() - p,
    {
        let (address, stake) = stake_per_voter[p];
        rows.push(RewardRow { address, stake, inverse_share: shares[p].1 });
        p = p + 1;
    }
    proof {
        assert forall|q: int| 0 <= q < rows@.len() implies {
            &&& (#[trigger] rows@[q]).address == t[q].0
            &&& rows@[q].stake as int == t[q].1
            &&& t[q].1 > 0
            &&& rows@[q].inverse_share as int == (total_stake as int * ADA_TO_LOVELACE_FACTOR as int)
                / t[q].1
        } by {
            assert(table_view(stake_per_voter@)[q] == (stake_per_voter@[q].0, stake_per_voter@[q].1 as int));
        }
    }
    Ok((total_stake, rows))
}

} // verus!
