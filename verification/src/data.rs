//! Plain data model of the audited ledger: genesis state, logged fragments,
//! decoded vote records, and the errors of the audit pipeline.
//!
//! Account, vote-plan and fragment identities are opaque values that the
//! algorithms only compare; they are carried here as integer identifiers.
//! The callers that read real ledger files intern each textual identity to
//! one such identifier before handing the data in.

use vstd::prelude::*;

verus! {

/// One entry of a genesis initial-funds block: an account and its balance.
#[derive(Clone, Copy, PartialEq, Eq, Debug)]
pub struct FundEntry {
    pub address: u64,
    pub value: u64,
}

/// One initial-state entry of the genesis ledger. Only fund entries carry
/// stake that the audit attributes to an account; certificates and legacy
/// funds are listed so that callers can hand the genesis over whole.
#[derive(Clone, PartialEq, Eq, Debug)]
pub enum InitialEntry {
    Fund(Vec<FundEntry>),
    Cert,
    LegacyFund,
}

/// The genesis ledger state: the ordered initial entries and the committee
/// account identities derived from the genesis committee keys.
#[derive(Clone, PartialEq, Eq, Debug)]
pub struct Block0 {
    pub initial: Vec<InitialEntry>,
    pub committee: Vec<u64>,
}

/// The input side of a vote-cast transaction: either a single account input
/// carrying that account's spending counter, or a UTXO-style input, which
/// the audit cannot attribute to a voter.
#[derive(Clone, Copy, PartialEq, Eq, Debug)]
pub enum TxInput {
    Account { voter: u64, spending_counter: u32 },
    Utxo,
}

/// The ballot of a vote-cast transaction: a public choice, or a private
/// (encrypted) ballot that the audit cannot read.
#[derive(Clone, Copy, PartialEq, Eq, Debug)]
pub enum Ballot {
    Public { choice: u8 },
    Private,
}

/// The decoded contents of a vote-cast transaction.
#[derive(Clone, Copy, PartialEq, Eq, Debug)]
pub struct VoteCastTx {
    pub vote_plan: u64,
    pub proposal_index: u8,
    pub input: TxInput,
    pub payload: Ballot,
}

/// One logged fragment: a vote cast, or a fragment of any other kind.
#[derive(Clone, Copy, PartialEq, Eq, Debug)]
pub enum Fragment {
    VoteCast { fragment_id: u64, tx: VoteCastTx },
    Other { fragment_id: u64 },
}

/// One decoded vote record, as the grouped reports list it.
#[derive(Clone, Copy, PartialEq, Eq, Debug)]
pub struct VoteCast {
    pub fragment_id: u64,
    pub public_key: u64,
    pub voteplan: u64,
    pub chain_proposal_index: u8,
    pub choice: u8,
    pub spending_counter: Option<u32>,
}

/// The fatal conditions of the audit pipeline.
#[derive(Clone, Copy, PartialEq, Eq, Debug)]
pub enum AuditError {
    /// The filter met a fragment that is not a vote cast.
    NotVoteCast { fragment_id: u64 },
    /// A vote cast is built on a UTXO-style input.
    UtxoInput { fragment_id: u64 },
    /// A vote cast carries a private (encrypted) ballot.
    PrivateBallot { fragment_id: u64 },
    /// Accumulating this account's stake overflowed the 64-bit total.
    StakeOverflow { address: u64 },
    /// Scaling the total stake to subunits overflowed 64 bits.
    ScaledStakeOverflow,
    /// A zero-stake account reached the reward allocator.
    ZeroStake { address: u64 },
}

impl Fragment {
    /// The content hash standing for this fragment's identity.
    pub open spec fn spec_id(self) -> u64 {
        match self {
            Fragment::VoteCast { fragment_id, .. } => fragment_id,
            Fragment::Other { fragment_id } => fragment_id,
        }
    }

    /// The fragment identity, as the reports print it.
    pub fn id(&self) -> (r: u64)
        ensures
            r == self.spec_id(),
    {
        match self {
            Fragment::VoteCast { fragment_id, .. } => *fragment_id,
            Fragment::Other { fragment_id } => *fragment_id,
        }
    }
}

/// A fragment the filter can replay: a vote cast on a single account input
/// with a public ballot.
pub open spec fn eligible(f: Fragment) -> bool {
    &&& f is VoteCast
    &&& f->tx.input is Account
    &&& f->tx.payload is Public
}

/// The voter of an eligible fragment.
pub open spec fn fragment_voter(f: Fragment) -> u64 {
    f->tx.input->voter
}

/// The spending counter embedded in an eligible fragment.
pub open spec fn fragment_counter(f: Fragment) -> u32 {
    f->tx.input->spending_counter
}

/// The (voter, vote-plan, proposal) triple of an eligible fragment.
pub open spec fn fragment_triple(f: Fragment) -> (u64, u64, u8) {
    (fragment_voter(f), f->tx.vote_plan, f->tx.proposal_index)
}

/// The error that an ineligible fragment raises.
pub open spec fn classify(f: Fragment) -> AuditError {
    match f {
        Fragment::Other { fragment_id } => AuditError::NotVoteCast { fragment_id },
        Fragment::VoteCast { fragment_id, tx } => {
            if tx.input is Utxo {
                AuditError::UtxoInput { fragment_id }
            } else {
                AuditError::PrivateBallot { fragment_id }
            }
        },
    }
}

/// Whether one initial entry grants funds to the account.
pub open spec fn entry_has_account(e: InitialEntry, a: u64) -> bool {
    e matches InitialEntry::Fund(es) && exists|l: int|
        0 <= l < es@.len() && es@[l].address == a
}

/// Whether the genesis initial funds mention the account at all; only such
/// accounts exist on the replayed ledger.
pub open spec fn genesis_has_account(b: Block0, a: u64) -> bool {
    exists|k: int| 0 <= k < b.initial@.len() && entry_has_account(b.initial@[k], a)
}

/// Whether one fund block mentions the account.
fn fund_has_account(es: &Vec<FundEntry>, a: u64) -> (r: bool)
    ensures
        r == exists|l: int| 0 <= l < es@.len() && es@[l].address == a,
{
    let mut l: usize = 0;
    while l < es.len()
        invariant
            l <= es@.len(),
            forall|m: int| 0 <= m < l ==> es@[m].address != a,
        decreases es@.len() - l,
    {
        if es[l].address == a {
            return true;
        }
        l = l + 1;
    }
    false
}

/// Whether the genesis initial funds mention the account.
pub fn account_in_genesis(b: &Block0, a: u64) -> (r: bool)
    ensures
        r == genesis_has_account(*b, a),
{
    let mut k: usize = 0;
    while k < b.initial.len()
        invariant
            k <= b.initial@.len(),
            forall|m: int| 0 <= m < k ==> !entry_has_account(b.initial@[m], a),
        decreases b.initial@.len() - k,
    {
        match &b.initial[k] {
            InitialEntry::Fund(es) => {
                if fund_has_account(es, a) {
                    assert(entry_has_account(b.initial@[k as int], a));
                    return true;
                }
            },
            InitialEntry::Cert => {},
            InitialEntry::LegacyFund => {},
        }
        k = k + 1;
    }
    false
}

} // verus!
