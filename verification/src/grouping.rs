//! Grouping of vote casts by voter identity: a pure fold over a sequence of
//! (fragment, optional counter) pairs that decodes each vote cast and
//! appends it to its voter's list, voters listed in order of first
//! appearance, records kept in input order.

use vstd::prelude::*;
use crate::data::{
    classify, eligible, fragment_voter, AuditError, Ballot, Fragment, TxInput, VoteCast,
};
use crate::util::{assoc_find, unique_keys};

verus! {

/// Whether the grouper can process the fragment: anything that is not a
/// vote cast is ignored, and a vote cast must be decodable.
pub open spec fn groupable(f: Fragment) -> bool {
    f is VoteCast ==> eligible(f)
}

/// The record decoded from an eligible vote cast and the counter it was
/// accepted under, if it came from the filter.
pub open spec fn decode(f: Fragment, sc: Option<u32>) -> VoteCast {
    VoteCast {
        fragment_id: f.spec_id(),
        public_key: fragment_voter(f),
        voteplan: f->tx.vote_plan,
        chain_proposal_index: f->tx.proposal_index,
        choice: f->tx.payload->choice,
        spending_counter: sc,
    }
}

/// Appends a record to its voter's group, or opens a group for a new voter.
pub open spec fn add_record(g: Seq<(u64, Seq<VoteCast>)>, r: VoteCast) -> Seq<
    (u64, Seq<VoteCast>),
> {
    if exists|p: int| 0 <= p < g.len() && (#[trigger] g[p]).0 == r.public_key {
        let p = choose|p: int| 0 <= p < g.len() && (#[trigger] g[p]).0 == r.public_key;
        g.update(p, (r.public_key, g[p].1.push(r)))
    } else {
        g.push((r.public_key, seq![r]))
    }
}

/// The groups of the first `n` pairs.
pub open spec fn group_fold(s: Seq<(Fragment, Option<u32>)>, n: int) -> Seq<(u64, Seq<VoteCast>)>
    decreases n,
{
    if n <= 0 {
        Seq::empty()
    } else {
        let g = group_fold(s, n - 1);
        if s[n - 1].0 is VoteCast {
            add_record(g, decode(s[n - 1].0, s[n - 1].1))
        } else {
            g
        }
    }
}

/// The groups of the whole sequence.
pub open spec fn groups_of(s: Seq<(Fragment, Option<u32>)>) -> Seq<(u64, Seq<VoteCast>)> {
    group_fold(s, s.len() as int)
}

/// The executable groups read as their mathematical counterpart.
pub open spec fn gview(g: Seq<(u64, Vec<VoteCast>)>) -> Seq<(u64, Seq<VoteCast>)> {
    g.map_values(|p: (u64, Vec<VoteCast>)| (p.0, p.1@))
}

/// Filters the pairs to vote casts, decodes each, and groups the records by
/// voter identity: one group per voter in order of first appearance, records
/// in input order. Fragments of other kinds are ignored; a vote cast that is
/// not a public ballot on an account input is fatal and names the first such
/// fragment.
pub fn group_by_voter(fragments: &Vec<(Fragment, Option<u32>)>) -> (r: Result<
    Vec<(u64, Vec<VoteCast>)>,
    AuditError,
>)
    ensures
        (r is Ok) <==> (forall|i: int|
            0 <= i < fragments@.len() ==> groupable((#[trigger] fragments@[i]).0)),
        r matches Ok(g) ==> gview(g@) == groups_of(fragments@) && unique_keys(g@),
        r matches Err(e) ==> exists|i: int|
            {
                &&& 0 <= i < fragments@.len()
                &&& !groupable((#[trigger] fragments@[i]).0)
                &&& e == classify(fragments@[i].0)
                &&& forall|k: int| 0 <= k < i ==> groupable(fragments@[k].0)
            },
{
    let ghost s = fragments@;
    let mut groups: Vec<(u64, Vec<VoteCast>)> = Vec::new();
    let mut i: usize = 0;
    while i < fragments.len()
        invariant
            i <= s.len(),
            s == fragments@,
            forall|k: int| 0 <= k < i ==> groupable((#[trigger] s[k]).0),
            gview(groups@) == group_fold(s, i as int),
            unique_keys(groups@),
        decreases s.len() - i,
    {
        let (f, sc) = fragments[i];
        match f {
            Fragment::Other { .. } => {
                assert(group_fold(s, i + 1) == group_fold(s, i as int));
            },
            Fragment::VoteCast { fragment_id, tx } => {
                let (voter, choice) = match (tx.input, tx.payload) {
                    (TxInput::Account { voter, .. }, Ballot::Public { choice }) => (voter, choice),
                    (TxInput::Utxo, _) => {
                        assert(!groupable(s[i as int].0));
                        return Err(AuditError::UtxoInput { fragment_id });
                    },
                    (_, Ballot::Private) => {
                        assert(!groupable(s[i as int].0));
                        return Err(AuditError::PrivateBallot { fragment_id });
                    },
                };
                let rec = VoteCast {
                    fragment_id,
                    public_key: voter,
                    voteplan: tx.vote_plan,
                    chain_proposal_index: tx.proposal_index,
                    choice,
                    spending_counter: sc,
                };
                assert(rec == decode(s[i as int].0, s[i as int].1));
                let ghost g0 = gview(groups@);
                proof {
                    assert forall|p: int, q: int| 0 <= p < q < g0.len() implies (
                    #[trigger] g0[p]).0 != (#[trigger] g0[q]).0 by {
                        assert(g0[p].0 == groups@[p].0 && g0[q].0 == groups@[q].0);
                    }
                }
                match assoc_find(&groups, voter) {
                    Some(p) => {
                        proof {
                            assert(g0[p as int].0 == voter);
                            let q = choose|q: int|
                                0 <= q < g0.len() && (#[trigger] g0[q]).0 == rec.public_key;
                            assert(q == p as int);
                        }
                        let pair = groups.remove(p);
                        let (key, mut votes) = pair;
                        votes.push(rec);
                        groups.insert(p, (key, votes));
                        proof {
                            assert(gview(groups@) =~= g0.update(
                                p as int,
                                (rec.public_key, g0[p as int].1.push(rec)),
                            ));
                            assert forall|x: int, y: int|
                                0 <= x < y < groups@.len() implies (#[trigger] groups@[x]).0 != (
                            #[trigger] groups@[y]).0 by {
                                assert(gview(groups@)[x].0 == groups@[x].0);
                                assert(gview(groups@)[y].0 == groups@[y].0);
                            }
                        }
                    },
                    None => {
                        proof {
                            assert forall|q: int| 0 <= q < g0.len() implies (#[trigger] g0[q]).0
                                != rec.public_key by {
                                assert(g0[q].0 == groups@[q].0);
                            }
                        }
                        let mut votes: Vec<VoteCast> = Vec::new();
                        votes.push(rec);
                        assert(votes@ =~= seq![rec]);
                        groups.push((voter, votes));
                        proof {
                            assert(gview(groups@) =~= g0.push((rec.public_key, seq![rec])));
                            assert forall|x: int, y: int|
                                0 <= x < y < groups@.len() implies (#[trigger] groups@[x]).0 != (
                            #[trigger] groups@[y]).0 by {
                                assert(gview(groups@)[x].0 == groups@[x].0);
                                assert(gview(groups@)[y].0 == groups@[y].0);
                            }
                        }
                    },
                }
            },
        }
        i = i + 1;
    }
    assert(gview(groups@) == groups_of(s));
    Ok(groups)
}

} // verus!
