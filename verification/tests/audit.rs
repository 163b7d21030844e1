use vote_audit::data::{
    AuditError, Ballot, Block0, Fragment, FundEntry, InitialEntry, TxInput, VoteCastTx,
};
use vote_audit::filter::filter_fragments;
use vote_audit::grouping::group_by_voter;
use vote_audit::rewards::{calculate_inverse_reward_share, reward_table, ADA_TO_LOVELACE_FACTOR};
use vote_audit::stake::calculate_stake;
use vote_audit::tally::tally_votes;

fn vote(fragment_id: u64, voter: u64, counter: u32, plan: u64, proposal: u8, choice: u8) -> Fragment {
    Fragment::VoteCast {
        fragment_id,
        tx: VoteCastTx {
            vote_plan: plan,
            proposal_index: proposal,
            input: TxInput::Account { voter, spending_counter: counter },
            payload: Ballot::Public { choice },
        },
    }
}

fn genesis(funds: Vec<(u64, u64)>, committee: Vec<u64>) -> Block0 {
    Block0 {
        initial: vec![InitialEntry::Fund(
            funds.into_iter().map(|(address, value)| FundEntry { address, value }).collect(),
        )],
        committee,
    }
}

#[test]
fn filtered_triples_are_distinct_and_counters_monotone() {
    let b = genesis(vec![(1, 10), (2, 10)], vec![]);
    let frags = vec![
        vote(100, 1, 0, 7, 0, 1),
        vote(101, 1, 1, 7, 1, 2),
        vote(102, 1, 2, 7, 0, 3),
        vote(103, 2, 0, 7, 0, 1),
        vote(104, 2, 1, 8, 0, 1),
    ];
    let out = filter_fragments(&b, 0, 1000, &frags).unwrap();
    let mut triples: Vec<(u64, u64, u8)> = Vec::new();
    let mut per_voter: Vec<(u64, u32)> = Vec::new();
    for (f, sc) in &out {
        match f {
            Fragment::VoteCast { tx, .. } => {
                let voter = match tx.input {
                    TxInput::Account { voter, .. } => voter,
                    TxInput::Utxo => panic!("utxo in filtered output"),
                };
                let t = (voter, tx.vote_plan, tx.proposal_index);
                assert!(!triples.contains(&t), "duplicate triple in filtered output");
                triples.push(t);
                for (v, c) in &per_voter {
                    if *v == voter {
                        assert!(*c <= *sc, "counters decrease for one account");
                    }
                }
                per_voter.push((voter, *sc));
            }
            Fragment::Other { .. } => panic!("non vote cast in filtered output"),
        }
    }
    // voter 1 cast twice for (7, 0); only the later, higher-counter cast stays
    assert_eq!(out.len(), 4);
    assert_eq!(out[0].0, frags[1]);
    assert_eq!(out[1].0, frags[2]);
}

#[test]
fn filter_is_deterministic() {
    let b = genesis(vec![(1, 10), (2, 10)], vec![]);
    let frags = vec![
        vote(100, 1, 0, 7, 0, 1),
        vote(101, 2, 0, 7, 0, 2),
        vote(102, 1, 1, 7, 0, 1),
    ];
    let once = filter_fragments(&b, 0, 1000, &frags).unwrap();
    let twice = filter_fragments(&b, 0, 1000, &frags).unwrap();
    assert_eq!(once, twice);
}

#[test]
fn duplicate_vote_keeps_only_higher_counter() {
    // Scenario: two casts from one account for the same (plan, proposal)
    // with counters 1 and 2; the counter-2 cast alone survives the filter,
    // while the raw grouping lists both.
    let b = genesis(vec![(1, 10)], vec![]);
    let frags = vec![vote(100, 1, 1, 7, 3, 1), vote(101, 1, 2, 7, 3, 2)];
    let report = tally_votes(&b, 0, 1000, &frags).unwrap();
    assert_eq!(report.original.len(), 1);
    assert_eq!(report.original[0].0, 1);
    assert_eq!(report.original[0].1.len(), 2);
    assert_eq!(report.original[0].1[0].spending_counter, None);
    assert_eq!(report.filtered.len(), 1);
    assert_eq!(report.filtered[0].1.len(), 1);
    let kept = &report.filtered[0].1[0];
    assert_eq!(kept.fragment_id, 101);
    assert_eq!(kept.choice, 2);
    assert_eq!(kept.spending_counter, Some(2));
}

#[test]
fn equal_counters_reject_both() {
    let b = genesis(vec![(1, 10)], vec![]);
    let frags = vec![vote(100, 1, 5, 7, 0, 1), vote(101, 1, 5, 7, 0, 2)];
    let out = filter_fragments(&b, 0, 1000, &frags).unwrap();
    assert!(out.is_empty());
}

#[test]
fn utxo_vote_cast_fails_the_run() {
    // Scenario: a vote cast on a UTXO-style input is a hard error, not a
    // silent omission.
    let b = genesis(vec![(1, 10)], vec![]);
    let frags = vec![
        vote(100, 1, 0, 7, 0, 1),
        Fragment::VoteCast {
            fragment_id: 101,
            tx: VoteCastTx {
                vote_plan: 7,
                proposal_index: 0,
                input: TxInput::Utxo,
                payload: Ballot::Public { choice: 1 },
            },
        },
    ];
    assert_eq!(
        filter_fragments(&b, 0, 1000, &frags),
        Err(AuditError::UtxoInput { fragment_id: 101 })
    );
    assert_eq!(
        tally_votes(&b, 0, 1000, &frags).unwrap_err(),
        AuditError::UtxoInput { fragment_id: 101 }
    );
}

#[test]
fn private_ballot_fails_the_run() {
    let b = genesis(vec![(1, 10)], vec![]);
    let frags = vec![Fragment::VoteCast {
        fragment_id: 42,
        tx: VoteCastTx {
            vote_plan: 7,
            proposal_index: 0,
            input: TxInput::Account { voter: 1, spending_counter: 0 },
            payload: Ballot::Private,
        },
    }];
    assert_eq!(
        filter_fragments(&b, 0, 1000, &frags),
        Err(AuditError::PrivateBallot { fragment_id: 42 })
    );
}

#[test]
fn non_vote_cast_fails_the_filter_but_not_the_grouper() {
    let b = genesis(vec![(1, 10)], vec![]);
    let frags = vec![Fragment::Other { fragment_id: 9 }, vote(100, 1, 0, 7, 0, 1)];
    assert_eq!(
        filter_fragments(&b, 0, 1000, &frags),
        Err(AuditError::NotVoteCast { fragment_id: 9 })
    );
    let pairs: Vec<(Fragment, Option<u32>)> = frags.iter().map(|f| (*f, None)).collect();
    let groups = group_by_voter(&pairs).unwrap();
    assert_eq!(groups.len(), 1);
    assert_eq!(groups[0].0, 1);
    assert_eq!(groups[0].1.len(), 1);
    assert_eq!(groups[0].1[0].fragment_id, 100);
    assert_eq!(groups[0].1[0].voteplan, 7);
    assert_eq!(groups[0].1[0].chain_proposal_index, 0);
}

#[test]
fn out_of_window_and_unfunded_votes_are_dropped() {
    let b = genesis(vec![(1, 10)], vec![]);
    let frags = vec![
        vote(100, 1, 500, 7, 0, 1), // counter past the window end
        vote(101, 9, 0, 7, 0, 1),   // account without genesis funds
        vote(102, 1, 3, 7, 1, 1),
    ];
    let out = filter_fragments(&b, 0, 500, &frags).unwrap();
    assert_eq!(out.len(), 1);
    assert_eq!(out[0].0, frags[2]);
    assert_eq!(out[0].1, 3);
}

#[test]
fn late_lower_counter_is_dropped() {
    let b = genesis(vec![(1, 10)], vec![]);
    let frags = vec![vote(100, 1, 5, 7, 0, 1), vote(101, 1, 3, 7, 1, 1)];
    let out = filter_fragments(&b, 0, 1000, &frags).unwrap();
    assert_eq!(out, vec![(frags[0], 5)]);
}

#[test]
fn window_start_bounds_acceptance() {
    let b = genesis(vec![(1, 10)], vec![]);
    let frags = vec![vote(100, 1, 1, 7, 0, 1), vote(101, 1, 2, 7, 1, 1)];
    let out = filter_fragments(&b, 2, 10, &frags).unwrap();
    assert_eq!(out, vec![(frags[1], 2)]);
}

#[test]
fn empty_log_filters_to_empty_output() {
    let b = genesis(vec![(1, 10)], vec![]);
    let frags: Vec<Fragment> = Vec::new();
    let out = filter_fragments(&b, 0, 1000, &frags).unwrap();
    assert!(out.is_empty());
    let report = tally_votes(&b, 0, 1000, &frags).unwrap();
    assert!(report.original.is_empty());
    assert!(report.filtered.is_empty());
}

#[test]
fn stake_sums_exactly_and_excludes_committee() {
    // Scenario: committee account 3 also holds funds of 500; it contributes
    // nothing and never appears in the stake table.
    let b = Block0 {
        initial: vec![
            InitialEntry::Fund(vec![
                FundEntry { address: 1, value: 100 },
                FundEntry { address: 3, value: 500 },
            ]),
            InitialEntry::Cert,
            InitialEntry::Fund(vec![
                FundEntry { address: 2, value: 300 },
                FundEntry { address: 1, value: 50 },
            ]),
            InitialEntry::LegacyFund,
        ],
        committee: vec![3],
    };
    let committee = vec![3];
    let (total, table) = calculate_stake(&committee, &b).unwrap();
    assert_eq!(total, 450);
    assert_eq!(table, vec![(1, 150), (2, 300)]);
    let sum: u64 = table.iter().map(|(_, v)| *v).sum();
    assert_eq!(sum, total);
    assert!(table.iter().all(|(a, _)| *a != 3));
}

#[test]
fn stake_overflow_names_the_account() {
    let b = genesis(vec![(1, u64::MAX), (2, 1)], vec![]);
    let committee: Vec<u64> = Vec::new();
    assert_eq!(
        calculate_stake(&committee, &b),
        Err(AuditError::StakeOverflow { address: 2 })
    );
}

#[test]
fn inverse_share_is_floored_division() {
    let table = vec![(1u64, 100u64), (2, 300)];
    let shares = calculate_inverse_reward_share(400 * ADA_TO_LOVELACE_FACTOR, &table).unwrap();
    assert_eq!(shares, vec![(1, 4_000_000), (2, 1_333_333)]);
    assert_eq!(400_000_000u64 / 300, 1_333_333);
}

#[test]
fn zero_stake_account_is_fatal() {
    let table = vec![(1u64, 100u64), (2, 0)];
    assert_eq!(
        calculate_inverse_reward_share(1_000, &table),
        Err(AuditError::ZeroStake { address: 2 })
    );
    let b = genesis(vec![(1, 100), (2, 0)], vec![]);
    let committee: Vec<u64> = Vec::new();
    assert_eq!(
        reward_table(&committee, &b),
        Err(AuditError::ZeroStake { address: 2 })
    );
}

#[test]
fn scaled_total_stake_overflow_is_fatal() {
    let b = genesis(vec![(1, u64::MAX / 1_000)], vec![]);
    let committee: Vec<u64> = Vec::new();
    assert_eq!(reward_table(&committee, &b), Err(AuditError::ScaledStakeOverflow));
}

#[test]
fn rewards_split_proportionally_to_stake() {
    // Scenario: stakes 100 and 300 of a 400 total; a pool of 4,000,000
    // subunits splits into about 1,000,000 and 3,000,000 subunits.
    let b = genesis(vec![(1, 100), (2, 300)], vec![]);
    let committee: Vec<u64> = Vec::new();
    let (total, rows) = reward_table(&committee, &b).unwrap();
    assert_eq!(total, 400);
    assert_eq!(rows.len(), 2);
    assert_eq!(rows[0].address, 1);
    assert_eq!(rows[0].stake, 100);
    assert_eq!(rows[0].inverse_share, 4_000_000);
    assert_eq!(rows[1].address, 2);
    assert_eq!(rows[1].stake, 300);
    assert_eq!(rows[1].inverse_share, 1_333_333);

    let total_rewards: u64 = 4_000_000;
    let mut subunits: Vec<u64> = Vec::new();
    for row in &rows {
        let reward = (1f64 / row.inverse_share as f64) * total_rewards as f64;
        let expected = total_rewards as f64 / row.inverse_share as f64;
        assert!((reward - expected).abs() < 1e-9);
        subunits.push((reward * ADA_TO_LOVELACE_FACTOR as f64).trunc() as u64);
    }
    assert_eq!(subunits, vec![1_000_000, 3_000_000]);
}

#[test]
fn grouping_keeps_first_appearance_order() {
    let frags = vec![
        (vote(100, 2, 0, 7, 0, 1), None),
        (vote(101, 1, 0, 7, 1, 1), None),
        (vote(102, 2, 1, 7, 2, 1), None),
    ];
    let groups = group_by_voter(&frags).unwrap();
    assert_eq!(groups.len(), 2);
    assert_eq!(groups[0].0, 2);
    assert_eq!(groups[1].0, 1);
    assert_eq!(groups[0].1.len(), 2);
    assert_eq!(groups[0].1[0].fragment_id, 100);
    assert_eq!(groups[0].1[1].fragment_id, 102);
}
