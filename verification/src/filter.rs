//! The vote-fragment deduplication filter. It replays the logged fragments
//! against the genesis ledger over a bounded window of spending counters and
//! decides which cast is authoritative per (voter, vote-plan, proposal).
//!
//! Replay rules, fragment by fragment in log order:
//! - a fragment that is not a public-ballot vote cast on a single account
//!   input is a hard capability error and fails the whole run;
//! - a fragment whose spending counter falls outside the simulated window,
//!   or whose account has no genesis funds, is not acceptable and is dropped;
//! - a fragment is accepted when its counter exceeds every counter already
//!   accepted for its account; if its (voter, vote-plan, proposal) triple was
//!   already accepted, the earlier cast is superseded and removed;
//! - two casts from one account carrying the same counter are in conflict:
//!   both are rejected, and the counter stays consumed for that account.
//!
//! Accepted fragments keep their original order, each paired with the
//! spending counter it was accepted under.

use vstd::prelude::*;
use crate::data::{
    account_in_genesis, classify, eligible, fragment_counter, fragment_triple, fragment_voter,
    genesis_has_account, AuditError, Ballot, Block0, Fragment, TxInput,
};
use crate::util::{assoc_find, assoc_map, lemma_assoc_map, lemma_assoc_push, lemma_assoc_update,
    unique_keys};

verus! {

/// The replay state: which log positions are currently accepted, under which
/// counter, and the highest counter consumed per account.
pub ghost struct FilterState {
    pub accepted: Map<int, u32>,
    pub last: Map<u64, u32>,
}

/// Whether a spending counter lies in the simulated window.
pub open spec fn in_window(start: u32, end: u32, c: u32) -> bool {
    start <= c < end
}

/// Whether some accepted position carries the triple.
pub open spec fn has_triple(acc: Map<int, u32>, s: Seq<Fragment>, t: (u64, u64, u8)) -> bool {
    exists|j: int| #[trigger] acc.dom().contains(j) && fragment_triple(s[j]) == t
}

/// The accepted position carrying the triple.
pub open spec fn triple_slot(acc: Map<int, u32>, s: Seq<Fragment>, t: (u64, u64, u8)) -> int {
    choose|j: int| #[trigger] acc.dom().contains(j) && fragment_triple(s[j]) == t
}

/// Whether some accepted position of this voter carries the counter.
pub open spec fn has_counter(acc: Map<int, u32>, s: Seq<Fragment>, v: u64, c: u32) -> bool {
    exists|j: int|
        #[trigger] acc.dom().contains(j) && fragment_voter(s[j]) == v && acc[j] == c
}

/// The accepted position of this voter carrying the counter.
pub open spec fn counter_slot(acc: Map<int, u32>, s: Seq<Fragment>, v: u64, c: u32) -> int {
    choose|j: int|
        #[trigger] acc.dom().contains(j) && fragment_voter(s[j]) == v && acc[j] == c
}

/// One replay tick: how the state changes at log position `i`.
pub open spec fn filter_step(
    b: Block0,
    start: u32,
    end: u32,
    s: Seq<Fragment>,
    st: FilterState,
    i: int,
) -> FilterState {
    let f = s[i];
    let v = fragment_voter(f);
    let c = fragment_counter(f);
    let t = fragment_triple(f);
    if !eligible(f) || !in_window(start, end, c) || !genesis_has_account(b, v) {
        st
    } else if !st.last.dom().contains(v) || c > st.last[v] {
        let acc1 = if has_triple(st.accepted, s, t) {
            st.accepted.remove(triple_slot(st.accepted, s, t))
        } else {
            st.accepted
        };
        FilterState { accepted: acc1.insert(i, c), last: st.last.insert(v, c) }
    } else if c == st.last[v] {
        if has_counter(st.accepted, s, v, c) {
            FilterState {
                accepted: st.accepted.remove(counter_slot(st.accepted, s, v, c)),
                last: st.last,
            }
        } else {
            st
        }
    } else {
        st
    }
}

/// The replay state after the first `n` log positions.
pub open spec fn filter_run(b: Block0, start: u32, end: u32, s: Seq<Fragment>, n: int) -> FilterState
    decreases n,
{
    if n <= 0 {
        FilterState { accepted: Map::empty(), last: Map::empty() }
    } else {
        filter_step(b, start, end, s, filter_run(b, start, end, s, n - 1), n - 1)
    }
}

/// The accepted positions below `n`, in ascending order.
pub open spec fn accepted_indices(acc: Map<int, u32>, n: int) -> Seq<int>
    decreases n,
{
    if n <= 0 {
        Seq::empty()
    } else if acc.dom().contains(n - 1) {
        accepted_indices(acc, n - 1).push(n - 1)
    } else {
        accepted_indices(acc, n - 1)
    }
}

/// What the filter emits for an all-eligible log: the accepted fragments in
/// original order, each with the counter it was accepted under.
pub open spec fn filter_output(b: Block0, start: u32, end: u32, s: Seq<Fragment>) -> Seq<
    (Fragment, u32),
> {
    let st = filter_run(b, start, end, s, s.len() as int);
    accepted_indices(st.accepted, s.len() as int).map(
        |_p: int, j: int| (s[j], st.accepted[j]),
    )
}

/// The replay state's internal invariant over the first `n` positions.
pub open spec fn state_inv(
    b: Block0,
    start: u32,
    end: u32,
    s: Seq<Fragment>,
    st: FilterState,
    n: int,
) -> bool {
    &&& forall|j: int|
        #[trigger] st.accepted.dom().contains(j) ==> {
            &&& 0 <= j < n
            &&& eligible(s[j])
            &&& st.accepted[j] == fragment_counter(s[j])
            &&& in_window(start, end, fragment_counter(s[j]))
            &&& genesis_has_account(b, fragment_voter(s[j]))
        }
    &&& forall|j1: int, j2: int|
        #[trigger] st.accepted.dom().contains(j1) && #[trigger] st.accepted.dom().contains(j2)
            && fragment_triple(s[j1]) == fragment_triple(s[j2]) ==> j1 == j2
    &&& forall|j: int|
        #[trigger] st.accepted.dom().contains(j) ==> st.last.dom().contains(fragment_voter(s[j]))
            && st.accepted[j] <= st.last[fragment_voter(s[j])]
    &&& forall|j1: int, j2: int|
        #[trigger] st.accepted.dom().contains(j1) && #[trigger] st.accepted.dom().contains(j2)
            && fragment_voter(s[j1]) == fragment_voter(s[j2]) && j1 < j2 ==> st.accepted[j1]
            < st.accepted[j2]
}

/// The replay state keeps its invariant at every prefix.
pub proof fn lemma_run_inv(b: Block0, start: u32, end: u32, s: Seq<Fragment>, n: int)
    ensures
        state_inv(b, start, end, s, filter_run(b, start, end, s, n), n),
    decreases n,
{
    if n <= 0 {
    } else {
        lemma_run_inv(b, start, end, s, n - 1);
        let st = filter_run(b, start, end, s, n - 1);
        let st2 = filter_run(b, start, end, s, n);
        let i = n - 1;
        let f = s[i];
        let v = fragment_voter(f);
        let c = fragment_counter(f);
        let t = fragment_triple(f);
        if !eligible(f) || !in_window(start, end, c) || !genesis_has_account(b, v) {
            assert(st2 == st);
        } else if !st.last.dom().contains(v) || c > st.last[v] {
            let acc1 = if has_triple(st.accepted, s, t) {
                st.accepted.remove(triple_slot(st.accepted, s, t))
            } else {
                st.accepted
            };
            assert(st2.accepted == acc1.insert(i, c));
            assert forall|j1: int, j2: int|
                #[trigger] st2.accepted.dom().contains(j1)
                    && #[trigger] st2.accepted.dom().contains(j2) && fragment_triple(s[j1])
                    == fragment_triple(s[j2]) implies j1 == j2 by {
                if j1 != i && j2 != i {
                } else if j1 == i && j2 != i {
                    assert(acc1.dom().contains(j2) && fragment_triple(s[j2]) == t);
                    assert(has_triple(st.accepted, s, t));
                    assert(triple_slot(st.accepted, s, t) == j2);
                    assert(false);
                } else if j2 == i && j1 != i {
                    assert(acc1.dom().contains(j1) && fragment_triple(s[j1]) == t);
                    assert(has_triple(st.accepted, s, t));
                    assert(triple_slot(st.accepted, s, t) == j1);
                    assert(false);
                }
            }
        } else if c == st.last[v] {
            if has_counter(st.accepted, s, v, c) {
                assert(st2.accepted == st.accepted.remove(counter_slot(st.accepted, s, v, c)));
            } else {
                assert(st2 == st);
            }
        } else {
            assert(st2 == st);
        }
    }
}

/// The accepted positions are listed in strictly ascending order and all lie
/// below `n` in the accepted set.
pub proof fn lemma_accepted_indices(acc: Map<int, u32>, n: int)
    ensures
        forall|p: int|
            0 <= p < accepted_indices(acc, n).len() ==> acc.dom().contains(
                #[trigger] accepted_indices(acc, n)[p],
            ) && 0 <= accepted_indices(acc, n)[p] < n,
        forall|p: int, q: int|
            0 <= p < q < accepted_indices(acc, n).len() ==> accepted_indices(acc, n)[p]
                < accepted_indices(acc, n)[q],
    decreases n,
{
    if n > 0 {
        lemma_accepted_indices(acc, n - 1);
        let prev = accepted_indices(acc, n - 1);
        let cur = accepted_indices(acc, n);
        assert forall|p: int| 0 <= p < cur.len() implies acc.dom().contains(#[trigger] cur[p]) && 0
            <= cur[p] < n by {
            if p < prev.len() {
                assert(cur[p] == prev[p]);
            }
        }
        assert forall|p: int, q: int| 0 <= p < q < cur.len() implies cur[p] < cur[q] by {
            if q < prev.len() {
                assert(cur[p] == prev[p] && cur[q] == prev[q]);
            } else if acc.dom().contains(n - 1) && q == prev.len() {
                assert(cur[p] == prev[p]);
                assert(prev[p] < n - 1);
            }
        }
    }
}

/// No two accepted fragments target the same (voter, vote-plan, proposal).
pub open spec fn no_dup_triples(o: Seq<(Fragment, u32)>) -> bool {
    forall|p: int, q: int|
        0 <= p < q < o.len() ==> fragment_triple((#[trigger] o[p]).0) != fragment_triple(
            (#[trigger] o[q]).0,
        )
}

/// Per account, accepted counters never decrease along the output.
pub open spec fn counters_monotone(o: Seq<(Fragment, u32)>) -> bool {
    forall|p: int, q: int|
        0 <= p < q < o.len() && fragment_voter((#[trigger] o[p]).0) == fragment_voter(
            (#[trigger] o[q]).0,
        ) ==> o[p].1 <= o[q].1
}

/// The filtered output has no duplicate (voter, vote-plan, proposal) triple,
/// its counters never decrease per account, and every element is an accepted
/// eligible fragment paired with its own embedded counter, inside the window
/// and funded by the genesis.
pub proof fn lemma_filter_output_sound(b: Block0, start: u32, end: u32, s: Seq<Fragment>)
    ensures
        no_dup_triples(filter_output(b, start, end, s)),
        counters_monotone(filter_output(b, start, end, s)),
        forall|p: int|
            0 <= p < filter_output(b, start, end, s).len() ==> {
                &&& eligible((#[trigger] filter_output(b, start, end, s)[p]).0)
                &&& filter_output(b, start, end, s)[p].1 == fragment_counter(
                    filter_output(b, start, end, s)[p].0,
                )
                &&& in_window(start, end, filter_output(b, start, end, s)[p].1)
                &&& genesis_has_account(b, fragment_voter(filter_output(b, start, end, s)[p].0))
            },
{
    let n = s.len() as int;
    let st = filter_run(b, start, end, s, n);
    let idx = accepted_indices(st.accepted, n);
    let o = filter_output(b, start, end, s);
    lemma_run_inv(b, start, end, s, n);
    lemma_accepted_indices(st.accepted, n);
    assert(o.len() == idx.len());
    assert forall|p: int, q: int| 0 <= p < q < o.len() implies fragment_triple(
        (#[trigger] o[p]).0,
    ) != fragment_triple((#[trigger] o[q]).0) by {
        assert(o[p].0 == s[idx[p]] && o[q].0 == s[idx[q]]);
        assert(idx[p] < idx[q]);
    }
    assert forall|p: int, q: int|
        0 <= p < q < o.len() && fragment_voter((#[trigger] o[p]).0) == fragment_voter(
            (#[trigger] o[q]).0,
        ) implies o[p].1 <= o[q].1 by {
        assert(o[p].0 == s[idx[p]] && o[q].0 == s[idx[q]]);
        assert(o[p].1 == st.accepted[idx[p]] && o[q].1 == st.accepted[idx[q]]);
        assert(idx[p] < idx[q]);
    }
    assert forall|p: int| 0 <= p < o.len() implies {
        &&& eligible((#[trigger] o[p]).0)
        &&& o[p].1 == fragment_counter(o[p].0)
        &&& in_window(start, end, o[p].1)
        &&& genesis_has_account(b, fragment_voter(o[p].0))
    } by {
        assert(o[p].0 == s[idx[p]] && o[p].1 == st.accepted[idx[p]]);
        assert(st.accepted.dom().contains(idx[p]));
    }
}

/// The accepted positions of an executable acceptance vector: position `j`
/// is accepted under counter `c` when slot `j` holds `Some(c)`.
pub open spec fn acc_map(s: Seq<Option<u32>>) -> Map<int, u32> {
    Map::new(|j: int| 0 <= j < s.len() && s[j] is Some, |j: int| s[j]->0)
}

/// Whether this fragment is an eligible vote cast for the triple.
fn frag_matches_triple(f: &Fragment, t: (u64, u64, u8)) -> (r: bool)
    ensures
        eligible(*f) ==> r == (fragment_triple(*f) == t),
        !eligible(*f) ==> !r,
{
    match f {
        Fragment::VoteCast { tx, .. } => match tx.input {
            TxInput::Account { voter, .. } => match tx.payload {
                Ballot::Public { .. } => voter == t.0 && tx.vote_plan == t.1 && tx.proposal_index
                    == t.2,
                Ballot::Private => false,
            },
            TxInput::Utxo => false,
        },
        Fragment::Other { .. } => false,
    }
}

/// The voter of an eligible vote cast.
fn frag_voter(f: &Fragment) -> (r: u64)
    requires
        eligible(*f),
    ensures
        r == fragment_voter(*f),
{
    match f {
        Fragment::VoteCast { tx, .. } => match tx.input {
            TxInput::Account { voter, .. } => voter,
            TxInput::Utxo => {
                assert(false);
                0
            },
        },
        Fragment::Other { .. } => {
            assert(false);
            0
        },
    }
}

/// The accepted position carrying the triple, if any.
fn find_slot_with_triple(
    fragments: &Vec<Fragment>,
    accepted: &Vec<Option<u32>>,
    t: (u64, u64, u8),
) -> (r: Option<usize>)
    requires
        accepted@.len() <= fragments@.len(),
        forall|j: int|
            #[trigger] acc_map(accepted@).dom().contains(j) ==> eligible(fragments@[j]),
    ensures
        match r {
            Some(j) => acc_map(accepted@).dom().contains(j as int) && fragment_triple(
                fragments@[j as int],
            ) == t,
            None => !has_triple(acc_map(accepted@), fragments@, t),
        },
{
    let mut j: usize = 0;
    while j < accepted.len()
        invariant
            j <= accepted@.len(),
            accepted@.len() <= fragments@.len(),
            forall|j2: int|
                #[trigger] acc_map(accepted@).dom().contains(j2) ==> eligible(fragments@[j2]),
            forall|j2: int|
                0 <= j2 < j ==> !(#[trigger] acc_map(accepted@).dom().contains(j2)
                    && fragment_triple(fragments@[j2]) == t),
        decreases accepted@.len() - j,
    {
        if accepted[j].is_some() {
            assert(acc_map(accepted@).dom().contains(j as int));
            if frag_matches_triple(&fragments[j], t) {
                return Some(j);
            }
        }
        j = j + 1;
    }
    None
}

/// The accepted position of this voter carrying the counter, if any.
fn find_slot_with_counter(
    fragments: &Vec<Fragment>,
    accepted: &Vec<Option<u32>>,
    v: u64,
    c: u32,
) -> (r: Option<usize>)
    requires
        accepted@.len() <= fragments@.len(),
        forall|j: int|
            #[trigger] acc_map(accepted@).dom().contains(j) ==> eligible(fragments@[j]),
    ensures
        match r {
            Some(j) => acc_map(accepted@).dom().contains(j as int) && fragment_voter(
                fragments@[j as int],
            ) == v && acc_map(accepted@)[j as int] == c,
            None => !has_counter(acc_map(accepted@), fragments@, v, c),
        },
{
    let mut j: usize = 0;
    while j < accepted.len()
        invariant
            j <= accepted@.len(),
            accepted@.len() <= fragments@.len(),
            forall|j2: int|
                #[trigger] acc_map(accepted@).dom().contains(j2) ==> eligible(fragments@[j2]),
            forall|j2: int|
                0 <= j2 < j ==> !(#[trigger] acc_map(accepted@).dom().contains(j2)
                    && fragment_voter(fragments@[j2]) == v && acc_map(accepted@)[j2] == c),
        decreases accepted@.len() - j,
    {
        match accepted[j] {
            Some(cj) => {
                assert(acc_map(accepted@).dom().contains(j as int));
                if cj == c && frag_voter(&fragments[j]) == v {
                    return Some(j);
                }
            },
            None => {},
        }
        j = j + 1;
    }
    None
}

/// Replays the logged fragments against the genesis ledger over the window
/// of spending counters `range_start..range_end` and returns the accepted
/// fragments in original order, each with the counter it was accepted under.
/// A fragment that is not a public-ballot vote cast on an account input is a
/// hard capability error that fails the whole run and names the first such
/// fragment; superseded, conflicting, unfunded or out-of-window fragments are
/// dropped without error.
pub fn filter_fragments(
    block0: &Block0,
    range_start: u32,
    range_end: u32,
    fragments: &Vec<Fragment>,
) -> (r: Result<Vec<(Fragment, u32)>, AuditError>)
    ensures
        (r is Ok) <==> (forall|i: int|
            0 <= i < fragments@.len() ==> eligible(#[trigger] fragments@[i])),
        r matches Ok(out) ==> {
            &&& out@ == filter_output(*block0, range_start, range_end, fragments@)
            &&& no_dup_triples(out@)
            &&& counters_monotone(out@)
        },
        r matches Err(e) ==> exists|i: int|
            {
                &&& 0 <= i < fragments@.len()
                &&& !eligible(#[trigger] fragments@[i])
                &&& e == classify(fragments@[i])
                &&& forall|k: int| 0 <= k < i ==> eligible(fragments@[k])
            },
{
    let ghost s = fragments@;
    let ghost b = *block0;
    let n = fragments.len();
    let mut accepted: Vec<Option<u32>> = Vec::new();
    let mut last: Vec<(u64, u32)> = Vec::new();
    let mut i: usize = 0;
    assert(acc_map(accepted@) =~= filter_run(b, range_start, range_end, s, 0).accepted);
    assert(assoc_map(last@) =~= filter_run(b, range_start, range_end, s, 0).last);
    while i < n
        invariant
            i <= n,
            n == s.len(),
            s == fragments@,
            b == *block0,
            accepted@.len() == i,
            forall|k: int| 0 <= k < i ==> eligible(#[trigger] s[k]),
            acc_map(accepted@) == filter_run(b, range_start, range_end, s, i as int).accepted,
            assoc_map(last@) == filter_run(b, range_start, range_end, s, i as int).last,
            unique_keys(last@),
        decreases n - i,
    {
        let ghost st = filter_run(b, range_start, range_end, s, i as int);
        proof {
            lemma_run_inv(b, range_start, range_end, s, i as int);
            lemma_assoc_map(last@);
        }
        let f = fragments[i];
        let (voter, counter, plan, index) = match f {
            Fragment::VoteCast { tx, .. } => match (tx.input, tx.payload) {
                (TxInput::Account { voter, spending_counter }, Ballot::Public { .. }) => (
                    voter,
                    spending_counter,
                    tx.vote_plan,
                    tx.proposal_index,
                ),
                (TxInput::Utxo, _) => {
                    assert(!eligible(s[i as int]));
                    return Err(AuditError::UtxoInput { fragment_id: f.id() });
                },
                (_, Ballot::Private) => {
                    assert(!eligible(s[i as int]));
                    return Err(AuditError::PrivateBallot { fragment_id: f.id() });
                },
            },
            Fragment::Other { .. } => {
                assert(!eligible(s[i as int]));
                return Err(AuditError::NotVoteCast { fragment_id: f.id() });
            },
        };
        assert(eligible(s[i as int]) && voter == fragment_voter(s[i as int]) && counter
            == fragment_counter(s[i as int]) && (voter, plan, index) == fragment_triple(
            s[i as int],
        ));
        let in_w = range_start <= counter && counter < range_end;
        let in_g = account_in_genesis(block0, voter);
        let ghost st2 = filter_run(b, range_start, range_end, s, i + 1);
        assert(st2 == filter_step(b, range_start, range_end, s, st, i as int));
        if in_w && in_g {
            let last_pos = assoc_find(&last, voter);
            let accepts = match last_pos {
                None => true,
                Some(p) => counter > last[p].1,
            };
            proof {
                match last_pos {
                    None => {
                        assert(!st.last.dom().contains(voter));
                    },
                    Some(p) => {
                        let q = p as int;
                        assert(st.last.dom().contains(voter) && st.last[voter] == last@[q].1);
                    },
                }
            }
            if accepts {
                let ghost acc0 = accepted@;
                let slot = find_slot_with_triple(fragments, &accepted, (voter, plan, index));
                match slot {
                    Some(j) => {
                        proof {
                            assert(has_triple(st.accepted, s, (voter, plan, index)));
                            let j2 = triple_slot(st.accepted, s, (voter, plan, index));
                            assert(st.accepted.dom().contains(j2) && fragment_triple(s[j2]) == (
                                voter,
                                plan,
                                index,
                            ));
                            assert(j2 == j as int);
                        }
                        accepted.set(j, None);
                        proof {
                            assert(acc_map(accepted@) =~= acc_map(acc0).remove(j as int));
                        }
                    },
                    None => {
                        assert(!has_triple(st.accepted, s, (voter, plan, index)));
                    },
                }
                let ghost acc1 = acc_map(accepted@);
                accepted.push(Some(counter));
                proof {
                    assert(acc_map(accepted@) =~= acc1.insert(i as int, counter));
                    assert(acc_map(accepted@) =~= st2.accepted);
                }
                let ghost last0 = last@;
                match last_pos {
                    Some(p) => {
                        last.set(p, (voter, counter));
                        proof {
                            lemma_assoc_update(last0, p as int, counter);
                            assert(last@ =~= last0.update(p as int, (voter, counter)));
                            assert(assoc_map(last@) =~= st2.last);
                        }
                    },
                    None => {
                        last.push((voter, counter));
                        proof {
                            assert forall|q: int| 0 <= q < last0.len() implies (
                            #[trigger] last0[q]).0 != voter by {
                                if last0[q].0 == voter {
                                    assert(assoc_map(last0).dom().contains(voter));
                                }
                            }
                            lemma_assoc_push(last0, voter, counter);
                            assert(assoc_map(last@) =~= st2.last);
                        }
                    },
                }
            } else {
                let ghost acc0 = accepted@;
                let p = match last_pos {
                    Some(p) => p,
                    None => {
                        assert(false);
                        0
                    },
                };
                let last_counter = last[p].1;
                if counter == last_counter {
                    let cslot = find_slot_with_counter(fragments, &accepted, voter, counter);
                    match cslot {
                        Some(j) => {
                            proof {
                                assert(has_counter(st.accepted, s, voter, counter));
                                let j2 = counter_slot(st.accepted, s, voter, counter);
                                assert(st.accepted.dom().contains(j2) && fragment_voter(s[j2])
                                    == voter && st.accepted[j2] == counter);
                                if j2 != j as int {
                                    if j2 < j as int {
                                        assert(st.accepted[j2] < st.accepted[j as int]);
                                    } else {
                                        assert(st.accepted[j as int] < st.accepted[j2]);
                                    }
                                }
                                assert(j2 == j as int);
                            }
                            accepted.set(j, None);
                            proof {
                                assert(acc_map(accepted@) =~= acc_map(acc0).remove(j as int));
                            }
                        },
                        None => {
                            assert(!has_counter(st.accepted, s, voter, counter));
                        },
                    }
                    let ghost acc1 = acc_map(accepted@);
                    accepted.push(None);
                    proof {
                        assert(acc_map(accepted@) =~= acc1);
                        assert(acc_map(accepted@) =~= st2.accepted);
                        assert(st2.last == st.last);
                    }
                } else {
                    assert(counter < st.last[voter]);
                    accepted.push(None);
                    proof {
                        assert(acc_map(accepted@) =~= acc_map(acc0));
                        assert(st2 == st);
                    }
                }
            }
        } else {
            let ghost acc0 = accepted@;
            accepted.push(None);
            proof {
                assert(acc_map(accepted@) =~= acc_map(acc0));
                assert(st2 == st);
            }
        }
        i = i + 1;
    }
    let ghost stf = filter_run(b, range_start, range_end, s, n as int);
    let mut out: Vec<(Fragment, u32)> = Vec::new();
    let mut j: usize = 0;
    assert(out@ =~= accepted_indices(stf.accepted, 0).map(
        |_p: int, jj: int| (s[jj], stf.accepted[jj]),
    ));
    while j < n
        invariant
            j <= n,
            n == s.len(),
            s == fragments@,
            accepted@.len() == n,
            acc_map(accepted@) == stf.accepted,
            out@ == accepted_indices(stf.accepted, j as int).map(
                |_p: int, jj: int| (s[jj], stf.accepted[jj]),
            ),
        decreases n - j,
    {
        let ghost idx = accepted_indices(stf.accepted, j as int);
        match accepted[j] {
            Some(cj) => {
                assert(stf.accepted.dom().contains(j as int) && stf.accepted[j as int] == cj);
                out.push((fragments[j], cj));
                proof {
                    assert(accepted_indices(stf.accepted, j + 1) == idx.push(j as int));
                    assert(out@ =~= accepted_indices(stf.accepted, j + 1).map(
                        |_p: int, jj: int| (s[jj], stf.accepted[jj]),
                    ));
                }
            },
            None => {
                assert(!stf.accepted.dom().contains(j as int));
                assert(accepted_indices(stf.accepted, j + 1) == idx);
            },
        }
        j = j + 1;
    }
    proof {
        lemma_filter_output_sound(b, range_start, range_end, s);
        assert(out@ == filter_output(b, range_start, range_end, s));
    }
    Ok(out)
}

/// Replaying the same genesis state, window and fragment sequence twice
/// yields identical output: the filter is a deterministic function of its
/// inputs.
pub proof fn lemma_filter_deterministic(
    b: Block0,
    start: u32,
    end: u32,
    s: Seq<Fragment>,
    out1: Seq<(Fragment, u32)>,
    out2: Seq<(Fragment, u32)>,
)
    requires
        out1 == filter_output(b, start, end, s),
        out2 == filter_output(b, start, end, s),
    ensures
        out1 == out2,
{
}

} // verus!
