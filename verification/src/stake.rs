//! Stake accounting over the genesis initial funds: the total stake and the
//! per-account stake table, with committee accounts excluded.

use vstd::prelude::*;
use crate::data::{AuditError, Block0, FundEntry, InitialEntry};
use crate::util::{assoc_find, unique_keys};

verus! {

/// The fund entries of the first `n` genesis initial entries, flattened in
/// order; entries of other kinds contribute nothing.
pub open spec fn funds_prefix(s: Seq<InitialEntry>, n: int) -> Seq<FundEntry>
    decreases n,
{
    if n <= 0 {
        Seq::empty()
    } else {
        funds_prefix(s, n - 1) + match s[n - 1] {
            InitialEntry::Fund(es) => es@,
            InitialEntry::Cert => Seq::empty(),
            InitialEntry::LegacyFund => Seq::empty(),
        }
    }
}

/// All fund entries of the genesis, flattened in order.
pub open spec fn genesis_funds(b: Block0) -> Seq<FundEntry> {
    funds_prefix(b.initial@, b.initial@.len() as int)
}

/// The exact sum of the listed balances, committee accounts excluded.
pub open spec fn stake_sum(fs: Seq<FundEntry>, c: Seq<u64>) -> int
    decreases fs.len(),
{
    if fs.len() == 0 {
        0
    } else {
        stake_sum(fs.drop_last(), c) + if c.contains(fs.last().address) {
            0
        } else {
            fs.last().value as int
        }
    }
}

/// Adds a balance to an account's row, or opens a new row for a new account.
pub open spec fn add_stake(t: Seq<(u64, int)>, a: u64, v: int) -> Seq<(u64, int)> {
    if exists|p: int| 0 <= p < t.len() && (#[trigger] t[p]).0 == a {
        let p = choose|p: int| 0 <= p < t.len() && (#[trigger] t[p]).0 == a;
        t.update(p, (a, t[p].1 + v))
    } else {
        t.push((a, v))
    }
}

/// The per-account stake table of the listed entries: one row per
/// non-committee account, in order of first appearance, balances
/// accumulated exactly.
pub open spec fn stake_table(fs: Seq<FundEntry>, c: Seq<u64>) -> Seq<(u64, int)>
    decreases fs.len(),
{
    if fs.len() == 0 {
        Seq::empty()
    } else {
        let t = stake_table(fs.drop_last(), c);
        if c.contains(fs.last().address) {
            t
        } else {
            add_stake(t, fs.last().address, fs.last().value as int)
        }
    }
}

/// The sum of a stake table's rows.
pub open spec fn table_sum(t: Seq<(u64, int)>) -> int
    decreases t.len(),
{
    if t.len() == 0 {
        0
    } else {
        table_sum(t.drop_last()) + t.last().1
    }
}

/// The executable stake table read as its mathematical counterpart.
pub open spec fn table_view(t: Seq<(u64, u64)>) -> Seq<(u64, int)> {
    t.map_values(|p: (u64, u64)| (p.0, p.1 as int))
}

/// Replacing one row's value moves the table's sum by the difference.
proof fn lemma_table_sum_update(t: Seq<(u64, int)>, p: int, x: int)
    requires
        0 <= p < t.len(),
    ensures
        table_sum(t.update(p, (t[p].0, x))) == table_sum(t) - t[p].1 + x,
    decreases t.len(),
{
    let u = t.update(p, (t[p].0, x));
    if p == t.len() - 1 {
        assert(u.drop_last() =~= t.drop_last());
    } else {
        assert(u.drop_last() =~= t.drop_last().update(p, (t[p].0, x)));
        assert(t.drop_last()[p] == t[p]);
        lemma_table_sum_update(t.drop_last(), p, x);
        assert(u.last() == t.last());
    }
}

/// Appending a row adds its value to the table's sum.
proof fn lemma_table_sum_push(t: Seq<(u64, int)>, a: u64, v: int)
    ensures
        table_sum(t.push((a, v))) == table_sum(t) + v,
{
    assert(t.push((a, v)).drop_last() =~= t);
}

/// How `add_stake` changes a well-formed table: the keys gain `a`, the sum
/// gains `v`, and the keys stay pairwise distinct.
proof fn lemma_add_stake(t: Seq<(u64, int)>, a: u64, v: int)
    requires
        unique_keys(t),
    ensures
        unique_keys(add_stake(t, a, v)),
        table_sum(add_stake(t, a, v)) == table_sum(t) + v,
        forall|q: int|
            0 <= q < add_stake(t, a, v).len() ==> ((#[trigger] add_stake(t, a, v)[q]).0 == a
                || exists|p: int| 0 <= p < t.len() && (#[trigger] t[p]).0 == add_stake(t, a, v)[q].0),
        exists|q: int| 0 <= q < add_stake(t, a, v).len() && (#[trigger] add_stake(t, a, v)[q]).0 == a,
{
    let r = add_stake(t, a, v);
    if exists|p: int| 0 <= p < t.len() && (#[trigger] t[p]).0 == a {
        let p = choose|p: int| 0 <= p < t.len() && (#[trigger] t[p]).0 == a;
        assert(t[p].0 == a);
        lemma_table_sum_update(t, p, t[p].1 + v);
        assert forall|i: int, j: int| 0 <= i < j < r.len() implies (#[trigger] r[i]).0 != (
        #[trigger] r[j]).0 by {
            assert(r[i].0 == t[i].0 && r[j].0 == t[j].0);
        }
        assert(r[p].0 == a);
    } else {
        lemma_table_sum_push(t, a, v);
        assert forall|i: int, j: int| 0 <= i < j < r.len() implies (#[trigger] r[i]).0 != (
        #[trigger] r[j]).0 by {
            if j < r.len() - 1 {
                assert(r[i] == t[i] && r[j] == t[j]);
            } else {
                assert(r[i] == t[i]);
            }
        }
        assert(r[r.len() - 1].0 == a);
    }
}

/// The stake table accounts for the total exactly: its rows are keyed by
/// pairwise-distinct non-committee accounts and sum to the stake sum.
pub proof fn lemma_stake_conservation(fs: Seq<FundEntry>, c: Seq<u64>)
    ensures
        unique_keys(stake_table(fs, c)),
        table_sum(stake_table(fs, c)) == stake_sum(fs, c),
        forall|p: int|
            0 <= p < stake_table(fs, c).len() ==> !c.contains(
                (#[trigger] stake_table(fs, c)[p]).0,
            ),
    decreases fs.len(),
{
    if fs.len() > 0 {
        lemma_stake_conservation(fs.drop_last(), c);
        let t = stake_table(fs.drop_last(), c);
        let e = fs.last();
        if !c.contains(e.address) {
            lemma_add_stake(t, e.address, e.value as int);
            assert forall|p: int| 0 <= p < stake_table(fs, c).len() implies !c.contains(
                (#[trigger] stake_table(fs, c)[p]).0,
            ) by {
                let r = stake_table(fs, c);
                if r[p].0 != e.address {
                    let q = choose|q: int| 0 <= q < t.len() && (#[trigger] t[q]).0 == r[p].0;
                    assert(!c.contains(t[q].0));
                }
            }
        }
    }
}

/// A longer prefix of fund entries never sums to less.
pub proof fn lemma_stake_sum_mono(fs: Seq<FundEntry>, c: Seq<u64>, i: int, j: int)
    requires
        0 <= i <= j <= fs.len(),
    ensures
        stake_sum(fs.take(i), c) <= stake_sum(fs.take(j), c),
    decreases j - i,
{
    if i < j {
        lemma_stake_sum_mono(fs, c, i, j - 1);
        assert(fs.take(j).drop_last() =~= fs.take(j - 1));
    }
}

/// Whether the committee list names the account.
pub fn committee_contains(c: &Vec<u64>, a: u64) -> (r: bool)
    ensures
        r == c@.contains(a),
{
    let mut i: usize = 0;
    while i < c.len()
        invariant
            i <= c@.len(),
            forall|m: int| 0 <= m < i ==> c@[m] != a,
        decreases c@.len() - i,
    {
        if c[i] == a {
            return true;
        }
        i = i + 1;
    }
    false
}

/// The overflow diagnostic names the account whose balance first pushed the
/// running total past the representable range.
pub open spec fn stake_overflow_err(fs: Seq<FundEntry>, c: Seq<u64>, e: AuditError) -> bool {
    exists|m: int|
        {
            &&& 0 <= m < fs.len()
            &&& stake_sum(fs.take(m + 1), c) > u64::MAX
            &&& stake_sum(#[trigger] fs.take(m), c) <= u64::MAX
            &&& e == (AuditError::StakeOverflow { address: fs[m].address })
        }
}

/// Walks the genesis initial funds and returns the total stake and the
/// per-account stake table, excluding committee accounts. Accumulation is
/// exact; a total beyond 64 bits is fatal and names the account reached.
pub fn calculate_stake(committee_keys: &Vec<u64>, block0: &Block0) -> (r: Result<
    (u64, Vec<(u64, u64)>),
    AuditError,
>)
    ensures
        match r {
            Ok((total, table)) => {
                &&& stake_sum(genesis_funds(*block0), committee_keys@) <= u64::MAX
                &&& total as int == stake_sum(genesis_funds(*block0), committee_keys@)
                &&& table_view(table@) == stake_table(genesis_funds(*block0), committee_keys@)
                &&& table_sum(table_view(table@)) == total as int
                &&& unique_keys(table@)
                &&& forall|p: int|
                    0 <= p < table@.len() ==> !committee_keys@.contains((#[trigger] table@[p]).0)
                &&& forall|p: int| 0 <= p < table@.len() ==> (#[trigger] table@[p]).1 <= total
            },
            Err(e) => {
                &&& stake_sum(genesis_funds(*block0), committee_keys@) > u64::MAX
                &&& stake_overflow_err(genesis_funds(*block0), committee_keys@, e)
            },
        },
{
    let ghost c = committee_keys@;
    let mut flat: Vec<FundEntry> = Vec::new();
    let mut k: usize = 0;
    while k < block0.initial.len()
        invariant
            k <= block0.initial@.len(),
            flat@ == funds_prefix(block0.initial@, k as int),
        decreases block0.initial@.len() - k,
    {
        match &block0.initial[k] {
            InitialEntry::Fund(es) => {
                let mut l: usize = 0;
                while l < es.len()
                    invariant
                        l <= es@.len(),
                        block0.initial@[k as int] matches InitialEntry::Fund(v) && v@ == es@,
                        k < block0.initial@.len(),
                        flat@ == funds_prefix(block0.initial@, k as int) + es@.take(l as int),
                    decreases es@.len() - l,
                {
                    flat.push(es[l]);
                    assert(es@.take(l + 1).drop_last() =~= es@.take(l as int));
                    assert(flat@ =~= funds_prefix(block0.initial@, k as int) + es@.take(l + 1));
                    l = l + 1;
                }
                assert(es@.take(es@.len() as int) =~= es@);
            },
            InitialEntry::Cert => {
                assert(flat@ =~= funds_prefix(block0.initial@, k + 1));
            },
            InitialEntry::LegacyFund => {
                assert(flat@ =~= funds_prefix(block0.initial@, k + 1));
            },
        }
        k = k + 1;
    }
    assert(flat@ == genesis_funds(*block0));

    let ghost fs = flat@;
    let mut total: u64 = 0;
    let mut table: Vec<(u64, u64)> = Vec::new();
    let mut m: usize = 0;
    assert(fs.take(0) =~= Seq::<FundEntry>::empty());
    while m < flat.len()
        invariant
            m <= fs.len(),
            fs == flat@,
            fs == genesis_funds(*block0),
            c == committee_keys@,
            total as int == stake_sum(fs.take(m as int), c),
            table_view(table@) == stake_table(fs.take(m as int), c),
            unique_keys(table@),
            forall|p: int| 0 <= p < table@.len() ==> (#[trigger] table@[p]).1 <= total,
        decreases fs.len() - m,
    {
        let e = flat[m];
        proof {
            assert(fs.take(m + 1).drop_last() =~= fs.take(m as int));
            assert(fs.take(m + 1).last() == fs[m as int]);
        }
        let is_comm = committee_contains(committee_keys, e.address);
        if !is_comm {
            match total.checked_add(e.value) {
                Some(t2) => {
                    let ghost tv = table_view(table@);
                    proof {
                        assert(t2 == total + e.value);
                        lemma_add_stake(
                            stake_table(fs.take(m as int), c),
                            e.address,
                            e.value as int,
                        );
                        assert forall|i: int, j: int| 0 <= i < j < tv.len() implies (
                        #[trigger] tv[i]).0 != (#[trigger] tv[j]).0 by {
                            assert(tv[i].0 == table@[i].0 && tv[j].0 == table@[j].0);
                        }
                    }
                    match assoc_find(&table, e.address) {
                        Some(p) => {
                            proof {
                                assert(tv[p as int].0 == e.address);
                                assert(table@[p as int].1 <= total);
                                let q = choose|q: int|
                                    0 <= q < tv.len() && (#[trigger] tv[q]).0 == e.address;
                                assert(q == p as int);
                            }
                            let old_v = table[p].1;
                            assert(old_v + e.value <= t2);
                            table.set(p, (e.address, old_v + e.value));
                            proof {
                                assert(table_view(table@) =~= tv.update(
                                    p as int,
                                    (e.address, tv[p as int].1 + e.value as int),
                                ));
                                assert forall|i: int, j: int|
                                    0 <= i < j < table@.len() implies (#[trigger] table@[i]).0 != (
                                #[trigger] table@[j]).0 by {
                                    assert(table_view(table@)[i].0 == table@[i].0);
                                    assert(table_view(table@)[j].0 == table@[j].0);
                                }
                            }
                        },
                        None => {
                            proof {
                                assert forall|q: int| 0 <= q < tv.len() implies (
                                #[trigger] tv[q]).0 != e.address by {
                                    assert(tv[q].0 == table@[q].0);
                                }
                                assert(!(exists|q: int|
                                    0 <= q < tv.len() && (#[trigger] tv[q]).0 == e.address));
                            }
                            table.push((e.address, e.value));
                            proof {
                                assert(table_view(table@) =~= tv.push((e.address, e.value as int)));
                                assert forall|i: int, j: int|
                                    0 <= i < j < table@.len() implies (#[trigger] table@[i]).0 != (
                                #[trigger] table@[j]).0 by {
                                    assert(table_view(table@)[i].0 == table@[i].0);
                                    assert(table_view(table@)[j].0 == table@[j].0);
                                }
                            }
                        },
                    }
                    total = t2;
                },
                None => {
                    proof {
                        assert(stake_sum(fs.take(m + 1), c) > u64::MAX);
                        lemma_stake_sum_mono(fs, c, m + 1, fs.len() as int);
                        assert(fs.take(fs.len() as int) =~= fs);
                    }
                    return Err(AuditError::StakeOverflow { address: e.address });
                },
            }
        } else {
            assert(stake_table(fs.take(m + 1), c) == stake_table(fs.take(m as int), c));
        }
        m = m + 1;
    }
    proof {
        assert(fs.take(fs.len() as int) =~= fs);
        lemma_stake_conservation(fs, c);
        assert forall|p: int| 0 <= p < table@.len() implies !c.contains(
            (#[trigger] table@[p]).0,
        ) by {
            assert(table_view(table@)[p].0 == table@[p].0);
        }
    }
    Ok((total, table))
}

} // verus!
