//! The whole vote report in one call: the raw grouping of every logged vote
//! cast beside the grouping of the filtered, deduplicated casts, so the two
//! can be diffed.

use vstd::prelude::*;
use crate::data::{classify, eligible, AuditError, Block0, Fragment, VoteCast};
use crate::filter::{filter_fragments, filter_output, lemma_filter_output_sound};
use crate::grouping::{group_by_voter, groupable, groups_of, gview};

verus! {

/// The grouped vote casts before and after deduplication.
#[derive(Clone, PartialEq, Eq, Debug)]
pub struct VotesReport {
    pub original: Vec<(u64, Vec<VoteCast>)>,
    pub filtered: Vec<(u64, Vec<VoteCast>)>,
}

/// The logged fragments as the raw grouping consumes them: no counter known.
pub open spec fn with_no_counter(s: Seq<Fragment>) -> Seq<(Fragment, Option<u32>)> {
    s.map_values(|f: Fragment| (f, Option::<u32>::None))
}

/// The filtered fragments as the grouping consumes them: each under the
/// counter it was accepted with.
pub open spec fn with_counters(o: Seq<(Fragment, u32)>) -> Seq<(Fragment, Option<u32>)> {
    o.map_values(|p: (Fragment, u32)| (p.0, Option::Some(p.1)))
}

/// Groups every logged vote cast by voter, filters the log against the
/// genesis ledger over the counter window, and groups the survivors the same
/// way. A fragment the replay cannot support is fatal: the first vote cast
/// that is not a public ballot on an account input, or failing that, the
/// first fragment that is no vote cast at all, names the error.
pub fn tally_votes(
    block0: &Block0,
    range_start: u32,
    range_end: u32,
    fragments: &Vec<Fragment>,
) -> (r: Result<VotesReport, AuditError>)
    ensures
        (r is Ok) <==> (forall|i: int|
            0 <= i < fragments@.len() ==> eligible(#[trigger] fragments@[i])),
        r matches Ok(rep) ==> {
            &&& gview(rep.original@) == groups_of(with_no_counter(fragments@))
            &&& gview(rep.filtered@) == groups_of(
                with_counters(filter_output(*block0, range_start, range_end, fragments@)),
            )
        },
        r matches Err(e) ==> {
            ||| exists|i: int|
                {
                    &&& 0 <= i < fragments@.len()
                    &&& !groupable(#[trigger] fragments@[i])
                    &&& e == classify(fragments@[i])
                    &&& forall|k: int| 0 <= k < i ==> groupable(fragments@[k])
                }
            ||| {
                &&& (forall|i: int|
                    0 <= i < fragments@.len() ==> groupable(#[trigger] fragments@[i]))
                &&& exists|i: int|
                    {
                        &&& 0 <= i < fragments@.len()
                        &&& !eligible(#[trigger] fragments@[i])
                        &&& e == classify(fragments@[i])
                        &&& forall|k: int| 0 <= k < i ==> eligible(fragments@[k])
                    }
            }
        },
{
    let ghost s = fragments@;
    let mut raw_pairs: Vec<(Fragment, Option<u32>)> = Vec::new();
    let mut k: usize = 0;
    while k < fragments.len()
        invariant
            k <= s.len(),
            s == fragments@,
            raw_pairs@.len() == k,
            forall|j: int| 0 <= j < k ==> #[trigger] raw_pairs@[j] == (s[j], Option::<u32>::None),
        decreases s.len() - k,
    {
        raw_pairs.push((fragments[k], None));
        k = k + 1;
    }
    assert(raw_pairs@ =~= with_no_counter(s));
    let original = match group_by_voter(&raw_pairs) {
        Ok(g) => g,
        Err(e) => {
            proof {
                let i = choose|i: int|
                    {
                        &&& 0 <= i < raw_pairs@.len()
                        &&& !groupable((#[trigger] raw_pairs@[i]).0)
                        &&& e == classify(raw_pairs@[i].0)
                        &&& forall|k: int| 0 <= k < i ==> groupable(raw_pairs@[k].0)
                    };
                assert(!groupable(s[i]) && e == classify(s[i]));
                assert forall|k: int| 0 <= k < i implies groupable(#[trigger] s[k]) by {
                    assert(raw_pairs@[k].0 == s[k]);
                }
                assert(!eligible(s[i]));
            }
            return Err(e);
        },
    };
    proof {
        assert forall|i: int| 0 <= i < s.len() implies groupable(#[trigger] s[i]) by {
            assert(raw_pairs@[i].0 == s[i]);
        }
    }
    let filtered_raw = match filter_fragments(block0, range_start, range_end, fragments) {
        Ok(o) => o,
        Err(e) => {
            return Err(e);
        },
    };
    let ghost fo = filter_output(*block0, range_start, range_end, s);
    let mut filtered_pairs: Vec<(Fragment, Option<u32>)> = Vec::new();
    let mut m: usize = 0;
    while m < filtered_raw.len()
        invariant
            m <= filtered_raw@.len(),
            filtered_raw@ == fo,
            filtered_pairs@.len() == m,
            forall|j: int|
                0 <= j < m ==> #[trigger] filtered_pairs@[j] == (fo[j].0, Option::Some(fo[j].1)),
        decreases filtered_raw@.len() - m,
    {
        let (f, c) = filtered_raw[m];
        filtered_pairs.push((f, Some(c)));
        m = m + 1;
    }
    assert(filtered_pairs@ =~= with_counters(fo));
    let filtered = match group_by_voter(&filtered_pairs) {
        Ok(g) => g,
        Err(e) => {
            // Everything the filter emits is an eligible vote cast, so
            // grouping the filtered pairs cannot fail.
            proof {
                lemma_filter_output_sound(*block0, range_start, range_end, s);
                assert(false);
            }
            return Err(e);
        },
    };
    Ok(VotesReport { original, filtered })
}

} // verus!
