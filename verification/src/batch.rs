//! Regions that are assigned in parallel: each in a context of its own,
//! forked from the assembly and merged back in the order of the regions.

use vstd::prelude::*;
use std::ops::Range;
use rayon::iter::{
    IndexedParallelIterator, IntoParallelRefIterator, IntoParallelRefMutIterator, ParallelIterator,
};
use crate::assembly::{Assembly, AssemblyView};
use crate::cell::{RegionIndex, RegionStart};
use crate::constants::requests_in_reach;
use crate::error::Error;
use crate::region::{
    cell_in_reach, ops_in_reach, ConstantRequest, RegionView, SingleChipLayouterRegion,
};
use crate::shape::{RegionOp, ShapeView};
use crate::single_pass::{lemma_run_requests_in_reach, LayouterView};

verus! {

/// The error of the first of `outcomes` that failed, if one did.
pub open spec fn first_error<T>(outcomes: Seq<Result<T, Error>>) -> Option<Error>
    decreases outcomes.len(),
{
    if outcomes.len() == 0 {
        None
    } else {
        match first_error(outcomes.drop_last()) {
            Some(e) => Some(e),
            None => match outcomes.last() {
                Err(e) => Some(e),
                Ok(_) => None,
            },
        }
    }
}

/// The assemblies that the regions of a batch leave behind.
pub open spec fn sub_assemblies<F>(outcomes: Seq<Result<RegionView<F>, Error>>) -> Seq<
    AssemblyView<F>,
> {
    Seq::new(outcomes.len(), |i: int| outcomes[i]->Ok_0.cs)
}

/// The constants that the regions of a batch asked for, region by region.
pub open spec fn all_requests<F>(outcomes: Seq<Result<RegionView<F>, Error>>) -> Seq<
    ConstantRequest<F>,
>
    decreases outcomes.len(),
{
    if outcomes.len() == 0 {
        Seq::empty()
    } else {
        all_requests(outcomes.drop_last()) + outcomes.last()->Ok_0.constants
    }
}

/// The steps of each region of a batch.
pub open spec fn scripts_view<F>(assignments: Seq<Vec<RegionOp<F>>>) -> Seq<Seq<RegionOp<F>>> {
    Seq::new(assignments.len(), |i: int| assignments[i]@)
}

/// Whether taking the steps `ops` of region `region_index` on the assembly
/// `before` left the assembly `after` and gave `out`: the result of the
/// steps, and the constants that they asked for. Where a step fails, the
/// assembly and the constants are those of the steps before it.
pub open spec fn materialized<F>(
    before: AssemblyView<F>,
    regions: Seq<RegionStart>,
    region_index: RegionIndex,
    ops: Seq<RegionOp<F>>,
    after: AssemblyView<F>,
    out: (Result<(), Error>, Vec<ConstantRequest<F>>),
) -> bool {
    let done = RegionView::begin(before).after_run(regions, region_index, ops);
    &&& after.wf()
    &&& after.same_frame(before)
    &&& after == done.cs
    &&& out.1@ == done.constants
    &&& match RegionView::begin(before).run(regions, region_index, ops) {
        Ok(region) => out.0 is Ok && after == region.cs && out.1@ == region.constants,
        Err(e) => out.0 == Err::<(), Error>(e),
    }
}

/// Takes the steps `ops` of the region `region_index`, which has been
/// placed, on the assembly `cs`. Returns the result of the steps and the
/// constants that they asked for.
pub fn materialize<F: Copy>(
    cs: &mut Assembly<F>,
    regions: &Vec<RegionStart>,
    region_index: RegionIndex,
    ops: &[RegionOp<F>],
    name: &str,
) -> (out: (Result<(), Error>, Vec<ConstantRequest<F>>))
    requires
        old(cs)@.wf(),
        ops_in_reach(regions@, region_index, ops@),
    ensures
        materialized(old(cs)@, regions@, region_index, ops@, final(cs)@, out),
{
    cs.enter_region(name);
    let mut region = SingleChipLayouterRegion::new(cs, regions, region_index);
    let result = region.run(ops);
    let constants = region.constants;
    cs.exit_region();
    (result, constants)
}

/// Takes the steps of each region of a batch on the context that was forked
/// for it, the regions in parallel: `rayon`'s `par_iter_mut`, `zip`, `map`
/// and `collect`.
///
/// Region `i` has the steps `assignments[i]` and the index `indices[i]`, and
/// is assigned to `sub_cs[i]`. The contract claims of `rayon` that every
/// context is handed to [`materialize`] once, together with the index and the
/// steps at its own position, and that the results come back in the order of
/// the regions.
#[verifier::external_body]
pub(crate) fn materialize_all<F: Copy + Send + Sync>(
    sub_cs: &mut Vec<Assembly<F>>,
    regions: &Vec<RegionStart>,
    indices: &Vec<RegionIndex>,
    assignments: &Vec<Vec<RegionOp<F>>>,
    name: &str,
) -> (ret: Vec<(Result<(), Error>, Vec<ConstantRequest<F>>)>)
    requires
        old(sub_cs)@.len() == assignments@.len(),
        indices@.len() == assignments@.len(),
        forall|i: int| 0 <= i < old(sub_cs)@.len() ==> (#[trigger] old(sub_cs)@[i])@.wf(),
        forall|i: int|
            0 <= i < assignments@.len() ==> ops_in_reach(
                regions@,
                indices@[i],
                (#[trigger] assignments@[i])@,
            ),
    ensures
        final(sub_cs)@.len() == old(sub_cs)@.len(),
        ret@.len() == old(sub_cs)@.len(),
        forall|i: int|
            0 <= i < ret@.len() ==> materialized(
                old(sub_cs)@[i]@,
                regions@,
                indices@[i],
                assignments@[i]@,
                final(sub_cs)@[i]@,
                #[trigger] ret@[i],
            ),
{
    sub_cs
        .par_iter_mut()
        .zip(indices.par_iter())
        .zip(assignments.par_iter())
        .map(|((cs, index), ops)| materialize(cs, regions, *index, ops.as_slice(), name))
        .collect()
}

/// The contexts that were forked for the regions of a batch can be merged
/// back, whatever steps the regions took in them.
pub(crate) proof fn lemma_forked_contexts_fit<F>(
    cs: AssemblyView<F>,
    ranges: Seq<Range<usize>>,
    subs: Seq<AssemblyView<F>>,
)
    requires
        cs.ranges_fit(ranges),
        subs.len() == ranges.len(),
        forall|i: int| 0 <= i < subs.len() ==> (#[trigger] subs[i]).same_frame(cs.window(ranges[i])),
    ensures
        forall|i: int| 0 <= i < subs.len() ==> cs.fits(#[trigger] subs[i]),
{
    assert forall|i: int| 0 <= i < subs.len() implies cs.fits(#[trigger] subs[i]) by {
        let _ = ranges[i];
    }
}

/// Once a region has failed, the first error of the batch is known.
pub(crate) proof fn lemma_first_error_stays<T>(outcomes: Seq<Result<T, Error>>, n: int)
    requires
        0 <= n <= outcomes.len(),
        first_error(outcomes.subrange(0, n)) is Some,
    ensures
        first_error(outcomes) == first_error(outcomes.subrange(0, n)),
    decreases outcomes.len() - n,
{
    if n < outcomes.len() {
        assert(outcomes.subrange(0, n + 1).drop_last() =~= outcomes.subrange(0, n));
        lemma_first_error_stays(outcomes, n + 1);
    } else {
        assert(outcomes.subrange(0, n) =~= outcomes);
    }
}

/// Where no region failed, each succeeded.
pub(crate) proof fn lemma_no_error<T>(outcomes: Seq<Result<T, Error>>, i: int)
    requires
        0 <= i < outcomes.len(),
        first_error(outcomes) is None,
    ensures
        outcomes[i] is Ok,
    decreases outcomes.len(),
{
    if i < outcomes.len() - 1 {
        lemma_no_error(outcomes.drop_last(), i);
    }
}

/// The cells that ask for constants in a batch lie within reach.
pub(crate) proof fn lemma_all_requests_in_reach<F>(
    layouter: LayouterView<F>,
    scripts: Seq<Seq<RegionOp<F>>>,
    outcomes: Seq<Result<RegionView<F>, Error>>,
    n: int,
)
    requires
        layouter.admits_all(scripts),
        outcomes == Seq::new(scripts.len(), |j: int| layouter.sub_outcome(scripts, j)),
        first_error(outcomes) is None,
        0 <= n <= outcomes.len(),
    ensures
        requests_in_reach(
            layouter.placed_all(scripts).regions,
            all_requests(outcomes.subrange(0, n)),
        ),
    decreases n,
{
    let regions = layouter.placed_all(scripts).regions;
    if n > 0 {
        lemma_all_requests_in_reach(layouter, scripts, outcomes, n - 1);
        assert(outcomes.subrange(0, n).drop_last() =~= outcomes.subrange(0, n - 1));
        lemma_no_error(outcomes, n - 1);
        layouter.lemma_batch_ops_in_reach(scripts, n - 1);
        let index = RegionIndex((layouter.regions.len() + n - 1) as usize);
        let start = RegionView::begin(layouter.cs.window(layouter.row_ranges(scripts)[n - 1]));
        lemma_run_requests_in_reach(start, regions, index, scripts[n - 1]);
        let front = all_requests(outcomes.subrange(0, n - 1));
        let last = outcomes[n - 1]->Ok_0.constants;
        assert forall|k: int| 0 <= k < (front + last).len() implies cell_in_reach(
            regions,
            (#[trigger] (front + last)[k]).1,
        ) by {
            if k < front.len() {
                assert((front + last)[k] == front[k]);
            } else {
                assert((front + last)[k] == last[k - front.len()]);
            }
        }
    } else {
        assert(outcomes.subrange(0, 0) =~= Seq::empty());
    }
}

/// The indices of the `count` regions that follow the first `first`
/// regions.
pub open spec fn batch_indices(first: nat, count: nat) -> Seq<RegionIndex> {
    Seq::new(count, |i: int| RegionIndex((first + i) as usize))
}

/// The results of the regions of a batch.
pub open spec fn batch_results<F>(ret: Seq<(Result<(), Error>, Vec<ConstantRequest<F>>)>) -> Seq<
    Result<(), Error>,
> {
    Seq::new(ret.len(), |i: int| ret[i].0)
}

/// The constants that the regions of a batch asked for, region by region.
pub open spec fn batch_requests<F>(ret: Seq<(Result<(), Error>, Vec<ConstantRequest<F>>)>) -> Seq<
    ConstantRequest<F>,
>
    decreases ret.len(),
{
    if ret.len() == 0 {
        Seq::empty()
    } else {
        batch_requests(ret.drop_last()) + ret.last().1@
    }
}

/// The error of the first region of a batch that failed, if one did.
pub(crate) fn first_failure<F>(
    ret: &Vec<(Result<(), Error>, Vec<ConstantRequest<F>>)>,
) -> (r: Result<(), Error>)
    ensures
        match first_error(batch_results(ret@)) {
            Some(e) => r == Err::<(), Error>(e),
            None => r is Ok,
        },
{
    let ghost results = batch_results(ret@);
    let mut j: usize = 0;
    assert(results.subrange(0, 0) =~= Seq::empty());
    while j < ret.len()
        invariant
            j <= ret@.len(),
            results == batch_results(ret@),
            first_error(results.subrange(0, j as int)) is None,
        decreases ret@.len() - j,
    {
        assert(results.subrange(0, j + 1).drop_last() =~= results.subrange(0, j as int));
        assert(results.subrange(0, j + 1).last() == ret@[j as int].0);
        if let Err(e) = ret[j].0 {
            proof {
                lemma_first_error_stays(results, j + 1);
            }
            return Err(e);
        }
        j = j + 1;
    }
    assert(results.subrange(0, j as int) =~= results);
    Ok(())
}

/// The constants that the regions of a batch asked for, in the order of the
/// regions and, within a region, in the order in which it asked.
pub(crate) fn collect_requests<F: Copy>(
    ret: &Vec<(Result<(), Error>, Vec<ConstantRequest<F>>)>,
) -> (requests:
    Vec<ConstantRequest<F>>)
    ensures
        requests@ == batch_requests(ret@),
{
    let mut constants_to_assign: Vec<ConstantRequest<F>> = Vec::new();
    let mut j: usize = 0;
    assert(ret@.subrange(0, 0) =~= Seq::empty());
    while j < ret.len()
        invariant
            j <= ret@.len(),
            constants_to_assign@ == batch_requests(ret@.subrange(0, j as int)),
        decreases ret@.len() - j,
    {
        assert(ret@.subrange(0, j + 1).drop_last() =~= ret@.subrange(0, j as int));
        assert(ret@.subrange(0, j + 1).last() == ret@[j as int]);
        let requests = &ret[j].1;
        let ghost collected = constants_to_assign@;
        let mut k: usize = 0;
        assert(requests@.subrange(0, 0) =~= Seq::empty());
        assert(collected + requests@.subrange(0, 0) =~= collected);
        while k < requests.len()
            invariant
                k <= requests@.len(),
                constants_to_assign@ == collected + requests@.subrange(0, k as int),
            decreases requests@.len() - k,
        {
            constants_to_assign.push(requests[k]);
            k = k + 1;
            assert(constants_to_assign@ =~= collected + requests@.subrange(0, k as int));
        }
        assert(requests@.subrange(0, k as int) =~= requests@);
        j = j + 1;
    }
    assert(ret@.subrange(0, j as int) =~= ret@);
    constants_to_assign
}

/// What the regions of a batch returned agrees with what becomes of each
/// region: the first error is the same, and where there is none, the
/// assemblies and the constants are those of the outcomes. The contexts can
/// be merged back in either case.
pub(crate) proof fn lemma_batch_outcomes<F>(
    layouter: LayouterView<F>,
    scripts: Seq<Seq<RegionOp<F>>>,
    subs: Seq<AssemblyView<F>>,
    ret: Seq<(Result<(), Error>, Vec<ConstantRequest<F>>)>,
)
    requires
        layouter.admits_all(scripts),
        layouter.cs.ranges_fit(layouter.row_ranges(scripts)),
        subs.len() == scripts.len(),
        ret.len() == scripts.len(),
        forall|j: int|
            0 <= j < scripts.len() ==> materialized(
                layouter.cs.window(layouter.row_ranges(scripts)[j]),
                layouter.placed_all(scripts).regions,
                RegionIndex((layouter.regions.len() + j) as usize),
                #[trigger] scripts[j],
                subs[j],
                ret[j],
            ),
    ensures
        forall|j: int| 0 <= j < subs.len() ==> (#[trigger] subs[j]).wf(),
        forall|j: int| 0 <= j < subs.len() ==> layouter.cs.fits(#[trigger] subs[j]),
        first_error(batch_results(ret)) == first_error(
            Seq::new(scripts.len(), |j: int| layouter.sub_outcome(scripts, j)),
        ),
        first_error(batch_results(ret)) is None ==> {
            let outcomes = Seq::new(scripts.len(), |j: int| layouter.sub_outcome(scripts, j));
            &&& subs == sub_assemblies(outcomes)
            &&& batch_requests(ret) == all_requests(outcomes)
            &&& requests_in_reach(layouter.placed_all(scripts).regions, all_requests(outcomes))
        },
{
    let outcomes = Seq::new(scripts.len(), |j: int| layouter.sub_outcome(scripts, j));
    let ranges = layouter.row_ranges(scripts);
    assert forall|j: int| 0 <= j < subs.len() implies (#[trigger] subs[j]).wf()
        && subs[j].same_frame(layouter.cs.window(ranges[j])) by {
        let _ = scripts[j];
    }
    lemma_forked_contexts_fit(layouter.cs, ranges, subs);
    assert forall|j: int| 0 <= j < scripts.len() implies match #[trigger] outcomes[j] {
        Ok(region) => ret[j].0 is Ok && subs[j] == region.cs && ret[j].1@ == region.constants,
        Err(e) => ret[j].0 == Err::<(), Error>(e),
    } by {
        let _ = scripts[j];
    }
    lemma_same_first_error(outcomes, batch_results(ret), outcomes.len() as int);
    assert(outcomes.subrange(0, outcomes.len() as int) =~= outcomes);
    assert(batch_results(ret).subrange(0, outcomes.len() as int) =~= batch_results(ret));
    if first_error(batch_results(ret)) is None {
        assert forall|j: int| 0 <= j < subs.len() implies subs[j] == sub_assemblies(outcomes)[j] by {
            lemma_no_error(outcomes, j);
        }
        assert(subs =~= sub_assemblies(outcomes));
        assert forall|j: int| 0 <= j < outcomes.len() implies (#[trigger] outcomes[j] matches Ok(
            region,
        ) && ret[j].1@ == region.constants) by {
            lemma_no_error(outcomes, j);
        }
        lemma_same_requests(outcomes, ret, outcomes.len() as int);
        assert(ret.subrange(0, outcomes.len() as int) =~= ret);
        lemma_all_requests_in_reach(layouter, scripts, outcomes, outcomes.len() as int);
    }
}

/// Results that fail where the outcomes fail, with the same errors, have
/// the same first error.
pub(crate) proof fn lemma_same_first_error<T>(
    outcomes: Seq<Result<T, Error>>,
    results: Seq<Result<(), Error>>,
    n: int,
)
    requires
        outcomes.len() == results.len(),
        0 <= n <= outcomes.len(),
        forall|j: int|
            0 <= j < outcomes.len() ==> match #[trigger] outcomes[j] {
                Ok(_) => results[j] is Ok,
                Err(e) => results[j] == Err::<(), Error>(e),
            },
    ensures
        first_error(outcomes.subrange(0, n)) == first_error(results.subrange(0, n)),
    decreases n,
{
    if n > 0 {
        lemma_same_first_error(outcomes, results, n - 1);
        assert(outcomes.subrange(0, n).drop_last() =~= outcomes.subrange(0, n - 1));
        assert(results.subrange(0, n).drop_last() =~= results.subrange(0, n - 1));
        let _ = outcomes[n - 1];
    } else {
        assert(outcomes.subrange(0, 0) =~= Seq::empty());
        assert(results.subrange(0, 0) =~= Seq::empty());
    }
}

/// Where every region succeeded and returned the constants of its outcome,
/// the constants of the batch are those of the outcomes.
pub(crate) proof fn lemma_same_requests<F>(
    outcomes: Seq<Result<RegionView<F>, Error>>,
    ret: Seq<(Result<(), Error>, Vec<ConstantRequest<F>>)>,
    n: int,
)
    requires
        outcomes.len() == ret.len(),
        0 <= n <= outcomes.len(),
        forall|j: int|
            0 <= j < outcomes.len() ==> (#[trigger] outcomes[j] matches Ok(region) && ret[j].1@
                == region.constants),
    ensures
        batch_requests(ret.subrange(0, n)) == all_requests(outcomes.subrange(0, n)),
    decreases n,
{
    if n > 0 {
        lemma_same_requests(outcomes, ret, n - 1);
        assert(outcomes.subrange(0, n).drop_last() =~= outcomes.subrange(0, n - 1));
        assert(ret.subrange(0, n).drop_last() =~= ret.subrange(0, n - 1));
        let _ = outcomes[n - 1];
    } else {
        assert(outcomes.subrange(0, 0) =~= Seq::empty());
        assert(ret.subrange(0, 0) =~= Seq::empty());
    }
}

/// The shapes of the regions of a batch whose first region has the index
/// `first`.
pub open spec fn batch_shapes<F>(first: nat, scripts: Seq<Seq<RegionOp<F>>>) -> Seq<ShapeView> {
    Seq::new(scripts.len(), |i: int| ShapeView::of(RegionIndex((first + i) as usize), scripts[i]))
}

} // verus!
