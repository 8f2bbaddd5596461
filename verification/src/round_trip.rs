//! Forking and merging does not change what a circuit constrains: a batch
//! of regions registers the equality constraints that its regions register
//! when they are laid out one after the other.

use vstd::prelude::*;
use crate::assembly::{kept_copies, AssemblyView};
use crate::batch::{all_requests, first_error, lemma_no_error, sub_assemblies};
use crate::cell::{Equality, RegionIndex, RegionStart};
use crate::column::RegionColumn;
use crate::constants::{
    assign_constants, constant_copies, constants_key, lemma_assign_constants_by_frame,
    lemma_assign_constants_effects, lemma_assign_constants_split,
};
use crate::error::Error;
use crate::occupancy::{first_free, lemma_place, lemma_start_row_local};
use crate::region::{copies_of, covers, names_below, requests_of, ConstantRequest, RegionView};
use crate::shape::{RegionOp, ShapeView};
use crate::single_pass::{lemma_placed_all_regions, LayouterView};

verus! {

impl<F> LayouterView<F> {
    /// Laying out the regions of `scripts` one after the other, each as a
    /// region of its own, up to the first that fails.
    pub open spec fn assign_each(self, scripts: Seq<Seq<RegionOp<F>>>) -> Result<Self, Error>
        decreases scripts.len(),
    {
        if scripts.len() == 0 {
            Ok(self)
        } else {
            match self.assign_each(scripts.drop_last()) {
                Err(e) => Err(e),
                Ok(before) => before.assign_region(scripts.last()),
            }
        }
    }

    /// The index of region `i` of a batch that is laid out next.
    pub open spec fn batch_index(self, i: int) -> RegionIndex {
        RegionIndex((self.regions.len() + i) as usize)
    }

    /// Whether each region of the batch `scripts` names cells of itself and
    /// of earlier regions only.
    pub open spec fn names_earlier(self, scripts: Seq<Seq<RegionOp<F>>>) -> bool {
        forall|i: int|
            0 <= i < scripts.len() ==> names_below(
                #[trigger] scripts[i],
                self.regions.len() + i + 1,
            )
    }

    /// Whether no region of the batch `scripts` uses the column that holds
    /// the constants.
    pub open spec fn spares_constants(self, scripts: Seq<Seq<RegionOp<F>>>) -> bool {
        self.constants.len() > 0 ==> forall|i: int|
            0 <= i < scripts.len() ==> !ShapeView::of(
                self.batch_index(i),
                #[trigger] scripts[i],
            ).columns.contains(constants_key(self.constants))
    }

    /// The equality constraints that the first `n` regions of the batch
    /// `scripts` register, region by region.
    pub open spec fn copies_upto(
        self,
        regions: Seq<RegionStart>,
        scripts: Seq<Seq<RegionOp<F>>>,
        n: int,
    ) -> Seq<Equality>
        decreases n,
    {
        if n <= 0 {
            Seq::empty()
        } else {
            self.copies_upto(regions, scripts, n - 1) + copies_of(
                regions,
                self.batch_index(n - 1),
                scripts[n - 1],
            )
        }
    }

    /// The constants that the first `n` regions of the batch `scripts` ask
    /// for, region by region.
    pub open spec fn requests_upto(self, scripts: Seq<Seq<RegionOp<F>>>, n: int) -> Seq<
        ConstantRequest<F>,
    >
        decreases n,
    {
        if n <= 0 {
            Seq::empty()
        } else {
            self.requests_upto(scripts, n - 1) + requests_of(
                self.batch_index(n - 1),
                scripts[n - 1],
            )
        }
    }

    /// What a region of a batch leaves in its own context: the equality
    /// constraints that its steps register and the constants that they ask
    /// for, and a context that can be merged back.
    pub proof fn lemma_sub_outcome(self, scripts: Seq<Seq<RegionOp<F>>>, i: int)
        requires
            self.wf(),
            self.cs.ranges_fit(self.row_ranges(scripts)),
            0 <= i < scripts.len(),
            self.sub_outcome(scripts, i) is Ok,
        ensures
            covers(self.cs, self.cs.window(self.row_ranges(scripts)[i])),
            ({
                let outcome = self.sub_outcome(scripts, i)->Ok_0;
                &&& outcome.cs.wf()
                &&& self.cs.fits(outcome.cs)
                &&& outcome.cs.copies == copies_of(
                    self.placed_all(scripts).regions,
                    self.batch_index(i),
                    scripts[i],
                )
                &&& outcome.constants == requests_of(self.batch_index(i), scripts[i])
            }),
    {
        let range = self.row_ranges(scripts)[i];
        let window = self.cs.window(range);
        let regions = self.placed_all(scripts).regions;
        assert(window.wf());
        RegionView::begin(window).lemma_run_effects(regions, self.batch_index(i), scripts[i]);
        let outcome = self.sub_outcome(scripts, i)->Ok_0;
        assert(outcome.cs.copies =~= copies_of(regions, self.batch_index(i), scripts[i]));
        assert(outcome.constants =~= requests_of(self.batch_index(i), scripts[i]));
    }

    /// What the regions of a batch leave in their contexts, taken together.
    pub proof fn lemma_sub_outcomes(self, scripts: Seq<Seq<RegionOp<F>>>, n: int)
        requires
            self.wf(),
            self.cs.ranges_fit(self.row_ranges(scripts)),
            0 <= n <= scripts.len(),
            first_error(Seq::new(scripts.len(), |j: int| self.sub_outcome(scripts, j))) is None,
        ensures
            ({
                let outcomes = Seq::new(scripts.len(), |j: int| self.sub_outcome(scripts, j));
                &&& kept_copies(sub_assemblies(outcomes).subrange(0, n)) == self.copies_upto(
                    self.placed_all(scripts).regions,
                    scripts,
                    n,
                )
                &&& all_requests(outcomes.subrange(0, n)) == self.requests_upto(scripts, n)
            }),
        decreases n,
    {
        let outcomes = Seq::new(scripts.len(), |j: int| self.sub_outcome(scripts, j));
        let subs = sub_assemblies(outcomes);
        if n > 0 {
            self.lemma_sub_outcomes(scripts, n - 1);
            lemma_no_error(outcomes, n - 1);
            self.lemma_sub_outcome(scripts, n - 1);
            assert(subs.subrange(0, n).drop_last() =~= subs.subrange(0, n - 1));
            assert(outcomes.subrange(0, n).drop_last() =~= outcomes.subrange(0, n - 1));
            assert(subs.subrange(0, n).last() == outcomes[n - 1]->Ok_0.cs);
        } else {
            assert(subs.subrange(0, 0) =~= Seq::empty());
            assert(outcomes.subrange(0, 0) =~= Seq::empty());
        }
    }

    /// Placing regions that do not use a column leaves that column free from
    /// where it was.
    pub proof fn lemma_placed_all_spares(
        self,
        scripts: Seq<Seq<RegionOp<F>>>,
        n: int,
        column: RegionColumn,
    )
        requires
            0 <= n <= scripts.len(),
            forall|i: int|
                0 <= i < scripts.len() ==> !ShapeView::of(
                    self.batch_index(i),
                    #[trigger] scripts[i],
                ).columns.contains(column),
        ensures
            first_free(self.placed_all(scripts.subrange(0, n)).columns, column) == first_free(
                self.columns,
                column,
            ),
        decreases n,
    {
        if n > 0 {
            self.lemma_placed_all_spares(scripts, n - 1, column);
            self.lemma_placed_next(scripts, n - 1);
            lemma_placed_all_regions(self, scripts.subrange(0, n - 1));
            let before = self.placed_all(scripts.subrange(0, n - 1));
            assert(before.next_index() == self.batch_index(n - 1));
            let _ = scripts[n - 1];
            lemma_place(before.columns, ShapeView::of(before.next_index(), scripts[n - 1]));
        } else {
            assert(scripts.subrange(0, 0) =~= Seq::empty());
            self.lemma_placed_none();
        }
    }
}

/// The list `a + b`, as a collection without order, is `a` and `b` together.
proof fn lemma_concat_multiset(a: Seq<Equality>, b: Seq<Equality>)
    ensures
        (a + b).to_multiset() == a.to_multiset().add(b.to_multiset()),
{
    vstd::seq_lib::lemma_multiset_commutative(a, b);
}

/// Lists that hold the same elements keep doing so when a list is inserted
/// in the middle of one and two lists are added at the end of both.
proof fn lemma_interleave(
    seq: Seq<Equality>,
    before: Seq<Equality>,
    copies: Seq<Equality>,
    constants: Seq<Equality>,
    more_copies: Seq<Equality>,
    more_constants: Seq<Equality>,
)
    requires
        seq.to_multiset() == (before + copies + constants).to_multiset(),
    ensures
        (seq + more_copies + more_constants).to_multiset() == (before + (copies + more_copies) + (
        constants + more_constants)).to_multiset(),
{
    lemma_concat_multiset(seq, more_copies);
    lemma_concat_multiset(seq + more_copies, more_constants);
    lemma_concat_multiset(before, copies);
    lemma_concat_multiset(before + copies, constants);
    lemma_concat_multiset(copies, more_copies);
    lemma_concat_multiset(constants, more_constants);
    lemma_concat_multiset(before, copies + more_copies);
    lemma_concat_multiset(before + (copies + more_copies), constants + more_constants);
    assert((seq + more_copies + more_constants).to_multiset() =~= (before + (copies
        + more_copies) + (constants + more_constants)).to_multiset());
}

impl<F> LayouterView<F> {
    /// The equality constraints that tie the constants of the first `n`
    /// regions of the batch `scripts` to the cells that asked for them,
    /// where there is a column for constants.
    pub open spec fn constant_copies_upto(
        self,
        regions: Seq<RegionStart>,
        scripts: Seq<Seq<RegionOp<F>>>,
        n: int,
    ) -> Seq<Equality> {
        if self.constants.len() == 0 {
            Seq::empty()
        } else {
            constant_copies(
                self.constants[0],
                first_free(self.columns, constants_key(self.constants)),
                regions,
                self.requests_upto(scripts, n),
            )
        }
    }

    /// What a batch that succeeds leaves behind: the start rows of its
    /// regions, and, after the equality constraints that were recorded
    /// before, those that its regions registered, region by region, and
    /// then those of their constants.
    pub proof fn lemma_batch_result(self, scripts: Seq<Seq<RegionOp<F>>>)
        requires
            self.wf(),
            self.spares_constants(scripts),
            self.assign_regions(scripts) is Ok,
        ensures
            self.cs.ranges_fit(self.row_ranges(scripts)),
            first_error(Seq::new(scripts.len(), |j: int| self.sub_outcome(scripts, j))) is None,
            ({
                let after = self.assign_regions(scripts)->Ok_0;
                let regions = self.placed_all(scripts).regions;
                &&& after.regions == regions
                &&& after.cs.equalities() == self.cs.equalities() + self.copies_upto(
                    regions,
                    scripts,
                    scripts.len() as int,
                ) + self.constant_copies_upto(regions, scripts, scripts.len() as int)
                &&& self.constants.len() == 0 ==> self.requests_upto(
                    scripts,
                    scripts.len() as int,
                ).len() == 0
                &&& self.constants.len() > 0 ==> exists|merged: AssemblyView<F>|
                    merged.wf() && merged.same_frame(self.cs) && #[trigger] assign_constants(
                        merged,
                        self.constants[0],
                        first_free(self.columns, constants_key(self.constants)),
                        regions,
                        self.requests_upto(scripts, scripts.len() as int),
                    ) is Ok
            }),
    {
        let n = scripts.len() as int;
        let placed = self.placed_all(scripts);
        let regions = placed.regions;
        let outcomes = Seq::new(scripts.len(), |j: int| self.sub_outcome(scripts, j));
        let subs = sub_assemblies(outcomes);
        self.lemma_sub_outcomes(scripts, n);
        assert(subs.subrange(0, n) =~= subs);
        assert(outcomes.subrange(0, n) =~= outcomes);
        assert forall|i: int| 0 <= i < subs.len() implies (#[trigger] subs[i]).wf() && self.cs.fits(
            subs[i],
        ) by {
            lemma_no_error(outcomes, i);
            self.lemma_sub_outcome(scripts, i);
        }
        self.cs.lemma_absorb_all(subs);
        let merged = self.cs.absorb_all(subs);
        let requests = self.requests_upto(scripts, n);
        if self.constants.len() > 0 {
            let key = constants_key(self.constants);
            assert(scripts.subrange(0, n) =~= scripts);
            self.lemma_placed_all_spares(scripts, n, key);
            let cursor = first_free(self.columns, key);
            lemma_assign_constants_effects(merged, self.constants[0], cursor, regions, requests);
            assert(assign_constants(merged, self.constants[0], cursor, regions, requests) is Ok);
        }
    }

    /// Whether `after`, the layouter once the first `n` regions of the batch
    /// `scripts` have been laid out one after the other, agrees with the
    /// batch: the regions start at the same rows, the columns but the one
    /// for constants are claimed alike, the constants have taken the rows
    /// that the batch gives them, and the same equality constraints are
    /// registered, in another order.
    #[verifier::opaque]
    pub open spec fn agrees_upto(self, scripts: Seq<Seq<RegionOp<F>>>, n: int, after: Self) -> bool {
        let regions = self.placed_all(scripts).regions;
        let placed = self.placed_all(scripts.subrange(0, n));
        &&& after.cs.wf()
        &&& after.cs.same_frame(self.cs)
        &&& after.constants == self.constants
        &&& after.table_columns == self.table_columns
        &&& after.regions == regions.subrange(0, self.regions.len() + n)
        &&& forall|c: RegionColumn|
            (self.constants.len() > 0 ==> c != constants_key(self.constants))
                ==> #[trigger] first_free(after.columns, c) == first_free(placed.columns, c)
        &&& self.constants.len() > 0 ==> first_free(after.columns, constants_key(self.constants))
            == first_free(self.columns, constants_key(self.constants)) + self.requests_upto(
            scripts,
            n,
        ).len()
        &&& after.cs.equalities().to_multiset() == (self.cs.equalities() + self.copies_upto(
            regions,
            scripts,
            n,
        ) + self.constant_copies_upto(regions, scripts, n)).to_multiset()
    }

    /// Laying out the first `n` regions of a batch one after the other
    /// succeeds where the batch succeeds, gives the same start rows, and
    /// registers the same equality constraints as the batch does for these
    /// regions, in another order.
    pub proof fn lemma_assign_each(self, scripts: Seq<Seq<RegionOp<F>>>, n: int)
        requires
            self.wf(),
            self.admits_all(scripts),
            self.names_earlier(scripts),
            self.spares_constants(scripts),
            self.assign_regions(scripts) is Ok,
            0 <= n <= scripts.len(),
        ensures
            self.assign_each(scripts.subrange(0, n)) matches Ok(after) && self.agrees_upto(
                scripts,
                n,
                after,
            ),
        decreases n,
    {
        if n == 0 {
            reveal(LayouterView::agrees_upto);
            let regions = self.placed_all(scripts).regions;
            lemma_placed_all_regions(self, scripts);
            assert(scripts.subrange(0, 0) =~= Seq::empty());
            self.lemma_placed_none();
            assert(regions.subrange(0, self.regions.len() as int) =~= self.regions);
            assert(self.cs.equalities() + self.copies_upto(regions, scripts, 0)
                + self.constant_copies_upto(regions, scripts, 0) =~= self.cs.equalities());
        } else {
            self.lemma_assign_each(scripts, n - 1);
            assert(scripts.subrange(0, n).drop_last() =~= scripts.subrange(0, n - 1));
            assert(scripts.subrange(0, n).last() == scripts[n - 1]);
            let before = self.assign_each(scripts.subrange(0, n - 1))->Ok_0;
            self.lemma_next_region(scripts, n - 1, before);
        }
    }

    /// Forking and merging changes the order of the equality constraints and
    /// nothing else about them: a batch of regions that is laid out, forked,
    /// assigned and merged registers the equality constraints that the same
    /// regions register when they are laid out one after the other without a
    /// fork, each as often. The regions start at the same rows either way.
    ///
    /// This holds of a batch whose regions name cells of themselves and of
    /// earlier regions only, as regions that are laid out one after the other
    /// must, and do not use the column that holds the constants: a region
    /// that writes to that column moves the rows that later constants take,
    /// and in a batch all regions are placed before any constant is.
    pub proof fn lemma_fork_merge_round_trip(self, scripts: Seq<Seq<RegionOp<F>>>)
        requires
            self.wf(),
            self.admits_all(scripts),
            self.names_earlier(scripts),
            self.spares_constants(scripts),
            self.assign_regions(scripts) is Ok,
        ensures
            self.assign_each(scripts) matches Ok(sequential) && sequential.regions
                == self.assign_regions(scripts)->Ok_0.regions
                && sequential.cs.equalities().to_multiset() == self.assign_regions(
                scripts,
            )->Ok_0.cs.equalities().to_multiset(),
    {
        reveal(LayouterView::agrees_upto);
        let n = scripts.len() as int;
        self.lemma_assign_each(scripts, n);
        self.lemma_batch_result(scripts);
        lemma_placed_all_regions(self, scripts);
        assert(scripts.subrange(0, n) =~= scripts);
        let regions = self.placed_all(scripts).regions;
        assert(regions.subrange(0, self.regions.len() + n) =~= regions);
    }

    /// Region `i` of a batch is placed alike in the batch and after the
    /// regions before it have been laid out one by one: at the same row, and
    /// with the same rows claimed in every column but the one for constants,
    /// which the region leaves as it is.
    proof fn lemma_next_placed(self, scripts: Seq<Seq<RegionOp<F>>>, i: int, before: Self)
        requires
            self.admits_all(scripts),
            self.spares_constants(scripts),
            0 <= i < scripts.len(),
            before.regions == self.placed_all(scripts).regions.subrange(0, self.regions.len() + i),
            forall|c: RegionColumn|
                (self.constants.len() > 0 ==> c != constants_key(self.constants))
                    ==> #[trigger] first_free(before.columns, c) == first_free(
                    self.placed_all(scripts.subrange(0, i)).columns,
                    c,
                ),
        ensures
            before.next_index() == self.batch_index(i),
            before.placed(scripts[i]).regions == self.placed_all(scripts).regions.subrange(
                0,
                self.regions.len() + i + 1,
            ),
            forall|c: RegionColumn|
                (self.constants.len() > 0 ==> c != constants_key(self.constants))
                    ==> #[trigger] first_free(before.placed(scripts[i]).columns, c) == first_free(
                    self.placed_all(scripts.subrange(0, i + 1)).columns,
                    c,
                ),
            self.constants.len() > 0 ==> first_free(
                before.placed(scripts[i]).columns,
                constants_key(self.constants),
            ) == first_free(before.columns, constants_key(self.constants)),
    {
        let regions = self.placed_all(scripts).regions;
        let first = self.regions.len();
        let ops = scripts[i];
        let index = self.batch_index(i);
        let batch_before = self.placed_all(scripts.subrange(0, i));
        lemma_placed_all_regions(self, scripts);
        lemma_placed_all_regions(self, scripts.subrange(0, i));
        self.lemma_placed_next(scripts, i);
        self.lemma_batch_starts(scripts, i);
        assert(before.next_index() == index);
        assert(batch_before.next_index() == index);
        let shape = ShapeView::of(index, ops);
        assert(batch_before.can_place(ops));
        if self.constants.len() > 0 {
            assert(!ShapeView::of(self.batch_index(i), scripts[i]).columns.contains(
                constants_key(self.constants),
            ));
        }
        lemma_start_row_local(before.columns, batch_before.columns, shape.columns);
        assert(before.placed(ops).regions =~= regions.subrange(0, first + i + 1));
        lemma_place(before.columns, shape);
        lemma_place(batch_before.columns, shape);
    }

    /// The steps of region `i` of a batch succeed on the assembly, after
    /// the regions before it have been laid out one by one, as they do in
    /// the context that the batch forks for them, and register the same
    /// equality constraints and ask for the same constants.
    proof fn lemma_next_run(
        self,
        scripts: Seq<Seq<RegionOp<F>>>,
        i: int,
        cs: AssemblyView<F>,
        starts: Seq<RegionStart>,
    )
        requires
            self.wf(),
            self.names_earlier(scripts),
            self.cs.ranges_fit(self.row_ranges(scripts)),
            0 <= i < scripts.len(),
            self.sub_outcome(scripts, i) is Ok,
            self.regions.len() + scripts.len() == self.placed_all(scripts).regions.len(),
            cs.wf(),
            cs.same_frame(self.cs),
            starts == self.placed_all(scripts).regions.subrange(0, self.regions.len() + i + 1),
        ensures
            RegionView::begin(cs).run(starts, self.batch_index(i), scripts[i]) matches Ok(region)
                && {
                &&& region.cs.wf()
                &&& region.cs.same_frame(self.cs)
                &&& region.constants == requests_of(self.batch_index(i), scripts[i])
                &&& region.cs.equalities() == cs.equalities() + copies_of(
                    self.placed_all(scripts).regions,
                    self.batch_index(i),
                    scripts[i],
                )
            },
    {
        let regions = self.placed_all(scripts).regions;
        let first = self.regions.len();
        let ops = scripts[i];
        let index = self.batch_index(i);
        self.lemma_sub_outcome(scripts, i);
        assert(names_below(ops, first + i + 1));
        let root = RegionView::begin(cs);
        let sub = RegionView::begin(self.cs.window(self.row_ranges(scripts)[i]));
        root.lemma_run_local(regions, first + i + 1, index, ops);
        sub.lemma_run_transfers(root, regions, index, ops);
        root.lemma_run_effects(regions, index, ops);
        let region = root.run(regions, index, ops)->Ok_0;
        assert(region.constants =~= requests_of(index, ops));
    }

    /// The constants of region `i` of a batch can be assigned, after the
    /// regions before it have been laid out one by one, to the rows that
    /// the batch gives them, and are tied to the same cells.
    proof fn lemma_next_constants(
        self,
        scripts: Seq<Seq<RegionOp<F>>>,
        i: int,
        cs: AssemblyView<F>,
        starts: Seq<RegionStart>,
    )
        requires
            self.wf(),
            self.names_earlier(scripts),
            self.spares_constants(scripts),
            self.assign_regions(scripts) is Ok,
            self.constants.len() > 0,
            0 <= i < scripts.len(),
            self.regions.len() + scripts.len() == self.placed_all(scripts).regions.len(),
            self.regions.len() + scripts.len() <= usize::MAX,
            cs.wf(),
            cs.same_frame(self.cs),
            starts == self.placed_all(scripts).regions.subrange(0, self.regions.len() + i + 1),
        ensures
            ({
                let column = self.constants[0];
                let cursor = first_free(self.columns, constants_key(self.constants))
                    + self.requests_upto(scripts, i).len();
                let requests = requests_of(self.batch_index(i), scripts[i]);
                &&& assign_constants(cs, column, cursor, starts, requests) matches Ok(after)
                    && after.wf() && after.same_frame(self.cs) && after.equalities()
                    == cs.equalities() + constant_copies(
                    column,
                    cursor,
                    self.placed_all(scripts).regions,
                    requests,
                )
                &&& self.constant_copies_upto(self.placed_all(scripts).regions, scripts, i + 1)
                    == self.constant_copies_upto(self.placed_all(scripts).regions, scripts, i)
                    + constant_copies(column, cursor, self.placed_all(scripts).regions, requests)
            }),
    {
        let regions = self.placed_all(scripts).regions;
        let index = self.batch_index(i);
        let requests = requests_of(index, scripts[i]);
        let key = constants_key(self.constants);
        let column = self.constants[0];
        let cursor0 = first_free(self.columns, key);
        let earlier = self.requests_upto(scripts, i);
        let cursor = cursor0 + earlier.len();
        self.lemma_batch_result(scripts);
        self.lemma_requests_cells(scripts, i);
        let all = self.requests_upto(scripts, scripts.len() as int);
        let merged = choose|merged: AssemblyView<F>|
            merged.wf() && merged.same_frame(self.cs) && #[trigger] assign_constants(
                merged,
                column,
                cursor0,
                regions,
                all,
            ) is Ok;
        self.lemma_requests_upto_prefix(scripts, i + 1, scripts.len() as int);
        let rest = all.subrange(self.requests_upto(scripts, i + 1).len() as int, all.len() as int);
        lemma_assign_constants_split(
            merged,
            column,
            cursor0,
            regions,
            self.requests_upto(scripts, i + 1),
            rest,
        );
        lemma_assign_constants_split(merged, column, cursor0, regions, earlier, requests);
        lemma_assign_constants_effects(merged, column, cursor0, regions, earlier);
        let between = assign_constants(merged, column, cursor0, regions, earlier)->Ok_0;
        lemma_assign_constants_by_frame(between, cs, column, cursor, regions, starts, requests);
        lemma_assign_constants_effects(cs, column, cursor, starts, requests);
    }

    /// The step of [`Self::lemma_assign_each`]: laying out region `i` of the
    /// batch after the regions before it.
    #[verifier::rlimit(40)]
    proof fn lemma_next_region(self, scripts: Seq<Seq<RegionOp<F>>>, i: int, before: Self)
        requires
            self.wf(),
            self.admits_all(scripts),
            self.names_earlier(scripts),
            self.spares_constants(scripts),
            self.assign_regions(scripts) is Ok,
            0 <= i < scripts.len(),
            self.agrees_upto(scripts, i, before),
        ensures
            before.assign_region(scripts[i]) matches Ok(after) && self.agrees_upto(
                scripts,
                i + 1,
                after,
            ),
    {
        reveal(LayouterView::agrees_upto);
        let regions = self.placed_all(scripts).regions;
        let ops = scripts[i];
        let index = self.batch_index(i);
        let outcomes = Seq::new(scripts.len(), |j: int| self.sub_outcome(scripts, j));
        self.lemma_batch_result(scripts);
        lemma_placed_all_regions(self, scripts);
        lemma_no_error(outcomes, i);
        self.lemma_next_placed(scripts, i, before);
        let placed = before.placed(ops);
        self.lemma_next_run(scripts, i, before.cs, placed.regions);
        let region = RegionView::begin(before.cs).run(placed.regions, index, ops)->Ok_0;
        let copies = copies_of(regions, index, ops);
        let requests = requests_of(index, ops);
        assert(region.cs.equalities() == before.cs.equalities() + copies);
        if self.constants.len() == 0 {
            self.lemma_requests_upto_grows(scripts, i + 1, scripts.len() as int);
            assert(requests.len() == 0);
            assert(before.assign_region(ops) is Ok);
            let after = before.assign_region(ops)->Ok_0;
            assert(after.cs == region.cs);
            assert(after.columns == placed.columns);
            assert(self.copies_upto(regions, scripts, i + 1) == self.copies_upto(
                regions,
                scripts,
                i,
            ) + copies);
            lemma_interleave(
                before.cs.equalities(),
                self.cs.equalities(),
                self.copies_upto(regions, scripts, i),
                Seq::empty(),
                copies,
                Seq::empty(),
            );
            assert(before.cs.equalities() + copies + Seq::<Equality>::empty()
                =~= before.cs.equalities() + copies);
            assert(Seq::<Equality>::empty() + Seq::<Equality>::empty() =~= Seq::<Equality>::empty());
        } else {
            let column = self.constants[0];
            let cursor = first_free(self.columns, constants_key(self.constants))
                + self.requests_upto(scripts, i).len();
            assert(self.regions.len() + scripts.len() <= usize::MAX) by {
                lemma_placed_all_regions(
                    self,
                    scripts.subrange(0, scripts.len() - 1),
                );
                assert(self.placed_all(scripts.subrange(0, scripts.len() - 1)).can_place(
                    scripts[scripts.len() - 1],
                ));
            }
            self.lemma_next_constants(scripts, i, region.cs, placed.regions);
            assert(first_free(placed.columns, constants_key(self.constants)) == cursor);
            assert(before.assign_region(ops) is Ok);
            let after = before.assign_region(ops)->Ok_0;
            assert(after.cs.equalities() == before.cs.equalities() + copies + constant_copies(
                column,
                cursor,
                regions,
                requests,
            ));
            assert(self.copies_upto(regions, scripts, i + 1) == self.copies_upto(
                regions,
                scripts,
                i,
            ) + copies);
            assert forall|c: RegionColumn|
                c != constants_key(self.constants) implies #[trigger] first_free(after.columns, c)
                == first_free(self.placed_all(scripts.subrange(0, i + 1)).columns, c) by {
                assert(first_free(after.columns, c) == first_free(placed.columns, c));
            }
            assert(first_free(after.columns, constants_key(self.constants)) == cursor
                + requests.len());
            lemma_interleave(
                before.cs.equalities(),
                self.cs.equalities(),
                self.copies_upto(regions, scripts, i),
                self.constant_copies_upto(regions, scripts, i),
                copies,
                constant_copies(column, cursor, regions, requests),
            );
        }
    }

    /// The cells that ask for constants in region `i` of a batch lie in
    /// that region or in earlier ones.
    proof fn lemma_requests_cells(self, scripts: Seq<Seq<RegionOp<F>>>, i: int)
        requires
            0 <= i < scripts.len(),
            self.names_earlier(scripts),
            self.regions.len() + i < usize::MAX,
        ensures
            forall|k: int|
                0 <= k < requests_of(self.batch_index(i), scripts[i]).len() ==> (
                #[trigger] requests_of(self.batch_index(i), scripts[i])[k]).1.region_index.0
                    < self.regions.len() + i + 1,
    {
        lemma_requests_below(self.batch_index(i), scripts[i], self.regions.len() + i + 1);
    }

    /// The constants of the first regions of a batch are among those of the
    /// first regions and some more.
    proof fn lemma_requests_upto_grows(self, scripts: Seq<Seq<RegionOp<F>>>, n: int, m: int)
        requires
            0 <= n <= m,
        ensures
            self.requests_upto(scripts, n).len() <= self.requests_upto(scripts, m).len(),
            n > 0 ==> requests_of(self.batch_index(n - 1), scripts[n - 1]).len()
                <= self.requests_upto(scripts, m).len(),
        decreases m - n,
    {
        if n < m {
            self.lemma_requests_upto_grows(scripts, n + 1, m);
        }
    }

    /// The constants of the first `m` regions of a batch begin with those of
    /// the first `n`.
    proof fn lemma_requests_upto_prefix(self, scripts: Seq<Seq<RegionOp<F>>>, n: int, m: int)
        requires
            0 <= n <= m,
        ensures
            self.requests_upto(scripts, n).len() <= self.requests_upto(scripts, m).len(),
            self.requests_upto(scripts, m) == self.requests_upto(scripts, n) + self.requests_upto(
                scripts,
                m,
            ).subrange(
                self.requests_upto(scripts, n).len() as int,
                self.requests_upto(scripts, m).len() as int,
            ),
        decreases m - n,
    {
        let whole = self.requests_upto(scripts, m);
        let front = self.requests_upto(scripts, n);
        if n < m {
            self.lemma_requests_upto_prefix(scripts, n, m - 1);
        }
        assert(whole =~= front + whole.subrange(front.len() as int, whole.len() as int));
    }
}

/// The cells that ask for constants lie in the region of the steps or in
/// the regions that the steps name.
proof fn lemma_requests_below<F>(region_index: RegionIndex, ops: Seq<RegionOp<F>>, bound: int)
    requires
        names_below(ops, bound),
        region_index.0 < bound,
    ensures
        forall|k: int|
            0 <= k < requests_of(region_index, ops).len() ==> (#[trigger] requests_of(
                region_index,
                ops,
            )[k]).1.region_index.0 < bound,
    decreases ops.len(),
{
    if ops.len() > 0 {
        let front = ops.drop_last();
        assert forall|i: int| 0 <= i < front.len() implies match #[trigger] front[i] {
            RegionOp::ConstrainConstant { cell, constant } => cell.region_index.0 < bound,
            RegionOp::ConstrainEqual { left, right } => left.region_index.0 < bound
                && right.region_index.0 < bound,
            _ => true,
        } by {
            assert(front[i] == ops[i]);
        }
        lemma_requests_below(region_index, front, bound);
        assert(ops[ops.len() - 1] == ops.last());
        let earlier = requests_of(region_index, front);
        let all = requests_of(region_index, ops);
        assert forall|k: int| 0 <= k < all.len() implies (#[trigger] all[k]).1.region_index.0
            < bound by {
            if k < earlier.len() {
                assert(all[k] == earlier[k]);
            }
        }
    }
}

} // verus!
