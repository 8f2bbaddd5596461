//! Key generation: a circuit is synthesized on a fresh assembly, and what
//! the assembly then holds is handed on.

use vstd::prelude::*;
use crate::permutation;
use crate::assembly::{grid_view, Assembly, AssemblyView};
use crate::cell::Equality;
use crate::circuit::{
    copy_columns, step_views, Circuit, ConstraintSystem, ConstraintSystemView, StepView,
};
use crate::error::Error;
use crate::single_pass::{LayouterView, SimpleFloorPlanner, SingleChipLayouter};
use crate::value::Assigned;

verus! {

/// The number of rows of a grid of size parameter `k`: two to the power `k`.
pub open spec fn rows_of(k: nat) -> nat
    decreases k,
{
    if k == 0 {
        1
    } else {
        2 * rows_of((k - 1) as nat)
    }
}

/// A larger size parameter gives at least as many rows.
pub proof fn lemma_rows_of_grows(a: nat, b: nat)
    requires
        a <= b,
    ensures
        0 < rows_of(a) <= rows_of(b),
    decreases b,
{
    if a < b {
        lemma_rows_of_grows(a, (b - 1) as nat);
    } else if a > 0 {
        lemma_rows_of_grows((a - 1) as nat, (a - 1) as nat);
    }
}

/// The size of the grid that keys are generated for.
#[derive(Clone, Copy, Debug)]
pub struct Params {
    k: u32,
    n: usize,
}

impl Params {
    /// The grid has two to the power `k` rows.
    pub closed spec fn wf(self) -> bool {
        self.n == rows_of(self.k as nat)
    }

    /// The size parameter of the grid.
    pub closed spec fn spec_k(self) -> u32 {
        self.k
    }

    /// The parameters of a grid of two to the power `k` rows, or nothing
    /// where the machine cannot count that many rows.
    pub fn new(k: u32) -> (params: Option<Self>)
        ensures
            match params {
                Some(p) => p.wf() && p.spec_k() == k,
                None => rows_of(k as nat) > usize::MAX,
            },
    {
        let mut n: usize = 1;
        let mut i: u32 = 0;
        while i < k
            invariant
                i <= k,
                n == rows_of(i as nat),
            decreases k - i,
        {
            if n > usize::MAX / 2 {
                proof {
                    lemma_rows_of_grows((i + 1) as nat, k as nat);
                }
                return None;
            }
            n = n * 2;
            i = i + 1;
        }
        Some(Params { k, n })
    }

    /// The size parameter of the grid.
    pub fn k(&self) -> (k: u32)
        ensures
            k == self.spec_k(),
    {
        self.k
    }

    /// The number of rows of the grid.
    pub fn n(&self) -> (n: usize)
        requires
            self.wf(),
        ensures
            n == rows_of(self.spec_k() as nat),
    {
        self.n
    }
}

/// The domain that a circuit's polynomials live in: the size of the grid and
/// the degree of the constraints.
#[derive(Clone, Copy, Debug)]
pub struct EvaluationDomain {
    pub k: u32,
    pub n: usize,
    pub degree: usize,
}

/// The domain and the constraint system of `circuit` for a grid of size
/// parameter `k`.
pub fn create_domain<F>(k: u32, circuit: &Circuit<F>) -> (r: (EvaluationDomain, ConstraintSystem))
    requires
        rows_of(k as nat) <= usize::MAX,
    ensures
        r.0.k == k,
        r.0.n == rows_of(k as nat),
        r.0.degree == circuit.config@.degree,
        r.1@ == circuit.config@,
{
    let cs = circuit.config.copy();
    let degree = cs.degree();
    let n = match Params::new(k) {
        Some(params) => params.n(),
        None => 0,
    };
    let domain = EvaluationDomain { k, n, degree };
    (domain, cs)
}

/// What key generation hands on for a verifying key: the fixed columns, the
/// selectors and the equality constraints of the circuit, as laid out.
#[derive(Debug)]
pub struct VerifyingKey<F> {
    pub domain: EvaluationDomain,
    pub fixed: Vec<Vec<Assigned<F>>>,
    pub selectors: Vec<Vec<bool>>,
    pub permutation: permutation::Assembly,
    pub cs: ConstraintSystem,
}

/// A [`VerifyingKey`] as mathematical values.
pub struct VerifyingKeyView<F> {
    pub domain: EvaluationDomain,
    pub fixed: Seq<Seq<Assigned<F>>>,
    pub selectors: Seq<Seq<bool>>,
    pub permutation: Seq<Equality>,
    pub cs: ConstraintSystemView,
}

impl<F> View for VerifyingKey<F> {
    type V = VerifyingKeyView<F>;

    open spec fn view(&self) -> VerifyingKeyView<F> {
        VerifyingKeyView {
            domain: self.domain,
            fixed: grid_view(self.fixed),
            selectors: grid_view(self.selectors),
            permutation: self.permutation@,
            cs: self.cs@,
        }
    }
}

/// What key generation hands on for a proving key: a verifying key, the
/// fixed columns of the circuit, and, row by row, where the polynomials
/// `l_0`, `l_last` and `l_active_row` are one.
#[derive(Debug)]
pub struct ProvingKey<F> {
    pub vk: VerifyingKey<F>,
    pub l0: Vec<bool>,
    pub l_last: Vec<bool>,
    pub l_active_row: Vec<bool>,
    pub fixed_values: Vec<Vec<Assigned<F>>>,
    pub permutation: permutation::Assembly,
}

/// The assembly that key generation starts from, for a grid of `n` rows.
/// The last rows are kept for blinding, and one more to mark their start;
/// the rows before them can be assigned.
pub open spec fn initial_assembly<F>(
    k: u32,
    n: usize,
    cs: ConstraintSystemView,
) -> AssemblyView<F> {
    AssemblyView::empty(
        k,
        n,
        cs.num_fixed_columns,
        cs.num_selectors,
        (0usize..(n - (cs.blinding_factors + 1)) as usize),
    )
}

/// The assembly after `circuit` is synthesized on a grid of size parameter
/// `k`, or `NotEnoughRowsAvailable` with `k` where the grid has fewer rows
/// than the circuit needs at the least.
pub open spec fn synthesized<F>(
    k: u32,
    cs: ConstraintSystemView,
    steps: Seq<StepView<F>>,
) -> Result<
    AssemblyView<F>,
    Error,
> {
    let n = rows_of(k as nat);
    if n < cs.minimum_rows() {
        Err(Error::NotEnoughRowsAvailable { current_k: k })
    } else {
        match LayouterView::begin(initial_assembly(k, n as usize, cs), cs.constants).synthesize(
            steps,
        ) {
            Err(e) => Err(e),
            Ok(layouter) => Ok(layouter.cs),
        }
    }
}

/// Whether `circuit` can be synthesized on a grid of size parameter `k`: the
/// machine can count the rows of the grid and those that the circuit needs,
/// and each step of the circuit can be taken in its turn.
pub open spec fn admits_circuit<F>(k: u32, circuit: Circuit<F>) -> bool {
    let n = rows_of(k as nat);
    &&& n <= usize::MAX
    &&& circuit.config@.wf()
    &&& n >= circuit.config@.minimum_rows() ==> LayouterView::begin(
        initial_assembly::<F>(k, n as usize, circuit.config@),
        circuit.config@.constants,
    ).admits_steps(step_views(circuit.steps@))
}

/// Whether `circuit` can be synthesized on the grid of `params`, as the key
/// generators ask. The test lays the circuit out on an assembly of its own.
pub fn admits<F: Copy + Send + Sync>(params: &Params, circuit: &Circuit<F>) -> (b: bool)
    requires
        params.wf(),
    ensures
        b == admits_circuit(params.spec_k(), *circuit),
{
    let cs = &circuit.config;
    if cs.blinding_factors > usize::MAX - 3 {
        return false;
    }
    if params.n() < cs.minimum_rows() {
        return true;
    }
    let usable: usize = params.n() - (cs.blinding_factors() + 1);
    let mut assembly: Assembly<F> = Assembly::new(
        params.k(),
        params.n(),
        cs.num_fixed_columns,
        cs.num_selectors,
        0..usable,
    );
    let constants = copy_columns(&cs.constants);
    match SingleChipLayouter::new(&mut assembly, constants) {
        Ok(mut layouter) => layouter.try_synthesize(&circuit.steps).is_some(),
        Err(_) => false,
    }
}

/// Where each of the `n` rows of the grid is among the last `count` rows:
/// the rows kept for blinding.
pub open spec fn blinding_rows(n: nat, count: nat) -> Seq<bool> {
    Seq::new(n, |i: int| i >= n - count)
}

/// Where each of the `n` rows of the grid is the row `row`.
pub open spec fn single_row(n: nat, row: int) -> Seq<bool> {
    Seq::new(n, |i: int| i == row)
}

/// Where each of the `n` rows of the grid is active: it is neither kept for
/// blinding nor the row before those.
pub open spec fn active_rows(n: nat, blinding_factors: nat) -> Seq<bool> {
    Seq::new(
        n,
        |i: int|
            !(single_row(n, n - blinding_factors - 1)[i] || blinding_rows(n, blinding_factors)[i]),
    )
}

/// The active rows are the rows that can be assigned.
pub proof fn lemma_active_rows_are_usable(n: nat, blinding_factors: nat)
    requires
        blinding_factors + 1 <= n,
    ensures
        forall|i: int|
            0 <= i < n ==> (active_rows(n, blinding_factors)[i] <==> i < n - (blinding_factors
                + 1)),
{
}

/// A column of `n` rows that holds `false` everywhere.
fn empty_lagrange(n: usize) -> (column: Vec<bool>)
    ensures
        column@ == Seq::new(n as nat, |i: int| false),
{
    let mut column: Vec<bool> = Vec::new();
    let mut i: usize = 0;
    while i < n
        invariant
            i <= n,
            column@ == Seq::new(i as nat, |i: int| false),
        decreases n - i,
    {
        column.push(false);
        i = i + 1;
        assert(column@ =~= Seq::new(i as nat, |i: int| false));
    }
    column
}

/// Synthesizes `circuit` on a fresh assembly for the grid of `params`.
fn synthesize_circuit<F: Copy + Send + Sync>(params: &Params, circuit: &Circuit<F>) -> (r: Result<
    (EvaluationDomain, ConstraintSystem, Assembly<F>),
    Error,
>)
    requires
        params.wf(),
        admits_circuit(params.spec_k(), *circuit),
    ensures
        match synthesized(params.spec_k(), circuit.config@, step_views(circuit.steps@)) {
            Ok(after) => r matches Ok((domain, cs, assembly)) && assembly@ == after
                && after.permutation is Some && cs@ == circuit.config@ && domain == (
            EvaluationDomain {
                k: params.spec_k(),
                n: rows_of(params.spec_k() as nat) as usize,
                degree: circuit.config@.degree,
            }) && rows_of(params.spec_k() as nat) >= circuit.config@.minimum_rows(),
            Err(e) => r matches Err(f) && f == e,
        },
{
    let (domain, cs) = create_domain(params.k(), circuit);

    if params.n() < cs.minimum_rows() {
        return Err(Error::not_enough_rows_available(params.k()));
    }
    let usable: usize = params.n() - (cs.blinding_factors() + 1);
    let mut assembly: Assembly<F> = Assembly::new(
        params.k(),
        params.n(),
        cs.num_fixed_columns,
        cs.num_selectors,
        0..usable,
    );

    // Synthesize the circuit to obtain URS
    let constants = copy_columns(&cs.constants);
    SimpleFloorPlanner::synthesize(&mut assembly, circuit, constants)?;
    Ok((domain, cs, assembly))
}

/// What `keygen_vk` makes of the assembly `after` that the synthesis left.
pub open spec fn verifying_key<F>(
    k: u32,
    cs: ConstraintSystemView,
    after: AssemblyView<F>,
) -> VerifyingKeyView<F> {
    VerifyingKeyView {
        domain: EvaluationDomain { k, n: rows_of(k as nat) as usize, degree: cs.degree },
        fixed: after.fixed,
        selectors: after.selectors,
        permutation: after.permutation->0,
        cs,
    }
}

/// Generate a `VerifyingKey` from an instance of `Circuit`.
///
/// Fails with `NotEnoughRowsAvailable`, which carries the size parameter of
/// `params`, when the grid has fewer rows than the circuit needs at the
/// least, and with the error of the synthesis when that fails.
pub fn keygen_vk<F: Copy + Send + Sync>(params: &Params, circuit: &Circuit<F>) -> (r: Result<
    VerifyingKey<F>,
    Error,
>)
    requires
        params.wf(),
        admits_circuit(params.spec_k(), *circuit),
    ensures
        match synthesized(params.spec_k(), circuit.config@, step_views(circuit.steps@)) {
            Ok(after) => r matches Ok(vk) && vk@ == verifying_key(
                params.spec_k(),
                circuit.config@,
                after,
            ),
            Err(e) => r matches Err(f) && f == e,
        },
{
    let (domain, cs, assembly) = synthesize_circuit(params, circuit)?;
    let (fixed, selectors, permutation) = assembly.into_parts();
    let permutation = match permutation {
        Some(permutation) => permutation,
        None => permutation::Assembly::new(),
    };
    Ok(VerifyingKey { domain, fixed, selectors, permutation, cs })
}

/// Generate a `ProvingKey` from an instance of `Circuit`.
pub fn keygen_pk2<F: Copy + Send + Sync>(params: &Params, circuit: &Circuit<F>) -> (r: Result<
    ProvingKey<F>,
    Error,
>)
    requires
        params.wf(),
        admits_circuit(params.spec_k(), *circuit),
    ensures
        proving_key_of(params.spec_k(), *circuit, None, r),
{
    keygen_pk_impl(params, None, circuit)
}

/// Generate a `ProvingKey` from a `VerifyingKey` and an instance of `Circuit`
pub fn keygen_pk<F: Copy + Send + Sync>(
    params: &Params,
    vk: VerifyingKey<F>,
    circuit: &Circuit<F>,
) -> (r: Result<ProvingKey<F>, Error>)
    requires
        params.wf(),
        admits_circuit(params.spec_k(), *circuit),
    ensures
        proving_key_of(params.spec_k(), *circuit, Some(vk@), r),
{
    keygen_pk_impl(params, Some(vk), circuit)
}

/// Whether `r` is what the generation of a proving key for `circuit` gives
/// on a grid of size parameter `k`, where `vk` is the verifying key that was
/// handed in, if one was.
///
/// The key holds the verifying key that was handed in, or else the one that
/// `keygen_vk` gives; the fixed columns and the equality constraints of the
/// circuit as laid out; and the rows on which `l_0`, `l_last` and
/// `l_active_row` are one: the first row, the row before the blinding rows,
/// and the rows before that one.
pub open spec fn proving_key_of<F>(
    k: u32,
    circuit: Circuit<F>,
    vk: Option<VerifyingKeyView<F>>,
    r: Result<ProvingKey<F>, Error>,
) -> bool {
    let cs = circuit.config@;
    let n = rows_of(k as nat);
    match synthesized(k, cs, step_views(circuit.steps@)) {
        Ok(after) => {
            &&& r matches Ok(pk)
            &&& pk.vk@ == match vk {
                Some(vk) => vk,
                None => verifying_key(k, cs, after),
            }
            &&& pk.l0@ == single_row(n, 0)
            &&& pk.l_last@ == single_row(n, n - cs.blinding_factors - 1)
            &&& pk.l_active_row@ == active_rows(n, cs.blinding_factors as nat)
            &&& grid_view(pk.fixed_values) == after.fixed
            &&& pk.permutation@ == after.permutation->0
        },
        Err(e) => r matches Err(f) && f == e,
    }
}

/// A copy of the grid `grid`.
fn copy_grid<T: Copy>(grid: &Vec<Vec<T>>) -> (copy: Vec<Vec<T>>)
    ensures
        grid_view(copy) == grid_view(*grid),
{
    let mut copy: Vec<Vec<T>> = Vec::new();
    let mut c: usize = 0;
    while c < grid.len()
        invariant
            c <= grid@.len(),
            copy@.len() == c,
            forall|d: int| 0 <= d < c ==> (#[trigger] copy@[d])@ == grid@[d]@,
        decreases grid@.len() - c,
    {
        let mut column: Vec<T> = Vec::new();
        let mut i: usize = 0;
        while i < grid[c].len()
            invariant
                c < grid@.len(),
                i <= grid@[c as int]@.len(),
                column@ == grid@[c as int]@.subrange(0, i as int),
            decreases grid@[c as int]@.len() - i,
        {
            column.push(grid[c][i]);
            i = i + 1;
            assert(column@ =~= grid@[c as int]@.subrange(0, i as int));
        }
        assert(grid@[c as int]@.subrange(0, i as int) =~= grid@[c as int]@);
        copy.push(column);
        c = c + 1;
    }
    assert(grid_view(copy) =~= grid_view(*grid));
    copy
}

/// A copy of the equality constraints of `builder`.
fn copy_permutation(builder: &permutation::Assembly) -> (copy: permutation::Assembly)
    ensures
        copy@ == builder@,
{
    let mut copy = permutation::Assembly::new();
    let mut i: usize = 0;
    while i < builder.len()
        invariant
            i <= builder@.len(),
            copy@ == builder@.subrange(0, i as int),
        decreases builder@.len() - i,
    {
        let (left, right) = builder.get(i);
        let _ = copy.copy(left.column, left.row, right.column, right.row);
        i = i + 1;
        assert(copy@ =~= builder@.subrange(0, i as int));
    }
    assert(builder@.subrange(0, i as int) =~= builder@);
    copy
}

/// Generate a `ProvingKey` from a `VerifyingKey` and an instance of `Circuit`.
///
/// Fails as `keygen_vk` does.
pub fn keygen_pk_impl<F: Copy + Send + Sync>(
    params: &Params,
    vk: Option<VerifyingKey<F>>,
    circuit: &Circuit<F>,
) -> (r: Result<ProvingKey<F>, Error>)
    requires
        params.wf(),
        admits_circuit(params.spec_k(), *circuit),
    ensures
        proving_key_of(
            params.spec_k(),
            *circuit,
            match vk {
                Some(vk) => Some(vk@),
                None => None,
            },
            r,
        ),
{
    let (domain, cs, assembly) = synthesize_circuit(params, circuit)?;
    let n: usize = params.n();
    let blinding_factors: usize = cs.blinding_factors();
    let (fixed, selectors, permutation) = assembly.into_parts();
    let permutation = match permutation {
        Some(permutation) => permutation,
        None => permutation::Assembly::new(),
    };

    let vk = match vk {
        Some(vk) => vk,
        None => VerifyingKey {
            domain,
            fixed: copy_grid(&fixed),
            selectors,
            permutation: copy_permutation(&permutation),
            cs,
        },
    };

    // Compute l_0(X)
    let mut l0 = empty_lagrange(n);
    proof {
        lemma_rows_of_grows(0, params.spec_k() as nat);
    }
    l0[0] = true;
    assert(l0@ =~= single_row(n as nat, 0));

    // Compute l_blind(X) which evaluates to 1 for each blinding factor row
    // and 0 otherwise over the domain.
    let mut l_blind = empty_lagrange(n);
    let mut row: usize = n - blinding_factors;
    while row < n
        invariant
            blinding_factors <= n,
            n - blinding_factors <= row <= n,
            l_blind@ == Seq::new(n as nat, |i: int| n - blinding_factors <= i < row),
        decreases n - row,
    {
        l_blind[row] = true;
        row = row + 1;
        assert(l_blind@ =~= Seq::new(n as nat, |i: int| n - blinding_factors <= i < row));
    }
    assert(l_blind@ =~= blinding_rows(n as nat, blinding_factors as nat));

    // Compute l_last(X) which evaluates to 1 on the first inactive row (just
    // before the blinding factors) and 0 otherwise over the domain
    let mut l_last = empty_lagrange(n);
    l_last[n - blinding_factors - 1] = true;
    assert(l_last@ =~= single_row(n as nat, n - blinding_factors - 1));

    // Compute l_active_row(X)
    let mut l_active_row = empty_lagrange(n);
    let mut idx: usize = 0;
    while idx < n
        invariant
            idx <= n,
            blinding_factors + 1 <= n,
            l_last@ == single_row(n as nat, n - blinding_factors - 1),
            l_blind@ == blinding_rows(n as nat, blinding_factors as nat),
            l_active_row@ == Seq::new(
                n as nat,
                |i: int| i < idx && !(l_last@[i] || l_blind@[i]),
            ),
        decreases n - idx,
    {
        l_active_row[idx] = !(l_last[idx] || l_blind[idx]);
        idx = idx + 1;
        assert(l_active_row@ =~= Seq::new(
            n as nat,
            |i: int| i < idx && !(l_last@[i] || l_blind@[i]),
        ));
    }
    assert(l_active_row@ =~= active_rows(n as nat, blinding_factors as nat));

    Ok(ProvingKey { vk, l0, l_last, l_active_row, fixed_values: fixed, permutation })
}

} // verus!
