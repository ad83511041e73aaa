//! In-place discrete Fourier transform over power-of-two-length buffers.
//!
//! A [`Plan`] pairs a transform [`Operation`] with a precomputed table of
//! twiddle factors for one fixed number of points. The [`Transform`] trait
//! runs the radix-2 decimation-in-time algorithm in place, on complex data
//! ([`std::vec::Vec`] of `num_complex::Complex64`) and on real data packed
//! pairwise into complex slots ([`RealBuffer`]). [`unpack`] expands the
//! packed spectrum of a forward real transform into the full
//! conjugate-symmetric complex spectrum.

use vstd::prelude::*;

pub mod bits;
pub mod complex;
pub mod cx;
pub mod rfft;

pub use rfft::unpack;
pub use rfft::RealBuffer;

verus! {

/// A transform operation.
#[derive(Clone, Copy, Debug, Eq, PartialEq, Structural)]
pub enum Operation {
    /// The forward transform.
    Forward,
    /// The backward transform: the inverse direction, left unscaled.
    Backward,
    /// The inverse transform: the inverse direction, scaled by one over
    /// the number of points.
    Inverse,
}

/// Whether an operation takes the forward angle sign (a negative angle);
/// the backward and inverse operations share the positive sign.
pub open spec fn angle_is_forward(op: Operation) -> bool {
    op is Forward
}

/// The `j`-th twiddle factor of the butterfly stage of width `step`: the
/// multiplicative recurrence seeded with one and advanced by the stage
/// multiplier, `f_{j+1} = m * f_j + f_j`.
pub open spec fn stage_factor(step: int, j: int, forward: bool) -> num_complex::Complex64
    decreases j,
{
    if j <= 0 {
        cx::unit_factor(step)
    } else {
        let p = stage_factor(step, j - 1, forward);
        cx::sum_of(cx::prod_of(cx::stage_multiplier_of(step, forward), p), p)
    }
}

/// The twiddle-factor table for `n` points, laid out stage by stage: for
/// each doubling width `step` from one to `n / 2`, exactly `step`
/// consecutive factors.
pub open spec fn table_seq(n: int, forward: bool) -> Seq<num_complex::Complex64>
    decreases n,
{
    if n < 2 {
        Seq::empty()
    } else {
        table_seq(n / 2, forward) + Seq::new((n / 2) as nat, |j: int| stage_factor(n / 2, j, forward))
    }
}

/// The table for `n` points holds `n - 1` factors.
pub proof fn lemma_table_len(n: int, forward: bool)
    requires
        vstd::arithmetic::power2::is_pow2(n),
    ensures
        table_seq(n, forward).len() == n - 1,
    decreases n,
{
    bits::lemma_is_pow2_pos(n);
    if n >= 2 {
        bits::lemma_is_pow2_half(n);
        lemma_table_len(n / 2, forward);
    }
}

/// The factors of the stage of width `step` sit at offsets `step - 1` up to
/// `2 * step - 2` of the table, for every table size the stage occurs in.
pub proof fn lemma_table_at(n: int, step: int, j: int, forward: bool)
    requires
        vstd::arithmetic::power2::is_pow2(n),
        vstd::arithmetic::power2::is_pow2(step),
        step < n,
        0 <= j < step,
    ensures
        table_seq(n, forward)[step - 1 + j] == stage_factor(step, j, forward),
    decreases n,
{
    bits::lemma_is_pow2_pos(step);
    bits::lemma_is_pow2_pos(n);
    bits::lemma_is_pow2_half(n);
    lemma_table_len(n / 2, forward);
    if step == n / 2 {
        assert(table_seq(n, forward)[step - 1 + j] == Seq::new(
            (n / 2) as nat,
            |jj: int| stage_factor(n / 2, jj, forward),
        )[j]);
    } else {
        bits::lemma_pow2_ordering(step as nat, n as nat);
        assert(2 * step <= n);
        assert(step < n / 2);
        bits::lemma_pow2_ordering(step as nat, (n / 2) as nat);
        assert(2 * step <= n / 2);
        lemma_table_at(n / 2, step, j, forward);
        assert(step - 1 + j < n / 2 - 1);
    }
}

/// A transform plan: an operation paired with the twiddle-factor table for
/// one fixed power-of-two number of points.
#[derive(Clone, Debug)]
pub struct Plan {
    pub(crate) operation: Operation,
    pub(crate) factors: Vec<num_complex::Complex64>,
    pub(crate) size: usize,
}

impl Plan {
    /// The operation this plan performs.
    pub closed spec fn op(&self) -> Operation {
        self.operation
    }

    /// The number of points this plan transforms.
    pub closed spec fn size_spec(&self) -> int {
        self.size as int
    }

    /// The twiddle-factor table held by this plan.
    pub closed spec fn table(&self) -> Seq<num_complex::Complex64> {
        self.factors@
    }

    /// A plan is well formed when its size is a power of two and its table
    /// is the twiddle table for that size and operation.
    pub closed spec fn wf(&self) -> bool {
        &&& vstd::arithmetic::power2::is_pow2(self.size as int)
        &&& self.factors@ == table_seq(self.size as int, angle_is_forward(self.operation))
        &&& self.factors@.len() == self.size as int - 1
    }

    /// Create a plan for a specific operation and specific number of points.
    ///
    /// The number of points must be a power of two.
    pub fn new(operation: Operation, size: usize) -> (r: Plan)
        requires
            vstd::arithmetic::power2::is_pow2(size as int),
        ensures
            r.wf(),
            r.op() == operation,
            r.size_spec() == size as int,
            r.table() == table_seq(size as int, angle_is_forward(operation)),
    {
        let forward = operation == Operation::Forward;
        let mut factors: Vec<num_complex::Complex64> = Vec::new();
        let mut step: usize = 1;
        proof {
            bits::lemma_is_pow2_pos(size as int);
            vstd::arithmetic::power2::lemma2_to64();
            bits::lemma_pow2_is_pow2(0);
        }
        while step < size
            invariant
                vstd::arithmetic::power2::is_pow2(size as int),
                vstd::arithmetic::power2::is_pow2(step as int),
                1 <= step <= size,
                forward == angle_is_forward(operation),
                factors@ == table_seq(step as int, forward),
                factors@.len() == step as int - 1,
            decreases size - step,
        {
            let (multiplier, mut factor) = cx::stage_seed(step, forward);
            let ghost base = factors@;
            let mut j: usize = 0;
            while j < step
                invariant
                    1 <= step,
                    j <= step,
                    multiplier == cx::stage_multiplier_of(step as int, forward),
                    factor == stage_factor(step as int, j as int, forward),
                    factors@ == base + Seq::new(j as nat, |jj: int| stage_factor(step as int, jj, forward)),
                decreases step - j,
            {
                factors.push(factor);
                let t = cx::c_mul(multiplier, factor);
                factor = cx::c_add(t, factor);
                j = j + 1;
                proof {
                    assert(factors@ =~= base + Seq::new(
                        j as nat,
                        |jj: int| stage_factor(step as int, jj, forward),
                    ));
                }
            }
            proof {
                bits::lemma_pow2_ordering(step as nat, size as nat);
                assert(table_seq(2 * step as int, forward) == table_seq(step as int, forward)
                    + Seq::new(step as nat, |jj: int| stage_factor(step as int, jj, forward)));
                assert(factors@.len() == step as int - 1 + step as int);
            }
            step = step * 2;
        }
        proof {
            assert(step == size);
        }
        Plan { operation, factors, size }
    }
}

/// The table for a smaller power of two is a prefix of the table for a
/// larger one: the butterfly stages below the smaller size agree, entry
/// for entry.
pub proof fn lemma_table_prefix(v: int, m: int, forward: bool, idx: int)
    requires
        vstd::arithmetic::power2::is_pow2(v),
        vstd::arithmetic::power2::is_pow2(m),
        v <= m,
        0 <= idx < v - 1,
    ensures
        table_seq(m, forward)[idx] == table_seq(v, forward)[idx],
    decreases m,
{
    if v < m {
        bits::lemma_is_pow2_half(m);
        bits::lemma_pow2_ordering(v as nat, m as nat);
        lemma_table_len(m / 2, forward);
        lemma_table_prefix(v, m / 2, forward, idx);
    }
}

/// The layout of a well-formed plan's table, stage by stage: the factors
/// of the butterfly stage of width `step` stand at offsets `step - 1` up
/// to `2 * step - 2`, in recurrence order.
pub proof fn lemma_plan_table_layout(p: &Plan, step: int, j: int)
    requires
        p.wf(),
        vstd::arithmetic::power2::is_pow2(step),
        step < p.size_spec(),
        0 <= j < step,
    ensures
        p.table()[step - 1 + j] == stage_factor(step, j, angle_is_forward(p.op())),
{
    lemma_table_at(p.size_spec(), step, j, angle_is_forward(p.op()));
}

/// Identical size and operation always yield the identical twiddle table:
/// any two well-formed plans built for the same pair agree.
pub proof fn lemma_plan_deterministic(a: &Plan, b: &Plan)
    requires
        a.wf(),
        b.wf(),
        a.op() == b.op(),
        a.size_spec() == b.size_spec(),
    ensures
        a.table() == b.table(),
{
}

/// The transform.
pub trait Transform {
    /// The complex sequence the buffer holds, as the transform sees it.
    spec fn data(&self) -> Seq<num_complex::Complex64>;

    /// The number of points the plan must have been built for: the
    /// buffer's own length, in complex values for complex data and in real
    /// values for real data.
    spec fn plan_points(&self) -> int;

    /// The sequence that applying `op` to a buffer holding `pre` leaves
    /// behind.
    spec fn spec_transform(pre: Seq<num_complex::Complex64>, op: Operation) -> Seq<
        num_complex::Complex64,
    >;

    /// Perform the transform in place. The plan must have been built for
    /// the number of points the buffer holds.
    fn transform(&mut self, plan: &Plan)
        requires
            plan.wf(),
            old(self).plan_points() == plan.size_spec(),
        ensures
            final(self).data() == Self::spec_transform(old(self).data(), plan.op()),
            final(self).data().len() == old(self).data().len(),
    ;
}

/// Perform the transform.
///
/// The function is a shortcut for `Transform::transform`.
pub fn transform<D: Transform>(data: &mut D, plan: &Plan)
    requires
        plan.wf(),
        old(data).plan_points() == plan.size_spec(),
    ensures
        final(data).data() == D::spec_transform(old(data).data(), plan.op()),
        final(data).data().len() == old(data).data().len(),
{
    Transform::transform(data, plan);
}

} // verus!
