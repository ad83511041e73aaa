//! The complex transform engine: bit-reversal reordering, the iterative
//! radix-2 butterfly passes, and the inverse scaling.

use vstd::prelude::*;
use vstd::arithmetic::power2::{pow2, is_pow2, lemma2_to64, lemma_pow2_unfold};
use vstd::arithmetic::div_mod::{lemma_fundamental_div_mod, lemma_fundamental_div_mod_converse};

use crate::bits;
use crate::bits::{lg, rev_bits};
use crate::cx;
use crate::{angle_is_forward, lemma_table_len, table_seq, Operation, Plan, Transform};

verus! {

type Cx = num_complex::Complex64;

/// The sequence reordered by the bit-reversal permutation of its indices.
pub open spec fn rearrange_spec(s: Seq<Cx>) -> Seq<Cx> {
    Seq::new(s.len(), |i: int| s[rev_bits(lg(s.len()), i as nat) as int])
}

/// One butterfly stage of width `step`: each pair of indices `step` apart
/// within a group of width `2 * step` is combined through the stage's
/// factors, read from the table `f` at offsets `step - 1` onward.
pub open spec fn stage_out(s: Seq<Cx>, f: Seq<Cx>, step: int) -> Seq<Cx> {
    Seq::new(
        s.len(),
        |i: int|
            {
                let r = i % (2 * step);
                if r < step {
                    cx::sum_of(s[i], cx::prod_of(f[step - 1 + r], s[i + step]))
                } else {
                    cx::diff_of(s[i - step], cx::prod_of(f[step - 1 + (r - step)], s[i]))
                }
            },
    )
}

/// All butterfly stages of widths `step, 2 * step, ...` up to the length
/// of `s`, applied in order.
pub open spec fn stages_from(s: Seq<Cx>, f: Seq<Cx>, step: int) -> Seq<Cx>
    decreases (if s.len() <= step { 0int } else { s.len() - step }),
{
    if step < 1 || step >= s.len() {
        s
    } else {
        stages_from(stage_out(s, f, step), f, 2 * step)
    }
}

/// The butterfly stages leave the length unchanged.
pub proof fn lemma_stages_len(s: Seq<Cx>, f: Seq<Cx>, step: int)
    ensures
        stages_from(s, f, step).len() == s.len(),
    decreases (if s.len() <= step { 0int } else { s.len() - step }),
{
    if !(step < 1 || step >= s.len()) {
        lemma_stages_len(stage_out(s, f, step), f, 2 * step);
    }
}

/// What the transform leaves in a complex buffer holding `s`: the
/// bit-reversal reordering, then the butterfly stages over the twiddle
/// table, then — for the inverse operation only — each element divided by
/// the number of points.
pub open spec fn complex_transform_spec(s: Seq<Cx>, op: Operation) -> Seq<Cx> {
    let b = stages_from(rearrange_spec(s), table_seq(s.len() as int, angle_is_forward(op)), 1);
    if op is Inverse {
        Seq::new(b.len(), |i: int| cx::unscaled_by(b[i], s.len() as int))
    } else {
        b
    }
}

/// The transform of a complex buffer has the length of its input.
pub proof fn lemma_complex_transform_len(s: Seq<Cx>, op: Operation)
    ensures
        complex_transform_spec(s, op).len() == s.len(),
{
    lemma_stages_len(
        rearrange_spec(s),
        table_seq(s.len() as int, angle_is_forward(op)),
        1,
    );
}

/// Reorder the buffer by the bit-reversal permutation: the element at
/// index `i` moves to the index whose binary digits are those of `i`
/// reversed. The permutation is its own inverse.
pub fn rearrange(data: &mut Vec<Cx>)
    requires
        is_pow2(old(data)@.len() as int),
    ensures
        final(data)@ == rearrange_spec(old(data)@),
{
    let n = data.len();
    let ghost s0 = data@;
    let ghost lgn = lg(n as nat);
    proof {
        bits::lemma_pow2_lg(n as nat);
        lemma2_to64();
    }
    let mut l: usize = 0;
    let mut m: usize = 1;
    while m < n
        invariant
            m == pow2(l as nat),
            l < m <= n,
            n == pow2(lgn),
            lgn == lg(n as nat),
            is_pow2(n as int),
        decreases n - m,
    {
        proof {
            bits::lemma_pow2_is_pow2(l as nat);
            bits::lemma_pow2_ordering(m as nat, n as nat);
            lemma_pow2_unfold((l + 1) as nat);
            bits::lemma_pow2_gt_exp((l + 1) as nat);
        }
        m = m * 2;
        l = l + 1;
    }
    proof {
        bits::lemma_pow2_injective(l as nat, lgn);
    }
    let mut i: usize = 0;
    while i < n
        invariant
            i <= n,
            data@.len() == n,
            s0.len() == n,
            n == pow2(l as nat),
            l as nat == lg(n as nat),
            forall|mm: int|
                0 <= mm < n ==> #[trigger] data@[mm] == (if mm < i || rev_bits(
                    l as nat,
                    mm as nat,
                ) < i {
                    s0[rev_bits(l as nat, mm as nat) as int]
                } else {
                    s0[mm]
                }),
        decreases n - i,
    {
        let j = bits::rev_index(l, i);
        proof {
            bits::lemma_rev_bits_involution(l as nat, i as nat);
        }
        if j > i {
            let a = data[i];
            let b = data[j];
            data.set(i, b);
            data.set(j, a);
        }
        i = i + 1;
        proof {
            assert forall|mm: int| 0 <= mm < n implies #[trigger] data@[mm] == (if mm < i
                || rev_bits(l as nat, mm as nat) < i {
                s0[rev_bits(l as nat, mm as nat) as int]
            } else {
                s0[mm]
            }) by {
                bits::lemma_rev_bits_involution(l as nat, mm as nat);
                bits::lemma_rev_bits_bound(l as nat, mm as nat);
            }
        }
    }
    proof {
        assert forall|mm: int| 0 <= mm < n implies data@[mm] == rearrange_spec(s0)[mm] by {
            bits::lemma_rev_bits_bound(l as nat, mm as nat);
        }
        assert(data@ =~= rearrange_spec(s0));
    }
}

/// Whether the butterfly pair that index `mm` belongs to has been combined,
/// once the stage of width `step` has fully processed the group offsets
/// below `i0` and, at offset `i0` itself, the blocks below `blocks`.
spec fn pair_done(mm: int, i0: int, step: int, blocks: int) -> bool {
    let r = mm % (2 * step);
    if r < step {
        r < i0 || (r == i0 && mm / (2 * step) < blocks)
    } else {
        r - step < i0 || (r - step == i0 && mm / (2 * step) < blocks)
    }
}

/// The iterative butterfly passes: for each stage width `step` doubling
/// from one to half the buffer length, combine every pair `(i, i + step)`
/// with the next factor of the plan's table.
pub(crate) fn calculate(data: &mut Vec<Cx>, plan: &Plan)
    requires
        plan.wf(),
        is_pow2(old(data)@.len() as int),
        old(data)@.len() <= plan.size_spec(),
    ensures
        final(data)@ == stages_from(
            old(data)@,
            table_seq(old(data)@.len() as int, angle_is_forward(plan.op())),
            1,
        ),
        final(data)@.len() == old(data)@.len(),
{
    let n = data.len();
    let ghost f = table_seq(n as int, angle_is_forward(plan.op()));
    let ghost fb = plan.factors@;
    let ghost s0 = data@;
    proof {
        lemma2_to64();
        bits::lemma_pow2_is_pow2(0);
        lemma_table_len(n as int, angle_is_forward(plan.op()));
        assert forall|idx: int| 0 <= idx < n as int - 1 implies fb[idx] == f[idx] by {
            crate::lemma_table_prefix(n as int, plan.size_spec(), angle_is_forward(plan.op()), idx);
        }
    }
    let mut step: usize = 1;
    let mut k: usize = 0;
    while step < n
        invariant
            is_pow2(n as int),
            is_pow2(step as int),
            1 <= step <= n,
            data@.len() == n,
            s0.len() == n,
            plan.factors@ == fb,
            fb.len() >= n as int - 1,
            f.len() == n as int - 1,
            forall|idx: int| 0 <= idx < n as int - 1 ==> fb[idx] == f[idx],
            k == step - 1,
            stages_from(data@, f, step as int) == stages_from(s0, f, 1),
        decreases n - step,
    {
        proof {
            bits::lemma_pow2_ordering(step as nat, n as nat);
        }
        let jump = step * 2;
        let nb = n / jump;
        let ghost stage_in = data@;
        proof {
            lemma_fundamental_div_mod(n as int, jump as int);
            assert(n == jump * nb);
        }
        let mut i0: usize = 0;
        while i0 < step
            invariant
                1 <= step,
                jump == 2 * step,
                i0 <= step,
                k == step - 1 + i0,
                n == jump * nb,
                nb == n as int / jump as int,
                data@.len() == n,
                stage_in.len() == n,
                plan.factors@ == fb,
                fb.len() >= n as int - 1,
                f.len() == n as int - 1,
                forall|idx: int| 0 <= idx < n as int - 1 ==> fb[idx] == f[idx],
                jump <= n,
                forall|mm: int|
                    0 <= mm < n ==> #[trigger] data@[mm] == (if pair_done(
                        mm,
                        i0 as int,
                        step as int,
                        0,
                    ) {
                        stage_out(stage_in, f, step as int)[mm]
                    } else {
                        stage_in[mm]
                    }),
            decreases step - i0,
        {
            let mut b: usize = 0;
            while b < nb
                invariant
                    1 <= step,
                    jump == 2 * step,
                    i0 < step,
                    b <= nb,
                    k == step - 1 + i0,
                    k < f.len(),
                    n == jump * nb,
                    data@.len() == n,
                    stage_in.len() == n,
                    plan.factors@ == fb,
                    fb.len() >= n as int - 1,
                    f.len() == n as int - 1,
                    forall|idx: int| 0 <= idx < n as int - 1 ==> fb[idx] == f[idx],
                    jump <= n,
                    forall|mm: int|
                        0 <= mm < n ==> #[trigger] data@[mm] == (if pair_done(
                            mm,
                            i0 as int,
                            step as int,
                            b as int,
                        ) {
                            stage_out(stage_in, f, step as int)[mm]
                        } else {
                            stage_in[mm]
                        }),
                decreases nb - b,
            {
                proof {
                    assert(b as int * jump as int + jump as int <= nb as int * jump as int)
                        by (nonlinear_arith)
                        requires
                            b as int + 1 <= nb as int,
                            jump as int >= 1,
                    ;
                }
                let i = b * jump + i0;
                let j = i + step;
                proof {
                    lemma_fundamental_div_mod_converse(
                        i as int,
                        jump as int,
                        b as int,
                        i0 as int,
                    );
                    lemma_fundamental_div_mod_converse(
                        j as int,
                        jump as int,
                        b as int,
                        i0 as int + step as int,
                    );
                    assert(!pair_done(i as int, i0 as int, step as int, b as int));
                    assert(!pair_done(j as int, i0 as int, step as int, b as int));
                }
                let product = cx::c_mul(plan.factors[k], data[j]);
                let a = data[i];
                data.set(j, cx::c_sub(a, product));
                data.set(i, cx::c_add(a, product));
                b = b + 1;
                proof {
                    assert forall|mm: int| 0 <= mm < n implies #[trigger] data@[mm] == (if pair_done(
                        mm,
                        i0 as int,
                        step as int,
                        b as int,
                    ) {
                        stage_out(stage_in, f, step as int)[mm]
                    } else {
                        stage_in[mm]
                    }) by {
                        lemma_fundamental_div_mod(mm, jump as int);
                        if mm == i as int {
                            assert(stage_out(stage_in, f, step as int)[mm] == cx::sum_of(
                                stage_in[mm],
                                cx::prod_of(f[step - 1 + i0], stage_in[mm + step]),
                            ));
                        } else if mm == j as int {
                            assert(stage_out(stage_in, f, step as int)[mm] == cx::diff_of(
                                stage_in[mm - step],
                                cx::prod_of(f[step - 1 + i0], stage_in[mm]),
                            ));
                        } else {
                            if pair_done(mm, i0 as int, step as int, b as int) != pair_done(
                                mm,
                                i0 as int,
                                step as int,
                                b as int - 1,
                            ) {
                                assert(mm == (jump as int) * (mm / (jump as int)) + mm % (
                                jump as int));
                                assert(mm / (jump as int) == b as int - 1);
                                assert((jump as int) * (b as int - 1) == (b as int - 1) * (
                                jump as int)) by (nonlinear_arith);
                                assert(false);
                            }
                        }
                    }
                }
            }
            k = k + 1;
            i0 = i0 + 1;
            proof {
                assert forall|mm: int| 0 <= mm < n implies #[trigger] data@[mm] == (if pair_done(
                    mm,
                    i0 as int,
                    step as int,
                    0,
                ) {
                    stage_out(stage_in, f, step as int)[mm]
                } else {
                    stage_in[mm]
                }) by {
                    lemma_fundamental_div_mod(mm, jump as int);
                    assert(mm / (jump as int) < nb) by {
                        assert(nb >= 1) by (nonlinear_arith)
                            requires
                                n as int == jump as int * nb as int,
                                n as int >= 1,
                                jump as int >= 1,
                        ;
                        assert((nb as int - 1) * (jump as int) + (jump as int - 1) == n as int - 1)
                            by (nonlinear_arith)
                            requires
                                n as int == jump as int * nb as int,
                        ;
                        lemma_fundamental_div_mod_converse(
                            n as int - 1,
                            jump as int,
                            nb as int - 1,
                            jump as int - 1,
                        );
                        vstd::arithmetic::div_mod::lemma_div_is_ordered(
                            mm,
                            n as int - 1,
                            jump as int,
                        );
                    }
                }
            }
        }
        proof {
            assert forall|mm: int| 0 <= mm < n implies data@[mm] == stage_out(
                stage_in,
                f,
                step as int,
            )[mm] by {
                lemma_fundamental_div_mod(mm, jump as int);
            }
            assert(data@ =~= stage_out(stage_in, f, step as int));
            assert(stages_from(stage_in, f, step as int) == stages_from(data@, f, jump as int));
        }
        step = jump;
    }
    proof {
        assert(stages_from(data@, f, step as int) == data@);
    }
}

/// Divide every element of the buffer by `n`.
pub(crate) fn scale(data: &mut Vec<Cx>, n: usize)
    requires
        1 <= n,
    ensures
        final(data)@.len() == old(data)@.len(),
        forall|i: int|
            0 <= i < old(data)@.len() ==> final(data)@[i] == cx::unscaled_by(
                old(data)@[i],
                n as int,
            ),
{
    let len = data.len();
    let ghost s0 = data@;
    let mut i: usize = 0;
    while i < len
        invariant
            i <= len,
            1 <= n,
            data@.len() == len,
            s0.len() == len,
            forall|m: int| i <= m < len ==> data@[m] == s0[m],
            forall|m: int| 0 <= m < i ==> data@[m] == cx::unscaled_by(s0[m], n as int),
        decreases len - i,
    {
        let v = data[i];
        data.set(i, cx::c_unscale(v, n));
        i = i + 1;
    }
}

/// Run the planned operation on a complex buffer in place.
pub(crate) fn complex_transform(data: &mut Vec<Cx>, plan: &Plan)
    requires
        plan.wf(),
        is_pow2(old(data)@.len() as int),
        old(data)@.len() <= plan.size_spec(),
    ensures
        final(data)@ == complex_transform_spec(old(data)@, plan.op()),
        final(data)@.len() == old(data)@.len(),
{
    let ghost s0 = data@;
    rearrange(data);
    calculate(data, plan);
    if let Operation::Inverse = plan.operation {
        let n = data.len();
        proof {
            bits::lemma_is_pow2_pos(n as int);
        }
        scale(data, n);
        proof {
            assert(data@ =~= complex_transform_spec(s0, plan.op()));
        }
    }
}

impl Transform for Vec<Cx> {
    /// A complex buffer holds its elements directly.
    open spec fn data(&self) -> Seq<Cx> {
        self@
    }

    /// A complex buffer takes a plan built for its own length.
    open spec fn plan_points(&self) -> int {
        self@.len() as int
    }

    /// A complex buffer is transformed by the complex engine.
    open spec fn spec_transform(pre: Seq<Cx>, op: Operation) -> Seq<Cx> {
        complex_transform_spec(pre, op)
    }

    fn transform(&mut self, plan: &Plan) {
        complex_transform(self, plan);
        proof {
            lemma_complex_transform_len(old(self)@, plan.op());
        }
    }
}

/// A transform of a single point leaves it unchanged, for the forward and
/// backward operations, which apply no scaling: with one point there is no
/// pair to reorder and no butterfly stage to run.
pub proof fn lemma_single_point_identity(s: Seq<Cx>, op: Operation)
    requires
        s.len() == 1,
        !(op is Inverse),
    ensures
        complex_transform_spec(s, op) == s,
{
    assert(rev_bits(0, 0) == 0);
    assert(rearrange_spec(s) =~= s);
}

/// Applying the rearrange step twice, with no butterfly pass in between,
/// restores the original order of the buffer.
pub proof fn lemma_rearrange_involution(s: Seq<Cx>)
    requires
        is_pow2(s.len() as int),
    ensures
        rearrange_spec(rearrange_spec(s)) == s,
{
    let l = lg(s.len());
    bits::lemma_pow2_lg(s.len());
    assert forall|i: int| 0 <= i < s.len() implies rearrange_spec(rearrange_spec(s))[i] == s[i] by {
        bits::lemma_rev_bits_bound(l, i as nat);
        bits::lemma_rev_bits_involution(l, i as nat);
    }
    assert(rearrange_spec(rearrange_spec(s)) =~= s);
}

} // verus!
