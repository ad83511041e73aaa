//! The real transform engine: adjacent real pairs held as complex slots,
//! the compose/decompose spectrum folding, and the spectrum unpacker.

use vstd::prelude::*;
use vstd::arithmetic::power2::is_pow2;

use crate::bits;
use crate::complex::{complex_transform, complex_transform_spec, lemma_complex_transform_len};
use crate::cx;
use crate::{angle_is_forward, table_seq, Operation, Plan, Transform};

verus! {

type Cx = num_complex::Complex64;

/// A buffer of `2 * n` real samples held as `n` complex slots: the slot at
/// index `k` carries the adjacent real pair `(2k, 2k + 1)` as its real and
/// imaginary parts. This is the complex-valued view through which the real
/// transform runs, kept as the buffer's own layout.
pub struct RealBuffer {
    /// The paired-up samples.
    pub pairs: Vec<Cx>,
}

/// One slot of the compose (forward) or decompose (inverse) folding step
/// between an `n`-slot packed real spectrum and the underlying `n`-point
/// complex transform. The table `f` is the one built for the full real
/// length `2 * n`; the fold for the pair at `i` consumes the factor of the
/// stage of width `n` at offset `i`, which stands at `(n - 1) + i`.
pub open spec fn compose_elem(s: Seq<Cx>, f: Seq<Cx>, decompose: bool, idx: int) -> Cx {
    let n = s.len() as int;
    if idx == 0 {
        let m = cx::dc_mix_of(s[0]);
        if decompose {
            cx::unscaled_by(m, 2)
        } else {
            m
        }
    } else if 2 * idx == n {
        cx::conj_of(s[idx])
    } else {
        let i = if 2 * idx < n {
            idx
        } else {
            n - idx
        };
        let part1 = cx::sum_of(s[i], cx::conj_of(s[n - i]));
        let part2 = cx::diff_of(s[i], cx::conj_of(s[n - i]));
        let product = cx::prod_of(cx::prod_of(cx::imag_unit(!decompose), f[n - 1 + i]), part2);
        if 2 * idx < n {
            cx::unscaled_by(cx::sum_of(part1, product), 2)
        } else {
            cx::conj_of(cx::unscaled_by(cx::diff_of(part1, product), 2))
        }
    }
}

/// The compose (forward) or decompose (inverse) folding step applied to
/// every slot.
pub open spec fn compose_spec(s: Seq<Cx>, f: Seq<Cx>, decompose: bool) -> Seq<Cx> {
    Seq::new(s.len(), |idx: int| compose_elem(s, f, decompose, idx))
}

/// Fold the buffer between the packed real spectrum and the half-size
/// complex spectrum: pair the slot at `i` with the slot at `n - i`, mix the
/// two purely real bins into slot zero, and conjugate the self-paired
/// middle slot.
pub(crate) fn compose(data: &mut Vec<Cx>, plan: &Plan, decompose: bool)
    requires
        plan.wf(),
        plan.size_spec() == 2 * old(data)@.len(),
    ensures
        final(data)@ == compose_spec(
            old(data)@,
            table_seq(plan.size_spec(), angle_is_forward(plan.op())),
            decompose,
        ),
        final(data)@.len() == old(data)@.len(),
{
    let n = data.len();
    let h = n / 2;
    let ghost s0 = data@;
    let ghost f = table_seq(plan.size_spec(), angle_is_forward(plan.op()));
    proof {
        bits::lemma_is_pow2_pos(plan.size_spec());
        bits::lemma_is_pow2_half(plan.size_spec());
        if n >= 2 {
            bits::lemma_is_pow2_half(n as int);
        }
    }
    let mut v = cx::c_dc_mix(data[0]);
    if decompose {
        v = cx::c_unscale(v, 2);
    }
    data.set(0, v);
    let sign = cx::c_imag_unit(!decompose);
    let flen = plan.factors.len();
    let mut i: usize = 1;
    while i < h
        invariant
            1 <= i,
            i <= h || h == 0,
            h == n as int / 2,
            n >= 2 ==> n % 2 == 0,
            data@.len() == n,
            s0.len() == n,
            plan.factors@ == f,
            f.len() == 2 * n as int - 1,
            flen == f.len(),
            sign == cx::imag_unit(!decompose),
            data@[0] == compose_elem(s0, f, decompose, 0),
            forall|m: int| 1 <= m < i ==> data@[m] == compose_elem(s0, f, decompose, m),
            forall|m: int| n - i < m < n ==> data@[m] == compose_elem(s0, f, decompose, m),
            forall|m: int| i <= m <= n - i ==> data@[m] == s0[m],
        decreases h - i,
    {
        let j = n - i;
        let cj = cx::c_conj(data[j]);
        let part1 = cx::c_add(data[i], cj);
        let part2 = cx::c_sub(data[i], cj);
        let product = cx::c_mul(cx::c_mul(sign, plan.factors[n - 1 + i]), part2);
        data.set(i, cx::c_unscale(cx::c_add(part1, product), 2));
        data.set(j, cx::c_conj(cx::c_unscale(cx::c_sub(part1, product), 2)));
        i = i + 1;
    }
    if h >= 1 {
        let mid = data[h];
        data.set(h, cx::c_conj(mid));
    }
    proof {
        assert(data@ =~= compose_spec(s0, f, decompose));
    }
}

/// What the real transform leaves in the paired buffer holding `pre`: for
/// the forward operation, the half-size complex transform followed by the
/// compose folding; for the backward and inverse operations, the decompose
/// folding followed by the half-size complex transform, which also applies
/// the inverse scaling.
pub open spec fn real_transform_spec(pre: Seq<Cx>, op: Operation) -> Seq<Cx> {
    let f = table_seq(2 * pre.len() as int, angle_is_forward(op));
    if op is Forward {
        compose_spec(complex_transform_spec(pre, op), f, false)
    } else {
        complex_transform_spec(compose_spec(pre, f, true), op)
    }
}

/// The real transform leaves the buffer length unchanged.
pub proof fn lemma_real_transform_len(pre: Seq<Cx>, op: Operation)
    ensures
        real_transform_spec(pre, op).len() == pre.len(),
{
    let f = table_seq(2 * pre.len() as int, angle_is_forward(op));
    lemma_complex_transform_len(pre, op);
    lemma_complex_transform_len(compose_spec(pre, f, true), op);
}

impl Transform for RealBuffer {
    /// A real buffer holds its paired-up samples.
    open spec fn data(&self) -> Seq<Cx> {
        self.pairs@
    }

    /// A real buffer takes a plan built for the number of real samples it
    /// holds: twice its paired length.
    open spec fn plan_points(&self) -> int {
        2 * self.pairs@.len() as int
    }

    /// A real buffer is transformed by the real engine.
    open spec fn spec_transform(pre: Seq<Cx>, op: Operation) -> Seq<Cx> {
        real_transform_spec(pre, op)
    }

    fn transform(&mut self, plan: &Plan) {
        let ghost pre = self.pairs@;
        proof {
            bits::lemma_is_pow2_half(plan.size_spec());
        }
        match plan.operation {
            Operation::Forward => {
                complex_transform(&mut self.pairs, plan);
                compose(&mut self.pairs, plan, false);
            },
            _ => {
                compose(&mut self.pairs, plan, true);
                complex_transform(&mut self.pairs, plan);
            },
        }
        proof {
            lemma_real_transform_len(pre, plan.op());
        }
    }
}

/// One bin of the unpacked spectrum: bin zero is the packed DC value, the
/// bin at half the full length is the packed Nyquist value, the bins below
/// the middle are the packed slots themselves, and the bins above mirror
/// them conjugated.
pub open spec fn unpack_elem(p: Seq<Cx>, k: int) -> Cx {
    let h = p.len() as int;
    if k == 0 {
        cx::re_part_of(p[0])
    } else if k < h {
        p[k]
    } else if k == h {
        cx::im_part_of(p[0])
    } else {
        cx::conj_of(p[2 * h - k])
    }
}

/// The full complex spectrum encoded by a packed real spectrum of `h`
/// slots: `2 * h` bins satisfying conjugate symmetry.
pub open spec fn unpack_spec(p: Seq<Cx>) -> Seq<Cx> {
    Seq::new(2 * p.len(), |k: int| unpack_elem(p, k))
}

/// Unpack the result produced by the forward transform applied to real
/// data: expand the packed real spectrum into the explicit complex
/// spectrum over the full real length, using conjugate symmetry. Pure: the
/// input buffer is left untouched.
pub fn unpack(data: &RealBuffer) -> (r: Vec<Cx>)
    requires
        is_pow2(data.pairs@.len() as int),
    ensures
        r@ == unpack_spec(data.pairs@),
{
    let h = data.pairs.len();
    proof {
        bits::lemma_is_pow2_pos(h as int);
    }
    let mut out: Vec<Cx> = Vec::new();
    out.push(cx::c_re_part(data.pairs[0]));
    let mut k: usize = 1;
    while k < h
        invariant
            1 <= k <= h,
            h == data.pairs@.len(),
            out@.len() == k,
            forall|m: int| 0 <= m < k ==> out@[m] == unpack_elem(data.pairs@, m),
        decreases h - k,
    {
        out.push(data.pairs[k]);
        k = k + 1;
    }
    out.push(cx::c_im_part(data.pairs[0]));
    let mut k2: usize = 1;
    while k2 < h
        invariant
            1 <= k2 <= h,
            h == data.pairs@.len(),
            out@.len() == h + k2,
            forall|m: int| 0 <= m < h + k2 ==> out@[m] == unpack_elem(data.pairs@, m),
        decreases h - k2,
    {
        out.push(cx::c_conj(data.pairs[h - k2]));
        k2 = k2 + 1;
    }
    proof {
        assert(out@ =~= unpack_spec(data.pairs@));
    }
    out
}

/// Conjugate symmetry: in the unpacked spectrum of a forward real
/// transform of `2 * h` real samples, the bin at `2 * h - k` is the
/// conjugate of the bin at `k`, for every `k` strictly between zero and
/// `h`.
pub proof fn lemma_unpack_conjugate_symmetry(x: Seq<Cx>, k: int)
    requires
        1 <= k < x.len(),
    ensures
        ({
            let spectrum = unpack_spec(real_transform_spec(x, Operation::Forward));
            spectrum[2 * x.len() - k] == cx::conj_of(spectrum[k])
        }),
{
    lemma_real_transform_len(x, Operation::Forward);
}

} // verus!
