//! Interpolation of a multiset over a radix-2 multiplicative evaluation
//! domain: the members are read as evaluations on the domain and turned
//! into polynomial coefficients by an inverse FFT, performed by the
//! `poly_commit` crate behind a trusted wrapper. Evaluating the resulting
//! polynomial is verified Horner arithmetic over the scalar field.

use vstd::prelude::*;
use vstd::arithmetic::power2::pow2;
use vstd::arithmetic::power2::lemma_pow2_unfold;
use vstd::arithmetic::power2::lemma_pow2_strictly_increases;
use vstd::arithmetic::power2::lemma2_to64;
use crate::scalar::Scalar;
use crate::scalar::fr_order;
use crate::multiset::MultiSet;
use crate::multiset::padded_at;
use bls_12_381::Fr;
use poly_commit::Fft;
use poly_commit::PointsValue;
use zkstd::common::SigUtils;

verus! {

/// The canonical values held by a sequence of scalars.
pub open spec fn values_of(s: Seq<Scalar>) -> Seq<nat> {
    s.map_values(|x: Scalar| x.value())
}

/// The coefficients, as canonical values, that the inverse FFT over the
/// size-`n` radix-2 domain assigns to the evaluations `evals` (read in
/// domain order and padded with zeros up to `n`).
pub uninterp spec fn ifft_of(evals: Seq<nat>, n: nat) -> Seq<nat>;

/// The canonical value of the generator of the size-`n` multiplicative
/// subgroup the domain is built on.
pub uninterp spec fn generator_of(n: nat) -> nat;

/// `base^e` mod the field order.
pub open spec fn pow_mod(base: nat, e: nat) -> nat
    decreases e,
{
    if e == 0 {
        1
    } else {
        (base * pow_mod(base, (e - 1) as nat)) % fr_order()
    }
}

/// Horner evaluation of a coefficient sequence at `x`, mod the field
/// order: `c[0] + x * (c[1] + x * (...))`.
pub open spec fn poly_eval(coeffs: Seq<nat>, x: nat) -> nat
    decreases coeffs.len(),
{
    if coeffs.len() == 0 {
        0
    } else {
        (coeffs[0] + x * poly_eval(coeffs.drop_first(), x)) % fr_order()
    }
}

/// A multiplicative evaluation domain of size `2^log_size`, over which
/// sequences of scalars are interpolated.
pub struct EvaluationDomain {
    pub log_size: u32,
    pub size: usize,
}

impl EvaluationDomain {
    /// The size is the recorded power of two, within the two-adicity of
    /// the scalar field.
    pub open spec fn wf(self) -> bool {
        &&& 1 <= self.log_size <= 32
        &&& self.size == pow2(self.log_size as nat)
    }

    /// Whether a domain of this size exists: a power of two within the
    /// two-adicity of the scalar field.
    pub open spec fn supported(size: nat) -> bool {
        exists|k: nat| 1 <= k <= 32 && size == pow2(k)
    }

    /// Builds the domain of the given size, when one exists.
    #[verifier::loop_isolation(false)]
    pub fn new(size: usize) -> (r: Option<EvaluationDomain>)
        ensures
            r is Some <==> Self::supported(size as nat),
            match r {
                Some(d) => d.wf() && d.size == size,
                None => true,
            },
    {
        proof {
            lemma2_to64();
        }
        let mut k: u32 = 1;
        let mut m: u64 = 2;
        while m < size as u64 && k < 32
            invariant
                1 <= k <= 32,
                m == pow2(k as nat),
                forall|j: nat| 1 <= j < k ==> pow2(j) < size as nat,
            decreases 32 - k,
        {
            proof {
                lemma_pow2_unfold(k as nat + 1);
                lemma_pow2_strictly_increases(k as nat, 33);
            }
            m = m * 2;
            k = k + 1;
            proof {
                assert forall|j: nat| 1 <= j < k implies pow2(j) < size by {
                    if j < k - 1 {
                    } else {
                        assert(pow2(j) == pow2((k - 1) as nat));
                    }
                }
            }
        }
        if m == size as u64 {
            proof {
                assert(Self::supported(size as nat));
            }
            Some(EvaluationDomain { log_size: k, size })
        } else {
            proof {
                assert forall|j: nat| 1 <= j <= 32 implies pow2(j) != size as nat by {
                    if j < k {
                    } else if j == k {
                    } else {
                        lemma_pow2_strictly_increases(k as nat, j);
                    }
                }
            }
            None
        }
    }

    /// The generator `omega` of the domain's multiplicative subgroup.
    ///
    /// Relies on `poly_commit::Fft::generator`: the root of unity the
    /// domain of size `2^log_size` is built on, a function of the size
    /// alone, whose canonical value `generator_of` names; it is a
    /// primitive root, obtained by squaring the field's two-adic root of
    /// unity down to exact order `size`.
    #[verifier::external_body]
    pub fn generator(&self) -> (r: Scalar)
        requires
            self.wf(),
            self.log_size >= 2,
        ensures
            r.value() == generator_of(self.size as nat),
            r.is_canonical(),
            pow_mod(r.value(), self.size as nat) == 1,
            forall|k: nat| 1 <= k < self.size ==> #[trigger] pow_mod(r.value(), k) != 1,
    {
        let fft = Fft::<Fr>::new(self.log_size as usize);
        let b = fft.generator().to_bytes();
        Scalar {
            l0: u64::from_le_bytes(b[0..8].try_into().unwrap()),
            l1: u64::from_le_bytes(b[8..16].try_into().unwrap()),
            l2: u64::from_le_bytes(b[16..24].try_into().unwrap()),
            l3: u64::from_le_bytes(b[24..32].try_into().unwrap()),
        }
    }
}

/// A polynomial over the scalar field, held by its coefficients, lowest
/// degree first.
pub struct Polynomial(pub Vec<Scalar>);

impl View for Polynomial {
    type V = Seq<Scalar>;

    open spec fn view(&self) -> Seq<Scalar> {
        self.0@
    }
}

impl Polynomial {
    /// All coefficients are canonical scalars.
    pub open spec fn wf(self) -> bool {
        forall|i: int| 0 <= i < self@.len() ==> (#[trigger] self@[i]).is_canonical()
    }

    /// Horner evaluation at `x`, mod the field order.
    #[verifier::loop_isolation(false)]
    pub fn evaluate(&self, x: &Scalar) -> (r: Scalar)
        requires
            self.wf(),
            x.is_canonical(),
        ensures
            r.value() == poly_eval(values_of(self@), x.value()),
            r.is_canonical(),
    {
        let ghost vals = values_of(self@);
        let mut acc = Scalar::zero();
        let mut i: usize = self.0.len();
        proof {
            assert(vals.skip(i as int) =~= Seq::<nat>::empty());
        }
        while i > 0
            invariant
                i <= self@.len(),
                acc.value() == poly_eval(vals.skip(i as int), x.value()),
                acc.is_canonical(),
            decreases i,
        {
            i = i - 1;
            proof {
                assert(vals.skip(i as int)[0] == vals[i as int]);
                assert(vals.skip(i as int).drop_first() =~= vals.skip(i + 1 as int));
                assert(vals[i as int] == self@[i as int].value());
            }
            let scaled = x.mul(&acc);
            let c = self.0[i];
            let next = c.add(&scaled);
            proof {
                vstd::arithmetic::div_mod::lemma_add_mod_noop_right(
                    c.value() as int,
                    (x.value() * poly_eval(vals.skip(i + 1 as int), x.value())) as int,
                    fr_order() as int,
                );
            }
            acc = next;
        }
        proof {
            assert(vals.skip(0) =~= vals);
        }
        acc
    }

    /// The degree: the index of the last nonzero coefficient, and 0 for
    /// a constant or all-zero polynomial.
    #[verifier::loop_isolation(false)]
    pub fn degree(&self) -> (r: usize)
        ensures
            self@.len() == 0 ==> r == 0,
            self@.len() > 0 ==> r < self@.len() && (forall|j: int|
                r < j < self@.len() ==> (#[trigger] self@[j]).value() == 0) && (r > 0
                ==> self@[r as int].value() != 0),
    {
        let mut d: usize = self.0.len();
        while d > 0
            invariant
                d <= self@.len(),
                forall|j: int| d <= j < self@.len() ==> (#[trigger] self@[j]).value() == 0,
            decreases d,
        {
            let c = self.0[d - 1];
            if !(c.l0 == 0 && c.l1 == 0 && c.l2 == 0 && c.l3 == 0) {
                return d - 1;
            }
            d = d - 1;
        }
        0
    }
}

impl MultiSet {
    /// Treats the members as evaluations over `domain` (in domain order,
    /// padded with zeros up to the domain size) and returns the
    /// coefficients of the interpolating polynomial.
    ///
    /// Relies on `poly_commit::Fft::idft`: the inverse discrete Fourier
    /// transform over the radix-2 domain of size `2^log_size`, whose
    /// coefficients `ifft_of` names, one canonical scalar per domain
    /// point; by its defining relation, evaluating the interpolant at the
    /// i-th power of the domain generator returns the i-th input value
    /// (zero past the input's end).
    #[verifier::external_body]
    pub fn to_polynomial(&self, domain: &EvaluationDomain) -> (r: Polynomial)
        requires
            domain.wf(),
            self@.len() <= domain.size,
        ensures
            r@.len() == domain.size,
            values_of(r@) == ifft_of(values_of(self@), domain.size as nat),
            r.wf(),
            forall|i: nat|
                i < domain.size ==> #[trigger] poly_eval(
                    values_of(r@),
                    pow_mod(generator_of(domain.size as nat), i),
                ) == padded_at(self@, i as int),
    {
        let mut evals = Vec::new();
        for s in self.0.iter() {
            evals.push(Fr::to_mont_form([s.l0, s.l1, s.l2, s.l3]));
        }
        let coeffs = Fft::new(domain.log_size as usize).idft(PointsValue::new(evals));
        let mut out = Vec::new();
        for f in coeffs.0.iter() {
            let b = f.to_bytes();
            let mut l = [0u64; 4];
            for i in 0..4 { l[i] = u64::from_le_bytes(b[8 * i..8 * i + 8].try_into().unwrap()); }
            out.push(Scalar { l0: l[0], l1: l[1], l2: l[2], l3: l[3] });
        }
        Polynomial(out)
    }
}

} // verus!
