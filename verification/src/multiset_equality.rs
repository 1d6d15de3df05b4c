//! The grand-product accumulator at the heart of the multiset-equality
//! argument: the values of the auxiliary polynomial `Z` over the
//! evaluation domain, driven by the witness `f`, the table `t` and the
//! sorted halves `h_1`, `h_2` under the challenges `beta` and `gamma`.
//! Each step multiplies the accumulator by a numerator built from `f` and
//! `t` and divides by the denominators built from the halves; the
//! recurrence each step satisfies is stated exactly, so the wrap-around
//! identity of the argument can be checked against it.

use vstd::prelude::*;
use vstd::arithmetic::div_mod::*;
use vstd::arithmetic::mul::*;
use crate::scalar::Scalar;
use crate::scalar::fr_order;
use crate::multiset::MultiSet;

verus! {

/// The numerator of one grand-product step:
/// `(1+beta) * (gamma + f_i) * (gamma*(1+beta) + t_i + beta*t_next)`,
/// each operation reduced mod the field order in the order the prover
/// computes it.
pub open spec fn step_numer(
    f_i: Scalar,
    t_i: Scalar,
    t_next: Scalar,
    beta: nat,
    gamma: nat,
) -> nat {
    let ob = (1 + beta) % fr_order();
    let x = (gamma + f_i.value()) % fr_order();
    let gb = (gamma * ob) % fr_order();
    let y = ((gb + t_i.value()) % fr_order() + (beta * t_next.value()) % fr_order()) % fr_order();
    (((ob * x) % fr_order()) * y) % fr_order()
}

/// One denominator factor of a grand-product step, over a half `h`:
/// `gamma*(1+beta) + h_i + beta*h_next`, reduced mod the field order.
pub open spec fn step_denom(h_i: Scalar, h_next: Scalar, beta: nat, gamma: nat) -> nat {
    let ob = (1 + beta) % fr_order();
    let gb = (gamma * ob) % fr_order();
    ((gb + h_i.value()) % fr_order() + (beta * h_next.value()) % fr_order()) % fr_order()
}

/// The grand-product recurrence at step `i` of the sequences: multiplying
/// the next accumulator value back by the two denominator factors returns
/// the previous value times the numerator, all mod the field order.
pub open spec fn z_step_holds(
    z_i: Scalar,
    z_next: Scalar,
    f: Seq<Scalar>,
    t: Seq<Scalar>,
    h_1: Seq<Scalar>,
    h_2: Seq<Scalar>,
    beta: nat,
    gamma: nat,
    i: int,
) -> bool {
    ((z_next.value() * step_denom(h_1[i], h_1[i + 1], beta, gamma)) % fr_order() * step_denom(
        h_2[i],
        h_2[i + 1],
        beta,
        gamma,
    )) % fr_order() == (z_i.value() * step_numer(f[i], t[i], t[i + 1], beta, gamma)) % fr_order()
}

/// Multiplying by a factor undoes a multiplication by its inverse, mod
/// `m`.
proof fn lemma_mod_mul_cancel(a: nat, fac: nat, facinv: nat, m: nat)
    requires
        m > 1,
        (fac * facinv) % m == 1,
    ensures
        (((a * facinv) % m) * fac) % m == a % m,
{
    lemma_mul_mod_noop_left((a * facinv) as int, fac as int, m as int);
    lemma_mul_is_associative(a as int, facinv as int, fac as int);
    lemma_mul_is_commutative(facinv as int, fac as int);
    lemma_mul_mod_noop_right(a as int, (fac * facinv) as int, m as int);
}

/// One accumulator step meets the recurrence: dividing by the two factors
/// through their inverses and multiplying the factors back returns the
/// accumulated product.
proof fn lemma_z_step_equation(
    zprev: nat,
    numer: nat,
    d1: nat,
    d2: nat,
    inv1: nat,
    inv2: nat,
    znext: nat,
)
    requires
        (d1 * inv1) % fr_order() == 1,
        (d2 * inv2) % fr_order() == 1,
        znext == ((((zprev * numer) % fr_order()) * inv2) % fr_order() * inv1) % fr_order(),
    ensures
        ((znext * d1) % fr_order() * d2) % fr_order() == (zprev * numer) % fr_order(),
{
    let m = fr_order();
    let x = (zprev * numer) % m;
    let y = (x * inv2) % m;
    lemma_mod_bound((x * inv2) as int, m as int);
    lemma_mod_bound((zprev * numer) as int, m as int);
    lemma_mod_mul_cancel(y, d1, inv1, m);
    lemma_small_mod(y, m);
    lemma_mod_mul_cancel(x, d2, inv2, m);
    lemma_small_mod(x, m);
}

/// One step of the accumulator: multiplies `prev` by the step's numerator
/// and by the inverses of the two denominator factors; `None` exactly
/// when a factor is zero.
#[verifier::rlimit(60)]
fn z_step(
    prev: &Scalar,
    f_i: &Scalar,
    t_i: &Scalar,
    t_next: &Scalar,
    h1_i: &Scalar,
    h1_next: &Scalar,
    h2_i: &Scalar,
    h2_next: &Scalar,
    one_beta: &Scalar,
    gamma_one_beta: &Scalar,
    beta: &Scalar,
    gamma: &Scalar,
) -> (r: Option<Scalar>)
    requires
        prev.is_canonical(),
        f_i.is_canonical(),
        t_i.is_canonical(),
        t_next.is_canonical(),
        h1_i.is_canonical(),
        h1_next.is_canonical(),
        h2_i.is_canonical(),
        h2_next.is_canonical(),
        beta.is_canonical(),
        gamma.is_canonical(),
        one_beta.value() == (1 + beta.value()) % fr_order(),
        one_beta.is_canonical(),
        gamma_one_beta.value() == (gamma.value() * one_beta.value()) % fr_order(),
        gamma_one_beta.is_canonical(),
    ensures
        match r {
            Some(zn) => zn.is_canonical() && ((zn.value() * step_denom(
                *h1_i,
                *h1_next,
                beta.value(),
                gamma.value(),
            )) % fr_order() * step_denom(*h2_i, *h2_next, beta.value(), gamma.value()))
                % fr_order() == (prev.value() * step_numer(
                *f_i,
                *t_i,
                *t_next,
                beta.value(),
                gamma.value(),
            )) % fr_order() && step_denom(*h1_i, *h1_next, beta.value(), gamma.value()) != 0
                && step_denom(*h2_i, *h2_next, beta.value(), gamma.value()) != 0,
            None => step_denom(*h1_i, *h1_next, beta.value(), gamma.value()) == 0 || step_denom(
                *h2_i,
                *h2_next,
                beta.value(),
                gamma.value(),
            ) == 0,
        },
{
    let x = gamma.add(f_i);
    let y = gamma_one_beta.add(t_i).add(&beta.mul(t_next));
    let numer = one_beta.mul(&x).mul(&y);
    let d1 = gamma_one_beta.add(h1_i).add(&beta.mul(h1_next));
    let d2 = gamma_one_beta.add(h2_i).add(&beta.mul(h2_next));
    let inv1 = match d1.invert() {
        None => {
            return None;
        },
        Some(v) => v,
    };
    let inv2 = match d2.invert() {
        None => {
            return None;
        },
        Some(v) => v,
    };
    let x_acc = prev.mul(&numer);
    let z_next = x_acc.mul(&inv2).mul(&inv1);
    proof {
        lemma_z_step_equation(
            prev.value(),
            numer.value(),
            d1.value(),
            d2.value(),
            inv1.value(),
            inv2.value(),
            z_next.value(),
        );
    }
    Some(z_next)
}

/// Builds the values of the grand-product polynomial `Z` over the domain:
/// `z[0] = 1`, and each further value multiplies by the step's numerator
/// and by the inverses of its two denominator factors. Returns `None`
/// exactly when some denominator factor is zero (the challenges collide
/// with the data); the argument is aborted then.
#[verifier::loop_isolation(false)]
pub fn compute_z_evaluations(
    f: &MultiSet,
    t: &MultiSet,
    h_1: &MultiSet,
    h_2: &MultiSet,
    beta: &Scalar,
    gamma: &Scalar,
) -> (r: Option<MultiSet>)
    requires
        f.wf(),
        t.wf(),
        h_1.wf(),
        h_2.wf(),
        beta.is_canonical(),
        gamma.is_canonical(),
        t@.len() >= 1,
        f@.len() + 1 == t@.len(),
        h_1@.len() == t@.len(),
        h_2@.len() == t@.len(),
    ensures
        match r {
            Some(z) => z@.len() == t@.len() && z@[0].value() == 1 && z.wf() && (forall|i: int|
                #![trigger z@[i]]
                0 <= i < t@.len() - 1 ==> z_step_holds(
                    z@[i],
                    z@[i + 1],
                    f@,
                    t@,
                    h_1@,
                    h_2@,
                    beta.value(),
                    gamma.value(),
                    i,
                )) && (forall|i: int|
                #![trigger h_1@[i]]
                0 <= i < t@.len() - 1 ==> step_denom(
                    h_1@[i],
                    h_1@[i + 1],
                    beta.value(),
                    gamma.value(),
                ) != 0 && step_denom(h_2@[i], h_2@[i + 1], beta.value(), gamma.value()) != 0),
            None => exists|i: int|
                #![trigger h_1@[i]]
                0 <= i < t@.len() - 1 && (step_denom(
                    h_1@[i],
                    h_1@[i + 1],
                    beta.value(),
                    gamma.value(),
                ) == 0 || step_denom(h_2@[i], h_2@[i + 1], beta.value(), gamma.value()) == 0),
        },
{
    let ghost bv = beta.value();
    let ghost gv = gamma.value();
    let n = t.len();
    let one_beta = Scalar::one().add(beta);
    let gamma_one_beta = gamma.mul(&one_beta);
    let mut z = MultiSet::new();
    z.push(Scalar::one());
    let mut i: usize = 0;
    while i < n - 1
        invariant
            i <= n - 1,
            z@.len() == i + 1,
            z@[0].value() == 1,
            z.wf(),
            one_beta.value() == (1 + bv) % fr_order(),
            one_beta.is_canonical(),
            gamma_one_beta.value() == (gv * one_beta.value()) % fr_order(),
            gamma_one_beta.is_canonical(),
            forall|k: int|
                #![trigger z@[k]]
                0 <= k < i ==> z_step_holds(z@[k], z@[k + 1], f@, t@, h_1@, h_2@, bv, gv, k),
            forall|k: int|
                #![trigger h_1@[k]]
                0 <= k < i ==> step_denom(h_1@[k], h_1@[k + 1], bv, gv) != 0 && step_denom(
                    h_2@[k],
                    h_2@[k + 1],
                    bv,
                    gv,
                ) != 0,
        decreases n - 1 - i,
    {
        let prev = z.0[i];
        let stepped = z_step(
            &prev,
            &f.0[i],
            &t.0[i],
            &t.0[i + 1],
            &h_1.0[i],
            &h_1.0[i + 1],
            &h_2.0[i],
            &h_2.0[i + 1],
            &one_beta,
            &gamma_one_beta,
            beta,
            gamma,
        );
        let z_next = match stepped {
            None => {
                return None;
            },
            Some(v) => v,
        };
        let ghost z_before = z@;
        z.push(z_next);
        proof {
            assert forall|k: int| #![trigger z@[k]] 0 <= k < i + 1 implies z_step_holds(
                z@[k],
                z@[k + 1],
                f@,
                t@,
                h_1@,
                h_2@,
                bv,
                gv,
                k,
            ) by {
                assert(z@[k] == z_before[k]);
                if k < i {
                    assert(z@[k + 1] == z_before[k + 1]);
                } else {
                    assert(z@[k + 1] == z_next && z@[k] == prev);
                }
            }
        }
        i = i + 1;
    }
    Some(z)
}

} // verus!
