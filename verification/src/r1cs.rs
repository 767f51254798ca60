//! Rank-1 constraint systems over F_p: linear terms, constraints of the shape
//! `A(w) * B(w) = C(w)`, and the satisfaction test against a witness laid out
//! as `[1, public values.., auxiliary values..]`.

use vstd::prelude::*;
use crate::arith::FieldT;
use crate::arith::fadd;
use crate::arith::fmul;
use crate::arith::lemma_value_injective;

verus! {

/// A coefficient applied to one slot of the witness vector. Slot 0 is the
/// constant-one wire, slots `1..=num_public` the public inputs, and the slots
/// after them the auxiliary variables.
#[derive(Clone, Copy, Debug)]
pub struct LinearTerm {
    pub coeff: FieldT,
    pub index: usize,
}

/// The recoverable failures of the frontend.
#[derive(Clone, Copy, Debug, PartialEq, Eq, Structural)]
pub enum R1csError {
    /// A linear term references a slot beyond the declared variable count.
    IndexOutOfRange,
    /// The supplied public or auxiliary values disagree with the declared counts.
    WitnessLengthMismatch,
}

/// One rank-1 constraint `A(w) * B(w) = C(w)`.
#[derive(Clone, Debug)]
pub struct Constraint {
    pub a: Vec<LinearTerm>,
    pub b: Vec<LinearTerm>,
    pub c: Vec<LinearTerm>,
}

/// An ordered collection of rank-1 constraints over a fixed variable layout.
#[derive(Clone, Debug)]
pub struct ConstraintSystem {
    num_public: usize,
    num_aux: usize,
    constraints: Vec<Constraint>,
}

/// The value a term contributes under witness values `w` (a slot out of range
/// contributes nothing; a well-formed system never evaluates one).
pub open spec fn term_value(t: LinearTerm, w: Seq<nat>) -> nat {
    fmul(
        t.coeff.value(),
        if t.index < w.len() {
            w[t.index as int]
        } else {
            0
        },
    )
}

/// The value of a linear combination under witness values `w`: the field sum
/// of its terms' contributions.
pub open spec fn lc_value(terms: Seq<LinearTerm>, w: Seq<nat>) -> nat
    decreases terms.len(),
{
    if terms.len() == 0 {
        0
    } else {
        fadd(lc_value(terms.drop_last(), w), term_value(terms.last(), w))
    }
}

/// Whether one rank-1 constraint holds under witness values `w`.
pub open spec fn constraint_holds(
    c: (Seq<LinearTerm>, Seq<LinearTerm>, Seq<LinearTerm>),
    w: Seq<nat>,
) -> bool {
    fmul(lc_value(c.0, w), lc_value(c.1, w)) == lc_value(c.2, w)
}

/// The full witness layout: the constant one, then the public values, then the
/// auxiliary values.
pub open spec fn witness_values(public: Seq<nat>, aux: Seq<nat>) -> Seq<nat> {
    seq![1nat] + public + aux
}

/// The mathematical values of a sequence of field elements.
pub open spec fn values_of(s: Seq<FieldT>) -> Seq<nat> {
    s.map_values(|f: FieldT| f.value())
}

/// Every term of the list points below the slot count `n`.
pub open spec fn terms_in_range(terms: Seq<LinearTerm>, n: nat) -> bool {
    forall|i: int| 0 <= i < terms.len() ==> (#[trigger] terms[i]).index < n
}

/// Every coefficient of the list is a canonical field element.
pub open spec fn coeffs_wf(terms: Seq<LinearTerm>) -> bool {
    forall|i: int| 0 <= i < terms.len() ==> (#[trigger] terms[i]).coeff.wf()
}

/// Every element of the sequence is a canonical field element.
pub open spec fn elems_wf(s: Seq<FieldT>) -> bool {
    forall|i: int| 0 <= i < s.len() ==> (#[trigger] s[i]).wf()
}

/// Whether every index of `terms` lies below `n`, decided by one pass.
fn check_terms_in_range(terms: &[LinearTerm], n: usize) -> (r: bool)
    ensures
        r == terms_in_range(terms@, n as nat),
{
    let mut i: usize = 0;
    while i < terms.len()
        invariant
            i <= terms@.len(),
            forall|j: int| 0 <= j < i ==> (#[trigger] terms@[j]).index < n,
        decreases terms@.len() - i,
    {
        if terms[i].index >= n {
            return false;
        }
        i = i + 1;
    }
    true
}

/// The field value of one linear combination under the witness vector `w`.
fn eval_lc(terms: &Vec<LinearTerm>, w: &Vec<FieldT>) -> (r: FieldT)
    requires
        terms_in_range(terms@, w@.len() as nat),
        coeffs_wf(terms@),
        elems_wf(w@),
    ensures
        r.wf(),
        r.value() == lc_value(terms@, values_of(w@)),
{
    let mut acc = FieldT::zero();
    let mut i: usize = 0;
    while i < terms.len()
        invariant
            i <= terms@.len(),
            terms_in_range(terms@, w@.len() as nat),
            coeffs_wf(terms@),
            elems_wf(w@),
            acc.wf(),
            acc.value() == lc_value(terms@.take(i as int), values_of(w@)),
        decreases terms@.len() - i,
    {
        let t = terms[i];
        let tv = t.coeff.mul(&w[t.index]);
        acc = acc.add(&tv);
        proof {
            assert(terms@.take(i + 1).drop_last() =~= terms@.take(i as int));
            assert(terms@.take(i + 1).last() == terms@[i as int]);
            assert(values_of(w@)[t.index as int] == w@[t.index as int].value());
        }
        i = i + 1;
    }
    proof {
        assert(terms@.take(terms@.len() as int) =~= terms@);
    }
    acc
}

impl ConstraintSystem {
    /// Number of public-input variables, fixed at construction.
    pub closed spec fn spec_num_public(&self) -> nat {
        self.num_public as nat
    }

    /// Number of auxiliary (private) variables, fixed at construction.
    pub closed spec fn spec_num_aux(&self) -> nat {
        self.num_aux as nat
    }

    /// Total number of witness slots: the constant wire plus all variables.
    pub open spec fn spec_num_vars(&self) -> nat {
        1 + self.spec_num_public() + self.spec_num_aux()
    }

    /// The constraints, each as its three term lists.
    pub closed spec fn spec_constraints(&self) -> Seq<
        (Seq<LinearTerm>, Seq<LinearTerm>, Seq<LinearTerm>),
    > {
        self.constraints@.map_values(|c: Constraint| (c.a@, c.b@, c.c@))
    }

    /// Validity: the slot count fits the machine, every stored term points at
    /// a declared slot, and every stored coefficient is canonical.
    pub open spec fn wf(&self) -> bool {
        &&& self.spec_num_vars() <= usize::MAX
        &&& forall|i: int|
            0 <= i < self.spec_constraints().len() ==> {
                &&& terms_in_range(
                    (#[trigger] self.spec_constraints()[i]).0,
                    self.spec_num_vars(),
                )
                &&& terms_in_range(self.spec_constraints()[i].1, self.spec_num_vars())
                &&& terms_in_range(self.spec_constraints()[i].2, self.spec_num_vars())
                &&& coeffs_wf(self.spec_constraints()[i].0)
                &&& coeffs_wf(self.spec_constraints()[i].1)
                &&& coeffs_wf(self.spec_constraints()[i].2)
            }
    }

    /// Whether the witness split into public and auxiliary values satisfies
    /// every constraint of the system.
    pub open spec fn satisfied_by(&self, public: Seq<nat>, aux: Seq<nat>) -> bool {
        forall|i: int|
            0 <= i < self.spec_constraints().len() ==> constraint_holds(
                #[trigger] self.spec_constraints()[i],
                witness_values(public, aux),
            )
    }

    /// Creates an empty system with the given variable counts.
    pub fn new(num_public: usize, num_aux: usize) -> (r: ConstraintSystem)
        requires
            1 + num_public + num_aux <= usize::MAX,
        ensures
            r.wf(),
            r.spec_num_public() == num_public,
            r.spec_num_aux() == num_aux,
            r.spec_constraints() == Seq::<(Seq<LinearTerm>, Seq<LinearTerm>, Seq<
                LinearTerm,
            >)>::empty(),
    {
        let r = ConstraintSystem { num_public, num_aux, constraints: Vec::new() };
        proof {
            assert(r.spec_constraints() =~= Seq::<(Seq<LinearTerm>, Seq<LinearTerm>, Seq<
                LinearTerm,
            >)>::empty());
        }
        r
    }

    /// Appends the rank-1 constraint built from the three term lists. Fails,
    /// leaving the system unchanged, iff some term references a slot at or
    /// beyond the declared variable count.
    pub fn add_constraint(
        &mut self,
        a: &[LinearTerm],
        b: &[LinearTerm],
        c: &[LinearTerm],
    ) -> (r: Result<(), R1csError>)
        requires
            old(self).wf(),
            coeffs_wf(a@),
            coeffs_wf(b@),
            coeffs_wf(c@),
        ensures
            final(self).wf(),
            final(self).spec_num_public() == old(self).spec_num_public(),
            final(self).spec_num_aux() == old(self).spec_num_aux(),
            match r {
                Ok(()) => {
                    &&& terms_in_range(a@, old(self).spec_num_vars())
                    &&& terms_in_range(b@, old(self).spec_num_vars())
                    &&& terms_in_range(c@, old(self).spec_num_vars())
                    &&& final(self).spec_constraints() == old(self).spec_constraints().push(
                        (a@, b@, c@),
                    )
                },
                Err(e) => {
                    &&& e == R1csError::IndexOutOfRange
                    &&& !(terms_in_range(a@, old(self).spec_num_vars()) && terms_in_range(
                        b@,
                        old(self).spec_num_vars(),
                    ) && terms_in_range(c@, old(self).spec_num_vars()))
                    &&& *final(self) == *old(self)
                },
            },
    {
        let n: usize = 1 + self.num_public + self.num_aux;
        if !(check_terms_in_range(a, n) && check_terms_in_range(b, n) && check_terms_in_range(
            c,
            n,
        )) {
            return Err(R1csError::IndexOutOfRange);
        }
        let cst = Constraint {
            a: vstd::slice::slice_to_vec(a),
            b: vstd::slice::slice_to_vec(b),
            c: vstd::slice::slice_to_vec(c),
        };
        self.constraints.push(cst);
        proof {
            assert(final(self).spec_constraints() =~= old(self).spec_constraints().push(
                (a@, b@, c@),
            ));
        }
        Ok(())
    }

    /// Evaluates every constraint against the witness `[1, primary.., aux..]`.
    /// Fails iff the supplied lengths disagree with the declared counts;
    /// otherwise says whether every constraint holds, exactly.
    #[verifier::loop_isolation(false)]
    pub fn test(&self, primary: &[FieldT], aux: &[FieldT]) -> (r: Result<bool, R1csError>)
        requires
            self.wf(),
            elems_wf(primary@),
            elems_wf(aux@),
        ensures
            match r {
                Ok(b) => {
                    &&& primary@.len() == self.spec_num_public()
                    &&& aux@.len() == self.spec_num_aux()
                    &&& b == self.satisfied_by(values_of(primary@), values_of(aux@))
                },
                Err(e) => {
                    &&& e == R1csError::WitnessLengthMismatch
                    &&& !(primary@.len() == self.spec_num_public() && aux@.len()
                        == self.spec_num_aux())
                },
            },
    {
        if primary.len() != self.num_public || aux.len() != self.num_aux {
            return Err(R1csError::WitnessLengthMismatch);
        }
        let ghost wv = witness_values(values_of(primary@), values_of(aux@));
        let mut w: Vec<FieldT> = Vec::new();
        w.push(FieldT::one());
        let mut i: usize = 0;
        while i < primary.len()
            invariant
                i <= primary@.len(),
                w@.len() == 1 + i,
                w@[0].value() == 1,
                forall|j: int| 0 <= j < i ==> w@[j + 1] == primary@[j],
                elems_wf(primary@),
                elems_wf(w@),
            decreases primary@.len() - i,
        {
            w.push(primary[i]);
            i = i + 1;
        }
        let mut i2: usize = 0;
        while i2 < aux.len()
            invariant
                i2 <= aux@.len(),
                w@.len() == 1 + primary@.len() + i2,
                w@[0].value() == 1,
                forall|j: int| 0 <= j < primary@.len() ==> w@[j + 1] == primary@[j],
                forall|j: int| 0 <= j < i2 ==> w@[1 + primary@.len() + j] == aux@[j],
                elems_wf(primary@),
                elems_wf(aux@),
                elems_wf(w@),
            decreases aux@.len() - i2,
        {
            w.push(aux[i2]);
            i2 = i2 + 1;
        }
        proof {
            assert(values_of(w@) =~= wv) by {
                assert forall|j: int| 0 <= j < w@.len() implies values_of(w@)[j] == wv[j] by {
                    if j == 0 {
                    } else if j <= primary@.len() {
                        assert(w@[j] == primary@[j - 1]);
                    } else {
                        assert(w@[j] == aux@[j - 1 - primary@.len()]);
                    }
                }
            }
        }
        let mut k: usize = 0;
        while k < self.constraints.len()
            invariant
                self.wf(),
                k <= self.spec_constraints().len(),
                self.constraints@.len() == self.spec_constraints().len(),
                elems_wf(w@),
                w@.len() as nat == self.spec_num_vars(),
                values_of(w@) == wv,
                forall|j: int|
                    0 <= j < k ==> constraint_holds(#[trigger] self.spec_constraints()[j], wv),
            decreases self.spec_constraints().len() - k,
        {
            let cst = &self.constraints[k];
            proof {
                assert(self.spec_constraints()[k as int] == (cst.a@, cst.b@, cst.c@));
            }
            let va = eval_lc(&cst.a, &w);
            let vb = eval_lc(&cst.b, &w);
            let vc = eval_lc(&cst.c, &w);
            let prod = va.mul(&vb);
            if !(prod == vc) {
                proof {
                    if prod.value() == vc.value() {
                        lemma_value_injective(prod, vc);
                    }
                    assert(!constraint_holds(self.spec_constraints()[k as int], wv));
                }
                return Ok(false);
            }
            k = k + 1;
        }
        Ok(true)
    }

    /// Number of public-input variables.
    pub fn num_public(&self) -> (r: usize)
        ensures
            r as nat == self.spec_num_public(),
    {
        self.num_public
    }

    /// Number of auxiliary variables.
    pub fn num_aux(&self) -> (r: usize)
        ensures
            r as nat == self.spec_num_aux(),
    {
        self.num_aux
    }

    /// Number of constraints appended so far.
    pub fn constraints_len(&self) -> (r: usize)
        ensures
            r as nat == self.spec_constraints().len(),
    {
        self.constraints.len()
    }

    /// The constraint at a position, for callers that marshal the system onward.
    pub fn constraint_at(&self, i: usize) -> (r: &Constraint)
        requires
            i < self.spec_constraints().len(),
        ensures
            (r.a@, r.b@, r.c@) == self.spec_constraints()[i as int],
    {
        &self.constraints[i]
    }
}

} // verus!
