//! The compliance circuit with one constraint removed: the binding of C9's
//! absorbed lanes to the policy columns the clauses read.
//!
//! Not a variant anyone should deploy. It exists to be measured: the same
//! width, the same proving time, the same proof size, and it proves compliance
//! with a policy the principal never committed to.
use crate::expr::{Expr, Step};
use crate::air::policy_src_spec;
use crate::full::{absorbed_lane, binding_steps, policy_sources};
use crate::whole::{whole_bindings, whole_components, whole_glue, whole_offsets, whole_steps, whole_width_spec, WholeAir, ABSORBED, PUBLIC_VALUES};
use crate::hash::block_width_spec;
use vstd::prelude::*;

verus! {

pub struct VacuousAir<const R: usize, const MD: usize, const RD: usize> {
    pub inner: WholeAir<R, MD, RD>,
}

impl<const R: usize, const MD: usize, const RD: usize> VacuousAir<R, MD, RD> {
    pub open spec fn wf(&self) -> bool {
        self.inner.wf()
    }

    pub fn new() -> (a: Self)
        ensures
            a.wf(),
    {
        VacuousAir { inner: WholeAir::<R, MD, RD>::new() }
    }

    pub fn width(&self) -> (n: usize)
        requires
            self.wf(),
            WholeAir::<R, MD, RD>::fits(0),
        ensures
            n == whole_width_spec(R as int, MD as int, RD as int),
    {
        self.inner.width()
    }

    pub fn num_public_values(&self) -> (n: usize)
        ensures
            n == PUBLIC_VALUES,
    {
        PUBLIC_VALUES
    }

    /// The whole circuit's constraints without C9's binding to the policy.
    pub fn constrain(&self) -> (steps: Vec<Step>)
        requires
            self.wf(),
            WholeAir::<R, MD, RD>::fits(0),
        ensures
            steps@ == whole_steps(R as int, MD as int, RD as int, 0, false),
    {
        self.inner.constrain_with(0, false)
    }
}


/// What removing C9's policy binding costs: nothing in width, and exactly one
/// constraint per absorbed element. The circuit without it is the circuit with
/// it with those bindings, each an absorbed lane's equality with the policy
/// column it is drawn from, taken out.
pub proof fn lemma_missing_binding_cost(r: int, md: int, rd: int, base: int)
    ensures
        whole_steps(r, md, rd, base, true).len() == whole_steps(r, md, rd, base, false).len() + ABSORBED,
        ({
            let c = whole_components(r, md, rd, base);
            let b = binding_steps(policy_sources(base), base + whole_offsets(r, md, rd).0, block_width_spec(r));
            &&& b.len() == ABSORBED
            &&& forall|e: int|
                0 <= e < ABSORBED ==> #[trigger] b[e] == Step::Eq(
                    Expr::Col((base + policy_src_spec(e)) as usize),
                    Expr::Col(absorbed_lane(base + whole_offsets(r, md, rd).0, block_width_spec(r), e) as usize),
                )
            &&& whole_steps(r, md, rd, base, true) == c + b + whole_bindings(r, md, rd, base, false)
                + whole_glue(r, md, rd, base)
            &&& whole_steps(r, md, rd, base, false) == c + whole_bindings(r, md, rd, base, false)
                + whole_glue(r, md, rd, base)
        }),
{
    let c = whole_components(r, md, rd, base);
    let b = binding_steps(policy_sources(base), base + whole_offsets(r, md, rd).0, block_width_spec(r));
    assert(whole_bindings(r, md, rd, base, true) =~= b + whole_bindings(r, md, rd, base, false));
    assert(whole_steps(r, md, rd, base, true) =~= c + b + whole_bindings(r, md, rd, base, false)
        + whole_glue(r, md, rd, base));
}

} // verus!
