//! The solver's handling of joints shared between kinematic chains.
use crate::groove::objective_master::{ObjectiveKind, ObjectiveLayout};
use crate::spacetime::robot::Robot;
use vstd::prelude::*;

verus! {

/// How shared joints between kinematic chains are handled by the solver.
#[derive(Clone, Copy, PartialEq, Eq, Structural, Debug)]
pub enum SharedJointMode {
    /// No special handling (default, or when no shared joints exist).
    NoHandling,
    /// Add heavily-weighted penalty terms to align shared joints.
    Penalty,
    /// Optimize over reduced variables (one variable per physical joint).
    VariableReduction,
}

impl SharedJointMode {
    /// Whether `solve` optimizes over the reduced variables rather than the full ones.
    pub fn solves_in_reduced_space(&self) -> (r: bool)
        ensures
            r == (*self == SharedJointMode::VariableReduction),
    {
        match self {
            SharedJointMode::VariableReduction => true,
            _ => false,
        }
    }
}

/// One alignment objective per shared joint pair, in the order of the pairs.
pub open spec fn alignment_objectives(pairs: Seq<(usize, usize)>) -> Seq<ObjectiveKind> {
    pairs.map_values(|p: (usize, usize)| ObjectiveKind::SharedJointAlignment(p.0, p.1))
}

impl ObjectiveLayout {
    /// Penalty handling of shared joints: appends one alignment objective for
    /// each shared joint pair of `robot`. A robot without shared joints does not
    /// need it and is not accepted.
    pub fn add_shared_joint_penalty(&mut self, robot: &Robot)
        requires
            robot.shared_joint_pairs@.len() > 0,
        ensures
            final(self).objectives@ == old(self).objectives@ + alignment_objectives(
                robot.shared_joint_pairs@,
            ),
            final(self).num_chains == old(self).num_chains,
            final(self).lite == old(self).lite,
            final(self).finite_diff_grad == old(self).finite_diff_grad,
    {
        let ghost base = self.objectives@;
        let mut k: usize = 0;
        while k < robot.shared_joint_pairs.len()
            invariant
                k <= robot.shared_joint_pairs@.len(),
                self.objectives@ == base + alignment_objectives(
                    robot.shared_joint_pairs@.take(k as int),
                ),
                self.num_chains == old(self).num_chains,
                self.lite == old(self).lite,
                self.finite_diff_grad == old(self).finite_diff_grad,
                base == old(self).objectives@,
            decreases robot.shared_joint_pairs@.len() - k,
        {
            let (a, b) = robot.shared_joint_pairs[k];
            self.objectives.push(ObjectiveKind::SharedJointAlignment(a, b));
            assert(self.objectives@ =~= base + alignment_objectives(
                robot.shared_joint_pairs@.take(k + 1),
            ));
            k = k + 1;
        }
        assert(robot.shared_joint_pairs@.take(k as int) =~= robot.shared_joint_pairs@);
    }
}

} // verus!
