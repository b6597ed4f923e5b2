//! Which objectives the relaxed-IK cost is made of, how they are named and
//! grouped, and which configurable weight class each of them belongs to.
use crate::text::{
    chars_of, decimal_digits, find_char, find_char_in, is_digit, lemma_decimal_digits,
    lemma_find_char_at, lemma_find_char_result, lemma_parse_decimal_digits, parse_usize_in,
    spec_parse_usize, str_eq, trim, trim_bounds,
};
use crate::spacetime::robot::{
    lemma_contains_concat, lemma_sum_lens_nonneg, lemma_sum_lens_prefix, lemma_sum_lens_step, sum_lens,
};
use vstd::prelude::*;
use vstd::string::*;

verus! {

// ---------------------------------------------------------------------------
// Objective names
// ---------------------------------------------------------------------------

/// The name prefix of a relative tool-centre-point constraint between two chains.
pub open spec fn relative_tcp_prefix() -> Seq<char> {
    "RelativeTCPConstraint["@
}

/// The chain indices `(a, b)` named by `"RelativeTCPConstraint[a-b]"`: the text
/// after the prefix up to the first `]`, split at its first `-`, each side read
/// as a `usize`.
pub open spec fn spec_parse_relative_tcp_indices(name: Seq<char>) -> Option<(usize, usize)> {
    let p = relative_tcp_prefix();
    if !p.is_prefix_of(name) {
        None
    } else {
        let rest = name.skip(p.len() as int);
        match find_char(rest, ']') {
            None => None,
            Some(end) => match find_char(rest.take(end), '-') {
                None => None,
                Some(mid) => match (
                    spec_parse_usize(rest.take(mid)),
                    spec_parse_usize(rest.subrange(mid + 1, end)),
                ) {
                    (Some(a), Some(b)) => Some((a, b)),
                    _ => None,
                },
            },
        }
    }
}

/// Parse `"RelativeTCPConstraint[a-b]"` into `Some((a, b))`; any other name gives `None`.
pub fn parse_relative_tcp_indices(name: &str) -> (r: Option<(usize, usize)>)
    ensures
        r == spec_parse_relative_tcp_indices(name@),
{
    let cs = chars_of(name);
    let prefix = chars_of("RelativeTCPConstraint[");
    let n = cs.len();
    let plen = prefix.len();
    if n < plen {
        return None;
    }
    let mut i: usize = 0;
    while i < plen
        invariant
            prefix@ == relative_tcp_prefix(),
            cs@ == name@,
            n == cs.len(),
            plen == prefix.len(),
            plen <= n,
            i <= plen,
            forall|k: int| 0 <= k < i ==> prefix@[k] == cs@[k],
        decreases plen - i,
    {
        if prefix[i] != cs[i] {
            return None;
        }
        i = i + 1;
    }
    assert(relative_tcp_prefix().is_prefix_of(name@));
    let ghost rest = name@.skip(plen as int);
    assert(rest =~= cs@.subrange(plen as int, n as int));
    let end = match find_char_in(&cs, plen, n, ']') {
        Some(e) => e,
        None => {
            return None;
        },
    };
    proof {
        lemma_find_char_result(rest, ']');
    }
    assert(rest.take(end as int) =~= cs@.subrange(plen as int, (plen + end) as int));
    let mid = match find_char_in(&cs, plen, plen + end, '-') {
        Some(m) => m,
        None => {
            return None;
        },
    };
    proof {
        lemma_find_char_result(rest.take(end as int), '-');
    }
    assert(rest.take(mid as int) =~= cs@.subrange(plen as int, (plen + mid) as int));
    assert(rest.subrange(mid + 1, end as int) =~= cs@.subrange(
        (plen + mid + 1) as int,
        (plen + end) as int,
    ));
    let a = match parse_usize_in(&cs, plen, plen + mid) {
        Some(a) => a,
        None => {
            return None;
        },
    };
    let b = match parse_usize_in(&cs, plen + mid + 1, plen + end) {
        Some(b) => b,
        None => {
            return None;
        },
    };
    Some((a, b))
}

/// The class of an objective: its name up to the first `[`, trimmed of whitespace,
/// e.g. `"MatchEEPosiDoF[arm=0,axis=0]"` has class `"MatchEEPosiDoF"`.
pub open spec fn spec_objective_class(name: Seq<char>) -> Seq<char> {
    let head = match find_char(name, '[') {
        Some(i) => name.take(i),
        None => name,
    };
    trim(head)
}

/// Extract the class name from an objective name.
pub fn objective_class(name: &str) -> (r: &str)
    ensures
        r@ == spec_objective_class(name@),
{
    let cs = chars_of(name);
    let n = cs.len();
    let end = match find_char_in(&cs, 0, n, '[') {
        Some(e) => e,
        None => n,
    };
    proof {
        lemma_find_char_result(name@, '[');
    }
    assert(cs@.subrange(0, n as int) =~= name@);
    assert(cs@.subrange(0, end as int) =~= (match find_char(name@, '[') {
        Some(i) => name@.take(i),
        None => name@,
    }));
    let (i, j) = trim_bounds(&cs, 0, end);
    name.substring_char(i, j)
}

// ---------------------------------------------------------------------------
// Weight classes
// ---------------------------------------------------------------------------

/// Controls verbosity of objective reports after each solve.
#[derive(Clone, Copy, PartialEq, Eq, Structural, Debug)]
pub enum ObjectiveReportMode {
    /// No objective reports (default).
    Off,
    /// One row per objective class (e.g., MatchEEPosiDoF, EachJointLimits).
    Brief,
    /// One row per objective instance (detailed).
    Detailed,
}

/// The classes of objectives whose weight can be configured.
#[derive(Clone, Copy, PartialEq, Eq, Structural, Debug)]
pub enum ObjectiveClass {
    MatchEEPosiDoF,
    MatchEERotaDoF,
    EachJointLimits,
    MinimizeVelocity,
    MinimizeAcceleration,
    MinimizeJerk,
    MaximizeManipulability,
    SelfCollision,
    RelativeTCPConstraint,
}

/// The name of each weight class, as objective names and weight overrides spell it.
pub open spec fn spec_class_name(c: ObjectiveClass) -> Seq<char> {
    match c {
        ObjectiveClass::MatchEEPosiDoF => "MatchEEPosiDoF"@,
        ObjectiveClass::MatchEERotaDoF => "MatchEERotaDoF"@,
        ObjectiveClass::EachJointLimits => "EachJointLimits"@,
        ObjectiveClass::MinimizeVelocity => "MinimizeVelocity"@,
        ObjectiveClass::MinimizeAcceleration => "MinimizeAcceleration"@,
        ObjectiveClass::MinimizeJerk => "MinimizeJerk"@,
        ObjectiveClass::MaximizeManipulability => "MaximizeManipulability"@,
        ObjectiveClass::SelfCollision => "SelfCollision"@,
        ObjectiveClass::RelativeTCPConstraint => "RelativeTCPConstraint"@,
    }
}

/// The class whose name is `name`, if any.
pub open spec fn spec_class_from_name(name: Seq<char>) -> Option<ObjectiveClass> {
    if name == "MatchEEPosiDoF"@ {
        Some(ObjectiveClass::MatchEEPosiDoF)
    } else if name == "MatchEERotaDoF"@ {
        Some(ObjectiveClass::MatchEERotaDoF)
    } else if name == "EachJointLimits"@ {
        Some(ObjectiveClass::EachJointLimits)
    } else if name == "MinimizeVelocity"@ {
        Some(ObjectiveClass::MinimizeVelocity)
    } else if name == "MinimizeAcceleration"@ {
        Some(ObjectiveClass::MinimizeAcceleration)
    } else if name == "MinimizeJerk"@ {
        Some(ObjectiveClass::MinimizeJerk)
    } else if name == "MaximizeManipulability"@ {
        Some(ObjectiveClass::MaximizeManipulability)
    } else if name == "SelfCollision"@ {
        Some(ObjectiveClass::SelfCollision)
    } else if name == "RelativeTCPConstraint"@ {
        Some(ObjectiveClass::RelativeTCPConstraint)
    } else {
        None
    }
}

/// The class that a snake_case key of the `objective_weights` settings map sets.
pub open spec fn spec_class_of_settings_key(key: Seq<char>) -> Option<ObjectiveClass> {
    if key == "match_ee_posi_dof"@ {
        Some(ObjectiveClass::MatchEEPosiDoF)
    } else if key == "match_ee_rota_dof"@ {
        Some(ObjectiveClass::MatchEERotaDoF)
    } else if key == "each_joint_limits"@ {
        Some(ObjectiveClass::EachJointLimits)
    } else if key == "minimize_velocity"@ {
        Some(ObjectiveClass::MinimizeVelocity)
    } else if key == "minimize_acceleration"@ {
        Some(ObjectiveClass::MinimizeAcceleration)
    } else if key == "minimize_jerk"@ {
        Some(ObjectiveClass::MinimizeJerk)
    } else if key == "maximize_manipulability"@ {
        Some(ObjectiveClass::MaximizeManipulability)
    } else if key == "self_collision"@ {
        Some(ObjectiveClass::SelfCollision)
    } else if key == "relative_tcp_constraints"@ {
        Some(ObjectiveClass::RelativeTCPConstraint)
    } else {
        None
    }
}

impl ObjectiveClass {
    /// The name of this class.
    pub fn name(&self) -> (r: &'static str)
        ensures
            r@ == spec_class_name(*self),
    {
        match self {
            ObjectiveClass::MatchEEPosiDoF => "MatchEEPosiDoF",
            ObjectiveClass::MatchEERotaDoF => "MatchEERotaDoF",
            ObjectiveClass::EachJointLimits => "EachJointLimits",
            ObjectiveClass::MinimizeVelocity => "MinimizeVelocity",
            ObjectiveClass::MinimizeAcceleration => "MinimizeAcceleration",
            ObjectiveClass::MinimizeJerk => "MinimizeJerk",
            ObjectiveClass::MaximizeManipulability => "MaximizeManipulability",
            ObjectiveClass::SelfCollision => "SelfCollision",
            ObjectiveClass::RelativeTCPConstraint => "RelativeTCPConstraint",
        }
    }

    /// The class named `name`, or `None` for a name that is no weight class.
    pub fn from_name(name: &str) -> (r: Option<ObjectiveClass>)
        ensures
            r == spec_class_from_name(name@),
    {
        if str_eq(name, "MatchEEPosiDoF") {
            Some(ObjectiveClass::MatchEEPosiDoF)
        } else if str_eq(name, "MatchEERotaDoF") {
            Some(ObjectiveClass::MatchEERotaDoF)
        } else if str_eq(name, "EachJointLimits") {
            Some(ObjectiveClass::EachJointLimits)
        } else if str_eq(name, "MinimizeVelocity") {
            Some(ObjectiveClass::MinimizeVelocity)
        } else if str_eq(name, "MinimizeAcceleration") {
            Some(ObjectiveClass::MinimizeAcceleration)
        } else if str_eq(name, "MinimizeJerk") {
            Some(ObjectiveClass::MinimizeJerk)
        } else if str_eq(name, "MaximizeManipulability") {
            Some(ObjectiveClass::MaximizeManipulability)
        } else if str_eq(name, "SelfCollision") {
            Some(ObjectiveClass::SelfCollision)
        } else if str_eq(name, "RelativeTCPConstraint") {
            Some(ObjectiveClass::RelativeTCPConstraint)
        } else {
            None
        }
    }

    /// The class that a snake_case key of the `objective_weights` settings map
    /// overrides, or `None` for a key that the settings reader skips.
    pub fn from_settings_key(key: &str) -> (r: Option<ObjectiveClass>)
        ensures
            r == spec_class_of_settings_key(key@),
    {
        if str_eq(key, "match_ee_posi_dof") {
            Some(ObjectiveClass::MatchEEPosiDoF)
        } else if str_eq(key, "match_ee_rota_dof") {
            Some(ObjectiveClass::MatchEERotaDoF)
        } else if str_eq(key, "each_joint_limits") {
            Some(ObjectiveClass::EachJointLimits)
        } else if str_eq(key, "minimize_velocity") {
            Some(ObjectiveClass::MinimizeVelocity)
        } else if str_eq(key, "minimize_acceleration") {
            Some(ObjectiveClass::MinimizeAcceleration)
        } else if str_eq(key, "minimize_jerk") {
            Some(ObjectiveClass::MinimizeJerk)
        } else if str_eq(key, "maximize_manipulability") {
            Some(ObjectiveClass::MaximizeManipulability)
        } else if str_eq(key, "self_collision") {
            Some(ObjectiveClass::SelfCollision)
        } else if str_eq(key, "relative_tcp_constraints") {
            Some(ObjectiveClass::RelativeTCPConstraint)
        } else {
            None
        }
    }
}

// ---------------------------------------------------------------------------
// The objectives of a cost function
// ---------------------------------------------------------------------------

/// One term of the IK cost function, with the indices it is built from.
#[derive(Clone, Copy, PartialEq, Eq, Structural, Debug)]
pub enum ObjectiveKind {
    /// Match the goal position of an end effector (chain index).
    MatchEEPosGoals(usize),
    /// Match the goal orientation of an end effector (chain index).
    MatchEEQuatGoals(usize),
    /// Match one axis of the goal position (chain index, axis).
    MatchEEPosiDoF(usize, usize),
    /// Match one axis of the goal rotation (chain index, axis).
    MatchEERotaDoF(usize, usize),
    /// Keep one joint variable inside its limits (joint index).
    EachJointLimits(usize),
    MinimizeVelocity,
    MinimizeAcceleration,
    MinimizeJerk,
    MaximizeManipulability,
    /// Keep two links of an arm apart (arm index, first link, second link).
    SelfCollision(usize, usize, usize),
    /// Pull two variables of one shared physical joint together (the two global indices).
    SharedJointAlignment(usize, usize),
}

/// The weight class of an objective, where its weight is configurable.
pub open spec fn spec_weight_class(o: ObjectiveKind) -> Option<ObjectiveClass> {
    match o {
        ObjectiveKind::MatchEEPosiDoF(_, _) => Some(ObjectiveClass::MatchEEPosiDoF),
        ObjectiveKind::MatchEERotaDoF(_, _) => Some(ObjectiveClass::MatchEERotaDoF),
        ObjectiveKind::EachJointLimits(_) => Some(ObjectiveClass::EachJointLimits),
        ObjectiveKind::MinimizeVelocity => Some(ObjectiveClass::MinimizeVelocity),
        ObjectiveKind::MinimizeAcceleration => Some(ObjectiveClass::MinimizeAcceleration),
        ObjectiveKind::MinimizeJerk => Some(ObjectiveClass::MinimizeJerk),
        ObjectiveKind::MaximizeManipulability => Some(ObjectiveClass::MaximizeManipulability),
        ObjectiveKind::SelfCollision(_, _, _) => Some(ObjectiveClass::SelfCollision),
        _ => None,
    }
}

impl ObjectiveKind {
    /// The weight class whose configured weight this objective takes, if any.
    pub fn weight_class(&self) -> (r: Option<ObjectiveClass>)
        ensures
            r == spec_weight_class(*self),
            match r {
                Some(c) => spec_class_name(c) == kind_class_label(*self),
                None => spec_class_from_name(kind_class_label(*self)) is None,
            },
    {
        proof {
            law_weight_class_named_like_kind(*self);
        }
        match self {
            ObjectiveKind::MatchEEPosiDoF(_, _) => Some(ObjectiveClass::MatchEEPosiDoF),
            ObjectiveKind::MatchEERotaDoF(_, _) => Some(ObjectiveClass::MatchEERotaDoF),
            ObjectiveKind::EachJointLimits(_) => Some(ObjectiveClass::EachJointLimits),
            ObjectiveKind::MinimizeVelocity => Some(ObjectiveClass::MinimizeVelocity),
            ObjectiveKind::MinimizeAcceleration => Some(ObjectiveClass::MinimizeAcceleration),
            ObjectiveKind::MinimizeJerk => Some(ObjectiveClass::MinimizeJerk),
            ObjectiveKind::MaximizeManipulability => Some(ObjectiveClass::MaximizeManipulability),
            ObjectiveKind::SelfCollision(_, _, _) => Some(ObjectiveClass::SelfCollision),
            _ => None,
        }
    }
}

/// The standard IK objectives: for each chain, its position goal, then its orientation goal.
pub open spec fn spec_standard_ik_objectives(num_chains: nat) -> Seq<ObjectiveKind> {
    Seq::new(
        2 * num_chains,
        |k: int|
            if k % 2 == 0 {
                ObjectiveKind::MatchEEPosGoals((k / 2) as usize)
            } else {
                ObjectiveKind::MatchEEQuatGoals((k / 2) as usize)
            },
    )
}

/// The six end-effector objectives of one chain: position then rotation, axes 0, 1, 2.
pub open spec fn end_effector_objectives(chain: int) -> Seq<ObjectiveKind> {
    let c = chain as usize;
    seq![
        ObjectiveKind::MatchEEPosiDoF(c, 0),
        ObjectiveKind::MatchEEPosiDoF(c, 1),
        ObjectiveKind::MatchEEPosiDoF(c, 2),
        ObjectiveKind::MatchEERotaDoF(c, 0),
        ObjectiveKind::MatchEERotaDoF(c, 1),
        ObjectiveKind::MatchEERotaDoF(c, 2),
    ]
}

/// The end-effector objectives of chains `0..n`, chain by chain.
pub open spec fn end_effector_block(n: int) -> Seq<ObjectiveKind>
    decreases n,
{
    if n <= 0 {
        seq![]
    } else {
        end_effector_block(n - 1) + end_effector_objectives(n - 1)
    }
}

/// One joint-limit objective per degree of freedom, in order.
pub open spec fn joint_limit_block(num_dofs: int) -> Seq<ObjectiveKind> {
    Seq::new(num_dofs as nat, |j: int| ObjectiveKind::EachJointLimits(j as usize))
}

/// The four motion regularizers, in order.
pub open spec fn regularizer_block() -> Seq<ObjectiveKind> {
    seq![
        ObjectiveKind::MinimizeVelocity,
        ObjectiveKind::MinimizeAcceleration,
        ObjectiveKind::MinimizeJerk,
        ObjectiveKind::MaximizeManipulability,
    ]
}

/// Self-collision objectives between link `j` and each link `k` in `j + 2 .. len`;
/// every one of them names arm 0.
pub open spec fn self_collision_row(len: int, j: int) -> Seq<ObjectiveKind> {
    Seq::new(
        (len - j - 2) as nat,
        |t: int| ObjectiveKind::SelfCollision(0, j as usize, (j + 2 + t) as usize),
    )
}

/// The self-collision rows `0..m` of a chain with `len` links.
pub open spec fn self_collision_rows(len: int, m: int) -> Seq<ObjectiveKind>
    decreases m,
{
    if m <= 0 {
        seq![]
    } else {
        self_collision_rows(len, m - 1) + self_collision_row(len, m - 1)
    }
}

/// The self-collision objectives of chains `0..n`: for chain `i`, every pair of
/// links `j < k` of it with `k >= j + 2`, ordered by `j` then `k`.
pub open spec fn self_collision_block(chain_lengths: Seq<usize>, n: int) -> Seq<ObjectiveKind>
    decreases n,
{
    if n <= 0 {
        seq![]
    } else {
        let len = chain_lengths[n - 1] as int;
        self_collision_block(chain_lengths, n - 1) + self_collision_rows(len, len - 2)
    }
}

/// The relaxed IK objectives, in the order in which the cost sums them.
pub open spec fn spec_relaxed_ik_objectives(chain_lengths: Seq<usize>) -> Seq<ObjectiveKind> {
    end_effector_block(chain_lengths.len() as int) + joint_limit_block(sum_lens(chain_lengths))
        + regularizer_block() + self_collision_block(chain_lengths, chain_lengths.len() as int)
}

/// How the gradient of the cost is obtained.
#[derive(Clone, Copy, PartialEq, Eq, Structural, Debug)]
pub enum GradientMethod {
    /// Analytic gradients of the full-frame objectives.
    Analytic,
    /// Analytic gradients of the end-effector-only objectives.
    AnalyticLite,
    /// Finite differences of the full-frame cost.
    FiniteDifference,
    /// Finite differences of the end-effector-only cost.
    FiniteDifferenceLite,
}

/// The objectives of a cost function and how the cost is evaluated.
pub struct ObjectiveLayout {
    pub objectives: Vec<ObjectiveKind>,
    pub num_chains: usize,
    /// Evaluate from end-effector poses only, rather than from all frames.
    pub lite: bool,
    /// Differentiate by finite differences rather than analytically.
    pub finite_diff_grad: bool,
}

impl ObjectiveLayout {
    /// Position and orientation goals for each of `num_chains` chains.
    pub fn standard_ik(num_chains: usize) -> (r: Self)
        ensures
            r.objectives@ == spec_standard_ik_objectives(num_chains as nat),
            r.num_chains == num_chains,
            r.lite,
            r.finite_diff_grad,
    {
        let mut objectives: Vec<ObjectiveKind> = Vec::new();
        let mut i: usize = 0;
        while i < num_chains
            invariant
                i <= num_chains,
                objectives@ == spec_standard_ik_objectives(i as nat),
            decreases num_chains - i,
        {
            objectives.push(ObjectiveKind::MatchEEPosGoals(i));
            objectives.push(ObjectiveKind::MatchEEQuatGoals(i));
            assert(objectives@ =~= spec_standard_ik_objectives((i + 1) as nat));
            i = i + 1;
        }
        ObjectiveLayout { objectives, num_chains, lite: true, finite_diff_grad: true }
    }

    /// The relaxed IK objectives for chains with the given numbers of joints:
    /// end-effector goals per chain, one limit term per joint, the motion
    /// regularizers, and self-collision terms between non-adjacent links.
    pub fn relaxed_ik(chain_lengths: &[usize]) -> (r: Self)
        requires
            forall|i: int| 0 <= i < chain_lengths@.len() ==> chain_lengths@[i] >= 2,
            sum_lens(chain_lengths@) <= usize::MAX,
        ensures
            r.objectives@ == spec_relaxed_ik_objectives(chain_lengths@),
            r.objectives@.len() == 6 * chain_lengths@.len() + sum_lens(chain_lengths@) + 4
                + self_collision_count(chain_lengths@),
            forall|i: int, j: usize, k: usize|
                #![trigger chain_lengths@[i], r.objectives@.contains(ObjectiveKind::SelfCollision(0, j, k))]
                0 <= i < chain_lengths@.len() && j + 2 <= k < chain_lengths@[i]
                    ==> r.objectives@.contains(ObjectiveKind::SelfCollision(0, j, k)),
            r.num_chains == chain_lengths@.len(),
            !r.lite,
            !r.finite_diff_grad,
    {
        proof {
            law_relaxed_ik_objective_count(chain_lengths@);
            assert forall|i: int, j: usize, k: usize|
                #![trigger chain_lengths@[i], spec_relaxed_ik_objectives(chain_lengths@).contains(ObjectiveKind::SelfCollision(0, j, k))]
                0 <= i < chain_lengths@.len() && j + 2 <= k < chain_lengths@[i]
                    implies spec_relaxed_ik_objectives(chain_lengths@).contains(
                ObjectiveKind::SelfCollision(0, j, k),
            ) by {
                law_relaxed_ik_self_collision_pairs(chain_lengths@, i, j, k);
            }
        }
        let lens = chain_lengths;
        let num_chains = lens.len();
        let mut objectives: Vec<ObjectiveKind> = Vec::new();
        let mut num_dofs: usize = 0;
        let mut i: usize = 0;
        while i < num_chains
            invariant
                num_chains == lens@.len(),
                i <= num_chains,
                sum_lens(lens@) <= usize::MAX,
                num_dofs == sum_lens(lens@.take(i as int)),
                objectives@ == end_effector_block(i as int),
            decreases num_chains - i,
        {
            objectives.push(ObjectiveKind::MatchEEPosiDoF(i, 0));
            objectives.push(ObjectiveKind::MatchEEPosiDoF(i, 1));
            objectives.push(ObjectiveKind::MatchEEPosiDoF(i, 2));
            objectives.push(ObjectiveKind::MatchEERotaDoF(i, 0));
            objectives.push(ObjectiveKind::MatchEERotaDoF(i, 1));
            objectives.push(ObjectiveKind::MatchEERotaDoF(i, 2));
            proof {
                lemma_sum_lens_step(lens@, i as int);
                lemma_sum_lens_prefix(lens@, i as int + 1, lens@.len() as int);
                assert(lens@.take(lens@.len() as int) =~= lens@);
            }
            num_dofs = num_dofs + lens[i];
            assert(objectives@ =~= end_effector_block(i + 1));
            i = i + 1;
        }
        assert(lens@.take(num_chains as int) =~= lens@);
        let ghost head = objectives@;
        let mut j: usize = 0;
        while j < num_dofs
            invariant
                j <= num_dofs,
                objectives@ == head + joint_limit_block(j as int),
            decreases num_dofs - j,
        {
            objectives.push(ObjectiveKind::EachJointLimits(j));
            assert(objectives@ =~= head + joint_limit_block(j + 1));
            j = j + 1;
        }
        objectives.push(ObjectiveKind::MinimizeVelocity);
        objectives.push(ObjectiveKind::MinimizeAcceleration);
        objectives.push(ObjectiveKind::MinimizeJerk);
        objectives.push(ObjectiveKind::MaximizeManipulability);
        let ghost head2 = head + joint_limit_block(num_dofs as int) + regularizer_block();
        assert(objectives@ =~= head2);
        let mut i: usize = 0;
        while i < num_chains
            invariant
                num_chains == lens@.len(),
                i <= num_chains,
                forall|c: int| 0 <= c < lens@.len() ==> lens@[c] >= 2,
                objectives@ == head2 + self_collision_block(lens@, i as int),
            decreases num_chains - i,
        {
            let len = lens[i];
            let ghost head3 = head2 + self_collision_block(lens@, i as int);
            let mut j: usize = 0;
            while j < len - 2
                invariant
                    len == lens@[i as int],
                    len >= 2,
                    j <= len - 2,
                    objectives@ == head3 + self_collision_rows(len as int, j as int),
                decreases len - 2 - j,
            {
                let ghost head4 = objectives@;
                let mut k: usize = j + 2;
                while k < len
                    invariant
                        j + 2 <= k <= len,
                        objectives@ == head4 + self_collision_row(len as int, j as int).take(
                            k - j - 2,
                        ),
                    decreases len - k,
                {
                    objectives.push(ObjectiveKind::SelfCollision(0, j, k));
                    assert(objectives@ =~= head4 + self_collision_row(len as int, j as int).take(
                        k + 1 - j - 2,
                    ));
                    k = k + 1;
                }
                assert(self_collision_row(len as int, j as int).take(len - j - 2)
                    =~= self_collision_row(len as int, j as int));
                assert(objectives@ =~= head3 + self_collision_rows(len as int, j + 1));
                j = j + 1;
            }
            assert(objectives@ =~= head2 + self_collision_block(lens@, i + 1));
            i = i + 1;
        }
        ObjectiveLayout { objectives, num_chains, lite: false, finite_diff_grad: false }
    }

    /// How `gradient` differentiates the cost for this layout.
    pub fn gradient_method(&self) -> (r: GradientMethod)
        ensures
            r == (if self.lite {
                if self.finite_diff_grad {
                    GradientMethod::FiniteDifferenceLite
                } else {
                    GradientMethod::AnalyticLite
                }
            } else {
                if self.finite_diff_grad {
                    GradientMethod::FiniteDifference
                } else {
                    GradientMethod::Analytic
                }
            }),
    {
        if self.lite {
            if self.finite_diff_grad {
                GradientMethod::FiniteDifferenceLite
            } else {
                GradientMethod::AnalyticLite
            }
        } else {
            if self.finite_diff_grad {
                GradientMethod::FiniteDifference
            } else {
                GradientMethod::Analytic
            }
        }
    }
}

/// The weights after giving `weight` to every objective whose name has class `class`.
pub open spec fn spec_set_objective_weight<W>(
    names: Seq<Seq<char>>,
    weights: Seq<W>,
    class: Seq<char>,
    weight: W,
) -> Seq<W> {
    Seq::new(
        weights.len(),
        |i: int|
            if i < names.len() && spec_objective_class(names[i]) == class {
                weight
            } else {
                weights[i]
            },
    )
}

/// Setting the weight of a class gives exactly the objectives of that class
/// the new weight, at every position, and leaves every other weight as it was.
pub proof fn law_set_objective_weight<W>(
    names: Seq<Seq<char>>,
    weights: Seq<W>,
    class: Seq<char>,
    weight: W,
)
    ensures
        spec_set_objective_weight(names, weights, class, weight).len() == weights.len(),
        forall|i: int|
            0 <= i < names.len() && i < weights.len() && spec_objective_class(names[i]) == class
                ==> #[trigger] spec_set_objective_weight(names, weights, class, weight)[i] == weight,
        forall|i: int|
            0 <= i < weights.len() && !(i < names.len() && spec_objective_class(names[i]) == class)
                ==> #[trigger] spec_set_objective_weight(names, weights, class, weight)[i]
                == weights[i],
{
}

/// Set the weight of all objectives of a given class (e.g. "MinimizeVelocity",
/// "SelfCollision"); `names[i]` is the name of objective `i`, whose weight is
/// `weight_priors[i]`.
pub fn set_objective_weight<W: Copy>(
    names: &Vec<String>,
    weight_priors: &mut Vec<W>,
    class: &str,
    weight: W,
)
    requires
        forall|i: int|
            0 <= i < names@.len() && spec_objective_class(#[trigger] names@[i]@) == class@ ==> i
                < old(weight_priors)@.len(),
    ensures
        final(weight_priors)@ == spec_set_objective_weight(
            names.deep_view(),
            old(weight_priors)@,
            class@,
            weight,
        ),
        final(weight_priors)@.len() == old(weight_priors)@.len(),
        forall|i: int|
            0 <= i < names@.len() && spec_objective_class(names@[i]@) == class@ ==> #[trigger] final(weight_priors)@[i]
                == weight,
        forall|i: int|
            0 <= i < old(weight_priors)@.len() && !(i < names@.len() && spec_objective_class(
                names@[i]@,
            ) == class@) ==> #[trigger] final(weight_priors)@[i] == old(weight_priors)@[i],
{
    proof {
        law_set_objective_weight(names.deep_view(), weight_priors@, class@, weight);
    }
    let ghost old_w = weight_priors@;
    let mut i: usize = 0;
    while i < names.len()
        invariant
            i <= names@.len(),
            weight_priors@.len() == old_w.len(),
            forall|k: int|
                0 <= k < names@.len() && spec_objective_class(#[trigger] names@[k]@) == class@
                    ==> k < old_w.len(),
            forall|k: int|
                0 <= k < weight_priors@.len() ==> #[trigger] weight_priors@[k] == (if k < i
                    && spec_objective_class(names@[k]@) == class@ {
                    weight
                } else {
                    old_w[k]
                }),
        decreases names@.len() - i,
    {
        if str_eq(objective_class(names[i].as_str()), class) {
            weight_priors.set(i, weight);
        }
        i = i + 1;
    }
    assert(weight_priors@ =~= spec_set_objective_weight(
        names.deep_view(),
        old_w,
        class@,
        weight,
    ));
}

// ---------------------------------------------------------------------------
// Grouping objectives by class, for the brief objective report
// ---------------------------------------------------------------------------

/// Lexicographic order of character sequences, comparing code points; it is the
/// order of `str`, since UTF-8 keeps the order of code points.
pub open spec fn lex_lt(a: Seq<char>, b: Seq<char>) -> bool
    decreases a.len(),
{
    if a.len() == 0 {
        b.len() > 0
    } else if b.len() == 0 {
        false
    } else if a[0] < b[0] {
        true
    } else if a[0] == b[0] {
        lex_lt(a.drop_first(), b.drop_first())
    } else {
        false
    }
}

proof fn lemma_lex_lt_trans(a: Seq<char>, b: Seq<char>, c: Seq<char>)
    requires
        lex_lt(a, b),
        lex_lt(b, c),
    ensures
        lex_lt(a, c),
    decreases a.len(),
{
    if a.len() > 0 && b.len() > 0 && c.len() > 0 && a[0] == b[0] && b[0] == c[0] {
        lemma_lex_lt_trans(a.drop_first(), b.drop_first(), c.drop_first());
    }
}

proof fn lemma_lex_trichotomy(a: Seq<char>, b: Seq<char>)
    ensures
        lex_lt(a, b) || a == b || lex_lt(b, a),
        !(lex_lt(a, b) && lex_lt(b, a)),
        !lex_lt(a, a),
    decreases a.len(),
{
    if a.len() > 0 && b.len() > 0 && a[0] == b[0] {
        lemma_lex_trichotomy(a.drop_first(), b.drop_first());
        if a.drop_first() == b.drop_first() {
            assert forall|i: int| 0 <= i < a.len() implies a[i] == b[i] by {
                if i > 0 {
                    assert(a[i] == a.drop_first()[i - 1]);
                    assert(b[i] == b.drop_first()[i - 1]);
                }
            }
            assert(a =~= b);
        }
    } else if a.len() == 0 && b.len() == 0 {
        assert(a =~= b);
    }
    if a.len() > 0 {
        lemma_lex_trichotomy(a.drop_first(), a.drop_first());
    }
}

/// Whether `a` comes before `b` in the lexicographic order of code points.
pub fn lex_less(a: &Vec<char>, b: &Vec<char>) -> (r: bool)
    ensures
        r == lex_lt(a@, b@),
{
    let mut i: usize = 0;
    assert(a@.skip(0) =~= a@);
    assert(b@.skip(0) =~= b@);
    while i < a.len() && i < b.len() && a[i] == b[i]
        invariant
            i <= a@.len(),
            i <= b@.len(),
            lex_lt(a@, b@) == lex_lt(a@.skip(i as int), b@.skip(i as int)),
        decreases a@.len() - i,
    {
        assert(a@.skip(i as int).drop_first() =~= a@.skip(i + 1));
        assert(b@.skip(i as int).drop_first() =~= b@.skip(i + 1));
        i = i + 1;
    }
    if i == a.len() {
        i < b.len()
    } else if i == b.len() {
        false
    } else {
        a[i] < b[i]
    }
}

/// The positions below `k` of the names whose class is `class`, in increasing order.
pub open spec fn positions_of_class(names: Seq<Seq<char>>, class: Seq<char>, k: int) -> Seq<usize>
    decreases k,
{
    if k <= 0 {
        seq![]
    } else {
        positions_of_class(names, class, k - 1) + if spec_objective_class(names[k - 1]) == class {
            seq![(k - 1) as usize]
        } else {
            seq![]
        }
    }
}

/// The objectives of one class: the class name and the positions of its objectives.
pub struct ClassGroup {
    pub class: String,
    pub members: Vec<usize>,
}

/// The class names of the groups, in order.
pub open spec fn group_classes(groups: Seq<ClassGroup>) -> Seq<Seq<char>> {
    groups.map_values(|g: ClassGroup| g.class@)
}

/// The names are in strictly increasing lexicographic order.
pub open spec fn strictly_sorted(s: Seq<Seq<char>>) -> bool {
    forall|i: int, j: int| 0 <= i < j < s.len() ==> lex_lt(s[i], s[j])
}

/// Some group has class `class`.
pub open spec fn has_class(classes: Seq<Seq<char>>, class: Seq<char>) -> bool {
    exists|g: int| 0 <= g < classes.len() && classes[g] == class
}

/// Some name has class `class`.
pub open spec fn class_is_used(names: Seq<Seq<char>>, class: Seq<char>) -> bool {
    exists|t: int| 0 <= t < names.len() && spec_objective_class(names[t]) == class
}

proof fn lemma_positions_of_class_nonempty(names: Seq<Seq<char>>, class: Seq<char>, k: int, p: int)
    requires
        0 <= p < k <= names.len(),
        spec_objective_class(names[p]) == class,
    ensures
        positions_of_class(names, class, k).len() > 0,
    decreases k,
{
    if p < k - 1 {
        lemma_positions_of_class_nonempty(names, class, k - 1, p);
    }
}

/// Groups the objectives by class, classes in increasing order, each with the
/// positions of its objectives in increasing order: the rows of the brief report.
pub fn group_objectives_by_class(names: &Vec<String>) -> (r: Vec<ClassGroup>)
    ensures
        strictly_sorted(group_classes(r@)),
        forall|p: int|
            0 <= p < names@.len() ==> #[trigger] has_class(
                group_classes(r@),
                spec_objective_class(names@[p]@),
            ),
        forall|g: int|
            0 <= g < r@.len() ==> (#[trigger] r@[g]).members@ == positions_of_class(
                names.deep_view(),
                r@[g].class@,
                names@.len() as int,
            ) && r@[g].members@.len() > 0,
{
    let ghost nv = names.deep_view();
    // The distinct classes, kept sorted.
    let mut classes: Vec<String> = Vec::new();
    let mut p: usize = 0;
    while p < names.len()
        invariant
            nv == names.deep_view(),
            p <= names@.len(),
            strictly_sorted(classes.deep_view()),
            forall|t: int|
                0 <= t < p ==> #[trigger] has_class(
                    classes.deep_view(),
                    spec_objective_class(names@[t]@),
                ),
            forall|g: int|
                0 <= g < classes@.len() ==> exists|t: int|
                    0 <= t < p && spec_objective_class(names@[t]@) == #[trigger] classes@[g]@,
        decreases names@.len() - p,
    {
        let class = objective_class(names[p].as_str()).to_owned();
        let cv = chars_of(class.as_str());
        let mut k: usize = 0;
        while k < classes.len() && lex_less(&chars_of(classes[k].as_str()), &cv)
            invariant
                k <= classes@.len(),
                cv@ == class@,
                forall|t: int| 0 <= t < k ==> lex_lt(#[trigger] classes@[t]@, class@),
            decreases classes@.len() - k,
        {
            k = k + 1;
        }
        let ghost old_classes = classes@;
        let ghost old_view = classes.deep_view();
        assert(forall|t: int| 0 <= t < old_classes.len() ==> #[trigger] old_view[t] == old_classes[t]@);
        if k < classes.len() && classes[k] == class {
            assert(has_class(classes.deep_view(), spec_objective_class(names@[p as int]@)));
        } else {
            proof {
                if k < old_classes.len() {
                    lemma_lex_trichotomy(old_classes[k as int]@, class@);
                }
                assert forall|j: int| k <= j < old_classes.len() implies lex_lt(
                    class@,
                    #[trigger] old_classes[j]@,
                ) by {
                    if j > k {
                        assert(lex_lt(old_view[k as int], old_view[j]));
                        lemma_lex_lt_trans(class@, old_classes[k as int]@, old_classes[j]@);
                    }
                }
            }
            classes.insert(k, class);
            assert(classes@ == old_classes.insert(k as int, class));
            assert forall|i: int, j: int|
                0 <= i < j < classes@.len() implies lex_lt(
                classes.deep_view()[i],
                classes.deep_view()[j],
            ) by {
                let ci = classes@[i]@;
                let cj = classes@[j]@;
                if i < k && j < k {
                    assert(lex_lt(old_view[i], old_view[j]));
                } else if i < k && j == k {
                } else if i < k && j > k {
                    assert(lex_lt(old_view[i], old_view[j - 1]));
                } else if i == k {
                } else {
                    assert(lex_lt(old_view[i - 1], old_view[j - 1]));
                }
            }
            assert forall|t: int| 0 <= t <= p implies #[trigger] has_class(
                classes.deep_view(),
                spec_objective_class(names@[t]@),
            ) by {
                if t < p {
                    assert(has_class(old_view, spec_objective_class(names@[t]@)));
                    let g = choose|g: int|
                        0 <= g < old_view.len() && old_view[g] == spec_objective_class(
                            names@[t]@,
                        );
                    if g < k {
                        assert(classes.deep_view()[g] == old_view[g]);
                    } else {
                        assert(classes.deep_view()[g + 1] == old_view[g]);
                    }
                } else {
                    assert(classes.deep_view()[k as int] == class@);
                }
            }
            assert forall|g: int| 0 <= g < classes@.len() implies exists|t: int|
                0 <= t < p + 1 && spec_objective_class(names@[t]@) == #[trigger] classes@[g]@ by {
                if g < k {
                    assert(classes@[g] == old_classes[g]);
                } else if g > k {
                    assert(classes@[g] == old_classes[g - 1]);
                } else {
                    assert(spec_objective_class(names@[p as int]@) == classes@[g]@);
                }
            }
        }
        assert forall|t: int| 0 <= t < p + 1 implies #[trigger] has_class(
            classes.deep_view(),
            spec_objective_class(names@[t]@),
        ) by {
            if t == p {
                assert(has_class(classes.deep_view(), spec_objective_class(names@[p as int]@)));
            }
        }
        p = p + 1;
    }
    // The positions of each class.
    assert forall|i: int| 0 <= i < classes@.len() implies class_is_used(
        nv,
        #[trigger] classes@[i]@,
    ) by {
        let t = choose|t: int| 0 <= t < p && spec_objective_class(names@[t]@) == classes@[i]@;
        assert(nv[t] == names@[t]@);
    }
    let mut groups: Vec<ClassGroup> = Vec::new();
    let mut g: usize = 0;
    while g < classes.len()
        invariant
            nv == names.deep_view(),
            g <= classes@.len(),
            groups@.len() == g,
            forall|i: int| 0 <= i < g ==> (#[trigger] groups@[i]).class@ == classes@[i]@,
            forall|i: int|
                0 <= i < g ==> (#[trigger] groups@[i]).members@ == positions_of_class(
                    nv,
                    groups@[i].class@,
                    names@.len() as int,
                ) && groups@[i].members@.len() > 0,
            forall|i: int| 0 <= i < classes@.len() ==> class_is_used(nv, #[trigger] classes@[i]@),
        decreases classes@.len() - g,
    {
        let mut members: Vec<usize> = Vec::new();
        let mut q: usize = 0;
        while q < names.len()
            invariant
                nv == names.deep_view(),
                q <= names@.len(),
                g < classes@.len(),
                members@ == positions_of_class(nv, classes@[g as int]@, q as int),
            decreases names@.len() - q,
        {
            assert(nv[q as int] == names@[q as int]@);
            if str_eq(objective_class(names[q].as_str()), classes[g].as_str()) {
                members.push(q);
            }
            assert(members@ =~= positions_of_class(nv, classes@[g as int]@, q + 1));
            q = q + 1;
        }
        proof {
            assert(class_is_used(nv, classes@[g as int]@));
            let t = choose|t: int|
                0 <= t < nv.len() && spec_objective_class(nv[t]) == classes@[g as int]@;
            lemma_positions_of_class_nonempty(nv, classes@[g as int]@, names@.len() as int, t);
        }
        groups.push(ClassGroup { class: classes[g].clone(), members });
        g = g + 1;
    }
    assert(group_classes(groups@) =~= classes.deep_view());
    groups
}

// ---------------------------------------------------------------------------
// Laws of objective names and classes
// ---------------------------------------------------------------------------

/// The name `"RelativeTCPConstraint[a-b]"` followed by `suffix`, with `a` and `b`
/// written in decimal.
pub open spec fn relative_tcp_name(a: usize, b: usize, suffix: Seq<char>) -> Seq<char> {
    relative_tcp_prefix() + decimal_digits(a as nat) + seq!['-'] + decimal_digits(b as nat) + seq![
        ']',
    ] + suffix
}

/// Parsing a relative TCP constraint name gives back the two indices written
/// into it, whatever follows the closing bracket.
pub proof fn law_relative_tcp_name_round_trip(a: usize, b: usize, suffix: Seq<char>)
    ensures
        spec_parse_relative_tcp_indices(relative_tcp_name(a, b, suffix)) == Some((a, b)),
{
    let p = relative_tcp_prefix();
    let da = decimal_digits(a as nat);
    let db = decimal_digits(b as nat);
    let name = relative_tcp_name(a, b, suffix);
    lemma_decimal_digits(a as nat);
    lemma_decimal_digits(b as nat);
    lemma_parse_decimal_digits(a);
    lemma_parse_decimal_digits(b);
    assert(name.take(p.len() as int) =~= p);
    assert(p.is_prefix_of(name));
    let rest = name.skip(p.len() as int);
    assert(rest =~= da + seq!['-'] + db + seq![']'] + suffix);
    let end: int = da.len() + 1int + db.len();
    assert(rest[end] == ']');
    assert forall|j: int| 0 <= j < end implies rest[j] != ']' by {
        if j < da.len() {
            assert(rest[j] == da[j]);
            assert(is_digit(da[j]));
        } else if j > da.len() {
            assert(rest[j] == db[j - da.len() - 1]);
            assert(is_digit(db[j - da.len() - 1]));
        }
    }
    lemma_find_char_at(rest, ']', end);
    let head = rest.take(end);
    assert(head =~= da + seq!['-'] + db);
    assert(head[da.len() as int] == '-');
    assert forall|j: int| 0 <= j < da.len() implies head[j] != '-' by {
        assert(head[j] == da[j]);
        assert(is_digit(da[j]));
    }
    lemma_find_char_at(head, '-', da.len() as int);
    assert(rest.take(da.len() as int) =~= da);
    assert(rest.subrange(da.len() + 1int, end) =~= db);
}

/// Every weight class is found again from its name.
pub proof fn law_class_name_round_trip(c: ObjectiveClass)
    ensures
        spec_class_from_name(spec_class_name(c)) == Some(c),
{
    reveal_strlit("MatchEEPosiDoF");
    reveal_strlit("MatchEERotaDoF");
    reveal_strlit("EachJointLimits");
    reveal_strlit("MinimizeVelocity");
    reveal_strlit("MinimizeAcceleration");
    reveal_strlit("MinimizeJerk");
    reveal_strlit("MaximizeManipulability");
    reveal_strlit("SelfCollision");
    reveal_strlit("RelativeTCPConstraint");
    match c {
        ObjectiveClass::MatchEEPosiDoF => {
            assert(spec_class_from_name("MatchEEPosiDoF"@) == Some(ObjectiveClass::MatchEEPosiDoF));
        },
        ObjectiveClass::MatchEERotaDoF => {
            assert("MatchEERotaDoF"@[7] == 'R');
            assert("MatchEEPosiDoF"@[7] == 'P');
            assert(spec_class_from_name("MatchEERotaDoF"@) == Some(ObjectiveClass::MatchEERotaDoF));
        },
        ObjectiveClass::EachJointLimits => {
            assert("EachJointLimits"@.len() != "MatchEEPosiDoF"@.len());
            assert("EachJointLimits"@.len() != "MatchEERotaDoF"@.len());
            assert(spec_class_from_name("EachJointLimits"@) == Some(ObjectiveClass::EachJointLimits));
        },
        ObjectiveClass::MinimizeVelocity => {
            assert("MinimizeVelocity"@.len() != "MatchEEPosiDoF"@.len());
            assert("MinimizeVelocity"@.len() != "MatchEERotaDoF"@.len());
            assert("MinimizeVelocity"@.len() != "EachJointLimits"@.len());
            assert(spec_class_from_name("MinimizeVelocity"@) == Some(ObjectiveClass::MinimizeVelocity));
        },
        ObjectiveClass::MinimizeAcceleration => {
            assert("MinimizeAcceleration"@.len() != "MatchEEPosiDoF"@.len());
            assert("MinimizeAcceleration"@.len() != "MatchEERotaDoF"@.len());
            assert("MinimizeAcceleration"@.len() != "EachJointLimits"@.len());
            assert("MinimizeAcceleration"@.len() != "MinimizeVelocity"@.len());
            assert(spec_class_from_name("MinimizeAcceleration"@) == Some(ObjectiveClass::MinimizeAcceleration));
        },
        ObjectiveClass::MinimizeJerk => {
            assert("MinimizeJerk"@.len() != "MatchEEPosiDoF"@.len());
            assert("MinimizeJerk"@.len() != "MatchEERotaDoF"@.len());
            assert("MinimizeJerk"@.len() != "EachJointLimits"@.len());
            assert("MinimizeJerk"@.len() != "MinimizeVelocity"@.len());
            assert("MinimizeJerk"@.len() != "MinimizeAcceleration"@.len());
            assert(spec_class_from_name("MinimizeJerk"@) == Some(ObjectiveClass::MinimizeJerk));
        },
        ObjectiveClass::MaximizeManipulability => {
            assert("MaximizeManipulability"@.len() != "MatchEEPosiDoF"@.len());
            assert("MaximizeManipulability"@.len() != "MatchEERotaDoF"@.len());
            assert("MaximizeManipulability"@.len() != "EachJointLimits"@.len());
            assert("MaximizeManipulability"@.len() != "MinimizeVelocity"@.len());
            assert("MaximizeManipulability"@.len() != "MinimizeAcceleration"@.len());
            assert("MaximizeManipulability"@.len() != "MinimizeJerk"@.len());
            assert(spec_class_from_name("MaximizeManipulability"@) == Some(ObjectiveClass::MaximizeManipulability));
        },
        ObjectiveClass::SelfCollision => {
            assert("SelfCollision"@.len() != "MatchEEPosiDoF"@.len());
            assert("SelfCollision"@.len() != "MatchEERotaDoF"@.len());
            assert("SelfCollision"@.len() != "EachJointLimits"@.len());
            assert("SelfCollision"@.len() != "MinimizeVelocity"@.len());
            assert("SelfCollision"@.len() != "MinimizeAcceleration"@.len());
            assert("SelfCollision"@.len() != "MinimizeJerk"@.len());
            assert("SelfCollision"@.len() != "MaximizeManipulability"@.len());
            assert(spec_class_from_name("SelfCollision"@) == Some(ObjectiveClass::SelfCollision));
        },
        ObjectiveClass::RelativeTCPConstraint => {
            assert("RelativeTCPConstraint"@.len() != "MatchEEPosiDoF"@.len());
            assert("RelativeTCPConstraint"@.len() != "MatchEERotaDoF"@.len());
            assert("RelativeTCPConstraint"@.len() != "EachJointLimits"@.len());
            assert("RelativeTCPConstraint"@.len() != "MinimizeVelocity"@.len());
            assert("RelativeTCPConstraint"@.len() != "MinimizeAcceleration"@.len());
            assert("RelativeTCPConstraint"@.len() != "MinimizeJerk"@.len());
            assert("RelativeTCPConstraint"@.len() != "MaximizeManipulability"@.len());
            assert("RelativeTCPConstraint"@.len() != "SelfCollision"@.len());
            assert(spec_class_from_name("RelativeTCPConstraint"@) == Some(ObjectiveClass::RelativeTCPConstraint));
        },
    }
}

/// The class name of each kind of objective: the word its objective names start with.
pub open spec fn kind_class_label(o: ObjectiveKind) -> Seq<char> {
    match o {
        ObjectiveKind::MatchEEPosGoals(_) => "MatchEEPosGoals"@,
        ObjectiveKind::MatchEEQuatGoals(_) => "MatchEEQuatGoals"@,
        ObjectiveKind::MatchEEPosiDoF(_, _) => "MatchEEPosiDoF"@,
        ObjectiveKind::MatchEERotaDoF(_, _) => "MatchEERotaDoF"@,
        ObjectiveKind::EachJointLimits(_) => "EachJointLimits"@,
        ObjectiveKind::MinimizeVelocity => "MinimizeVelocity"@,
        ObjectiveKind::MinimizeAcceleration => "MinimizeAcceleration"@,
        ObjectiveKind::MinimizeJerk => "MinimizeJerk"@,
        ObjectiveKind::MaximizeManipulability => "MaximizeManipulability"@,
        ObjectiveKind::SelfCollision(_, _, _) => "SelfCollision"@,
        ObjectiveKind::SharedJointAlignment(_, _) => "SharedJointAlignment"@,
    }
}

/// An objective takes the configurable weight of the class named like its kind:
/// when it has a weight class, that class's name is the kind's class name, and
/// when it has none, no weight class carries the kind's class name. In
/// particular rotation objectives take the `MatchEERotaDoF` weight and position
/// objectives the `MatchEEPosiDoF` weight, whatever their chain and axis.
pub proof fn law_weight_class_named_like_kind(o: ObjectiveKind)
    ensures
        match spec_weight_class(o) {
            Some(c) => spec_class_name(c) == kind_class_label(o),
            None => spec_class_from_name(kind_class_label(o)) is None,
        },
        forall|chain: usize, axis: usize|
            #[trigger] spec_weight_class(ObjectiveKind::MatchEERotaDoF(chain, axis)) == Some(
                ObjectiveClass::MatchEERotaDoF,
            ),
        forall|chain: usize, axis: usize|
            #[trigger] spec_weight_class(ObjectiveKind::MatchEEPosiDoF(chain, axis)) == Some(
                ObjectiveClass::MatchEEPosiDoF,
            ),
{
    reveal_strlit("MatchEEPosGoals");
    reveal_strlit("MatchEEQuatGoals");
    reveal_strlit("SharedJointAlignment");
    reveal_strlit("MatchEEPosiDoF");
    reveal_strlit("MatchEERotaDoF");
    reveal_strlit("EachJointLimits");
    reveal_strlit("MinimizeVelocity");
    reveal_strlit("MinimizeAcceleration");
    reveal_strlit("MinimizeJerk");
    reveal_strlit("MaximizeManipulability");
    reveal_strlit("SelfCollision");
    reveal_strlit("RelativeTCPConstraint");
    match o {
        ObjectiveKind::MatchEEPosGoals(_) => {
            assert("MatchEEPosGoals"@.len() != "MatchEEPosiDoF"@.len());
            assert("MatchEEPosGoals"@.len() != "MatchEERotaDoF"@.len());
            assert("MatchEEPosGoals"@[0] == 'M' && "EachJointLimits"@[0] == 'E');
            assert("MatchEEPosGoals"@.len() != "MinimizeVelocity"@.len());
            assert("MatchEEPosGoals"@.len() != "MinimizeAcceleration"@.len());
            assert("MatchEEPosGoals"@.len() != "MinimizeJerk"@.len());
            assert("MatchEEPosGoals"@.len() != "MaximizeManipulability"@.len());
            assert("MatchEEPosGoals"@.len() != "SelfCollision"@.len());
            assert("MatchEEPosGoals"@.len() != "RelativeTCPConstraint"@.len());
            assert(spec_class_from_name("MatchEEPosGoals"@) is None);
        },
        ObjectiveKind::MatchEEQuatGoals(_) => {
            assert("MatchEEQuatGoals"@.len() != "MatchEEPosiDoF"@.len());
            assert("MatchEEQuatGoals"@.len() != "MatchEERotaDoF"@.len());
            assert("MatchEEQuatGoals"@.len() != "EachJointLimits"@.len());
            assert("MatchEEQuatGoals"@[1] == 'a' && "MinimizeVelocity"@[1] == 'i');
            assert("MatchEEQuatGoals"@.len() != "MinimizeAcceleration"@.len());
            assert("MatchEEQuatGoals"@.len() != "MinimizeJerk"@.len());
            assert("MatchEEQuatGoals"@.len() != "MaximizeManipulability"@.len());
            assert("MatchEEQuatGoals"@.len() != "SelfCollision"@.len());
            assert("MatchEEQuatGoals"@.len() != "RelativeTCPConstraint"@.len());
            assert(spec_class_from_name("MatchEEQuatGoals"@) is None);
        },
        ObjectiveKind::SharedJointAlignment(_, _) => {
            assert("SharedJointAlignment"@.len() != "MatchEEPosiDoF"@.len());
            assert("SharedJointAlignment"@.len() != "MatchEERotaDoF"@.len());
            assert("SharedJointAlignment"@.len() != "EachJointLimits"@.len());
            assert("SharedJointAlignment"@.len() != "MinimizeVelocity"@.len());
            assert("SharedJointAlignment"@[0] == 'S' && "MinimizeAcceleration"@[0] == 'M');
            assert("SharedJointAlignment"@.len() != "MinimizeJerk"@.len());
            assert("SharedJointAlignment"@.len() != "MaximizeManipulability"@.len());
            assert("SharedJointAlignment"@.len() != "SelfCollision"@.len());
            assert("SharedJointAlignment"@.len() != "RelativeTCPConstraint"@.len());
            assert(spec_class_from_name("SharedJointAlignment"@) is None);
        },
        _ => {},
    }
}

/// The number of pairs of links `j < k` with `k >= j + 2` over all chains: a
/// chain of `len` links has `(len - 1) * (len - 2) / 2` of them.
pub open spec fn self_collision_count(chain_lengths: Seq<usize>) -> int
    decreases chain_lengths.len(),
{
    if chain_lengths.len() == 0 {
        0
    } else {
        let len = chain_lengths.last() as int;
        self_collision_count(chain_lengths.drop_last()) + (len - 1) * (len - 2) / 2
    }
}

proof fn lemma_self_collision_rows_len(len: int, m: int)
    requires
        0 <= m <= len - 2,
    ensures
        2 * self_collision_rows(len, m).len() == m * (2 * len - m - 3),
    decreases m,
{
    if m > 0 {
        lemma_self_collision_rows_len(len, m - 1);
        let a = self_collision_rows(len, m - 1).len() as int;
        assert(self_collision_rows(len, m).len() == a + (len - m - 1));
        assert(2 * (a + (len - m - 1)) == m * (2 * len - m - 3)) by (nonlinear_arith)
            requires
                2 * a == (m - 1) * (2 * len - (m - 1) - 3),
        ;
    } else {
        assert(m * (2 * len - m - 3) == 0) by (nonlinear_arith)
            requires
                m == 0,
        ;
    }
}

proof fn lemma_self_collision_chain_len(len: int)
    requires
        len >= 2,
    ensures
        self_collision_rows(len, len - 2).len() == (len - 1) * (len - 2) / 2,
{
    lemma_self_collision_rows_len(len, len - 2);
    let x = self_collision_rows(len, len - 2).len() as int;
    assert(x == (len - 1) * (len - 2) / 2) by (nonlinear_arith)
        requires
            2 * x == (len - 2) * (2 * len - (len - 2) - 3),
    ;
}

proof fn lemma_self_collision_block_len(chain_lengths: Seq<usize>, n: int)
    requires
        0 <= n <= chain_lengths.len(),
        forall|i: int| 0 <= i < chain_lengths.len() ==> chain_lengths[i] >= 2,
    ensures
        self_collision_block(chain_lengths, n).len() == self_collision_count(chain_lengths.take(n)),
    decreases n,
{
    if n > 0 {
        lemma_self_collision_block_len(chain_lengths, n - 1);
        lemma_self_collision_chain_len(chain_lengths[n - 1] as int);
        assert(chain_lengths.take(n).drop_last() =~= chain_lengths.take(n - 1));
    } else {
        assert(chain_lengths.take(0) =~= Seq::<usize>::empty());
    }
}

proof fn lemma_end_effector_block_len(n: int)
    requires
        0 <= n,
    ensures
        end_effector_block(n).len() == 6 * n,
    decreases n,
{
    if n > 0 {
        lemma_end_effector_block_len(n - 1);
    }
}

/// The relaxed IK layout has six end-effector objectives per chain, one limit
/// objective per joint, the four regularizers, and one self-collision objective
/// per pair of links `j < k`, `k >= j + 2`, of each chain.
pub proof fn law_relaxed_ik_objective_count(chain_lengths: Seq<usize>)
    requires
        forall|i: int| 0 <= i < chain_lengths.len() ==> chain_lengths[i] >= 2,
    ensures
        spec_relaxed_ik_objectives(chain_lengths).len() == 6 * chain_lengths.len() + sum_lens(
            chain_lengths,
        ) + 4 + self_collision_count(chain_lengths),
{
    lemma_end_effector_block_len(chain_lengths.len() as int);
    lemma_self_collision_block_len(chain_lengths, chain_lengths.len() as int);
    lemma_sum_lens_nonneg(chain_lengths);
    assert(chain_lengths.take(chain_lengths.len() as int) =~= chain_lengths);
}

proof fn lemma_self_collision_rows_contain(len: int, m: int, j: int, k: int)
    requires
        0 <= j < m <= len - 2,
        j + 2 <= k < len,
        len <= usize::MAX,
    ensures
        self_collision_rows(len, m).contains(ObjectiveKind::SelfCollision(0, j as usize, k as usize)),
    decreases m,
{
    let x = ObjectiveKind::SelfCollision(0, j as usize, k as usize);
    lemma_contains_concat(self_collision_rows(len, m - 1), self_collision_row(len, m - 1), x);
    if j < m - 1 {
        lemma_self_collision_rows_contain(len, m - 1, j, k);
    } else {
        assert(self_collision_row(len, j)[k - j - 2] == x);
    }
}

proof fn lemma_self_collision_block_contains(chain_lengths: Seq<usize>, n: int, i: int, j: int, k: int)
    requires
        0 <= i < n <= chain_lengths.len(),
        forall|c: int| 0 <= c < chain_lengths.len() ==> chain_lengths[c] >= 2,
        0 <= j,
        j + 2 <= k < chain_lengths[i],
    ensures
        self_collision_block(chain_lengths, n).contains(
            ObjectiveKind::SelfCollision(0, j as usize, k as usize),
        ),
    decreases n,
{
    let x = ObjectiveKind::SelfCollision(0, j as usize, k as usize);
    let len = chain_lengths[n - 1] as int;
    lemma_contains_concat(self_collision_block(chain_lengths, n - 1), self_collision_rows(len, len - 2), x);
    if i < n - 1 {
        lemma_self_collision_block_contains(chain_lengths, n - 1, i, j, k);
    } else {
        lemma_self_collision_rows_contain(len, len - 2, j, k);
    }
}

/// Every chain gets a self-collision objective for each pair of its links
/// `j < k` with `k >= j + 2` (all of them name arm 0).
pub proof fn law_relaxed_ik_self_collision_pairs(chain_lengths: Seq<usize>, i: int, j: usize, k: usize)
    requires
        forall|c: int| 0 <= c < chain_lengths.len() ==> chain_lengths[c] >= 2,
        0 <= i < chain_lengths.len(),
        j + 2 <= k < chain_lengths[i],
    ensures
        spec_relaxed_ik_objectives(chain_lengths).contains(ObjectiveKind::SelfCollision(0, j, k)),
{
    let x = ObjectiveKind::SelfCollision(0, j, k);
    let n = chain_lengths.len() as int;
    lemma_self_collision_block_contains(chain_lengths, n, i, j as int, k as int);
    let head = end_effector_block(n) + joint_limit_block(sum_lens(chain_lengths)) + regularizer_block();
    lemma_contains_concat(head, self_collision_block(chain_lengths, n), x);
}

} // verus!
