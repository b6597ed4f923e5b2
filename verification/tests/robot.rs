use relaxed_ik_lib::groove::objective_master::{ObjectiveKind, ObjectiveLayout};
use relaxed_ik_lib::relaxed_ik::SharedJointMode;
use relaxed_ik_lib::spacetime::robot::Robot;

fn names(v: &[&[&str]]) -> Vec<Vec<String>> {
    v.iter().map(|c| c.iter().map(|s| s.to_string()).collect()).collect()
}

fn two_arms() -> Robot {
    Robot::from_chains(vec![3, 2], names(&[&["j1", "j2", "waist"], &["waist", "j4"]]))
}

#[test]
fn from_chains_detects_shared_joint() {
    let r = two_arms();
    assert_eq!(r.num_chains, 2);
    assert_eq!(r.num_dofs, 5);
    assert_eq!(r.all_joint_names, vec!["j1", "j2", "waist", "waist", "j4"]);
    assert_eq!(r.shared_joint_pairs, vec![(2, 3)]);
    assert_eq!(r.full_to_reduced, vec![0, 1, 2, 2, 3]);
    assert_eq!(r.num_unique_dofs, 4);
    assert!(r.has_shared_joints());
}

#[test]
fn from_chains_without_shared_joints() {
    let r = Robot::from_chains(vec![2, 1], names(&[&["a", "b"], &["c"]]));
    assert!(!r.has_shared_joints());
    assert_eq!(r.full_to_reduced, vec![0, 1, 2]);
    assert_eq!(r.num_unique_dofs, r.num_dofs);
}

#[test]
fn from_chains_three_chains_sharing_one_joint() {
    let r = Robot::from_chains(vec![2, 2, 2], names(&[&["t", "a"], &["t", "b"], &["c", "t"]]));
    assert_eq!(r.shared_joint_pairs, vec![(0, 2), (0, 5), (2, 5)]);
    assert_eq!(r.full_to_reduced, vec![0, 1, 0, 2, 3, 0]);
    assert_eq!(r.num_unique_dofs, 4);
}

#[test]
fn from_chains_sorts_pairs_when_chains_overlap() {
    // The middle chain names more joints than its length, so its last joint
    // lands past the start of the next chain.
    let r = Robot::from_chains(vec![1, 1, 2], names(&[&["x"], &["a", "b", "x"], &["x"]]));
    assert_eq!(r.num_dofs, 4);
    assert_eq!(r.shared_joint_pairs, vec![(0, 2), (0, 3), (3, 2)]);
    assert_eq!(r.full_to_reduced, vec![0, 1, 0, 0]);
    assert_eq!(r.num_unique_dofs, 3);
}

#[test]
fn from_chains_empty() {
    let r = Robot::from_chains(vec![], vec![]);
    assert_eq!(r.num_dofs, 0);
    assert!(r.full_to_reduced.is_empty());
    assert!(!r.has_shared_joints());
    assert!(r.chain_ranges().is_empty());
}

#[test]
fn expand_to_full_duplicates_shared_values() {
    let r = two_arms();
    let x = r.expand_to_full(&[0.1f64, 0.2, 0.3, 0.4]);
    assert_eq!(x, vec![0.1, 0.2, 0.3, 0.3, 0.4]);
    for &(a, b) in &r.shared_joint_pairs {
        assert_eq!(x[a], x[b]);
    }
}

#[test]
fn full_indices_per_unique_dof_groups_shared_joints() {
    let r = two_arms();
    assert_eq!(r.full_indices_per_unique_dof(), vec![vec![0], vec![1], vec![2, 3], vec![4]]);
    let total: usize = r.full_indices_per_unique_dof().iter().map(|g| g.len()).sum();
    assert_eq!(total, r.num_dofs);
}

#[test]
fn chain_ranges_follow_chain_lengths() {
    let r = two_arms();
    assert_eq!(r.chain_ranges(), vec![(0, 3), (3, 5)]);
}

#[test]
fn penalty_adds_alignment_per_pair() {
    let r = Robot::from_chains(vec![2, 2, 2], names(&[&["t", "a"], &["t", "b"], &["c", "t"]]));
    let mut layout = ObjectiveLayout::standard_ik(3);
    layout.add_shared_joint_penalty(&r);
    assert_eq!(layout.objectives.len(), 6 + 3);
    assert_eq!(
        &layout.objectives[6..],
        &[
            ObjectiveKind::SharedJointAlignment(0, 2),
            ObjectiveKind::SharedJointAlignment(0, 5),
            ObjectiveKind::SharedJointAlignment(2, 5),
        ]
    );
}

#[test]
fn only_variable_reduction_solves_in_reduced_space() {
    assert!(SharedJointMode::VariableReduction.solves_in_reduced_space());
    assert!(!SharedJointMode::Penalty.solves_in_reduced_space());
    assert!(!SharedJointMode::NoHandling.solves_in_reduced_space());
}
