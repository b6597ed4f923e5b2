//! Verified core of a multi-chain relaxed inverse-kinematics solver: the
//! objective layout and naming rules, and the joint topology of a robot whose
//! kinematic chains may share joints.
pub mod groove;
pub mod relaxed_ik;
pub mod spacetime;
pub mod text;
