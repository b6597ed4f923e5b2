use relaxed_ik_lib::groove::objective_master::{
    group_objectives_by_class, objective_class, parse_relative_tcp_indices, set_objective_weight,
    GradientMethod, ObjectiveClass, ObjectiveKind, ObjectiveLayout, ObjectiveReportMode,
};

#[test]
fn parse_relative_tcp_indices_reads_both_indices() {
    assert_eq!(parse_relative_tcp_indices("RelativeTCPConstraint[0-1]"), Some((0, 1)));
    assert_eq!(parse_relative_tcp_indices("RelativeTCPConstraint[12-3]xyz"), Some((12, 3)));
    assert_eq!(parse_relative_tcp_indices("RelativeTCPConstraint[+4-+5]"), Some((4, 5)));
    assert_eq!(parse_relative_tcp_indices("RelativeTCPConstraint[007-10]"), Some((7, 10)));
}

#[test]
fn parse_relative_tcp_indices_rejects_other_names() {
    assert_eq!(parse_relative_tcp_indices("MatchEEPosiDoF[0-1]"), None);
    assert_eq!(parse_relative_tcp_indices("RelativeTCPConstraint"), None);
    assert_eq!(parse_relative_tcp_indices("RelativeTCPConstraint[0-1"), None);
    assert_eq!(parse_relative_tcp_indices("RelativeTCPConstraint[01]"), None);
    assert_eq!(parse_relative_tcp_indices("RelativeTCPConstraint[-1]"), None);
    assert_eq!(parse_relative_tcp_indices("RelativeTCPConstraint[1-]"), None);
    assert_eq!(parse_relative_tcp_indices("RelativeTCPConstraint[1-2-3]"), None);
    assert_eq!(parse_relative_tcp_indices("RelativeTCPConstraint[a-1]"), None);
    assert_eq!(parse_relative_tcp_indices("RelativeTCPConstraint[ 1-2]"), None);
    assert_eq!(parse_relative_tcp_indices("RelativeTCPConstraint[+-2]"), None);
    assert_eq!(parse_relative_tcp_indices(""), None);
}

#[test]
fn parse_relative_tcp_indices_rejects_overflow() {
    assert_eq!(
        parse_relative_tcp_indices("RelativeTCPConstraint[99999999999999999999999999-1]"),
        None
    );
    let max = format!("RelativeTCPConstraint[{}-0]", usize::MAX);
    assert_eq!(parse_relative_tcp_indices(&max), Some((usize::MAX, 0)));
}

#[test]
fn parse_relative_tcp_indices_agrees_with_str_parse() {
    for a in ["0", "1", "+9", "42", "", "x", "1x", "-3", "٣"] {
        for b in ["0", "7", "+1", "", "y", "99"] {
            let name = format!("RelativeTCPConstraint[{}-{}]", a, b);
            let expected = match (a.parse::<usize>(), b.parse::<usize>()) {
                (Ok(x), Ok(y)) => Some((x, y)),
                _ => None,
            };
            assert_eq!(parse_relative_tcp_indices(&name), expected, "{}", name);
        }
    }
}

#[test]
fn objective_class_takes_name_before_bracket() {
    assert_eq!(objective_class("MatchEEPosiDoF[arm=0,axis=0]"), "MatchEEPosiDoF");
    assert_eq!(objective_class("MinimizeVelocity"), "MinimizeVelocity");
    assert_eq!(objective_class("  SelfCollision [0,1,2]"), "SelfCollision");
    assert_eq!(objective_class("\u{3000}Each Joint\t[3]"), "Each Joint");
    assert_eq!(objective_class("[only]"), "");
    assert_eq!(objective_class(""), "");
    assert_eq!(objective_class(" \n "), "");
    assert_eq!(objective_class("Ünïcode[1][2]"), "Ünïcode");
}

#[test]
fn objective_class_agrees_with_split_and_trim() {
    for name in ["a[b", " x y [", "\u{85}q\u{a0}", "[", "no", "\u{2029}r[s]\u{2029}"] {
        assert_eq!(objective_class(name), name.split('[').next().unwrap_or(name).trim());
    }
}

#[test]
fn class_names_round_trip() {
    let all = [
        ObjectiveClass::MatchEEPosiDoF,
        ObjectiveClass::MatchEERotaDoF,
        ObjectiveClass::EachJointLimits,
        ObjectiveClass::MinimizeVelocity,
        ObjectiveClass::MinimizeAcceleration,
        ObjectiveClass::MinimizeJerk,
        ObjectiveClass::MaximizeManipulability,
        ObjectiveClass::SelfCollision,
        ObjectiveClass::RelativeTCPConstraint,
    ];
    for c in all {
        assert_eq!(ObjectiveClass::from_name(c.name()), Some(c));
    }
    assert_eq!(ObjectiveClass::MatchEERotaDoF.name(), "MatchEERotaDoF");
    assert_eq!(ObjectiveClass::from_name("Unknown"), None);
    assert_eq!(ObjectiveClass::from_name("matcheeposidof"), None);
}

#[test]
fn settings_keys_map_to_classes() {
    assert_eq!(ObjectiveClass::from_settings_key("match_ee_posi_dof"), Some(ObjectiveClass::MatchEEPosiDoF));
    assert_eq!(ObjectiveClass::from_settings_key("match_ee_rota_dof"), Some(ObjectiveClass::MatchEERotaDoF));
    assert_eq!(ObjectiveClass::from_settings_key("each_joint_limits"), Some(ObjectiveClass::EachJointLimits));
    assert_eq!(ObjectiveClass::from_settings_key("minimize_velocity"), Some(ObjectiveClass::MinimizeVelocity));
    assert_eq!(ObjectiveClass::from_settings_key("minimize_acceleration"), Some(ObjectiveClass::MinimizeAcceleration));
    assert_eq!(ObjectiveClass::from_settings_key("minimize_jerk"), Some(ObjectiveClass::MinimizeJerk));
    assert_eq!(
        ObjectiveClass::from_settings_key("maximize_manipulability"),
        Some(ObjectiveClass::MaximizeManipulability)
    );
    assert_eq!(ObjectiveClass::from_settings_key("self_collision"), Some(ObjectiveClass::SelfCollision));
    assert_eq!(
        ObjectiveClass::from_settings_key("relative_tcp_constraints"),
        Some(ObjectiveClass::RelativeTCPConstraint)
    );
    assert_eq!(ObjectiveClass::from_settings_key("MinimizeJerk"), None);
    assert_eq!(ObjectiveClass::from_settings_key("relative_tcp_constraint"), None);
}

#[test]
fn standard_ik_layout() {
    let layout = ObjectiveLayout::standard_ik(2);
    assert_eq!(
        layout.objectives,
        vec![
            ObjectiveKind::MatchEEPosGoals(0),
            ObjectiveKind::MatchEEQuatGoals(0),
            ObjectiveKind::MatchEEPosGoals(1),
            ObjectiveKind::MatchEEQuatGoals(1),
        ]
    );
    assert_eq!(layout.num_chains, 2);
    assert!(layout.lite && layout.finite_diff_grad);
    assert_eq!(layout.gradient_method(), GradientMethod::FiniteDifferenceLite);
    assert!(ObjectiveLayout::standard_ik(0).objectives.is_empty());
}

#[test]
fn relaxed_ik_layout() {
    let layout = ObjectiveLayout::relaxed_ik(&[4, 2]);
    let mut expected = Vec::new();
    for c in 0..2 {
        for a in 0..3 {
            expected.push(ObjectiveKind::MatchEEPosiDoF(c, a));
        }
        for a in 0..3 {
            expected.push(ObjectiveKind::MatchEERotaDoF(c, a));
        }
    }
    for j in 0..6 {
        expected.push(ObjectiveKind::EachJointLimits(j));
    }
    expected.push(ObjectiveKind::MinimizeVelocity);
    expected.push(ObjectiveKind::MinimizeAcceleration);
    expected.push(ObjectiveKind::MinimizeJerk);
    expected.push(ObjectiveKind::MaximizeManipulability);
    expected.push(ObjectiveKind::SelfCollision(0, 0, 2));
    expected.push(ObjectiveKind::SelfCollision(0, 0, 3));
    expected.push(ObjectiveKind::SelfCollision(0, 1, 3));
    assert_eq!(layout.objectives, expected);
    assert_eq!(layout.num_chains, 2);
    assert!(!layout.lite && !layout.finite_diff_grad);
    assert_eq!(layout.gradient_method(), GradientMethod::Analytic);
    assert_eq!(layout.objectives.len(), 12 + 6 + 4 + 3);
}

#[test]
fn weight_classes_of_objectives() {
    assert_eq!(ObjectiveKind::MatchEEPosiDoF(1, 2).weight_class(), Some(ObjectiveClass::MatchEEPosiDoF));
    assert_eq!(ObjectiveKind::SelfCollision(0, 0, 2).weight_class(), Some(ObjectiveClass::SelfCollision));
    assert_eq!(ObjectiveKind::EachJointLimits(3).weight_class(), Some(ObjectiveClass::EachJointLimits));
    assert_eq!(ObjectiveKind::MatchEEPosGoals(0).weight_class(), None);
    assert_eq!(ObjectiveKind::SharedJointAlignment(1, 2).weight_class(), None);
}

#[test]
fn gradient_methods() {
    let mut layout = ObjectiveLayout::standard_ik(1);
    layout.finite_diff_grad = false;
    assert_eq!(layout.gradient_method(), GradientMethod::AnalyticLite);
    layout.lite = false;
    layout.finite_diff_grad = true;
    assert_eq!(layout.gradient_method(), GradientMethod::FiniteDifference);
}

#[test]
fn set_objective_weight_sets_only_matching_class() {
    let names: Vec<String> = vec![
        "MinimizeVelocity".to_string(),
        "SelfCollision[0,0,2]".to_string(),
        "SelfCollision [0,1,3]".to_string(),
        "MinimizeJerk".to_string(),
    ];
    let mut weights = vec![0.7f64, 0.01, 0.01, 0.3, 9.0];
    set_objective_weight(&names, &mut weights, "SelfCollision", 2.5);
    assert_eq!(weights, vec![0.7, 2.5, 2.5, 0.3, 9.0]);
    set_objective_weight(&names, &mut weights, "Nothing", 1.0);
    assert_eq!(weights, vec![0.7, 2.5, 2.5, 0.3, 9.0]);
}

#[test]
fn group_objectives_by_class_sorts_classes() {
    let names: Vec<String> = vec![
        "MinimizeVelocity".to_string(),
        "MatchEEPosiDoF[arm=0,axis=0]".to_string(),
        "MatchEEPosiDoF[arm=0,axis=1]".to_string(),
        "EachJointLimits[0]".to_string(),
        "MatchEERotaDoF[arm=0,axis=0]".to_string(),
        "EachJointLimits[1]".to_string(),
    ];
    let groups = group_objectives_by_class(&names);
    let classes: Vec<&str> = groups.iter().map(|g| g.class.as_str()).collect();
    assert_eq!(classes, vec!["EachJointLimits", "MatchEEPosiDoF", "MatchEERotaDoF", "MinimizeVelocity"]);
    let members: Vec<Vec<usize>> = groups.iter().map(|g| g.members.clone()).collect();
    assert_eq!(members, vec![vec![3, 5], vec![1, 2], vec![4], vec![0]]);
    assert!(group_objectives_by_class(&Vec::new()).is_empty());
}

#[test]
fn group_objectives_by_class_orders_like_string_sort() {
    let names: Vec<String> =
        ["b", "a", "ä", "B", "ab", "a[1]", "z", "\u{3000}"].iter().map(|s| s.to_string()).collect();
    let groups = group_objectives_by_class(&names);
    let mut expected: Vec<String> = names.iter().map(|n| objective_class(n).to_string()).collect();
    expected.sort();
    expected.dedup();
    let classes: Vec<String> = groups.iter().map(|g| g.class.clone()).collect();
    assert_eq!(classes, expected);
}

#[test]
fn report_modes_are_distinct() {
    assert_ne!(ObjectiveReportMode::Off, ObjectiveReportMode::Brief);
    assert_ne!(ObjectiveReportMode::Brief, ObjectiveReportMode::Detailed);
}
