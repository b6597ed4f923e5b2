# relaxed_ik_lib

The verified core of a relaxed inverse-kinematics solver for robots made of
several kinematic chains, some of whose joints may be shared between chains.

- `src/` — the library, verified with Verus:
  - `groove/objective_master.rs`: the objectives of the cost (standard and
    relaxed IK layouts), weight classes and their names, objective-name parsing
    (`RelativeTCPConstraint[a-b]`, class of a name), setting the weight of a
    class, and grouping objectives by class for the brief report.
  - `spacetime/robot.rs`: the joint topology built from the joint names of each
    chain — shared joint pairs, the full-to-reduced variable map, expansion of
    reduced variables, and the groups of full variables of each unique joint —
    with the laws that tie them together.
  - `relaxed_ik.rs`: shared-joint handling modes and the penalty objectives.
  - `text.rs`: character-level helpers (decimal parsing, search, trimming).
- `tests/` — tests of the library on concrete values.
- `app/` — the floating-point and I/O parts around the library: URDF and YAML
  reading, joint limits and weights, the PANOC optimizer, and printed reports.
