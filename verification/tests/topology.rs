use demo_lab::genetics::EvaluationError;
use demo_lab::topology::{
    apportion_lengths, bottlebrush_backbone_length, can_build, build_polymer_topology, with_demo_bead_types,
    PolymerArchitecture, PolymerMorphology, PolymerTopology,
};

fn degrees(topology: &PolymerTopology) -> Vec<usize> {
    (0..topology.atom_count())
        .map(|atom| topology.degree(atom).unwrap())
        .collect()
}

fn message(error: EvaluationError) -> String {
    match error {
        EvaluationError::InvalidIndividual(message) => message,
        EvaluationError::NumericalFailure(message) => panic!("unexpected failure {message}"),
    }
}

#[test]
fn graph_templates_are_connected_and_degree_bounded() {
    for architecture in [
        PolymerArchitecture::Linear,
        PolymerArchitecture::Ring,
        PolymerArchitecture::Dendritic,
        PolymerArchitecture::Bottlebrush,
    ] {
        let topology = PolymerTopology::with_architecture(vec![9], true, architecture).unwrap();
        assert!(topology.bonds().len() >= 8);
        assert!(degrees(&topology).iter().all(|degree| *degree <= 3));
    }
}

#[test]
fn morphology_parameters_change_graph_connectivity() {
    let compact = PolymerTopology::with_morphology(
        vec![48],
        true,
        PolymerArchitecture::Dendritic,
        PolymerMorphology {
            dendritic_branching: 3,
            dendritic_spacer: 1,
            ..PolymerMorphology::default()
        },
    )
    .unwrap();
    let open = PolymerTopology::with_morphology(
        vec![48],
        true,
        PolymerArchitecture::Dendritic,
        PolymerMorphology {
            dendritic_branching: 2,
            dendritic_spacer: 4,
            ..PolymerMorphology::default()
        },
    )
    .unwrap();
    assert_ne!(compact.bonds(), open.bonds());
    assert!(degrees(&compact).contains(&4));
    assert!(degrees(&open).iter().all(|degree| *degree <= 3));
}

#[test]
fn linear_chains_bond_neighbours_in_order() {
    let topology = PolymerTopology::new(vec![3, 2], true).unwrap();
    assert_eq!(topology.atom_count(), 5);
    assert_eq!(topology.chain_count(), 2);
    assert_eq!(topology.bonds(), &[(0, 1), (1, 2), (3, 4)]);
    assert_eq!(topology.angles(), &[(0, 1, 2)]);
    assert!(topology.dihedrals().is_empty());
    assert_eq!(topology.chain_ranges(), &[0..3, 3..5]);
    assert_eq!(topology.chain_bonds(1), Some(&[(3usize, 4usize)][..]));
    assert_eq!(topology.chain_bonds(2), None);
    assert_eq!(topology.chain_of(4), Some(1));
    assert_eq!(topology.bead_within_chain(4), Some(1));
    assert_eq!(topology.chain_length_of(1), Some(3));
    assert_eq!(topology.chain_of(5), None);
    assert_eq!(topology.bead_type(2), Some(0));
    assert_eq!(topology.bead_type(5), None);
}

#[test]
fn ring_closes_every_chain_of_three_or_more() {
    let topology = PolymerTopology::with_architecture(vec![4, 2], true, PolymerArchitecture::Ring)
        .unwrap();
    assert_eq!(topology.bonds(), &[(0, 1), (0, 3), (1, 2), (2, 3), (4, 5)]);
    assert_eq!(topology.degree(0), Some(2));
    assert_eq!(topology.degree(4), Some(1));
    assert_eq!(
        topology.angles(),
        &[(1, 0, 3), (0, 1, 2), (1, 2, 3), (0, 3, 2)]
    );
    assert_eq!(topology.dihedrals().len(), 4);
    assert_eq!(
        topology.dihedrals(),
        &[(3, 0, 1, 2), (1, 0, 3, 2), (0, 1, 2, 3), (1, 2, 3, 0)]
    );
}

#[test]
fn growth_parents_lead_back_to_the_first_bead() {
    for architecture in [
        PolymerArchitecture::Linear,
        PolymerArchitecture::Ring,
        PolymerArchitecture::Dendritic,
        PolymerArchitecture::Bottlebrush,
    ] {
        let topology = PolymerTopology::with_architecture(vec![12, 7], true, architecture).unwrap();
        assert_eq!(topology.growth_parent(0), None);
        assert_eq!(topology.growth_parent(12), None);
        for atom in (1..12).chain(13..19) {
            let parent = topology.growth_parent(atom).unwrap();
            assert!(parent < atom);
            assert_eq!(topology.chain_of(parent), topology.chain_of(atom));
            assert!(topology.are_directly_bonded(parent, atom));
            assert!(topology.are_directly_bonded(atom, parent));
        }
    }
}

#[test]
fn dendrimer_branches_from_the_core() {
    let topology = PolymerTopology::with_architecture(vec![9], true, PolymerArchitecture::Dendritic)
        .unwrap();
    assert_eq!(
        topology.bonds(),
        &[(0, 1), (0, 3), (1, 2), (2, 5), (2, 7), (3, 4), (5, 6), (7, 8)]
    );
    assert_eq!(topology.morphology_role(0), Some(4));
    assert_eq!(topology.morphology_role(2), Some(2));
    assert_eq!(topology.morphology_role(4), Some(1));
    assert_eq!(topology.morphology_role(1), Some(3));
}

#[test]
fn bottlebrush_grafts_side_chains_on_its_backbone() {
    let default = PolymerMorphology::default();
    assert_eq!(bottlebrush_backbone_length(9, default), 3);
    assert_eq!(bottlebrush_backbone_length(10, default), 4);
    assert_eq!(bottlebrush_backbone_length(3, default), 2);
    assert_eq!(bottlebrush_backbone_length(1, default), 1);
    let topology =
        PolymerTopology::with_architecture(vec![9], true, PolymerArchitecture::Bottlebrush).unwrap();
    assert_eq!(
        topology.bonds(),
        &[(0, 1), (0, 3), (1, 2), (2, 6), (3, 4), (4, 5), (6, 7), (7, 8)]
    );
    assert_eq!(topology.morphology_role(0), Some(0));
    assert_eq!(topology.morphology_role(2), Some(0));
    assert_eq!(topology.morphology_role(4), Some(3));
    assert_eq!(topology.morphology_role(5), Some(1));
    assert_eq!(topology.morphology_role(8), Some(1));
    assert_eq!(topology.morphology_role(9), None);
}

#[test]
fn invalid_inputs_are_rejected_in_order() {
    let short = PolymerTopology::new(vec![5, 1], false).unwrap_err();
    assert_eq!(
        message(short),
        "polymer topology requires at least one chain and two beads per chain"
    );
    let empty = PolymerTopology::new(Vec::new(), true).unwrap_err();
    assert_eq!(
        message(empty),
        "polymer topology requires at least one chain and two beads per chain"
    );
    let bad_box = PolymerTopology::new(vec![5], false).unwrap_err();
    assert_eq!(message(bad_box), "box length must be positive and finite");
    let bad_morphology = PolymerTopology::with_morphology(
        vec![5],
        true,
        PolymerArchitecture::Linear,
        PolymerMorphology {
            dendritic_branching: 4,
            ..PolymerMorphology::default()
        },
    )
    .unwrap_err();
    assert_eq!(
        message(bad_morphology),
        "polymer morphology parameters are outside supported bounds"
    );
}

#[test]
fn bead_types_must_match_the_bead_count() {
    let error = PolymerTopology::new(vec![3], true)
        .unwrap()
        .with_bead_types(vec![7, 7])
        .unwrap_err();
    assert_eq!(message(error), "received 2 bead types for 3 beads");
    let typed = PolymerTopology::new(vec![3], true)
        .unwrap()
        .with_bead_types(vec![1, 2, 3])
        .unwrap();
    assert_eq!(typed.bead_type(1), Some(2));
    let moved = typed.with_box_length(true).unwrap();
    assert_eq!(moved.bead_type(2), Some(3));
    assert_eq!(moved.bonds(), &[(0, 1), (1, 2)]);
    let refused = typed.with_box_length(false).unwrap_err();
    assert_eq!(message(refused), "box length must be positive and finite");
}

#[test]
fn demo_bead_types_follow_morphology_roles() {
    let topology = PolymerTopology::new(vec![4], true).unwrap();
    let typed = with_demo_bead_types(topology).unwrap();
    let types: Vec<u16> = (0..4).map(|atom| typed.bead_type(atom).unwrap()).collect();
    assert_eq!(types, vec![1, 0, 0, 1]);
    assert!(typed.is_terminal(0));
    assert!(!typed.is_terminal(1));
    assert!(!typed.is_terminal(9));
}

#[test]
fn architecture_codes_name_the_templates() {
    assert_eq!(PolymerArchitecture::from_code(0), Some(PolymerArchitecture::Linear));
    assert_eq!(PolymerArchitecture::from_code(1), Some(PolymerArchitecture::Ring));
    assert_eq!(PolymerArchitecture::from_code(2), Some(PolymerArchitecture::Dendritic));
    assert_eq!(PolymerArchitecture::from_code(3), Some(PolymerArchitecture::Bottlebrush));
    assert_eq!(PolymerArchitecture::from_code(4), None);
    assert_eq!(PolymerArchitecture::default(), PolymerArchitecture::Linear);
}

#[test]
fn remainders_go_to_the_largest_fractions_first() {
    assert_eq!(apportion_lengths(20, &[1, 2, 3], &[2, 0, 1]), vec![6, 6, 8]);
    assert_eq!(apportion_lengths(18, &[1, 2, 3], &[2, 0, 1]), vec![5, 6, 7]);
    assert_eq!(apportion_lengths(30, &[0, 0], &[1, 0]), vec![5, 5]);
    let lengths = apportion_lengths(41, &[4, 6, 9, 5], &[3, 1, 0, 2]);
    assert_eq!(lengths.iter().sum::<usize>(), 41);
    assert_eq!(lengths, vec![8, 10, 13, 10]);
}

#[test]
fn demo_ensemble_is_built_and_typed() {
    let topology = build_polymer_topology(
        12,
        2,
        true,
        &[1, 2],
        &[1, 0],
        0,
        true,
        PolymerMorphology::default(),
    )
    .unwrap();
    assert_eq!(topology.chain_lengths(), &[5, 7]);
    assert_eq!(topology.architecture(), PolymerArchitecture::Linear);
    assert_eq!(topology.bead_type(0), Some(1));
    assert_eq!(topology.bead_type(2), Some(0));
    assert_eq!(topology.bead_type(11), Some(1));
    let ring = build_polymer_topology(8, 2, true, &[0, 0], &[0, 1], 1, true, PolymerMorphology::default())
        .unwrap();
    assert_eq!(ring.bonds().len(), 8);
}

#[test]
fn demo_ensemble_errors_come_in_order() {
    let default = PolymerMorphology::default();
    let few = build_polymer_topology(7, 2, true, &[], &[], 0, true, default).unwrap_err();
    assert_eq!(message(few), "polymer systems require at least four beads per chain");
    let none = build_polymer_topology(7, 0, true, &[], &[], 0, true, default).unwrap_err();
    assert_eq!(message(none), "polymer systems require at least four beads per chain");
    let unusable = build_polymer_topology(8, 2, false, &[], &[], 9, false, default).unwrap_err();
    assert_eq!(message(unusable), "polymer systems require at least four beads per chain");
    let unknown = build_polymer_topology(8, 2, true, &[0, 0], &[0, 1], 9, false, default).unwrap_err();
    assert_eq!(message(unknown), "unknown polymer architecture");
    let boxed = build_polymer_topology(8, 2, true, &[0, 0], &[0, 1], 2, false, default).unwrap_err();
    assert_eq!(message(boxed), "box length must be positive and finite");
}

#[test]
fn architecture_codes_round_trip() {
    for code in 0..4u32 {
        let architecture = PolymerArchitecture::from_code(code).unwrap();
        assert_eq!(architecture.code(), code);
    }
    assert_eq!(PolymerArchitecture::Ring.code(), 1);
    assert_eq!(PolymerArchitecture::from_code(4), None);
}

#[test]
fn only_a_request_that_passes_its_checks_needs_its_beads_to_fit() {
    let morphology = PolymerMorphology::default();
    assert!(can_build(&vec![4, 4], true, morphology));
    // too many beads to index, but refused for its chain lengths first
    assert!(can_build(&vec![usize::MAX, 1], true, morphology));
    // a bad box is refused before the beads are counted
    assert!(can_build(&vec![usize::MAX, 4], false, morphology));
    assert!(!can_build(&vec![usize::MAX, 4], true, morphology));
}
