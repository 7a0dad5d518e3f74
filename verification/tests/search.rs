use demo_lab::genetics::{EvaluationError, EvolutionMode, SearchError};
use demo_lab::search::{commit_refusal, session_elite_count, session_request};
use demo_lab::search::{
    check_bead_count, check_evaluations, check_initializer_request, check_produced, check_ready,
    overlap_failure, parent_slots, validate_population,
    validate_relaxation, validate_search, Member, Scorecard,
};

fn member(id: u64, atoms: usize) -> Member {
    Member {
        id,
        atoms,
        scored: true,
    }
}

fn config_message(r: Result<(), SearchError>) -> String {
    match r {
        Err(SearchError::InvalidConfig(message)) => message,
        other => panic!("expected a configuration error, got {other:?}"),
    }
}

fn population_message(r: Result<(), SearchError>) -> String {
    match r {
        Err(SearchError::InvalidPopulation(message)) => message,
        other => panic!("expected a population error, got {other:?}"),
    }
}

#[test]
fn search_configuration_errors_come_in_order() {
    assert_eq!(validate_search(6, 3, 2, true, true, 4, true, true), Ok(()));
    assert_eq!(
        config_message(validate_search(0, 1, 0, false, false, 0, false, false)),
        "population_size must be greater than zero"
    );
    assert_eq!(
        config_message(validate_search(6, 1, 0, true, true, 4, true, true)),
        "atom_count must be at least two"
    );
    assert_eq!(
        config_message(validate_search(6, 3, 0, true, true, 4, true, true)),
        "elite_count must be between one and population_size"
    );
    assert_eq!(
        config_message(validate_search(6, 3, 7, true, true, 4, true, true)),
        "elite_count must be between one and population_size"
    );
    assert_eq!(
        config_message(validate_search(6, 3, 6, false, false, 4, true, true)),
        "mutation_stddev must be positive and finite"
    );
    assert_eq!(
        config_message(validate_search(6, 3, 6, true, false, 4, true, true)),
        "initial_extent must be positive and finite"
    );
    assert_eq!(
        config_message(validate_search(6, 3, 6, true, true, 0, true, true)),
        "relaxation steps must be greater than zero"
    );
}

#[test]
fn relaxation_errors_come_in_order() {
    assert_eq!(validate_relaxation(4, true, true), Ok(()));
    assert_eq!(
        config_message(validate_relaxation(0, false, false)),
        "relaxation steps must be greater than zero"
    );
    assert_eq!(
        config_message(validate_relaxation(4, false, false)),
        "relaxation step_size must be positive and finite"
    );
    assert_eq!(
        config_message(validate_relaxation(4, true, false)),
        "max_force_component must be positive and finite"
    );
}

#[test]
fn population_shape_names_the_first_offender() {
    let members = vec![member(10, 3), member(11, 2), member(12, 5)];
    assert_eq!(
        population_message(validate_population(&members, 4, 3)),
        "expected 4 individuals, found 3"
    );
    assert_eq!(
        population_message(validate_population(&members, 3, 3)),
        "individual 11 has 2 atoms; expected 3"
    );
    let fine = vec![member(1, 3), member(2, 3)];
    assert_eq!(validate_population(&fine, 2, 3), Ok(()));
}

#[test]
fn breeding_needs_every_energy() {
    let mut members = vec![member(4, 3), member(5, 3), member(6, 3)];
    assert_eq!(check_ready(&members, 3, 3), Ok(()));
    members[1].scored = false;
    members[2].scored = false;
    assert_eq!(
        check_ready(&members, 3, 3),
        Err(SearchError::MissingEvaluation { individual_id: 5 })
    );
    assert_eq!(
        population_message(check_ready(&members, 2, 3)),
        "expected 2 individuals, found 3"
    );
}

#[test]
fn evaluations_are_checked_energy_before_forces() {
    let members = vec![member(7, 3), member(8, 3)];
    let good = Scorecard {
        finite: true,
        forces: 3,
    };
    assert_eq!(check_evaluations(&members, &[good, good], 2, 3), Ok(()));
    assert_eq!(
        population_message(check_evaluations(&members, &[good], 2, 3)),
        "received 1 evaluations for 2 individuals"
    );
    let short = Scorecard {
        finite: true,
        forces: 1,
    };
    let broken = Scorecard {
        finite: false,
        forces: 1,
    };
    assert_eq!(
        population_message(check_evaluations(&members, &[short, broken], 2, 3)),
        "individual 7 received 1 force vectors; expected 3"
    );
    assert_eq!(
        population_message(check_evaluations(&members, &[good, broken], 2, 3)),
        "individual 8 received a non-finite energy"
    );
    assert_eq!(
        population_message(check_evaluations(&[member(9, 2)], &[good], 1, 3)),
        "individual 9 has 2 atoms; expected 3"
    );
}

#[test]
fn initializer_output_is_counted() {
    assert_eq!(check_produced(5, 5), Ok(()));
    assert_eq!(
        population_message(check_produced(4, 12)),
        "initializer produced 4 atoms; expected 12"
    );
}

#[test]
fn children_cycle_through_the_elites() {
    assert_eq!(parent_slots(2, 6), vec![0, 1, 0, 1, 0, 1]);
    assert_eq!(parent_slots(3, 2), vec![0, 1]);
    assert_eq!(parent_slots(1, 0), Vec::<usize>::new());
}

#[test]
fn bead_and_atom_counts_are_named() {
    assert_eq!(check_initializer_request(48, 48), Ok(()));
    assert_eq!(
        population_message(check_initializer_request(12, 48)),
        "polymer initializer received 12 atoms for a 48-bead topology"
    );
    assert_eq!(check_bead_count(10, 10), Ok(()));
    assert_eq!(
        check_bead_count(10, 9),
        Err(EvaluationError::InvalidIndividual("expected 10 beads, found 9".to_string()))
    );
    assert_eq!(
        overlap_failure(3, 17),
        EvaluationError::NumericalFailure("atoms 3 and 17 overlap".to_string())
    );
}

#[test]
fn session_requests_are_refused_in_order() {
    assert_eq!(session_request(0, 1, true), Ok((EvolutionMode::SinglePoint, true)));
    assert_eq!(session_request(2, 0, false), Ok((EvolutionMode::Baldwinian, false)));
    assert_eq!(session_request(7, 9, true), Err(3));
    assert_eq!(session_request(1, 1, true), Err(9));
    assert_eq!(session_request(0, 0, true), Err(10));
    assert_eq!(session_request(1, 2, false), Err(5));
    assert_eq!(session_elite_count(24), 3);
    assert_eq!(session_elite_count(5), 1);
}

#[test]
fn commits_are_refused_in_order() {
    assert_eq!(commit_refusal(false, false, false, false), Some(1));
    assert_eq!(commit_refusal(true, false, true, true), Some(2));
    assert_eq!(commit_refusal(true, true, false, false), Some(3));
    assert_eq!(commit_refusal(true, true, true, false), Some(4));
    assert_eq!(commit_refusal(true, true, true, true), None);
}
