//! The checks and the breeding plan of the evolutionary search: which configurations and
//! populations it accepts, with the message of each refusal, and which elite parents each
//! child of a generation.
use vstd::prelude::*;

use crate::genetics::{mode_from_code, EvaluationError, EvolutionMode, SearchError};
use crate::text::{decimal, push_decimal};

verus! {

/// What the search reads of an individual: its id, how many atoms it carries, and whether it
/// has a finite energy.
#[derive(Clone, Copy, PartialEq, Eq, Structural, Debug)]
pub struct Member {
    pub id: u64,
    pub atoms: usize,
    pub scored: bool,
}

/// `r` refuses the configuration with message `text`.
pub open spec fn config_refused(r: Result<(), SearchError>, text: Seq<char>) -> bool {
    r matches Err(SearchError::InvalidConfig(m)) && m@ == text
}

/// `r` refuses the population with message `text`.
pub open spec fn population_refused(r: Result<(), SearchError>, text: Seq<char>) -> bool {
    r matches Err(SearchError::InvalidPopulation(m)) && m@ == text
}

/// The first problem of a relaxation setting, if any. The two flags say whether the step
/// size and the force cap are positive and finite.
pub open spec fn relaxation_problem(steps: usize, step_size_ok: bool, force_cap_ok: bool) -> Option<
    Seq<char>,
> {
    if steps == 0 {
        Some("relaxation steps must be greater than zero"@)
    } else if !step_size_ok {
        Some("relaxation step_size must be positive and finite"@)
    } else if !force_cap_ok {
        Some("max_force_component must be positive and finite"@)
    } else {
        None
    }
}

/// `r` is the verdict that `problem` calls for.
pub open spec fn config_verdict(r: Result<(), SearchError>, problem: Option<Seq<char>>) -> bool {
    match problem {
        Some(text) => config_refused(r, text),
        None => r is Ok,
    }
}

/// Checks a relaxation setting.
pub fn validate_relaxation(steps: usize, step_size_ok: bool, force_cap_ok: bool) -> (r: Result<
    (),
    SearchError,
>)
    ensures
        config_verdict(r, relaxation_problem(steps, step_size_ok, force_cap_ok)),
{
    if steps == 0 {
        return Err(SearchError::InvalidConfig("relaxation steps must be greater than zero".to_owned()));
    }
    if !step_size_ok {
        return Err(
            SearchError::InvalidConfig("relaxation step_size must be positive and finite".to_owned()),
        );
    }
    if !force_cap_ok {
        return Err(SearchError::InvalidConfig("max_force_component must be positive and finite".to_owned()));
    }
    Ok(())
}

/// The first problem of a search configuration, if any; the flags say whether the mutation
/// spread and the initial extent are positive and finite, then the relaxation's own.
pub open spec fn search_problem(
    population_size: usize,
    atom_count: usize,
    elite_count: usize,
    mutation_ok: bool,
    extent_ok: bool,
    steps: usize,
    step_size_ok: bool,
    force_cap_ok: bool,
) -> Option<Seq<char>> {
    if population_size == 0 {
        Some("population_size must be greater than zero"@)
    } else if atom_count < 2 {
        Some("atom_count must be at least two"@)
    } else if elite_count == 0 || elite_count > population_size {
        Some("elite_count must be between one and population_size"@)
    } else if !mutation_ok {
        Some("mutation_stddev must be positive and finite"@)
    } else if !extent_ok {
        Some("initial_extent must be positive and finite"@)
    } else {
        relaxation_problem(steps, step_size_ok, force_cap_ok)
    }
}

/// Checks a search configuration, its relaxation setting last.
pub fn validate_search(
    population_size: usize,
    atom_count: usize,
    elite_count: usize,
    mutation_ok: bool,
    extent_ok: bool,
    steps: usize,
    step_size_ok: bool,
    force_cap_ok: bool,
) -> (r: Result<(), SearchError>)
    ensures
        config_verdict(
            r,
            search_problem(
                population_size,
                atom_count,
                elite_count,
                mutation_ok,
                extent_ok,
                steps,
                step_size_ok,
                force_cap_ok,
            ),
        ),
{
    if population_size == 0 {
        return Err(SearchError::InvalidConfig("population_size must be greater than zero".to_owned()));
    }
    if atom_count < 2 {
        return Err(SearchError::InvalidConfig("atom_count must be at least two".to_owned()));
    }
    if elite_count == 0 || elite_count > population_size {
        return Err(
            SearchError::InvalidConfig("elite_count must be between one and population_size".to_owned()),
        );
    }
    if !mutation_ok {
        return Err(SearchError::InvalidConfig("mutation_stddev must be positive and finite".to_owned()));
    }
    if !extent_ok {
        return Err(SearchError::InvalidConfig("initial_extent must be positive and finite".to_owned()));
    }
    validate_relaxation(steps, step_size_ok, force_cap_ok)
}

/// `"expected {expected} individuals, found {found}"`.
pub open spec fn size_text(expected: nat, found: nat) -> Seq<char> {
    "expected "@ + decimal(expected) + " individuals, found "@ + decimal(found)
}

/// `"individual {id} has {atoms} atoms; expected {expected}"`.
pub open spec fn atoms_text(id: nat, atoms: nat, expected: nat) -> Seq<char> {
    "individual "@ + decimal(id) + " has "@ + decimal(atoms) + " atoms; expected "@ + decimal(expected)
}

/// Every member before index `i` carries `atom_count` atoms.
pub open spec fn sized_before(members: Seq<Member>, atom_count: usize, i: int) -> bool {
    forall|j: int| 0 <= j < i ==> (#[trigger] members[j]).atoms == atom_count
}

/// The verdict on a population's shape: its size first, then the first member whose atom
/// count is off.
pub open spec fn shape_verdict(
    r: Result<(), SearchError>,
    members: Seq<Member>,
    expected_size: usize,
    atom_count: usize,
) -> bool {
    if members.len() != expected_size {
        population_refused(r, size_text(expected_size as nat, members.len()))
    } else if sized_before(members, atom_count, members.len() as int) {
        r is Ok
    } else {
        exists|i: int|
            0 <= i < members.len() && members[i].atoms != atom_count && sized_before(
                members,
                atom_count,
                i,
            ) && population_refused(
                r,
                atoms_text((#[trigger] members[i]).id as nat, members[i].atoms as nat, atom_count as nat),
            )
    }
}

/// Index of the first member whose atom count is not `atom_count`, if any.
fn first_missized(members: &[Member], atom_count: usize) -> (r: Option<usize>)
    ensures
        match r {
            Some(i) => i < members@.len() && members@[i as int].atoms != atom_count && sized_before(
                members@,
                atom_count,
                i as int,
            ),
            None => sized_before(members@, atom_count, members@.len() as int),
        },
{
    let mut i: usize = 0;
    while i < members.len()
        invariant
            i <= members@.len(),
            sized_before(members@, atom_count, i as int),
        decreases members@.len() - i,
    {
        if members[i].atoms != atom_count {
            return Some(i);
        }
        i += 1;
    }
    None
}

/// Checks that a population has `expected_size` members of `atom_count` atoms each.
pub fn validate_population(members: &[Member], expected_size: usize, atom_count: usize) -> (r: Result<
    (),
    SearchError,
>)
    ensures
        shape_verdict(r, members@, expected_size, atom_count),
{
    if members.len() != expected_size {
        let mut text = "expected ".to_owned();
        push_decimal(&mut text, expected_size as u64);
        text.append(" individuals, found ");
        push_decimal(&mut text, members.len() as u64);
        return Err(SearchError::InvalidPopulation(text));
    }
    match first_missized(members, atom_count) {
        None => Ok(()),
        Some(i) => {
            let member = members[i];
            let mut text = "individual ".to_owned();
            push_decimal(&mut text, member.id);
            text.append(" has ");
            push_decimal(&mut text, member.atoms as u64);
            text.append(" atoms; expected ");
            push_decimal(&mut text, atom_count as u64);
            let r = Err(SearchError::InvalidPopulation(text));
            proof {
                assert(members@[i as int] == member);
            }
            r
        },
    }
}

/// Every member before index `i` has a finite energy.
pub open spec fn scored_before(members: Seq<Member>, i: int) -> bool {
    forall|j: int| 0 <= j < i ==> (#[trigger] members[j]).scored
}

/// Checks a population before it breeds: its shape, then that every member has a finite
/// energy; the first member without one is named.
pub fn check_ready(members: &[Member], expected_size: usize, atom_count: usize) -> (r: Result<
    (),
    SearchError,
>)
    ensures
        members@.len() != expected_size || !sized_before(members@, atom_count, members@.len() as int)
            ==> shape_verdict(r, members@, expected_size, atom_count),
        members@.len() == expected_size && sized_before(members@, atom_count, members@.len() as int)
            ==> {
            ||| scored_before(members@, members@.len() as int) && r is Ok
            ||| exists|i: int|
                0 <= i < members@.len() && !(#[trigger] members@[i]).scored && scored_before(members@, i)
                    && r == Err::<(), SearchError>(SearchError::MissingEvaluation { individual_id: members@[i].id })
        },
{
    let shape = validate_population(members, expected_size, atom_count);
    if shape.is_err() {
        return shape;
    }
    proof {
        if !sized_before(members@, atom_count, members@.len() as int) {
            let i = choose|i: int|
                0 <= i < members@.len() && members@[i].atoms != atom_count && sized_before(
                    members@,
                    atom_count,
                    i,
                ) && population_refused(
                    shape,
                    atoms_text((#[trigger] members@[i]).id as nat, members@[i].atoms as nat, atom_count as nat),
                );
        }
    }
    let mut i: usize = 0;
    while i < members.len()
        invariant
            i <= members@.len(),
            members@.len() == expected_size,
            sized_before(members@, atom_count, members@.len() as int),
            scored_before(members@, i as int),
        decreases members@.len() - i,
    {
        if !members[i].scored {
            return Err(SearchError::MissingEvaluation { individual_id: members[i].id });
        }
        i += 1;
    }
    Ok(())
}

/// What the search reads of an evaluation: whether its energy is finite, and how many force
/// vectors it carries.
#[derive(Clone, Copy, PartialEq, Eq, Structural, Debug)]
pub struct Scorecard {
    pub finite: bool,
    pub forces: usize,
}

/// `"received {evaluations} evaluations for {individuals} individuals"`.
pub open spec fn count_text(evaluations: nat, individuals: nat) -> Seq<char> {
    "received "@ + decimal(evaluations) + " evaluations for "@ + decimal(individuals) + " individuals"@
}

/// `"individual {id} received a non-finite energy"`.
pub open spec fn energy_text(id: nat) -> Seq<char> {
    "individual "@ + decimal(id) + " received a non-finite energy"@
}

/// `"individual {id} received {forces} force vectors; expected {expected}"`.
pub open spec fn forces_text(id: nat, forces: nat, expected: nat) -> Seq<char> {
    "individual "@ + decimal(id) + " received "@ + decimal(forces) + " force vectors; expected "@
        + decimal(expected)
}

/// Evaluation `k` is acceptable: a finite energy and one force per atom.
pub open spec fn sound(card: Scorecard, atom_count: usize) -> bool {
    card.finite && card.forces == atom_count
}

/// Every evaluation before index `i` is acceptable.
pub open spec fn sound_before(cards: Seq<Scorecard>, atom_count: usize, i: int) -> bool {
    forall|j: int| 0 <= j < i ==> sound(#[trigger] cards[j], atom_count)
}

/// The refusal of the first unacceptable evaluation, at index `i`.
pub open spec fn card_refusal(r: Result<(), SearchError>, member: Member, card: Scorecard, atom_count: usize) -> bool {
    if !card.finite {
        population_refused(r, energy_text(member.id as nat))
    } else {
        population_refused(r, forces_text(member.id as nat, card.forces as nat, atom_count as nat))
    }
}

/// Checks the evaluations handed back for a population, in the order the search reads them:
/// the population's shape, one evaluation per member, then each evaluation in turn, its
/// energy before its forces. On `Ok` every member may take its energy.
pub fn check_evaluations(
    members: &[Member],
    cards: &[Scorecard],
    expected_size: usize,
    atom_count: usize,
) -> (r: Result<(), SearchError>)
    ensures
        members@.len() != expected_size || !sized_before(members@, atom_count, members@.len() as int)
            ==> shape_verdict(r, members@, expected_size, atom_count),
        members@.len() == expected_size && sized_before(members@, atom_count, members@.len() as int)
            && cards@.len() != members@.len() ==> population_refused(
            r,
            count_text(cards@.len(), members@.len()),
        ),
        members@.len() == expected_size && sized_before(members@, atom_count, members@.len() as int)
            && cards@.len() == members@.len() ==> {
            ||| sound_before(cards@, atom_count, cards@.len() as int) && r is Ok
            ||| exists|i: int|
                0 <= i < cards@.len() && !sound(#[trigger] cards@[i], atom_count) && sound_before(
                    cards@,
                    atom_count,
                    i,
                ) && card_refusal(r, members@[i], cards@[i], atom_count)
        },
{
    let shape = validate_population(members, expected_size, atom_count);
    if shape.is_err() {
        return shape;
    }
    proof {
        if !sized_before(members@, atom_count, members@.len() as int) {
            let i = choose|i: int|
                0 <= i < members@.len() && members@[i].atoms != atom_count && sized_before(
                    members@,
                    atom_count,
                    i,
                ) && population_refused(
                    shape,
                    atoms_text((#[trigger] members@[i]).id as nat, members@[i].atoms as nat, atom_count as nat),
                );
        }
    }
    if cards.len() != members.len() {
        let mut text = "received ".to_owned();
        push_decimal(&mut text, cards.len() as u64);
        text.append(" evaluations for ");
        push_decimal(&mut text, members.len() as u64);
        text.append(" individuals");
        return Err(SearchError::InvalidPopulation(text));
    }
    let mut i: usize = 0;
    while i < cards.len()
        invariant
            i <= cards@.len(),
            cards@.len() == members@.len(),
            members@.len() == expected_size,
            sized_before(members@, atom_count, members@.len() as int),
            sound_before(cards@, atom_count, i as int),
        decreases cards@.len() - i,
    {
        let card = cards[i];
        let id = members[i].id;
        if !card.finite {
            let mut text = "individual ".to_owned();
            push_decimal(&mut text, id);
            text.append(" received a non-finite energy");
            return Err(SearchError::InvalidPopulation(text));
        }
        if card.forces != atom_count {
            let mut text = "individual ".to_owned();
            push_decimal(&mut text, id);
            text.append(" received ");
            push_decimal(&mut text, card.forces as u64);
            text.append(" force vectors; expected ");
            push_decimal(&mut text, atom_count as u64);
            return Err(SearchError::InvalidPopulation(text));
        }
        i += 1;
    }
    Ok(())
}

/// `"initializer produced {produced} atoms; expected {expected}"`.
pub open spec fn produced_text(produced: nat, expected: nat) -> Seq<char> {
    "initializer produced "@ + decimal(produced) + " atoms; expected "@ + decimal(expected)
}

/// Checks that an initializer produced `expected` atoms.
pub fn check_produced(produced: usize, expected: usize) -> (r: Result<(), SearchError>)
    ensures
        produced == expected ==> r is Ok,
        produced != expected ==> population_refused(r, produced_text(produced as nat, expected as nat)),
{
    if produced == expected {
        return Ok(());
    }
    let mut text = "initializer produced ".to_owned();
    push_decimal(&mut text, produced as u64);
    text.append(" atoms; expected ");
    push_decimal(&mut text, expected as u64);
    Err(SearchError::InvalidPopulation(text))
}

/// Which elite each child of a generation descends from: child `k` takes elite `k` modulo
/// the number of elites. The first `elite_count` children are the elites' clones, the rest
/// their mutants.
pub fn parent_slots(elite_count: usize, population_size: usize) -> (slots: Vec<usize>)
    requires
        elite_count > 0,
    ensures
        slots@.len() == population_size,
        forall|k: int| 0 <= k < population_size ==> #[trigger] slots@[k] == k % (elite_count as int),
{
    let mut slots: Vec<usize> = Vec::new();
    let mut k: usize = 0;
    while k < population_size
        invariant
            k <= population_size,
            elite_count > 0,
            slots@.len() == k,
            forall|j: int| 0 <= j < k ==> #[trigger] slots@[j] == j % (elite_count as int),
        decreases population_size - k,
    {
        slots.push(k % elite_count);
        k += 1;
    }
    slots
}

/// `"polymer initializer received {requested} atoms for a {beads}-bead topology"`.
pub open spec fn initializer_text(requested: nat, beads: nat) -> Seq<char> {
    "polymer initializer received "@ + decimal(requested) + " atoms for a "@ + decimal(beads)
        + "-bead topology"@
}

/// Checks that a polymer initializer is asked for as many atoms as its topology has beads.
pub fn check_initializer_request(requested: usize, beads: usize) -> (r: Result<(), SearchError>)
    ensures
        requested == beads ==> r is Ok,
        requested != beads ==> population_refused(r, initializer_text(requested as nat, beads as nat)),
{
    if requested == beads {
        return Ok(());
    }
    let mut text = "polymer initializer received ".to_owned();
    push_decimal(&mut text, requested as u64);
    text.append(" atoms for a ");
    push_decimal(&mut text, beads as u64);
    text.append("-bead topology");
    Err(SearchError::InvalidPopulation(text))
}

/// `"expected {beads} beads, found {found}"`.
pub open spec fn beads_text(beads: nat, found: nat) -> Seq<char> {
    "expected "@ + decimal(beads) + " beads, found "@ + decimal(found)
}

/// Checks that a candidate carries one coordinate per bead of the topology.
pub fn check_bead_count(beads: usize, found: usize) -> (r: Result<(), EvaluationError>)
    ensures
        beads == found ==> r is Ok,
        beads != found ==> (r matches Err(EvaluationError::InvalidIndividual(m)) && m@ == beads_text(
            beads as nat,
            found as nat,
        )),
{
    if beads == found {
        return Ok(());
    }
    let mut text = "expected ".to_owned();
    push_decimal(&mut text, beads as u64);
    text.append(" beads, found ");
    push_decimal(&mut text, found as u64);
    Err(EvaluationError::InvalidIndividual(text))
}

/// `"atoms {first} and {second} overlap"`.
pub open spec fn overlap_text(first: nat, second: nat) -> Seq<char> {
    "atoms "@ + decimal(first) + " and "@ + decimal(second) + " overlap"@
}

/// The failure of an evaluation in which atoms `first` and `second` sit on top of each other.
pub fn overlap_failure(first: usize, second: usize) -> (e: EvaluationError)
    ensures
        e matches EvaluationError::NumericalFailure(m) && m@ == overlap_text(first as nat, second as nat),
{
    let mut text = "atoms ".to_owned();
    push_decimal(&mut text, first as u64);
    text.append(" and ");
    push_decimal(&mut text, second as u64);
    text.append(" overlap");
    EvaluationError::NumericalFailure(text)
}

/// What a session request comes to: the inheritance mode and whether the polymer problem
/// is posed, or the status code of the refusal. Codes: 3 an unknown mode, 9 a remote session
/// that is not single-point, 10 a remote session that does not pose the polymer problem,
/// 5 an unknown problem, checked in that order.
pub open spec fn spec_session_request(mode: u32, problem: u32, remote: bool) -> Result<(EvolutionMode, bool), i32> {
    if mode > 2 {
        Err(3)
    } else {
        let m = if mode == 0 {
            EvolutionMode::SinglePoint
        } else if mode == 1 {
            EvolutionMode::Lamarckian
        } else {
            EvolutionMode::Baldwinian
        };
        if remote && m != EvolutionMode::SinglePoint {
            Err(9)
        } else if remote && problem != 1 {
            Err(10)
        } else if problem > 1 {
            Err(5)
        } else {
            Ok((m, problem == 1))
        }
    }
}

/// Reads the mode, problem and remoteness of a session request.
pub fn session_request(mode: u32, problem: u32, remote: bool) -> (r: Result<(EvolutionMode, bool), i32>)
    ensures
        r == spec_session_request(mode, problem, remote),
{
    let m = match mode_from_code(mode) {
        Some(m) => m,
        None => {
            return Err(3);
        },
    };
    if remote && m != EvolutionMode::SinglePoint {
        return Err(9);
    }
    if remote && problem != 1 {
        return Err(10);
    }
    if problem > 1 {
        return Err(5);
    }
    Ok((m, problem == 1))
}

/// How many elites a session keeps: an eighth of the population, at least one.
pub fn session_elite_count(population_size: usize) -> (r: usize)
    ensures
        r == if population_size / 8 >= 1 {
            population_size / 8
        } else {
            1
        },
{
    let eighth = population_size / 8;
    if eighth >= 1 {
        eighth
    } else {
        1
    }
}

/// Whether a remote session may commit its pending evaluations, or the status code of the
/// refusal: 1 no session, 2 a session that is not remote, 3 nothing pending, 4 a pending
/// energy that is not finite, checked in that order.
pub fn commit_refusal(has_session: bool, remote: bool, has_pending: bool, energies_finite: bool) -> (r:
    Option<i32>)
    ensures
        r == if !has_session {
            Some(1i32)
        } else if !remote {
            Some(2i32)
        } else if !has_pending {
            Some(3i32)
        } else if !energies_finite {
            Some(4i32)
        } else {
            None
        },
{
    if !has_session {
        Some(1)
    } else if !remote {
        Some(2)
    } else if !has_pending {
        Some(3)
    } else if !energies_finite {
        Some(4)
    } else {
        None
    }
}

} // verus!
