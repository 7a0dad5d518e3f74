use demo_lab::genetics::{
    batch_mode, mode_from_code, operation_code, EvaluationError, EvolutionMode, GeneticOperation, SearchError,
    SplitMix64, GOLDEN_GAMMA,
};
use demo_lab::grains::{GrainSim, Proposal, GRAINS, HEIGHT, WIDTH};
use demo_lab::lattice::{
    ceil_cuberoot, linear_index, neighbour_cells, reciprocal_modes, shell_cells, wrap, wrap_cell,
};
use demo_lab::reconnect::{
    crank_hinges, eligible_chains, exchange_tails, other_chain, swap_partner, tail_limit,
};
use demo_lab::shapes::{query_flag, replay_chunks, GeometryKind, ShapeKind};
use demo_lab::text::push_decimal;

#[test]
fn wrapping_stays_on_the_periodic_axis() {
    assert_eq!(wrap_cell(0, -1, 5), 4);
    assert_eq!(wrap_cell(4, 1, 5), 0);
    assert_eq!(wrap_cell(2, -12, 5), 0);
    assert_eq!(wrap_cell(3, 0, 5), 3);
    assert_eq!(wrap(1, 7, 4), 0);
    assert_eq!(wrap(0, -1, 3), 2);
}

#[test]
fn cube_roots_round_up() {
    assert_eq!(ceil_cuberoot(0), 1);
    assert_eq!(ceil_cuberoot(1), 1);
    assert_eq!(ceil_cuberoot(8), 2);
    assert_eq!(ceil_cuberoot(9), 3);
    assert_eq!(ceil_cuberoot(27), 3);
    assert_eq!(ceil_cuberoot(1000), 10);
    assert_eq!(ceil_cuberoot(1001), 11);
}

#[test]
fn reciprocal_modes_run_along_each_axis() {
    let modes = reciprocal_modes(2);
    assert_eq!(
        modes,
        vec![[1, 0, 0], [0, 1, 0], [0, 0, 1], [2, 0, 0], [0, 2, 0], [0, 0, 2]]
    );
    assert!(reciprocal_modes(0).is_empty());
}

#[test]
fn second_chain_skips_the_first() {
    assert_eq!(other_chain(2, 0), 0);
    assert_eq!(other_chain(2, 1), 1);
    assert_eq!(other_chain(2, 2), 3);
    assert_eq!(other_chain(0, 0), 1);
    assert_eq!(tail_limit(5, 3), 2);
    assert_eq!(tail_limit(1, 8), 0);
    assert_eq!(tail_limit(0, 4), 0);
}

#[test]
fn exchanging_tails_swaps_bead_for_bead() {
    assert_eq!(swap_partner(4, 3, 8, 2), 9);
    assert_eq!(swap_partner(9, 3, 8, 2), 4);
    assert_eq!(swap_partner(5, 3, 8, 2), 5);
    let mut beads = [0, 1, 2, 3, 4, 5, 6, 7, 8, 9];
    exchange_tails(&mut beads, 3, 8, 2);
    assert_eq!(beads, [0, 1, 2, 8, 9, 5, 6, 7, 3, 4]);
    exchange_tails(&mut beads, 3, 8, 2);
    assert_eq!(beads, [0, 1, 2, 3, 4, 5, 6, 7, 8, 9]);
    assert_eq!(eligible_chains(&[3, 4, 2, 9]), vec![1, 3]);
}

#[test]
fn shape_names_read_in_any_case() {
    assert_eq!(ShapeKind::from_str("Hexagon"), ShapeKind::Hex);
    assert_eq!(ShapeKind::from_str("TRI"), ShapeKind::Tri);
    assert_eq!(ShapeKind::from_str("square"), ShapeKind::Square);
    assert_eq!(ShapeKind::from_str("blob"), ShapeKind::Disk);
    assert_eq!(ShapeKind::Oct.as_str(), "oct");
    assert_eq!(ShapeKind::from_str(ShapeKind::Rect.as_str()), ShapeKind::Rect);
    assert_eq!(ShapeKind::Hex.polygon_sides(), Some(6));
    assert_eq!(ShapeKind::Disk.polygon_sides(), None);
    assert_eq!(ShapeKind::Oct.slot(), 5);
    assert_eq!(GeometryKind::from_str("Circle"), GeometryKind::Circle);
    assert_eq!(GeometryKind::from_str("torus"), GeometryKind::Box);
    assert_eq!(GeometryKind::Box.as_str(), "box");
}

#[test]
fn codes_name_operations_and_modes() {
    assert_eq!(operation_code(GeneticOperation::Initialized), 0);
    assert_eq!(operation_code(GeneticOperation::DoubleBridge), 5);
    assert_eq!(mode_from_code(1), Some(EvolutionMode::Lamarckian));
    assert_eq!(mode_from_code(3), None);
    let error = SearchError::from(EvaluationError::NumericalFailure("nan".to_string()));
    assert!(matches!(error, SearchError::Evaluation(EvaluationError::NumericalFailure(_))));
}

#[test]
fn painted_grains_are_uniform_inside_the_brush() {
    let mut sim = GrainSim::new();
    sim.paint(10, 10, 7);
    let centre = 12 * WIDTH + 12;
    assert_eq!(sim.en(centre, 7), 0);
    assert_eq!(sim.proposal(centre, 0), Proposal::Stay);
    assert_eq!(sim.proposal(centre, 3), Proposal::Stay);
    let corner = 0;
    assert_eq!(sim.proposal(corner, 0), Proposal::Stay);
    assert_eq!(sim.proposal(corner, 2), Proposal::Stay);
    sim.update();
    sim.paint_random_grain(100, 100);
    let mut pixels = vec![0u8; 4 * WIDTH * HEIGHT];
    sim.fill_pixels(&mut pixels);
    assert!(pixels.chunks(4).all(|pixel| pixel[3] == 255 && pixel[0] >= 50));
    assert!(GRAINS == 64);
}

#[test]
fn flips_follow_the_energy_rule() {
    let mut sim = GrainSim::new();
    sim.paint(0, 0, 5);
    sim.paint(5, 0, 9);
    let edge = 4;
    let proposal = sim.proposal(edge, 1);
    assert!(matches!(proposal, Proposal::Gamble(9) | Proposal::Accept(9)));
    assert!(sim.en(edge, 5) <= 2);
}

#[test]
fn splitmix_reproduces_its_reference_sequence() {
    let mut generator = SplitMix64::new(0);
    assert_eq!(generator.next_u64(), 0xe220_a839_7b1d_cdaf);
    assert_eq!(generator.state, GOLDEN_GAMMA);
    assert_eq!(generator.next_u64(), 0x6e78_9e6a_a1b9_65f4);
    assert_eq!(generator.next_u64(), 0x06c4_5d18_8009_454f);
    let mut first = SplitMix64::new(42);
    let mut second = SplitMix64::new(42);
    assert_eq!(first.next_u64(), 0xbdd7_3226_2feb_6e95);
    assert_eq!(second.next_u64(), 0xbdd7_3226_2feb_6e95);
    let mut wrapped = SplitMix64::new(u64::MAX);
    wrapped.next_u64();
    assert_eq!(wrapped.state, GOLDEN_GAMMA - 1);
}

#[test]
fn errors_describe_themselves() {
    assert_eq!(
        EvaluationError::InvalidIndividual("bad".to_string()).describe(),
        "invalid individual: bad"
    );
    assert_eq!(
        EvaluationError::NumericalFailure("nan".to_string()).describe(),
        "numerical failure: nan"
    );
    assert_eq!(
        SearchError::InvalidConfig("zero".to_string()).describe(),
        "invalid search configuration: zero"
    );
    assert_eq!(
        SearchError::InvalidPopulation("short".to_string()).describe(),
        "invalid population: short"
    );
    assert_eq!(
        SearchError::MissingEvaluation { individual_id: 1207 }.describe(),
        "individual 1207 has not been evaluated"
    );
    assert_eq!(
        SearchError::MissingEvaluation { individual_id: 0 }.describe(),
        "individual 0 has not been evaluated"
    );
    assert_eq!(
        SearchError::Evaluation(EvaluationError::NumericalFailure("inf".to_string())).describe(),
        "numerical failure: inf"
    );
}

#[test]
fn decimal_text_has_no_leading_zeros() {
    let mut text = "n=".to_string();
    push_decimal(&mut text, 0);
    push_decimal(&mut text, 10);
    push_decimal(&mut text, u64::MAX);
    assert_eq!(text, "n=01018446744073709551615");
}

#[test]
fn grid_cells_index_row_major() {
    assert_eq!(linear_index([0, 0, 0], 3), 0);
    assert_eq!(linear_index([1, 2, 0], 3), 15);
    assert_eq!(linear_index([2, 2, 2], 3), 26);
}

#[test]
fn neighbour_cells_wrap_and_deduplicate() {
    // with four cells per axis every offset lands on a distinct cell
    let around = neighbour_cells([0, 0, 0], 4);
    assert_eq!(around.len(), 27);
    assert!(around.windows(2).all(|w| w[0] < w[1]));
    assert!(around.contains(&linear_index([3, 3, 3], 4)));
    assert!(around.contains(&linear_index([1, 0, 3], 4)));
    assert!(!around.contains(&linear_index([2, 0, 0], 4)));
    // with two cells per axis the offsets -1 and +1 meet, so all eight cells appear once
    assert_eq!(neighbour_cells([1, 0, 1], 2), (0..8).collect::<Vec<usize>>());
    // a single cell is its own neighbour
    assert_eq!(neighbour_cells([0, 0, 0], 1), vec![0]);
}

#[test]
fn crankshaft_hinges_stay_inside_the_chain() {
    assert_eq!(crank_hinges(10, 4, 0, 0), (10, 12));
    assert_eq!(crank_hinges(10, 4, 1, 0), (11, 13));
    assert_eq!(crank_hinges(0, 8, 2, 3), (2, 7));
}

#[test]
fn shells_cover_the_grid_once() {
    let mut visited = Vec::new();
    assert_eq!(shell_cells([0, 0, 0], 4, 0, &mut visited), vec![0]);
    let first = shell_cells([0, 0, 0], 4, 1, &mut visited);
    assert_eq!(first.len(), 26);
    assert!(!first.contains(&0));
    // on four cells per axis the offsets +2 and -2 meet: every cell with a coordinate 2 is new
    let second = shell_cells([0, 0, 0], 4, 2, &mut visited);
    assert_eq!(second.len(), 37);
    assert!(second.contains(&linear_index([2, 3, 1], 4)));
    assert_eq!(visited.len(), 64);
    let mut sorted = visited.clone();
    sorted.sort_unstable();
    assert_eq!(sorted, (0..64).collect::<Vec<usize>>());
    // a shell already walked yields nothing new
    assert!(shell_cells([0, 0, 0], 4, 1, &mut visited).is_empty());
}

#[test]
fn growth_only_spreads_grains_already_present() {
    let mut sim = GrainSim::new();
    for y in (0..HEIGHT).step_by(5) {
        for x in (0..WIDTH).step_by(5) {
            sim.paint(x, y, 3);
        }
    }
    sim.paint(150, 150, 9);
    let mut before = vec![0u8; 4 * WIDTH * HEIGHT];
    sim.fill_pixels(&mut before);
    let three = before[0..3].to_vec();
    let nine_at = 4 * (152 * WIDTH + 152);
    let nine = before[nine_at..nine_at + 3].to_vec();
    for _ in 0..3 {
        sim.update();
    }
    let mut after = vec![0u8; 4 * WIDTH * HEIGHT];
    sim.fill_pixels(&mut after);
    assert!(after
        .chunks(4)
        .all(|pixel| pixel[0..3] == three[..] || pixel[0..3] == nine[..]));
}

#[test]
fn a_step_takes_an_uphill_flip_only_on_the_coin() {
    let mut sim = GrainSim::new();
    sim.paint(0, 0, 5);
    sim.paint(5, 0, 9);
    // cell 4 touches grain 9 on its right only: moving to 9 raises its energy
    assert_eq!(sim.en(4, 5), 1);
    assert_eq!(sim.en(4, 9), 2);
    assert_eq!(sim.proposal(4, 1), Proposal::Gamble(9));
    sim.step(4, 1, false);
    assert_eq!(sim.proposal(4, 1), Proposal::Gamble(9));
    sim.step(4, 1, true);
    assert_eq!(sim.proposal(4, 1), Proposal::Stay);
    assert_eq!(sim.en(4, 9), 2);
    // cell 3 now has the flipped cell on its right, still an uphill move
    assert_eq!(sim.proposal(3, 1), Proposal::Gamble(9));
    // a step off the lattice edge changes nothing
    sim.step(0, 0, true);
    assert_eq!(sim.proposal(0, 1), Proposal::Stay);
}

#[test]
fn replays_run_in_capped_chunks() {
    assert_eq!(replay_chunks(0), (0, vec![]));
    assert_eq!(replay_chunks(45_000), (45_000, vec![20_000, 20_000, 5_000]));
    assert_eq!(replay_chunks(40_000), (40_000, vec![20_000, 20_000]));
    let (run, chunks) = replay_chunks(1_000_000);
    assert_eq!(run, 300_000);
    assert_eq!(chunks, vec![20_000; 15]);
}

#[test]
fn batch_runs_read_their_mode_and_name_operations() {
    assert_eq!(batch_mode(None), Some(EvolutionMode::Lamarckian));
    assert_eq!(batch_mode(Some("lamarckian")), Some(EvolutionMode::Lamarckian));
    assert_eq!(batch_mode(Some("single-point")), Some(EvolutionMode::SinglePoint));
    assert_eq!(batch_mode(Some("baldwinian")), Some(EvolutionMode::Baldwinian));
    assert_eq!(batch_mode(Some("Baldwinian")), None);
    assert_eq!(GeneticOperation::EliteClone.name(), "elite-clone");
    assert_eq!(GeneticOperation::DoubleBridge.name(), "double-bridge");
    assert_eq!(GeneticOperation::Initialized.name(), "initialized");
}

#[test]
fn query_flags_read_yes_in_any_case() {
    assert!(query_flag(Some("1"), false));
    assert!(query_flag(Some("TRUE"), false));
    assert!(query_flag(Some("Yes"), false));
    assert!(!query_flag(Some("0"), true));
    assert!(!query_flag(Some("yess"), true));
    assert!(!query_flag(Some(" 1"), true));
    assert!(query_flag(None, true));
    assert!(!query_flag(None, false));
}
