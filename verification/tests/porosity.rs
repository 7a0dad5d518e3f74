use demo_lab::flow::{
    analyze, compute_clearance, neighbors4, outlet_center, path_for_tier, reachable_cells,
};
use demo_lab::foundry::{
    centered_spawn_x, choose_rotation, phase_archetype, piece_shape, rank_candidates, shape_stats,
    Game, KnobOrder, Phase,
};
use demo_lab::levels::{
    index, initial_board, kind_from_index, levels, palette, piece_cells, Candidate, Cell,
    ObjectiveKind, PieceKind, BOARD_H, BOARD_W,
};

const KINDS: [PieceKind; 5] = [
    PieceKind::Tetra,
    PieceKind::Cube,
    PieceKind::Octa,
    PieceKind::Dodeca,
    PieceKind::Icosa,
];

fn candidate(kind: PieceKind, fitness: u8, mutation: u8) -> Candidate {
    Candidate {
        kind,
        rotation: 0,
        badge: "Bred",
        origin: "test",
        fitness,
        mutation,
    }
}

#[test]
fn cells_know_what_is_open() {
    assert!(Cell::Channel(3).is_open());
    assert!(Cell::Source.is_open());
    assert!(Cell::Pocket.is_open());
    assert!(!Cell::Matrix.is_open());
    assert!(!Cell::Wall.is_open());
    assert!(Cell::Wall.blocks_piece());
    assert!(!Cell::Matrix.blocks_piece());
}

#[test]
fn palette_slots_read_back_as_their_habit() {
    for kind in KINDS {
        assert_eq!(kind_from_index(kind.palette_index()), kind);
    }
    assert_eq!(kind_from_index(200), PieceKind::Icosa);
    assert_eq!(palette(PieceKind::Cube), "#f59e0b");
    assert_eq!(palette(PieceKind::Icosa), "#a78bfa");
    assert_eq!(PieceKind::Dodeca.label(), "Dodeca");
}

#[test]
fn board_indices_cover_exactly_the_board() {
    assert_eq!(index(0, 0), Some(0));
    assert_eq!(index(9, 15), Some(BOARD_W * BOARD_H - 1));
    assert_eq!(index(3, 2), Some(23));
    assert_eq!(index(10, 0), None);
    assert_eq!(index(0, 16), None);
    assert_eq!(index(-1, 4), None);
}

#[test]
fn piece_shapes_repeat_every_four_turns() {
    assert_eq!(piece_cells(PieceKind::Tetra, 5), piece_cells(PieceKind::Tetra, 1));
    assert_eq!(piece_cells(PieceKind::Cube, 2), &[(0, 0), (1, 0), (0, 1), (1, 1)]);
    assert_eq!(piece_cells(PieceKind::Octa, 3).len(), 5);
    assert_eq!(centered_spawn_x(PieceKind::Octa, 0), 3);
    assert_eq!(centered_spawn_x(PieceKind::Cube, 0), 4);
    assert_eq!(centered_spawn_x(PieceKind::Icosa, 0), 3);
}

#[test]
fn neighbours_and_vent_centre() {
    assert_eq!(neighbors4(3, 7), [(2, 7), (4, 7), (3, 6), (3, 8)]);
    assert_eq!(outlet_center(&[(4, 4), (5, 4)]), 4);
    assert_eq!(outlet_center(&[]), 5);
}

#[test]
fn campaign_has_three_phases() {
    let all = levels();
    assert_eq!(all.len(), 3);
    assert_eq!(all[0].objective_kind, ObjectiveKind::AccessibleVolume { target: 22 });
    assert_eq!(all[1].objective_kind, ObjectiveKind::ProbeToVent { tier: 2 });
    assert_eq!(all[2].objective_kind, ObjectiveKind::AdsorbPockets { target: 2 });
    assert_eq!(phase_archetype(&all[0]), PieceKind::Octa);
    assert_eq!(phase_archetype(&all[1]), PieceKind::Cube);
    assert_eq!(phase_archetype(&all[2]), PieceKind::Dodeca);
}

#[test]
fn first_board_holds_sources_and_seeds() {
    let all = levels();
    let board = initial_board(&all[0]);
    assert_eq!(board.len(), BOARD_W * BOARD_H);
    assert_eq!(board[index(4, 15).unwrap()], Cell::Source);
    assert_eq!(board[index(5, 15).unwrap()], Cell::Source);
    assert_eq!(board[index(4, 14).unwrap()], Cell::Channel(0));
    assert_eq!(board[index(5, 14).unwrap()], Cell::Channel(0));
    assert_eq!(board.iter().filter(|cell| **cell == Cell::Matrix).count(), BOARD_W * BOARD_H - 4);
    let third = initial_board(&all[2]);
    assert_eq!(third[index(5, 5).unwrap()], Cell::Pocket);
}

#[test]
fn gas_reaches_the_open_block_and_nothing_else() {
    let all = levels();
    let board = initial_board(&all[0]);
    let reached = reachable_cells(&board, all[0].sources);
    assert_eq!(reached.iter().filter(|seen| **seen).count(), 4);
    assert!(reached[index(4, 14).unwrap()]);
    let clearance = compute_clearance(&board);
    assert_eq!(clearance[index(5, 15).unwrap()], 2);
    assert_eq!(clearance[index(0, 0).unwrap()], 0);
    let sim = analyze(&board, &all[0]);
    assert_eq!(sim.accessible_count, 4);
    assert_eq!(sim.adsorbed_sites, 0);
    assert_eq!(sim.probe_pass, [false, false, false]);
    assert_eq!(sim.best_probe_tier, 2);
}

#[test]
fn sealed_vent_stops_every_probe() {
    let all = levels();
    let board = initial_board(&all[1]);
    let sim = analyze(&board, &all[1]);
    assert_eq!(sim.accessible_count, 12);
    assert_eq!(sim.probe_pass, [false, false, false]);
    assert_eq!(sim.best_probe_tier, 0);
}

#[test]
fn candidates_rank_by_fitness_then_mutation() {
    let ranked = rank_candidates([
        candidate(PieceKind::Cube, 5, 1),
        candidate(PieceKind::Octa, 9, 0),
        candidate(PieceKind::Tetra, 9, 4),
    ]);
    assert_eq!(ranked[0].kind, PieceKind::Tetra);
    assert_eq!(ranked[1].kind, PieceKind::Octa);
    assert_eq!(ranked[2].kind, PieceKind::Cube);
    let tied = rank_candidates([
        candidate(PieceKind::Cube, 3, 3),
        candidate(PieceKind::Octa, 3, 3),
        candidate(PieceKind::Tetra, 3, 3),
    ]);
    assert_eq!(tied[0].kind, PieceKind::Cube);
    assert_eq!(tied[2].kind, PieceKind::Tetra);
}

#[test]
fn a_turn_breeds_picks_drops_and_locks() {
    let mut game = Game::new();
    assert_eq!(game.phase, Phase::AwaitBreed);
    assert_eq!(game.status_badge(), "Breed");
    assert_eq!(game.star_count(), 0);
    assert!(game.begin_breeding());
    assert_eq!(game.generation, 1);
    game.install_candidates([
        candidate(PieceKind::Cube, 5, 1),
        candidate(PieceKind::Octa, 9, 0),
        candidate(PieceKind::Tetra, 2, 4),
    ]);
    assert_eq!(game.phase, Phase::AwaitPick);
    assert_eq!(game.ai_pick, Some(0));
    assert_eq!(game.candidates[0].unwrap().kind, PieceKind::Octa);
    game.spawn_candidate(0);
    assert_eq!(game.phase, Phase::Falling);
    let piece = game.active.unwrap();
    assert_eq!((piece.x, piece.y), (3, -2));
    assert!(!game.begin_breeding());
    assert!(game.try_move(-1, 0));
    assert_eq!(game.active.unwrap().x, 2);
    // steps of any size: far out of the well is refused, far above it is free
    assert!(!game.try_move(-100, 0));
    assert!(!game.try_move(0, 40));
    assert!(game.try_move(0, -30));
    assert_eq!(game.active.unwrap().y, -32);
    assert!(game.try_move(0, 30));
    assert_eq!((game.active.unwrap().x, game.active.unwrap().y), (2, -2));
    game.hard_drop();
    assert!(game.active.is_none());
    assert_eq!(game.turns_used, 1);
    assert_eq!(game.elite.unwrap().kind, PieceKind::Octa);
    assert_eq!(game.phase, Phase::AwaitBreed);
    assert!(game.sim.accessible_count >= 4);
}

#[test]
fn loading_a_phase_resets_the_lineage() {
    let mut game = Game::new();
    game.load_level(2);
    assert_eq!(game.current_level, 2);
    assert_eq!(game.objective_axis(), 2);
    assert_eq!(game.phase, Phase::AwaitBreed);
    assert_eq!(game.turns_used, 0);
    assert_eq!(game.probe_label(), "Amber");
    let (title, _, flagged) = game.scientific_flag();
    assert_eq!(title, "Poor inheritance");
    assert!(!flagged);
}

#[test]
fn piece_shapes_count_sides() {
    // the plus-shaped octahedron: four arm tips around a centre with four neighbours
    let octa = piece_shape(PieceKind::Octa, 0);
    assert_eq!((octa.width, octa.height, octa.cells), (3, 3, 5));
    assert_eq!(octa.degrees, vec![1, 1, 4, 1, 1]);
    // the T-shaped tetrahedron: three tips and one junction
    let tetra = piece_shape(PieceKind::Tetra, 0);
    assert_eq!((tetra.width, tetra.height, tetra.cells), (3, 2, 4));
    assert_eq!(tetra.degrees, vec![1, 1, 3, 1]);
    // the square: every cell has two neighbours
    let cube = piece_shape(PieceKind::Cube, 2);
    assert_eq!((cube.width, cube.height), (2, 2));
    assert_eq!(cube.degrees, vec![2, 2, 2, 2]);
    // the straight icosahedron arm, turned upright
    let icosa = piece_shape(PieceKind::Icosa, 3);
    assert_eq!((icosa.width, icosa.height), (2, 4));
    // an empty set of cells has a unit box
    let empty = shape_stats(&[]);
    assert_eq!((empty.width, empty.height, empty.cells), (1, 1, 0));
    // a set away from the frame's corner
    let far = shape_stats(&[(-3, 5), (-3, 6), (4, 6)]);
    assert_eq!((far.width, far.height), (8, 2));
    assert_eq!(far.degrees, vec![1, 1, 0]);
}

#[test]
fn rotations_lean_with_the_knobs() {
    let branchy = KnobOrder {
        branch_over_cavern: true,
        branch_over_throat: true,
        throat_over_cavern: false,
    };
    let throaty = KnobOrder {
        branch_over_cavern: false,
        branch_over_throat: false,
        throat_over_cavern: true,
    };
    assert_eq!(choose_rotation(PieceKind::Tetra, branchy, 0, 0), 1);
    assert_eq!(choose_rotation(PieceKind::Tetra, throaty, 0, 0), 0);
    assert_eq!(choose_rotation(PieceKind::Dodeca, branchy, 1, 1), 1);
    assert_eq!(choose_rotation(PieceKind::Icosa, throaty, 2, 0), 1);
    assert_eq!(choose_rotation(PieceKind::Icosa, branchy, 2, 1), 3);
    assert_eq!(choose_rotation(PieceKind::Cube, branchy, 3, 1), 0);
}

#[test]
fn the_probe_takes_a_shortest_route() {
    // a ring of channel: the column x = 0 and the column x = 5, joined by rows 0 and 10
    let mut board = vec![Cell::Matrix; BOARD_W * BOARD_H];
    for y in 0..=10 {
        board[index(0, y).unwrap()] = Cell::Channel(0);
        board[index(5, y).unwrap()] = Cell::Channel(0);
    }
    for x in 0..=5 {
        board[index(x, 0).unwrap()] = Cell::Channel(0);
        board[index(x, 10).unwrap()] = Cell::Channel(0);
    }
    let clearance = compute_clearance(&board);
    let (passed, path) = path_for_tier(&board, &clearance, &[(0, 10)], &[(0, 0)], 0);
    assert!(passed);
    // straight up the left column: eleven cells, not the twenty-one of the way round
    assert_eq!(path.len(), 11);
    assert_eq!(path[0], (0, 10));
    assert_eq!(path[10], (0, 0));
    assert!(path.iter().all(|&(x, _)| x == 0));
}

#[test]
fn pieces_are_distinct_connected_and_framed() {
    for kind in KINDS {
        for rotation in 0..4 {
            let cells = piece_cells(kind, rotation);
            for i in 0..cells.len() {
                for j in i + 1..cells.len() {
                    assert_ne!(cells[i], cells[j]);
                }
            }
            assert_eq!(cells.iter().map(|c| c.0).min(), Some(0));
            assert_eq!(cells.iter().map(|c| c.1).min(), Some(0));
            let mut reached = vec![cells[0]];
            let mut grew = true;
            while grew {
                grew = false;
                for &c in cells {
                    let beside = reached
                        .iter()
                        .any(|r| (r.0 - c.0).abs() + (r.1 - c.1).abs() == 1);
                    if beside && !reached.contains(&c) {
                        reached.push(c);
                        grew = true;
                    }
                }
            }
            assert_eq!(reached.len(), cells.len());
        }
    }
}

#[test]
fn an_unfinished_probe_reports_a_shortest_route_to_its_best_cell() {
    // two columns climb to row 3: x = 4 directly, x = 6 by a detour along row 13
    let mut board = vec![Cell::Matrix; BOARD_W * BOARD_H];
    for y in 3..=12 {
        board[index(4, y).unwrap()] = Cell::Channel(0);
    }
    for y in 3..=13 {
        board[index(6, y).unwrap()] = Cell::Channel(0);
    }
    for x in 3..=6 {
        board[index(x, 13).unwrap()] = Cell::Channel(0);
    }
    board[index(3, 12).unwrap()] = Cell::Source;
    let clearance = compute_clearance(&board);
    let (passed, path) = path_for_tier(&board, &clearance, &[(3, 12)], &[], 0);
    assert!(!passed);
    // (4, 3) and (6, 3) rank equally: top row, one column off the centre; (4, 3) is nearer
    assert_eq!(path.last(), Some(&(4, 3)));
    assert_eq!(path.len(), 11);
    assert_eq!(path[0], (3, 12));
}
