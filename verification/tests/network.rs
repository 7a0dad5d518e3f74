use demo_lab::network::{
    build_guidance, classify, largest_reachable_node, limiting_throat, plan_guidance, reachable_nodes, widest_path,
    CandidateNote, Classification, GuidancePlan, HintKind, NodeRole, Throat,
};

fn throat(from: usize, to: usize, width: u64) -> Throat {
    Throat {
        from,
        to,
        blocked: false,
        width,
    }
}

fn gate_sprint() -> Vec<Throat> {
    vec![
        throat(0, 1, 130),
        throat(0, 2, 110),
        throat(1, 3, 85),
        throat(2, 3, 118),
        throat(3, 4, 115),
        throat(3, 5, 95),
        throat(4, 6, 128),
        throat(5, 6, 105),
    ]
}

#[test]
fn widest_route_avoids_the_narrow_aperture() {
    let throats = gate_sprint();
    let (width, path) = widest_path(7, &throats, 0, 6);
    assert_eq!(width, Some(110));
    assert_eq!(path, vec![1, 3, 4, 6]);
    assert_eq!(limiting_throat(&throats, &path), Some(1));
}

#[test]
fn blocking_a_throat_reroutes_the_gas() {
    let mut throats = gate_sprint();
    throats[1].blocked = true;
    let (width, path) = widest_path(7, &throats, 0, 6);
    assert_eq!(width, Some(85));
    assert_eq!(path, vec![0, 2, 4, 6]);
    assert_eq!(limiting_throat(&throats, &path), Some(2));
}

#[test]
fn sealed_inlet_leaves_no_route() {
    let mut throats = gate_sprint();
    throats[0].blocked = true;
    throats[1].blocked = true;
    let (width, path) = widest_path(7, &throats, 0, 6);
    assert_eq!(width, None);
    assert!(path.is_empty());
    let seen = reachable_nodes(7, &throats, 0);
    assert_eq!(seen, vec![true, false, false, false, false, false, false]);
    assert_eq!(limiting_throat(&throats, &[]), None);
}

#[test]
fn every_pore_is_reached_through_open_throats() {
    let throats = gate_sprint();
    assert_eq!(reachable_nodes(7, &throats, 0), vec![true; 7]);
    let mut cut = gate_sprint();
    cut[6].blocked = true;
    cut[7].blocked = true;
    assert_eq!(
        reachable_nodes(7, &cut, 0),
        vec![true, true, true, true, true, true, false]
    );
}

#[test]
fn start_is_its_own_unbounded_route() {
    let throats = gate_sprint();
    let (width, path) = widest_path(7, &throats, 3, 3);
    assert_eq!(width, Some(u64::MAX));
    assert!(path.is_empty());
}

#[test]
fn limiting_throat_takes_the_first_of_equal_narrowest() {
    let throats = vec![throat(0, 1, 5), throat(1, 2, 3), throat(2, 3, 3)];
    assert_eq!(limiting_throat(&throats, &[0, 1, 2]), Some(1));
    assert_eq!(limiting_throat(&throats, &[2, 1]), Some(2));
}

#[test]
fn classifications_rank_and_read() {
    assert_eq!(classify(true, true), Classification::Open);
    assert_eq!(classify(true, false), Classification::Bottlenecked);
    assert_eq!(classify(false, true), Classification::Blocked);
    assert_eq!(Classification::Open.rank(), 2);
    assert_eq!(Classification::Bottlenecked.rank(), 1);
    assert_eq!(Classification::Blocked.rank(), 0);
    assert_eq!(Classification::Open.as_str(), "Open pathway");
    assert_eq!(Classification::Blocked.as_str(), "Blocked");
}

#[test]
fn guidance_flags_a_cheap_flip() {
    let plan = plan_guidance(
        Classification::Open,
        Classification::Blocked,
        false,
        false,
        2,
        false,
        false,
    );
    assert_eq!(plan.hint, HintKind::SmoothRun);
    assert_eq!(plan.note, CandidateNote::MovesFlipped);
    assert!(plan.interesting);
    let stuck = plan_guidance(
        Classification::Blocked,
        Classification::Blocked,
        false,
        false,
        0,
        true,
        false,
    );
    assert_eq!(stuck.hint, HintKind::Reconnect);
    assert_eq!(stuck.note, CandidateNote::NoTransition);
    assert!(!stuck.interesting);
    let edge = plan_guidance(
        Classification::Open,
        Classification::Open,
        true,
        false,
        5,
        true,
        false,
    );
    assert_eq!(edge.hint, HintKind::ThresholdHit);
    assert_eq!(edge.note, CandidateNote::TradeOff);
    let gain = plan_guidance(
        Classification::Bottlenecked,
        Classification::Blocked,
        false,
        false,
        3,
        false,
        true,
    );
    assert_eq!(gain.hint, HintKind::WidestPathFound);
    assert_eq!(gain.note, CandidateNote::ScoreJump);
}

#[test]
fn guidance_texts_follow_the_plan() {
    let blocked = GuidancePlan {
        hint: HintKind::Reconnect,
        note: CandidateNote::NoTransition,
        interesting: false,
    };
    let g = build_guidance(blocked, None, 0, "1.2", "0.05", "3");
    assert_eq!(g.hint_title, "Reconnect");
    assert_eq!(g.hint_text, "Open one lane, then widen the limiting aperture.");
    assert_eq!(g.candidate_title, "Not flagged");
    assert_eq!(g.candidate_text, "No sharp transition yet.");
    assert!(!g.interesting);

    let narrow = GuidancePlan {
        hint: HintKind::WidestPathFound,
        note: CandidateNote::MovesFlipped,
        interesting: true,
    };
    let g = build_guidance(narrow, Some("west throat"), 0, "1.2", "0.05", "3");
    assert_eq!(g.hint_title, "Widest path found");
    assert_eq!(g.hint_text, "west throat is still below 1.2.");
    assert_eq!(g.candidate_title, "Flagged");
    assert_eq!(g.candidate_text, "1 moves flipped transport.");
    assert!(g.interesting);

    let g = build_guidance(
        GuidancePlan {
            hint: HintKind::ThresholdHit,
            note: CandidateNote::ScoreJump,
            interesting: true,
        },
        Some("gate"),
        12,
        "0.8",
        "0.03",
        "24",
    );
    assert_eq!(g.hint_title, "Threshold hit");
    assert_eq!(g.hint_text, "Clearance is only 0.03.");
    assert_eq!(g.candidate_text, "Score jumped by 24.");

    let g = build_guidance(
        GuidancePlan {
            hint: HintKind::SmoothRun,
            note: CandidateNote::NearTarget,
            interesting: true,
        },
        Some("gate"),
        2,
        "0.8",
        "0.30",
        "5",
    );
    assert_eq!(g.hint_title, "Smooth run");
    assert_eq!(g.hint_text, "Now beat it in fewer moves.");
    assert_eq!(g.candidate_text, "Best gate sits near 0.8.");

    let g = build_guidance(
        GuidancePlan {
            hint: HintKind::SmoothRun,
            note: CandidateNote::MovesFlipped,
            interesting: true,
        },
        None,
        2,
        "0.8",
        "0.30",
        "5",
    );
    assert_eq!(g.candidate_text, "2 moves flipped transport.");
    let g = build_guidance(
        GuidancePlan {
            hint: HintKind::SmoothRun,
            note: CandidateNote::TradeOff,
            interesting: true,
        },
        None,
        2,
        "0.8",
        "0.30",
        "5",
    );
    assert_eq!(g.candidate_text, "Open, but expensive. There is a real trade-off.");
}

#[test]
fn node_roles_are_distinct() {
    assert_ne!(NodeRole::Inlet, NodeRole::Outlet);
    assert_ne!(NodeRole::Outlet, NodeRole::Internal);
    assert_eq!(NodeRole::Internal, NodeRole::Internal);
}

#[test]
fn largest_cavity_sits_at_the_widest_reached_gate() {
    let mut throats = vec![throat(0, 1, 40), throat(1, 2, 90), throat(2, 3, 90), throat(3, 4, 150)];
    throats[3].blocked = true;
    let seen = reachable_nodes(5, &throats, 0);
    assert_eq!(seen, vec![true, true, true, true, false]);
    // nodes 1 and 2 both touch a 90 throat; node 1 comes first, the blocked 150 throat does not count
    assert_eq!(largest_reachable_node(&throats, &seen), Some(1));
    let none_open: Vec<Throat> = Vec::new();
    assert_eq!(largest_reachable_node(&none_open, &[true, false]), None);
    assert_eq!(largest_reachable_node(&throats, &[false, false, false, false, true]), None);
}

#[test]
fn every_prefix_of_the_widest_route_is_widest() {
    // two routes of width 5 to node 3; the one returned reaches node 1 by its wider way
    let throats = vec![throat(0, 1, 6), throat(1, 3, 5), throat(0, 2, 9), throat(2, 1, 9)];
    let (width, path) = widest_path(4, &throats, 0, 3);
    assert_eq!(width, Some(5));
    assert_eq!(path, vec![2, 3, 1]);
}
