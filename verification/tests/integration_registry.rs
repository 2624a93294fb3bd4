use ghostmate::match_registry::{apply_result_counts, RegistryError, RegistryState};
use ghostmate::registry::{
    apply_game_result, leaderboard_rank, sort_leaderboard, AgentStats, ChallengeRecord, GameRecord,
    CHALLENGE_ACCEPTED, CHALLENGE_CANCELLED, CHALLENGE_OPEN, GAME_ACTIVE, GAME_BLACK_WINS, GAME_DRAW,
    GAME_WHITE_WINS, REGISTERED,
};

fn agent(prefix: u64, wins: u64, losses: u64, draws: u64) -> AgentStats {
    AgentStats { prefix, name: [0; 4], wins, losses, draws }
}

// ── AgentStats ──────────────────────────────────────────────────────────────

#[test]
fn score_is_2x_wins_plus_draws() {
    let a = agent(1, 3, 1, 2);
    assert_eq!(a.score(), 3 * 2 + 2);
}

#[test]
fn total_games_sums_all_results() {
    let a = agent(1, 3, 1, 2);
    assert_eq!(a.total_games(), 6);
}

#[test]
fn apply_result_win_as_white() {
    let a = agent(1, 0, 0, 0);
    let a2 = a.apply_result(true, GAME_WHITE_WINS);
    assert_eq!(a2.wins, 1);
    assert_eq!(a2.losses, 0);
    assert_eq!(a2.draws, 0);
}

#[test]
fn apply_result_loss_as_white() {
    let a = agent(1, 0, 0, 0);
    let a2 = a.apply_result(true, GAME_BLACK_WINS);
    assert_eq!(a2.losses, 1);
    assert_eq!(a2.wins, 0);
}

#[test]
fn apply_result_win_as_black() {
    let a = agent(1, 0, 0, 0);
    let a2 = a.apply_result(false, GAME_BLACK_WINS);
    assert_eq!(a2.wins, 1);
    assert_eq!(a2.losses, 0);
}

#[test]
fn apply_result_draw_increments_draws() {
    let a = agent(1, 0, 0, 0);
    let a2 = a.apply_result(true, GAME_DRAW);
    assert_eq!(a2.draws, 1);
    assert_eq!(a2.wins, 0);
    assert_eq!(a2.losses, 0);
}

#[test]
fn apply_result_is_non_mutating() {
    let before = agent(1, 5, 2, 1);
    let _updated = before.apply_result(true, GAME_WHITE_WINS);
    assert_eq!(before.wins, 5, "stats must not be mutated");
}

// ── ChallengeRecord ─────────────────────────────────────────────────────────

#[test]
fn challenge_status_predicates() {
    let open = ChallengeRecord { id: 0, challenger_prefix: 1, wager_amount: 100, status: CHALLENGE_OPEN };
    let accpt = ChallengeRecord { status: CHALLENGE_ACCEPTED, ..open.clone() };
    let cancl = ChallengeRecord { status: CHALLENGE_CANCELLED, ..open.clone() };

    assert!(open.is_open());
    assert!(!open.is_accepted());
    assert!(!open.is_cancelled());
    assert!(accpt.is_accepted());
    assert!(cancl.is_cancelled());
}

// ── GameRecord ──────────────────────────────────────────────────────────────

#[test]
fn winner_prefix_returns_correct_player() {
    let base = GameRecord { id: 0, white_prefix: 10, black_prefix: 20, status: GAME_ACTIVE, game_contract_prefix: 99 };
    assert_eq!(base.winner_prefix(), None);
    assert_eq!(GameRecord { status: GAME_WHITE_WINS, ..base.clone() }.winner_prefix(), Some(10));
    assert_eq!(GameRecord { status: GAME_BLACK_WINS, ..base.clone() }.winner_prefix(), Some(20));
    assert_eq!(GameRecord { status: GAME_DRAW, ..base }.winner_prefix(), None);
}

// ── Leaderboard sorting ─────────────────────────────────────────────────────

#[test]
fn sort_leaderboard_orders_by_wins_descending() {
    let mut agents = vec![agent(1, 2, 1, 0), agent(2, 5, 0, 0), agent(3, 1, 2, 0)];
    sort_leaderboard(&mut agents);
    assert_eq!(agents[0].prefix, 2); // 5 wins
    assert_eq!(agents[1].prefix, 1); // 2 wins
    assert_eq!(agents[2].prefix, 3); // 1 win
}

#[test]
fn sort_leaderboard_breaks_win_ties_by_fewer_losses() {
    let mut agents = vec![
        agent(1, 3, 2, 0), // 3W 2L
        agent(2, 3, 0, 0), // 3W 0L ranks higher
        agent(3, 3, 1, 0), // 3W 1L
    ];
    sort_leaderboard(&mut agents);
    assert_eq!(agents[0].prefix, 2);
    assert_eq!(agents[1].prefix, 3);
    assert_eq!(agents[2].prefix, 1);
}

#[test]
fn sort_leaderboard_breaks_further_ties_by_more_draws() {
    let mut agents = vec![
        agent(1, 3, 0, 1), // 3W 0L 1D
        agent(2, 3, 0, 3), // 3W 0L 3D ranks higher
    ];
    sort_leaderboard(&mut agents);
    assert_eq!(agents[0].prefix, 2);
    assert_eq!(agents[1].prefix, 1);
}

#[test]
fn sort_leaderboard_handles_empty_input() {
    let mut agents: Vec<AgentStats> = vec![];
    sort_leaderboard(&mut agents);
    assert!(agents.is_empty());
}

#[test]
fn sort_leaderboard_handles_single_agent() {
    let mut agents = vec![agent(1, 0, 0, 0)];
    sort_leaderboard(&mut agents);
    assert_eq!(agents.len(), 1);
}

#[test]
fn leaderboard_rank_returns_1_based_position() {
    let agents = vec![agent(10, 5, 0, 0), agent(20, 3, 1, 0), agent(30, 1, 2, 0)];
    assert_eq!(leaderboard_rank(&agents, 10), Some(1));
    assert_eq!(leaderboard_rank(&agents, 20), Some(2));
    assert_eq!(leaderboard_rank(&agents, 30), Some(3));
}

#[test]
fn leaderboard_rank_returns_none_for_unknown_prefix() {
    let agents = vec![agent(10, 5, 0, 0)];
    assert_eq!(leaderboard_rank(&agents, 99), None);
}

// ── apply_game_result ───────────────────────────────────────────────────────

#[test]
fn apply_game_result_updates_both_players() {
    let mut stats = vec![agent(1, 0, 0, 0), agent(2, 0, 0, 0)];
    let updated = apply_game_result(&mut stats, 1, 2, GAME_WHITE_WINS);
    assert_eq!(updated, 2);
    let w = stats.iter().find(|a| a.prefix == 1).unwrap();
    let b = stats.iter().find(|a| a.prefix == 2).unwrap();
    assert_eq!(w.wins, 1);
    assert_eq!(b.losses, 1);
}

#[test]
fn apply_game_result_draw_increments_both_draws() {
    let mut stats = vec![agent(1, 0, 0, 0), agent(2, 0, 0, 0)];
    apply_game_result(&mut stats, 1, 2, GAME_DRAW);
    for a in &stats {
        assert_eq!(a.draws, 1);
    }
}

#[test]
fn apply_game_result_returns_zero_for_unknown_agents() {
    let mut stats = vec![agent(1, 0, 0, 0)];
    let updated = apply_game_result(&mut stats, 99, 100, GAME_WHITE_WINS);
    assert_eq!(updated, 0);
    assert_eq!(stats[0].wins, 0);
}

#[test]
fn apply_game_result_updates_only_one_if_one_unregistered() {
    let mut stats = vec![agent(1, 0, 0, 0)];
    let updated = apply_game_result(&mut stats, 1, 99, GAME_WHITE_WINS);
    assert_eq!(updated, 1);
    assert_eq!(stats[0].wins, 1);
}

// ── Registration ────────────────────────────────────────────────────────────

#[test]
fn registered_sentinel_distinguishes_from_default_zero() {
    // An unregistered agent has all-zero stats; REGISTERED=1 in [3] marks it.
    let zero_word = [0u64, 0, 0, 0];
    let reg_word = [0u64, 0, 0, REGISTERED];
    assert_ne!(zero_word[3], reg_word[3]);
    assert_eq!(reg_word[3], 1);
}

#[test]
fn re_registration_preserves_existing_stats() {
    // Register, record wins, re-register with a new name: the stats stay.
    let mut agents = vec![agent(42, 3, 1, 2)];
    let result = apply_game_result(&mut agents, 42, 99, GAME_WHITE_WINS);
    assert_eq!(result, 1);
    assert_eq!(agents[0].wins, 4); // incremented from 3
}

// ── Challenge lifecycle ─────────────────────────────────────────────────────

#[test]
fn challenge_lifecycle_open_to_accepted() {
    let mut c = ChallengeRecord { id: 0, challenger_prefix: 1, wager_amount: 500, status: CHALLENGE_OPEN };
    assert!(c.is_open());
    c.status = CHALLENGE_ACCEPTED;
    assert!(c.is_accepted());
    assert!(!c.is_open());
}

#[test]
fn challenge_lifecycle_open_to_cancelled() {
    let mut c = ChallengeRecord { id: 1, challenger_prefix: 2, wager_amount: 0, status: CHALLENGE_OPEN };
    assert!(c.is_open());
    c.status = CHALLENGE_CANCELLED;
    assert!(c.is_cancelled());
}

// ── Full registry simulation ────────────────────────────────────────────────

#[test]
fn full_registry_sim_two_agents_one_game() {
    let mut agents = vec![agent(10, 0, 0, 0), agent(20, 0, 0, 0)];

    assert!(leaderboard_rank(&agents, 10).is_some());
    assert!(leaderboard_rank(&agents, 20).is_some());

    // Agent 10 (white) wins.
    apply_game_result(&mut agents, 10, 20, GAME_WHITE_WINS);
    sort_leaderboard(&mut agents);

    assert_eq!(agents[0].prefix, 10); // 1 win
    assert_eq!(agents[1].prefix, 20); // 1 loss

    assert_eq!(leaderboard_rank(&agents, 10), Some(1));
    assert_eq!(leaderboard_rank(&agents, 20), Some(2));
}

#[test]
fn full_registry_sim_draw_keeps_equal_score() {
    let mut agents = vec![agent(10, 0, 0, 0), agent(20, 0, 0, 0)];
    apply_game_result(&mut agents, 10, 20, GAME_DRAW);

    let a10 = agents.iter().find(|a| a.prefix == 10).unwrap();
    let a20 = agents.iter().find(|a| a.prefix == 20).unwrap();
    assert_eq!(a10.score(), a20.score());
    assert_eq!(a10.draws, 1);
    assert_eq!(a20.draws, 1);
}

#[test]
fn result_note_storage_layout_is_valid() {
    // What the game contract writes into the result note storage.
    let game_id: u64 = 7;
    let result_status: u64 = GAME_WHITE_WINS;
    let gc_prefix: u64 = 0xDEAD;
    let storage = [game_id, result_status, gc_prefix, 0u64];

    let s = storage[1];
    assert!(s == 1 || s == 2 || s == 3, "invalid result status in storage");
    assert_eq!(storage[3], 0, "reserved field must be zero");
}

// ── The registry state machine ──────────────────────────────────────────────

#[test]
fn registry_challenge_game_and_result_flow() {
    let mut r = RegistryState::new();
    r.initialize([9, 9, 9, 9], [1, 2, 3, 4]);
    assert_eq!(r.post_challenge(10, [500, 0, 0, 0], [0; 4]), Err(RegistryError::NotRegistered));
    r.register_agent(10, [1, 0, 0, 0]);
    r.register_agent(20, [2, 0, 0, 0]);
    r.register_agent(10, [3, 0, 0, 0]); // renaming keeps the count
    assert_eq!(r.get_counts(), [2, 0, 0, 0]);
    assert_eq!(r.get_agent_name([10, 0, 0, 0]), [3, 0, 0, 0]);
    assert_eq!(r.get_agent_stats([10, 0, 0, 0]), [0, 0, 0, REGISTERED]);

    r.post_challenge(10, [500, 0, 0, 0], [5, 5, 5, 5]).unwrap();
    assert_eq!(r.get_challenge([0, 0, 0, 0]), [10, 500, CHALLENGE_OPEN, 0]);
    assert_eq!(r.accept_challenge(10, [0, 0, 0, 0], [77, 0, 0, 0]), Err(RegistryError::OwnChallenge));
    assert_eq!(r.cancel_challenge(20, [0, 0, 0, 0]), Err(RegistryError::NotChallenger));
    r.accept_challenge(20, [0, 0, 0, 0], [77, 0, 0, 0]).unwrap();
    assert_eq!(r.get_challenge([0, 0, 0, 0]), [10, 500, CHALLENGE_ACCEPTED, 0]);
    assert_eq!(r.get_game([0, 0, 0, 0]), [10, 20, GAME_ACTIVE, 77]);
    assert_eq!(r.cancel_challenge(10, [0, 0, 0, 0]), Err(RegistryError::ChallengeNotOpen));

    assert_eq!(r.record_game_result([0, 0, 0, 0], [GAME_WHITE_WINS, 78, 0, 0]), Err(RegistryError::UnauthorizedReporter));
    assert_eq!(r.record_game_result([0, 0, 0, 0], [4, 77, 0, 0]), Err(RegistryError::InvalidResult));
    r.record_game_result([0, 0, 0, 0], [GAME_WHITE_WINS, 77, 0, 0]).unwrap();
    assert_eq!(r.get_game([0, 0, 0, 0]), [10, 20, GAME_WHITE_WINS, 77]);
    assert_eq!(r.get_agent_stats([10, 0, 0, 0]), [1, 0, 0, REGISTERED]);
    assert_eq!(r.get_agent_stats([20, 0, 0, 0]), [0, 1, 0, REGISTERED]);
    assert_eq!(r.record_game_result([0, 0, 0, 0], [GAME_DRAW, 77, 0, 0]), Err(RegistryError::GameSettled));
    assert_eq!(r.get_counts(), [2, 1, 1, 0]);
    // Keys of another shape read as zero.
    assert_eq!(r.get_agent_stats([10, 1, 0, 0]), [0; 4]);
}

#[test]
fn registry_cancel_by_challenger() {
    let mut r = RegistryState::new();
    r.register_agent(3, [0; 4]);
    r.post_challenge(3, [0; 4], [0; 4]).unwrap();
    r.cancel_challenge(3, [0, 0, 0, 0]).unwrap();
    assert_eq!(r.get_challenge([0, 0, 0, 0]), [3, 0, CHALLENGE_CANCELLED, 0]);
    r.register_agent(4, [0; 4]);
    assert_eq!(r.accept_challenge(4, [0, 0, 0, 0], [1, 0, 0, 0]), Err(RegistryError::ChallengeNotOpen));
}

#[test]
fn result_counts_exact() {
    assert_eq!(apply_result_counts(1, 2, 3, true, GAME_WHITE_WINS), (2, 2, 3));
    assert_eq!(apply_result_counts(1, 2, 3, false, GAME_WHITE_WINS), (1, 3, 3));
    assert_eq!(apply_result_counts(1, 2, 3, false, GAME_BLACK_WINS), (2, 2, 3));
    assert_eq!(apply_result_counts(1, 2, 3, true, GAME_DRAW), (1, 2, 4));
    assert_eq!(apply_result_counts(1, 2, 3, true, 0), (1, 2, 3));
}

#[test]
fn registry_refuses_ids_never_issued() {
    let mut r = RegistryState::new();
    r.register_agent(0, [1, 0, 0, 0]);
    r.register_agent(20, [2, 0, 0, 0]);
    let before = r.clone();
    assert_eq!(r.accept_challenge(20, [0, 0, 0, 0], [77, 0, 0, 0]), Err(RegistryError::UnknownChallenge));
    assert_eq!(r.cancel_challenge(0, [0, 0, 0, 0]), Err(RegistryError::UnknownChallenge));
    assert_eq!(r.record_game_result([0, 0, 0, 0], [1, 0, 0, 0]), Err(RegistryError::UnknownGame));
    assert_eq!(r.get_counts(), before.get_counts());
    assert_eq!(r.get_challenge([0, 0, 0, 0]), [0, 0, 0, 0]);
    assert_eq!(r.get_game([0, 0, 0, 0]), [0, 0, 0, 0]);
    r.post_challenge(0, [5, 0, 0, 0], [0; 4]).unwrap();
    assert_eq!(r.accept_challenge(20, [1, 0, 0, 0], [77, 0, 0, 0]), Err(RegistryError::UnknownChallenge));
    r.accept_challenge(20, [0, 0, 0, 0], [77, 0, 0, 0]).unwrap();
    assert_eq!(r.record_game_result([1, 0, 0, 0], [1, 77, 0, 0]), Err(RegistryError::UnknownGame));
    r.record_game_result([0, 0, 0, 0], [1, 77, 0, 0]).unwrap();
}
