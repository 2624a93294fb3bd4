use ghostmate::registry::{
    apply_game_result, leaderboard_rank, sort_leaderboard, AgentStats, ChallengeRecord, GameRecord,
    CHALLENGE_ACCEPTED, CHALLENGE_CANCELLED, CHALLENGE_OPEN, GAME_ACTIVE, GAME_BLACK_WINS, GAME_DRAW,
    GAME_WHITE_WINS,
};

fn make_agent(prefix: u64, wins: u64, losses: u64, draws: u64) -> AgentStats {
    AgentStats { prefix, name: [0; 4], wins, losses, draws }
}

// ── AgentStats ──────────────────────────────────────────────────────────────

#[test]
fn lib_score_is_2x_wins_plus_draws() {
    let a = make_agent(1, 3, 1, 2);
    assert_eq!(a.score(), 3 * 2 + 2);
}

#[test]
fn lib_total_games_sums_all_results() {
    let a = make_agent(1, 3, 1, 2);
    assert_eq!(a.total_games(), 6);
}

#[test]
fn lib_apply_result_win_as_white() {
    let a = make_agent(1, 0, 0, 0);
    let a2 = a.apply_result(true, GAME_WHITE_WINS);
    assert_eq!(a2.wins, 1);
    assert_eq!(a2.losses, 0);
}

#[test]
fn lib_apply_result_loss_as_white() {
    let a = make_agent(1, 0, 0, 0);
    let a2 = a.apply_result(true, GAME_BLACK_WINS);
    assert_eq!(a2.losses, 1);
    assert_eq!(a2.wins, 0);
}

#[test]
fn lib_apply_result_win_as_black() {
    let a = make_agent(1, 0, 0, 0);
    let a2 = a.apply_result(false, GAME_BLACK_WINS);
    assert_eq!(a2.wins, 1);
    assert_eq!(a2.losses, 0);
}

#[test]
fn lib_apply_result_draw_increments_draws() {
    let a = make_agent(1, 0, 0, 0);
    let a2 = a.apply_result(true, GAME_DRAW);
    assert_eq!(a2.draws, 1);
    assert_eq!(a2.wins, 0);
    assert_eq!(a2.losses, 0);
}

#[test]
fn lib_apply_result_is_non_mutating() {
    let before = make_agent(1, 5, 2, 1);
    let _updated = before.apply_result(true, GAME_WHITE_WINS);
    assert_eq!(before.wins, 5, "stats must not be mutated");
}

// ── ChallengeRecord ─────────────────────────────────────────────────────────

#[test]
fn lib_challenge_status_predicates() {
    let open = ChallengeRecord { id: 0, challenger_prefix: 1, wager_amount: 100, status: CHALLENGE_OPEN };
    let accpt = ChallengeRecord { status: CHALLENGE_ACCEPTED, ..open.clone() };
    let cancl = ChallengeRecord { status: CHALLENGE_CANCELLED, ..open.clone() };
    assert!(open.is_open());
    assert!(!open.is_accepted());
    assert!(!open.is_cancelled());
    assert!(accpt.is_accepted());
    assert!(cancl.is_cancelled());
}

// ── GameRecord ──────────────────────────────────────────────────────────────

#[test]
fn lib_winner_prefix_returns_correct_player() {
    let base = GameRecord { id: 0, white_prefix: 10, black_prefix: 20, status: GAME_ACTIVE, game_contract_prefix: 99 };
    assert_eq!(base.winner_prefix(), None);
    assert_eq!(GameRecord { status: GAME_WHITE_WINS, ..base.clone() }.winner_prefix(), Some(10));
    assert_eq!(GameRecord { status: GAME_BLACK_WINS, ..base.clone() }.winner_prefix(), Some(20));
    assert_eq!(GameRecord { status: GAME_DRAW, ..base }.winner_prefix(), None);
}

// ── Leaderboard sorting ─────────────────────────────────────────────────────

#[test]
fn lib_sort_leaderboard_orders_by_wins_descending() {
    let mut agents = vec![make_agent(1, 2, 1, 0), make_agent(2, 5, 0, 0), make_agent(3, 1, 2, 0)];
    sort_leaderboard(&mut agents);
    assert_eq!(agents[0].prefix, 2); // 5 wins
    assert_eq!(agents[1].prefix, 1); // 2 wins
    assert_eq!(agents[2].prefix, 3); // 1 win
}

#[test]
fn lib_sort_leaderboard_breaks_win_ties_by_fewer_losses() {
    let mut agents = vec![
        make_agent(1, 3, 2, 0), // 3W 2L
        make_agent(2, 3, 0, 0), // 3W 0L ranks higher
        make_agent(3, 3, 1, 0), // 3W 1L
    ];
    sort_leaderboard(&mut agents);
    assert_eq!(agents[0].prefix, 2);
    assert_eq!(agents[1].prefix, 3);
    assert_eq!(agents[2].prefix, 1);
}

#[test]
fn lib_sort_leaderboard_breaks_further_ties_by_more_draws() {
    let mut agents = vec![
        make_agent(1, 3, 0, 1), // 3W 0L 1D
        make_agent(2, 3, 0, 3), // 3W 0L 3D ranks higher
    ];
    sort_leaderboard(&mut agents);
    assert_eq!(agents[0].prefix, 2);
    assert_eq!(agents[1].prefix, 1);
}

#[test]
fn lib_leaderboard_rank_returns_1_based_position() {
    let agents = vec![make_agent(10, 5, 0, 0), make_agent(20, 3, 1, 0), make_agent(30, 1, 2, 0)];
    assert_eq!(leaderboard_rank(&agents, 10), Some(1));
    assert_eq!(leaderboard_rank(&agents, 20), Some(2));
    assert_eq!(leaderboard_rank(&agents, 30), Some(3));
}

#[test]
fn lib_leaderboard_rank_returns_none_for_unknown_prefix() {
    let agents = vec![make_agent(10, 5, 0, 0)];
    assert_eq!(leaderboard_rank(&agents, 99), None);
}

#[test]
fn lib_sort_leaderboard_handles_empty_input() {
    let mut agents: Vec<AgentStats> = vec![];
    sort_leaderboard(&mut agents); // must not panic
    assert!(agents.is_empty());
}

#[test]
fn lib_sort_leaderboard_handles_single_agent() {
    let mut agents = vec![make_agent(1, 0, 0, 0)];
    sort_leaderboard(&mut agents);
    assert_eq!(agents.len(), 1);
}

// ── apply_game_result ───────────────────────────────────────────────────────

#[test]
fn lib_apply_game_result_updates_both_players() {
    let mut stats = vec![make_agent(1, 0, 0, 0), make_agent(2, 0, 0, 0)];
    let updated = apply_game_result(&mut stats, 1, 2, GAME_WHITE_WINS);
    assert_eq!(updated, 2);
    let w = stats.iter().find(|a| a.prefix == 1).unwrap();
    let b = stats.iter().find(|a| a.prefix == 2).unwrap();
    assert_eq!(w.wins, 1);
    assert_eq!(b.losses, 1);
}

#[test]
fn lib_apply_game_result_draw_increments_both_draws() {
    let mut stats = vec![make_agent(1, 0, 0, 0), make_agent(2, 0, 0, 0)];
    apply_game_result(&mut stats, 1, 2, GAME_DRAW);
    for a in &stats {
        assert_eq!(a.draws, 1);
    }
}

#[test]
fn lib_apply_game_result_returns_zero_for_unknown_agents() {
    let mut stats = vec![make_agent(1, 0, 0, 0)];
    let updated = apply_game_result(&mut stats, 99, 100, GAME_WHITE_WINS);
    assert_eq!(updated, 0);
    assert_eq!(stats[0].wins, 0); // untouched
}

#[test]
fn lib_apply_game_result_updates_only_one_if_one_unregistered() {
    let mut stats = vec![make_agent(1, 0, 0, 0)];
    let updated = apply_game_result(&mut stats, 1, 99, GAME_WHITE_WINS);
    assert_eq!(updated, 1);
    assert_eq!(stats[0].wins, 1);
}

// ── Further checks ──────────────────────────────────────────────────────────

#[test]
fn sort_leaderboard_is_stable_for_equal_records() {
    let mut agents = vec![make_agent(7, 1, 1, 1), make_agent(3, 2, 0, 0), make_agent(5, 1, 1, 1)];
    sort_leaderboard(&mut agents);
    let order: Vec<u64> = agents.iter().map(|a| a.prefix).collect();
    assert_eq!(order, vec![3, 7, 5]);
    assert_eq!(leaderboard_rank(&agents, 5), Some(3));
}

#[test]
fn apply_result_ignores_unknown_status() {
    let a = make_agent(1, 2, 3, 4);
    assert_eq!(a.apply_result(true, GAME_ACTIVE), a);
    assert_eq!(a.apply_result(false, 9), a);
}

#[test]
fn same_prefix_for_both_players_counts_as_white() {
    let mut stats = vec![make_agent(4, 0, 0, 0)];
    let updated = apply_game_result(&mut stats, 4, 4, GAME_BLACK_WINS);
    assert_eq!(updated, 1);
    assert_eq!(stats[0].losses, 1);
    assert_eq!(stats[0].wins, 0);
}

#[test]
fn game_record_is_active() {
    let g = GameRecord { id: 1, white_prefix: 1, black_prefix: 2, status: GAME_ACTIVE, game_contract_prefix: 3 };
    assert!(g.is_active());
    assert!(!GameRecord { status: GAME_DRAW, ..g }.is_active());
}

#[test]
fn sort_leaderboard_keeps_order_of_equal_records() {
    let mut agents = vec![
        make_agent(1, 3, 1, 0),
        make_agent(2, 5, 0, 0),
        make_agent(3, 3, 1, 0),
        make_agent(4, 3, 1, 0),
        make_agent(5, 0, 4, 0),
    ];
    sort_leaderboard(&mut agents);
    let order: Vec<u64> = agents.iter().map(|a| a.prefix).collect();
    assert_eq!(order, vec![2, 1, 3, 4, 5]);
}

#[test]
fn apply_game_result_counts_present_players_only() {
    let mut stats = vec![make_agent(1, 0, 0, 0), make_agent(3, 0, 0, 0)];
    assert_eq!(apply_game_result(&mut stats, 1, 2, GAME_BLACK_WINS), 1);
    assert_eq!(stats[0].losses, 1);
    assert_eq!(stats[1], make_agent(3, 0, 0, 0));
    assert_eq!(apply_game_result(&mut stats, 7, 8, GAME_DRAW), 0);
    assert_eq!(apply_game_result(&mut stats, 3, 3, GAME_DRAW), 1);
    assert_eq!(stats[1].draws, 1);
}
