use ghostmate::agent::AgentState;
use ghostmate::board::Board;
use ghostmate::game::{GameAction, GameState};
use ghostmate::notes::{
    agent_move_call, check_agent_move_storage, check_move_storage, check_result_storage, result_call,
};

#[test]
fn agent_move_note_accepts_squares_on_the_board() {
    let storage = vec![12u64, 28, 0];
    assert!(check_agent_move_storage(&storage));
    let (mv_word, sender_word) = agent_move_call(&storage, 0xAB, 0xCD);
    assert_eq!(mv_word, [12, 28, 0, 0]);
    assert_eq!(sender_word, [0xAB, 0xCD, 0, 0]);
}

#[test]
fn agent_move_note_carries_promotion() {
    let storage = vec![52u64, 60, 5, 99];
    assert!(check_agent_move_storage(&storage));
    let (mv_word, _) = agent_move_call(&storage, 1, 2);
    assert_eq!(mv_word, [52, 60, 5, 0]);
}

#[test]
fn agent_move_note_rejects_short_or_off_board_storage() {
    assert!(!check_agent_move_storage(&vec![12u64, 28]));
    assert!(!check_agent_move_storage(&vec![64u64, 28, 0]));
    assert!(!check_agent_move_storage(&vec![12u64, 64, 0]));
    assert!(check_agent_move_storage(&vec![63u64, 0, 0]));
}

#[test]
fn move_note_needs_four_fields() {
    assert!(check_move_storage(&vec![12u64, 28, 0, 7]));
    assert!(!check_move_storage(&vec![12u64, 28, 0]));
    assert!(!check_move_storage(&vec![70u64, 28, 0, 7]));
    assert!(!check_move_storage(&vec![12u64, 99, 0, 7]));
}

#[test]
fn result_note_accepts_only_final_statuses() {
    for status in 1u64..=3 {
        assert!(check_result_storage(&vec![5u64, status, 0x77]));
    }
    assert!(!check_result_storage(&vec![5u64, 0, 0x77]));
    assert!(!check_result_storage(&vec![5u64, 4, 0x77]));
    assert!(!check_result_storage(&vec![5u64, 1]));
}

#[test]
fn result_note_builds_registry_call() {
    let (game_info, result) = result_call(&vec![9u64, 2, 0x77, 123]);
    assert_eq!(game_info, [9, 0, 0, 0]);
    assert_eq!(result, [2, 0x77, 0, 0]);
}

#[test]
fn agent_move_notes_pass_the_move_script() {
    let agent = AgentState::initialize([1, 0, 0, 0], [42, 0, 0, 0]);
    let b = Board::startpos();
    let note = agent.receive_move(b.to_board_word(), b.to_flags_word(), [0; 4], [0; 4]).unwrap();
    assert!(check_move_storage(&note.inputs.to_vec()));
}

#[test]
fn engine_moves_relayed_by_notes_are_accepted_by_the_game() {
    let white = [0x11u64, 0x12, 0, 0];
    let black = [0x21u64, 0x22, 0, 0];
    let mut game = GameState::initialize(white, black, [7, 7, 7, 7], [100, 0, 0, 0]);
    let white_agent = AgentState::initialize([1, 0, 0, 0], white);
    let black_agent = AgentState::initialize([2, 0, 0, 0], black);
    for ply in 0..4 {
        let (agent, id) = if ply % 2 == 0 { (&white_agent, white) } else { (&black_agent, black) };
        let note = agent.receive_move(game.get_board(), game.get_flags(), [0; 4], [0; 4]).unwrap();
        let storage = note.inputs.to_vec();
        assert!(check_agent_move_storage(&storage));
        let (mv_word, sender_word) = agent_move_call(&storage, id[0], id[1]);
        let action = game.receive_move(mv_word, sender_word, [0x99, 0x98]).unwrap();
        match action {
            GameAction::Turn(t) => {
                assert_eq!(t.recipient, if ply % 2 == 0 { black } else { white });
                assert_eq!(&t.inputs[0..8], &[game.get_board(), game.get_flags()].concat()[..]);
                assert_eq!(&t.inputs[8..16], &[0x99, 0x98, 0, 0, 0, 0, 0, 0]);
            },
            GameAction::Settle(_) => panic!("the game goes on"),
        }
        assert_eq!(game.get_move_count(), ply + 1);
    }
}

#[test]
fn agent_move_note_is_private_and_runs_the_move_script() {
    let agent = AgentState::initialize([1, 0, 0, 0], [42, 0, 0, 0]);
    let b = Board::startpos();
    let note = agent.receive_move(b.to_board_word(), b.to_flags_word(), [0; 4], [17, 0, 0, 0]).unwrap();
    assert_eq!(note.note_type, ghostmate::game::NOTE_TYPE_PRIVATE);
    assert_eq!(note.script_root, ghostmate::agent::MOVE_NOTE_SCRIPT_ROOT);
    assert_eq!(note.tag, 17);
    assert_eq!(note.inputs[3], b.to_board_word()[0]);
}
