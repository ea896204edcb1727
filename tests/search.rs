use uttt::game::{Board, GameState, Player};
use uttt::mcts::{rollout, uct_rank, MCTSArena, NodeId, UNVISITED_KEY, WIN_UNITS};
use uttt::{Engine, Error};

#[test]
fn rollout_ends_in_a_result() {
    for _ in 0..20 {
        let board = Board::default();
        let (state, plies) = rollout(&board);
        assert_ne!(state, GameState::InProgress);
        assert!(plies <= 81);
        assert!(plies >= 9);
    }
}

#[test]
fn rollout_from_a_later_position() {
    let board = Board::default()
        .unchecked_play(Board::move_from_gl(4, 4))
        .unchecked_play(Board::move_from_gl(4, 0));
    let (state, plies) = rollout(&board);
    assert_ne!(state, GameState::InProgress);
    assert!(plies <= 79);
}

#[test]
fn zero_iterations_expand_nothing() {
    let mut arena = MCTSArena::init();
    let root = arena.root();
    assert_eq!(arena.analyze(root, 0), None);
    assert_eq!(arena.len(), 1);
    assert!(arena.resolve(&root).children.is_none());
    assert_eq!(arena.select_best_child(root), None);
}

#[test]
fn one_iteration_expands_the_root() {
    let mut arena = MCTSArena::init();
    let root = arena.root();
    let (_, best) = arena.analyze(root, 1).unwrap();
    assert_eq!(arena.len(), 82);
    let node = arena.resolve(&root);
    assert_eq!(node.visits, 81);
    assert_eq!(node.children.as_ref().unwrap().len(), 81);
    // all children tie at one visit: the first one is chosen
    assert_eq!(best, NodeId(1));
}

#[test]
fn visits_never_exceed_the_parent() {
    let mut arena = MCTSArena::init();
    let root = arena.root();
    arena.analyze(root, 40);
    for i in 0..arena.len() {
        let node = arena.resolve(&NodeId(i));
        if let Some(p) = node.parent {
            assert!(arena.resolve(&p).visits >= node.visits);
        }
        if node.children.is_some() {
            let best = arena.select_best_child(NodeId(i)).unwrap();
            assert!(arena.resolve(&best).visits > 0);
        }
    }
}

#[test]
fn best_child_is_most_visited() {
    let mut arena = MCTSArena::init();
    let root = arena.root();
    let (confidence, best) = arena.analyze(root, 30).unwrap();
    let node = arena.resolve(&root);
    let top = node
        .children
        .as_ref()
        .unwrap()
        .iter()
        .map(|c| arena.resolve(c).visits)
        .max()
        .unwrap();
    let chosen = arena.resolve(&best);
    assert_eq!(chosen.visits, top);
    assert_eq!(confidence, chosen.wins / chosen.visits);
    assert!(confidence <= WIN_UNITS);
}

#[test]
fn uct_rank_values() {
    assert_eq!(uct_rank(0, 0, 5), UNVISITED_KEY);
    assert_eq!(uct_rank(WIN_UNITS, 1, 1), 100_000_000);
    assert_eq!(uct_rank(0, 1, 2), 117_740_880);
    assert_eq!(uct_rank(5 * WIN_UNITS, 2, 3), 354_868_808);
}

#[test]
fn engine_play_and_reject() {
    let mut engine = Engine::init();
    assert!(engine.play((4, 4)).is_ok());
    assert!(engine.play((4, 0)).is_ok());
    // sent to sub-board 0: a move elsewhere is illegal
    assert_eq!(engine.play((5, 5)), Err(Error::IllegalMove));
    assert_eq!(Error::IllegalMove.as_str(), "Illegal move");
    let board = engine.resolve_node(&engine.current()).board;
    assert_eq!(board.last_move, Some(0x40));
    assert!(!engine.is_game_over());
    assert_eq!(engine.game_state(), GameState::InProgress);
}

#[test]
fn engine_analyze_suggests_a_child() {
    let mut engine = Engine::init();
    let ev = engine.analyze(50).unwrap();
    let node = engine.resolve_node(&ev.best_move);
    assert!(node.board.last_move.is_some());
    assert_eq!(node.parent, Some(NodeId(0)));
    engine.step(ev.best_move);
    assert_eq!(engine.current(), ev.best_move);
}

#[test]
fn test_engine() {
    let mut engine = Engine::init();
    let mut move_count = 0;
    while !engine.is_game_over() {
        move_count += 1;
        println!();
        let ev = engine.analyze(25).unwrap();
        let node = engine.resolve_node(&ev.best_move);
        println!(
            "\nConfidence {}%, Best Move: {},{}",
            ev.confidence as f64 / 1_000_000.0,
            (node.board.last_move.unwrap() >> 4) & 0b1111,
            node.board.last_move.unwrap() & 0b1111
        );
        engine.step(ev.best_move);
    }

    println!("\n-----------------------------\n");

    println!(
        "Result: {:?}; Move Count: {move_count}",
        engine.game_state()
    );
}

#[test]
fn rollout_of_a_finished_board_plays_nothing() {
    // X holds the top row of sub-boards 6, 7 and 8: the bottom row of the global board
    let x = (0b111u128 << 54) | (0b111u128 << 63) | (0b111u128 << 72);
    let o = (1u128 << 4) | (1u128 << 13) | (1u128 << 22) | (1u128 << 40) | (1u128 << 30);
    let board = Board {
        x,
        o,
        gx: 0b111_000_000,
        go: 0,
        next_player: Player::O,
        last_move: Some(Board::move_from_gl(8, 2)),
    };
    assert_eq!(rollout(&board), (GameState::Won(Player::X), 0));
}

#[test]
fn children_come_in_cell_order() {
    let mut arena = MCTSArena::init();
    let root = arena.root();
    arena.analyze(root, 1);
    let children = arena.resolve(&root).children.clone().unwrap();
    for (k, c) in children.iter().enumerate() {
        let node = arena.resolve(c);
        assert_eq!(node.board.last_move, Some(Board::move_from_index(k as u8)));
        assert_eq!(node.visits, 1);
        assert!(node.wins <= WIN_UNITS);
    }
}

#[test]
fn engine_rejects_moves_after_the_game_ends() {
    let mut engine = Engine::init();
    let mut moves = 0;
    while !engine.is_game_over() {
        let ev = engine.analyze(2).unwrap();
        engine.step(ev.best_move);
        moves += 1;
    }
    assert!(moves <= 81);
    assert_ne!(engine.game_state(), GameState::InProgress);
    let before = engine.current();
    for s in 0..9u8 {
        for c in 0..9u8 {
            assert_eq!(engine.play((s, c)), Err(Error::IllegalMove));
        }
    }
    assert_eq!(engine.current(), before);
    assert!(engine.analyze(3).is_none());
}

#[test]
fn play_moves_to_a_child_of_the_current_node() {
    let mut engine = Engine::init();
    let before = engine.current();
    engine.play((2, 7)).unwrap();
    let node = engine.resolve_node(&engine.current());
    assert_eq!(node.parent, Some(before));
    assert_eq!(node.board.last_move, Some(0x27));
}
