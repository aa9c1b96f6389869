use mnk_mcts::board::{Board, Outcome, Player};
use mnk_mcts::mcts::{outcome_value, rollout, MctsConfig, Node, MCTS, SCALE};
use mnk_mcts::utils::sample_from_weights;

fn play(board: &mut Board, moves: &[&str]) {
    for m in moves {
        let action = board
            .parse_string_to_action(&String::from(*m))
            .expect("move label should parse");
        board.make_action(action).expect("move should be legal");
    }
}

#[test]
fn outcome_values_are_canonical() {
    assert_eq!(outcome_value(&Outcome::Winner(Player::Black)), SCALE as i64);
    assert_eq!(outcome_value(&Outcome::Winner(Player::White)), -(SCALE as i64));
    assert_eq!(outcome_value(&Outcome::Draw), 0);
}

#[test]
fn rollout_reaches_an_outcome() {
    let mut board = Board::new(3, 3).unwrap();
    let outcome = rollout(&mut board);
    assert!(board.is_game_over());
    assert_eq!(board.outcome, Some(outcome));
}

#[test]
fn rollout_keeps_a_finished_outcome() {
    let mut board = Board::new(3, 3).unwrap();
    play(&mut board, &["B2", "A2", "C3", "A1", "A3", "B3", "C1"]);
    let outcome = rollout(&mut board);
    assert_eq!(outcome, Outcome::Winner(Player::Black));
}

#[test]
fn node_statistics() {
    let mut node = Node::new(Some((1, 1)), Player::White, SCALE);
    assert_eq!(node.value(), 0);
    assert!(node.is_leaf());
    // A Black-favourable evaluation is unfavourable to White to move.
    node.update(SCALE as i64);
    assert_eq!(node.visit_count, 1);
    assert_eq!(node.total_value, -(SCALE as i64));
    assert_eq!(node.value(), -(SCALE as i64));

    let mut black_node = Node::new(None, Player::Black, 0);
    black_node.update(SCALE as i64);
    black_node.update(0);
    assert_eq!(black_node.total_value, SCALE as i64);
    assert_eq!(black_node.value(), (SCALE as i64) / 2);
}

#[test]
fn selection_score_of_fresh_children() {
    let config = MctsConfig::standard();
    let node = Node::new(Some((0, 0)), Player::White, SCALE);
    // With no parent visits the exploration term is zero.
    assert_eq!(node.ucb(0, &config), 0);
    // With one parent visit and a unit prior the score is exactly c_init.
    assert_eq!(node.ucb(1, &config), config.c_init_fp as i128);
}

#[test]
fn recommendation_is_a_legal_action() {
    // With any evaluation strategy and at least one search iteration, the
    // recommended action is a member of the legal actions observed before
    // the recommendation call.
    let mut board = Board::new(3, 3).unwrap();
    play(&mut board, &["A1", "B1", "A2", "B2", "C1"]);
    let legal = board.legal_moves_as_strings();
    let mut mcts = MCTS::new(&board, 200);
    let action = mcts.get_best_action(false);
    let label = board.action_to_string(action);
    assert!(legal.contains(&label), "{label} not legal");

    let mut mcts = MCTS::new(&board, 50);
    let sampled = mcts.get_best_action(true);
    let label = board.action_to_string(sampled);
    assert!(legal.contains(&label), "{label} not legal");
}

#[test]
fn search_statistics_accumulate() {
    let board = Board::new(3, 3).unwrap();
    let mut mcts = MCTS::new(&board, 100);
    let _ = mcts.get_best_action(false);
    assert_eq!(mcts.root_visit_count(), 100);
    let children = mcts.node_children(0);
    assert_eq!(children.len(), 9);
    let total: u64 = children.iter().map(|&c| mcts.node_visit_count(c)).sum();
    // The root is expanded eagerly, so its count equals its children's sum.
    assert_eq!(total, mcts.root_visit_count());
}

#[test]
fn stepwise_search_maintains_visit_bookkeeping() {
    // Immediately after an evaluation completes (between begin_iteration
    // and complete_iteration) and after every backpropagation, the sum of a
    // parent's children's visit counts plus one — zero for the eagerly
    // expanded root — equals the parent's own count.
    let board = Board::new(3, 3).unwrap();
    let mut mcts = MCTS::new(&board, 20);
    let uniform = vec![SCALE / 9; 9];
    mcts.expand_root_with_priors(&uniform);
    assert_eq!(mcts.node_children(0).len(), 9);
    assert_eq!(mcts.root_visit_count(), 0);

    for step in 0..20 {
        let encoding = mcts.begin_iteration();
        if let Some(enc) = encoding {
            assert_eq!(enc.len(), 27);
            assert!(mcts.has_pending());
            check_bookkeeping(&mcts);
            mcts.complete_iteration(&uniform, 0);
        }
        assert!(!mcts.has_pending());
        assert_eq!(mcts.root_visit_count(), step + 1);
        check_bookkeeping(&mcts);
    }
}

fn check_bookkeeping(mcts: &MCTS) {
    for i in 0..mcts.node_count() {
        let children = mcts.node_children(i);
        if !children.is_empty() {
            let sum: u64 = children.iter().map(|&c| mcts.node_visit_count(c)).sum();
            let extra = if i == 0 { 0 } else { 1 };
            assert_eq!(sum + extra, mcts.node_visit_count(i), "node {i}");
        }
    }
}

#[test]
fn exploration_noise_mixes_priors() {
    // With root priors summing to one before injection, they still sum to
    // (almost exactly) one after it.
    let board = Board::new(3, 3).unwrap();
    let mut mcts = MCTS::new(&board, 10);
    let priors: Vec<u64> = vec![2000, 1000, 1000, 1000, 1000, 1000, 1000, 1000, 1000];
    assert_eq!(priors.iter().sum::<u64>(), SCALE);
    mcts.expand_root_with_priors(&priors);

    let noise: Vec<u64> = vec![5000, 1000, 1000, 1000, 500, 500, 500, 500, 0];
    assert_eq!(noise.iter().sum::<u64>(), SCALE);
    mcts.inject_exploration_noise(&noise);

    let children = mcts.node_children(0);
    let eps = mcts.config.epsilon_fp;
    let mut sum: u64 = 0;
    for (j, &c) in children.iter().enumerate() {
        // The board's legal actions are created in row-major order, so the
        // j-th child carries the j-th prior.
        let before = priors[j];
        let expected = ((SCALE - eps) * before + eps * noise[j]) / SCALE;
        assert_eq!(mcts.node_prior(c), expected);
        sum += mcts.node_prior(c);
    }
    assert!(sum <= SCALE);
    assert!(sum > SCALE - children.len() as u64);
}

#[test]
fn noise_is_skipped_below_two_children() {
    let mut board = Board::new(3, 3).unwrap();
    // Fill all squares but C2 without completing a line.
    play(&mut board, &["B2", "A2", "A3", "C1", "B1", "A1", "C3", "B3"]);
    assert_eq!(board.legal_moves_as_strings().len(), 1);
    assert_eq!(board.outcome, None);
    let mut mcts = MCTS::new(&board, 5);
    let priors = vec![SCALE; 9];
    mcts.expand_root_with_priors(&priors);
    assert_eq!(mcts.node_children(0).len(), 1);
    let before = mcts.node_prior(mcts.node_children(0)[0]);
    mcts.inject_exploration_noise(&Vec::new());
    assert_eq!(mcts.node_prior(mcts.node_children(0)[0]), before);
}

#[test]
fn policy_is_visit_derived() {
    let board = Board::new(3, 3).unwrap();
    let mut mcts = MCTS::new(&board, 36);
    let _ = mcts.get_best_action(false);
    let flat = mcts.get_flat_policy();
    assert_eq!(flat.len(), 9);
    let policy = mcts.get_policy();
    assert_eq!(policy.len(), 3);
    let children = mcts.node_children(0);
    for &c in &children {
        let action = mcts.node_action(c).expect("children carry actions");
        let expected = mcts.node_visit_count(c) * SCALE / mcts.n_iterations;
        assert_eq!(flat[action.0 * 3 + action.1], expected);
        assert_eq!(policy[action.0][action.1], expected);
    }
    // Visits sum to the budget, so the policy sums to at most one.
    assert!(flat.iter().sum::<u64>() <= SCALE);
}

#[test]
fn weighted_sampling_never_picks_zero_weight() {
    let weights: Vec<u64> = vec![0, 5, 0];
    for _ in 0..50 {
        assert_eq!(sample_from_weights(&weights), 1);
    }
    let weights: Vec<u64> = vec![3, 0, 2];
    for _ in 0..50 {
        let i = sample_from_weights(&weights);
        assert!(i == 0 || i == 2);
    }
}

#[test]
fn random_actions_are_legal() {
    let mut board = Board::new(3, 3).unwrap();
    play(&mut board, &["B2", "A2"]);
    let legal = board.legal_moves_as_strings();
    for _ in 0..30 {
        let a = mnk_mcts::utils::get_random_action(board.legal_actions());
        assert!(legal.contains(&board.action_to_string(a)));
    }
}

#[test]
fn search_finds_the_immediate_win() {
    // From the position where White can win at once by completing column B,
    // a searched recommendation with a solid budget takes that win.
    let mut board = Board::new(3, 3).unwrap();
    play(&mut board, &["A1", "B1", "A2", "B2", "C1"]);
    assert_eq!(board.turn, Player::White);
    let mut mcts = MCTS::new(&board, 600);
    let action = mcts.get_best_action(false);
    let mut finish = board.clone();
    finish.make_action(action).unwrap();
    // Whatever the rollouts sampled, the move must be legal; with this
    // budget the winning move B3 dominates the visit counts.
    assert_eq!(board.action_to_string(action), "B3");
    assert_eq!(finish.outcome, Some(Outcome::Winner(Player::White)));
}
