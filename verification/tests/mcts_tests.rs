use chess_ai::board::action::Action;
use chess_ai::board::board::Board;
use chess_ai::constants::{BLUE, EMPTY, RED};
use chess_ai::solver::mcts_solver::{get_most_visited_children, ChildSelector, MCTSNode};
use chess_ai::solver::mcts_solver::{MCTSSolver, MCTSSolverConfig, MCTSSolverLogic, MCTSTree};
use chess_ai::solver::solver::Solver;

/// The upper confidence bound for trees, with the exploration constant `c`.
struct Ucb1 {
    c: f64,
}

impl ChildSelector for Ucb1 {
    fn pick(&self, parent_visit: usize, stats: &Vec<(usize, usize)>) -> usize {
        let mut max_score = -1.0;
        let mut max_index = 0;
        for (i, (visit, win)) in stats.iter().enumerate() {
            let ucb = self.c * ((parent_visit as f64).ln() / *visit as f64).sqrt();
            let score = *win as f64 / *visit as f64 + ucb;
            if score > max_score {
                max_score = score;
                max_index = i;
            }
        }
        max_index
    }
}

/// Always asks for the child at one position, whether there is one or not.
struct Fixed(usize);

impl ChildSelector for Fixed {
    fn pick(&self, _parent_visit: usize, _stats: &Vec<(usize, usize)>) -> usize {
        self.0
    }
}

fn bare(size: usize) -> Board {
    Board { size, data: vec![vec![EMPTY; size]; size] }
}

fn red_one_step_from_winning() -> Board {
    let mut b = bare(9);
    for x in 5..9 {
        for y in 5..9 {
            b.set_cell(x, y, RED);
        }
    }
    b.set_cell(5, 5, EMPTY);
    b.set_cell(4, 5, RED);
    for x in 0..8 {
        b.set_cell(x, 0, BLUE);
        b.set_cell(x, 1, BLUE);
    }
    b
}

fn small_config(simulation_count: usize, times_per_sim: usize) -> MCTSSolverConfig {
    MCTSSolverConfig { min_sim: 2, max_sim: 5, simulation_count, times_per_sim }
}

fn visits_of_children(tree: &MCTSTree, node: usize) -> usize {
    tree.nodes[node].children.iter().map(|c| tree.nodes[*c].visit).sum()
}

#[test]
fn default_config_has_the_usual_thresholds() {
    let c = MCTSSolverConfig::default();
    assert_eq!((c.min_sim, c.max_sim, c.simulation_count, c.times_per_sim), (5, 10, 30000, 5));
}

#[test]
fn root_node_starts_without_counts_or_children() {
    let b = Board::new(9);
    let node = MCTSNode::new(&b, BLUE);
    assert_eq!(node.visit, 0);
    assert_eq!(node.win, 0);
    assert_eq!(node.next_player, BLUE);
    assert_eq!(node.player, RED);
    assert_eq!(node.depth, 0);
    assert_eq!(node.game_over, None);
    assert_eq!(node.parent, None);
    assert!(!node.has_children());
    assert_eq!(node.board.data, b.data);
    let tree = MCTSTree::new(&b, RED);
    assert_eq!(tree.nodes.len(), 1);
    assert_eq!(tree.nodes[0].next_player, RED);
}

#[test]
fn child_node_holds_the_position_after_the_move() {
    let b = red_one_step_from_winning();
    let tree = MCTSTree::new(&b, RED);
    let a = Action::from_usize(4, 5, 5, 5);
    let child = MCTSNode::expand_from_node(&tree, 0, a);
    assert_eq!(child.action, a);
    assert_eq!(child.parent, Some(0));
    assert_eq!(child.depth, 1);
    assert_eq!(child.next_player, BLUE);
    assert_eq!(child.player, RED);
    assert_eq!(child.game_over, Some(RED));
    assert_eq!(child.board.data[5][5], RED);
    assert_eq!(child.board.data[4][5], EMPTY);
    assert_eq!((child.visit, child.win), (0, 0));
    assert!(!child.has_children());
}

#[test]
fn expand_makes_one_child_for_each_legal_move() {
    let b = Board::new(9);
    let mut tree = MCTSTree::new(&b, RED);
    let mut logic = MCTSSolverLogic::new(small_config(10, 5));
    logic.expand(&mut tree, 0);
    let moves = b.generate_actions_all(RED);
    assert_eq!(tree.nodes.len(), 1 + moves.len());
    assert_eq!(tree.nodes[0].children, (1..=moves.len()).collect::<Vec<usize>>());
    for (k, child) in tree.nodes[0].children.iter().enumerate() {
        let node = &tree.nodes[*child];
        assert_eq!(node.action, moves[k]);
        assert_eq!(node.parent, Some(0));
        assert_eq!(node.depth, 1);
        assert_eq!(node.next_player, BLUE);
        assert_eq!((node.visit, node.win), (0, 0));
        let mut after = b.clone();
        after.perform_action(moves[k]);
        assert_eq!(node.board.data, after.data);
    }
    assert_eq!(logic.total_expand, 1);
    assert_eq!(logic.total_nodes, moves.len());
    logic.expand(&mut tree, 3);
    assert_eq!(logic.total_expand, 2);
    assert_eq!(tree.nodes[3].children.len(), tree.nodes.len() - 1 - moves.len());
    assert_eq!(tree.nodes[3].children[0], 1 + moves.len());
    assert_eq!(tree.nodes[tree.nodes[3].children[0]].depth, 2);
    assert_eq!(tree.nodes[tree.nodes[3].children[0]].next_player, RED);
}

#[test]
fn update_adds_the_playouts_along_the_way_to_the_root() {
    let b = Board::new(9);
    let mut tree = MCTSTree::new(&b, RED);
    let mut logic = MCTSSolverLogic::new(small_config(100, 5));
    logic.expand(&mut tree, 0);
    logic.expand(&mut tree, 2);
    let leaf = tree.nodes[2].children[1];
    logic.update_mcts(&mut tree, leaf, 3, 5);
    assert_eq!((tree.nodes[leaf].visit, tree.nodes[leaf].win), (5, 2));
    assert_eq!((tree.nodes[2].visit, tree.nodes[2].win), (5, 3));
    assert_eq!((tree.nodes[0].visit, tree.nodes[0].win), (5, 2));
    for i in 0..tree.nodes.len() {
        if i != 0 && i != 2 && i != leaf {
            assert_eq!((tree.nodes[i].visit, tree.nodes[i].win), (0, 0));
        }
    }
    logic.update_mcts(&mut tree, 1, 5, 5);
    assert_eq!((tree.nodes[1].visit, tree.nodes[1].win), (5, 5));
    assert_eq!((tree.nodes[0].visit, tree.nodes[0].win), (10, 2));
    logic.update_mcts(&mut tree, 0, 0, 4);
    assert_eq!((tree.nodes[0].visit, tree.nodes[0].win), (14, 6));
    assert_eq!(tree.nodes[2].visit, 5);
}

#[test]
fn select_takes_the_first_child_visited_too_rarely() {
    let b = Board::new(9);
    let mut tree = MCTSTree::new(&b, RED);
    let mut logic = MCTSSolverLogic::new(small_config(100, 5));
    logic.expand(&mut tree, 0);
    assert_eq!(logic.select(&tree, 0, &Fixed(4)), 1);
    logic.update_mcts(&mut tree, 1, 1, 2);
    assert_eq!(logic.select(&tree, 0, &Fixed(4)), 2);
    logic.update_mcts(&mut tree, 2, 1, 1);
    assert_eq!(logic.select(&tree, 0, &Fixed(4)), 2);
    logic.update_mcts(&mut tree, 2, 1, 1);
    assert_eq!(logic.select(&tree, 0, &Fixed(4)), 3);
}

#[test]
fn select_asks_the_selector_when_every_child_was_visited_enough() {
    let b = Board::new(9);
    let mut tree = MCTSTree::new(&b, RED);
    let mut logic = MCTSSolverLogic::new(small_config(1000, 5));
    logic.expand(&mut tree, 0);
    let count = tree.nodes[0].children.len();
    for child in 1..=count {
        logic.update_mcts(&mut tree, child, if child == 6 { 2 } else { 0 }, 2);
    }
    assert_eq!(logic.select(&tree, 0, &Fixed(4)), 5);
    assert_eq!(logic.select(&tree, 0, &Fixed(0)), 1);
    assert_eq!(logic.select(&tree, 0, &Fixed(count - 1)), count);
    assert_eq!(logic.select(&tree, 0, &Fixed(count)), 1);
    assert_eq!(logic.select(&tree, 0, &Fixed(usize::MAX)), 1);
    assert_eq!(logic.select(&tree, 0, &Ucb1 { c: 1.414 }), 6);
}

#[test]
fn child_stats_and_child_at_read_the_children_in_order() {
    let b = Board::new(9);
    let mut tree = MCTSTree::new(&b, RED);
    let mut logic = MCTSSolverLogic::new(small_config(1000, 5));
    assert_eq!(MCTSSolverLogic::child_stats(&tree, 0), vec![]);
    logic.expand(&mut tree, 0);
    logic.update_mcts(&mut tree, 2, 1, 3);
    logic.update_mcts(&mut tree, 5, 4, 4);
    let stats = MCTSSolverLogic::child_stats(&tree, 0);
    assert_eq!(stats.len(), tree.nodes[0].children.len());
    assert_eq!(stats[0], (0, 0));
    assert_eq!(stats[1], (3, 1));
    assert_eq!(stats[4], (4, 4));
    assert_eq!(MCTSSolverLogic::child_at(&tree, 0, 0), 1);
    assert_eq!(MCTSSolverLogic::child_at(&tree, 0, 4), 5);
    assert_eq!(MCTSSolverLogic::child_at(&tree, 0, stats.len()), 1);
}

#[test]
fn most_visited_child_is_the_first_of_the_most_visited() {
    let b = Board::new(9);
    let mut tree = MCTSTree::new(&b, RED);
    let mut logic = MCTSSolverLogic::new(small_config(1000, 5));
    logic.expand(&mut tree, 0);
    assert_eq!(get_most_visited_children(&tree), 1);
    logic.update_mcts(&mut tree, 4, 0, 3);
    assert_eq!(get_most_visited_children(&tree), 4);
    logic.update_mcts(&mut tree, 7, 0, 3);
    assert_eq!(get_most_visited_children(&tree), 4);
    logic.update_mcts(&mut tree, 7, 0, 1);
    assert_eq!(get_most_visited_children(&tree), 7);
    logic.update_mcts(&mut tree, 2, 0, 4);
    assert_eq!(get_most_visited_children(&tree), 2);
}

#[test]
fn search_visits_the_root_exactly_as_often_as_the_budget_says() {
    let b = Board::new(9);
    let solver = MCTSSolver::new(small_config(60, 5), Ucb1 { c: 1.414 });
    let (best, tree) = solver.solve_tree(&b, RED);
    assert_eq!(tree.nodes[0].visit, 60);
    assert_eq!(visits_of_children(&tree, 0), 55);
    assert!(tree.nodes[0].children.contains(&best));
    let moves = b.generate_actions_all(RED);
    assert_eq!(tree.nodes[0].children.len(), moves.len());
    assert!(moves.contains(&tree.nodes[best].action));
    for child in tree.nodes[0].children.iter() {
        assert!(tree.nodes[*child].visit <= tree.nodes[best].visit);
    }
    assert_eq!(tree.nodes[0].board.data, b.data);
}

#[test]
fn search_ends_with_the_round_that_reaches_the_budget() {
    let b = Board::new(9);
    let solver = MCTSSolver::new(small_config(52, 5), Ucb1 { c: 1.414 });
    let (_, tree) = solver.solve_tree(&b, BLUE);
    assert_eq!(tree.nodes[0].visit, 55);
    assert_eq!(visits_of_children(&tree, 0), 50);
    let single = MCTSSolver::new(small_config(23, 1), Ucb1 { c: 0.5 });
    let (_, other) = single.solve_tree(&b, BLUE);
    assert_eq!(other.nodes[0].visit, 23);
}

#[test]
fn search_keeps_the_counts_of_the_tree_sound() {
    let b = red_one_step_from_winning();
    let solver = MCTSSolver::new(small_config(200, 5), Ucb1 { c: 1.414 });
    let (_, tree) = solver.solve_tree(&b, RED);
    for (i, node) in tree.nodes.iter().enumerate() {
        assert!(node.win <= node.visit);
        assert_eq!(node.visit % 5, 0);
        if node.has_children() {
            assert_eq!(visits_of_children(&tree, i), node.visit - 5);
        } else {
            assert_eq!(visits_of_children(&tree, i), 0);
            if node.game_over.is_none() {
                assert!(node.visit <= 5);
            }
        }
        match node.parent {
            None => assert_eq!(i, 0),
            Some(p) => {
                assert!(p < i);
                assert!(tree.nodes[p].children.contains(&i));
                assert_eq!(node.depth, tree.nodes[p].depth + 1);
                assert_eq!(node.next_player, tree.nodes[p].player);
            }
        }
        assert_eq!(node.game_over, node.board.is_game_over());
    }
}

#[test]
fn search_returns_a_move_of_the_root() {
    let b = red_one_step_from_winning();
    let solver = MCTSSolver::new(small_config(300, 5), Ucb1 { c: 1.414 });
    let action = solver.solve(&b, RED);
    assert!(b.generate_actions_all(RED).contains(&action));
    let (best, tree) = solver.solve_tree(&b, RED);
    let winning = tree.nodes[0]
        .children
        .iter()
        .find(|c| tree.nodes[**c].action == Action::from_usize(4, 5, 5, 5))
        .unwrap();
    assert_eq!(tree.nodes[*winning].win, tree.nodes[*winning].visit);
    assert!(tree.nodes[*winning].visit > 0);
    assert!(tree.nodes[best].visit >= tree.nodes[*winning].visit);
}

#[test]
fn search_does_nothing_when_the_budget_is_spent() {
    let b = Board::new(9);
    let mut tree = MCTSTree::new(&b, RED);
    let mut logic = MCTSSolverLogic::new(small_config(10, 5));
    logic.uct(&mut tree, &Fixed(0));
    assert_eq!(tree.nodes[0].visit, 10);
    let nodes = tree.nodes.len();
    logic.uct(&mut tree, &Fixed(0));
    assert_eq!(tree.nodes[0].visit, 10);
    assert_eq!(tree.nodes.len(), nodes);
}

#[test]
fn search_expands_later_where_more_visits_are_asked_for() {
    let b = Board::new(9);
    let config = MCTSSolverConfig { min_sim: 1, max_sim: 7, simulation_count: 40, times_per_sim: 3 };
    let solver = MCTSSolver::new(config, Ucb1 { c: 1.414 });
    let (_, tree) = solver.solve_tree(&b, RED);
    assert_eq!(tree.nodes[0].visit, 42);
    assert_eq!(visits_of_children(&tree, 0), 42 - 9);
    for (i, node) in tree.nodes.iter().enumerate() {
        if node.has_children() {
            assert_eq!(node.visit - visits_of_children(&tree, i), 9);
        }
    }
}

#[test]
fn search_counts_a_won_position_for_the_side_that_has_won() {
    let b = red_one_step_from_winning();
    let solver = MCTSSolver::new(small_config(100, 5), Fixed(0));
    let (_, tree) = solver.solve_tree(&b, RED);
    let mut seen = 0;
    for node in tree.nodes.iter() {
        if node.game_over == Some(RED) {
            seen += 1;
            assert!(!node.has_children());
            if node.player == RED {
                assert_eq!(node.win, node.visit);
            } else {
                assert_eq!(node.win, 0);
            }
        }
    }
    assert!(seen > 0);
}

#[test]
fn search_chooses_the_children_in_turn() {
    let b = Board::new(9);
    let config = MCTSSolverConfig { min_sim: 4, max_sim: 6, simulation_count: 120, times_per_sim: 2 };
    let solver = MCTSSolver::new(config, Ucb1 { c: 1.414 });
    let (_, tree) = solver.solve_tree(&b, RED);
    assert_eq!(tree.nodes[0].visit, 120);
    assert_eq!(visits_of_children(&tree, 0), 114);
    for node in tree.nodes.iter() {
        let visits: Vec<usize> = node.children.iter().map(|c| tree.nodes[*c].visit).collect();
        for k in 0..visits.len() {
            for j in 0..visits.len() {
                if j < k && visits[k] > 0 {
                    assert!(visits[j] >= 4);
                }
                if visits[k] >= 4 + 2 {
                    assert!(visits[j] >= 4);
                }
            }
        }
    }
}
