use mushroom_bot::board::Board;
use mushroom_bot::bots::zoo_keys::{area_key, edge_key, key_less, move_key, position_key};
use mushroom_bot::bots::zoo_protocol::{choose_move, same_text, ZooPlan, ZooProtocolBot};
use mushroom_bot::bots::zoo_rng::ZooRng;
use mushroom_bot::bots::zoo_search::{best_by_key, greedy_balanced_choice, random_top_choice};
use mushroom_bot::bots::zoo_keys::KeyKind;
use mushroom_bot::bots::zoo_styles::{pass_abuser_choice, pass_safe_choice};
use mushroom_bot::bots::zoo_utils::{
    is_corner, is_edge, live_count, parse_move, parse_u64, reply_pressure, stable_seed,
};
use mushroom_bot::types::{FIRST, PASS, SECOND};

fn rows_of(s: &str) -> Vec<String> {
    vec![s.to_string(); 10]
}

fn standard_board() -> Board {
    Board::from_rows(&rows_of("12345678912345678"))
}

fn words(s: &str) -> Vec<String> {
    s.split_whitespace().map(|w| w.to_string()).collect()
}

#[test]
fn zoo_edge_and_corner() {
    assert!(is_edge((0, 3, 2, 5)));
    assert!(is_edge((3, 3, 9, 5)));
    assert!(!is_edge((2, 2, 3, 3)));
    assert!(is_corner((0, 0, 0, 3)));
    assert!(is_corner((5, 10, 9, 16)));
    assert!(!is_corner((0, 3, 0, 5)));
}

#[test]
fn zoo_keys_exact() {
    let b = standard_board();
    assert_eq!(move_key(&b, (0, 0, 0, 3)), (4, 0, 4, 4, 4, 4, 0, -3));
    assert_eq!(area_key(&b, (0, 0, 0, 3)), (4, 4, 0, 4, 4, 4, 0, -3));
    assert_eq!(edge_key(&b, (0, 0, 0, 3)), (1, 1, 4, 0, 4, 4, 4, 4));
    assert_eq!(position_key(&b, (4, 7, 5, 9)), (0, 6, 0, 6, 6, 6, 6, -21));
    assert!(key_less((1, 0, 0, 0, 0, 0, 0, 0), (1, 0, 0, 0, 0, 0, 0, 1)));
    assert!(!key_less((2, 0, 0, 0, 0, 0, 0, 0), (1, 9, 9, 9, 9, 9, 9, 9)));
}

#[test]
fn zoo_greedy_prefers_largest_then_top_left() {
    let b = standard_board();
    assert_eq!(greedy_balanced_choice(&b), (0, 0, 9, 0));
    assert_eq!(best_by_key(&b, KeyKind::Area), (0, 0, 9, 0));
    let empty = Board::from_rows(&rows_of("00000000000000000"));
    assert_eq!(greedy_balanced_choice(&empty), PASS);
}

#[test]
fn zoo_random_top_one_is_best() {
    let b = standard_board();
    let mut rng = ZooRng::new(7);
    assert_eq!(random_top_choice(&b, 1, &mut rng), (0, 0, 9, 0));
    assert_eq!(rng.0, 7);
    let mut rng2 = ZooRng::new(7);
    let mv = random_top_choice(&b, 3, &mut rng2);
    assert_eq!(rng2.0, 9098160460397411210u64);
    assert!(b.is_legal_action(mv));
}

#[test]
fn zoo_pass_styles() {
    let b = standard_board();
    assert_eq!(pass_abuser_choice(&b), (0, 0, 9, 0));
    let mut rows = rows_of("00000000000000000");
    rows[0] = "55000000000000000".to_string();
    let small = Board::from_rows(&rows);
    assert_eq!(live_count(&small), 2);
    assert_eq!(pass_abuser_choice(&small), PASS);
    let mut rng = ZooRng::new(1);
    assert_eq!(pass_safe_choice(&small, &mut rng), (0, 0, 0, 1));
}

#[test]
fn zoo_reply_pressure_counts_replies() {
    let mut rows = rows_of("00000000000000000");
    rows[0] = "55000000000000000".to_string();
    rows[5] = "00000000000000091".to_string();
    let b = Board::from_rows(&rows);
    assert_eq!(reply_pressure(&b, (0, 0, 0, 1)), (2, 1));
    assert_eq!(reply_pressure(&b, PASS), (2, 2));
}

#[test]
fn zoo_parsing_helpers() {
    assert_eq!(parse_move(&words("1 2 3 4")), Some((1, 2, 3, 4)));
    assert_eq!(parse_move(&words("1 2 x 4")), None);
    assert_eq!(parse_move(&words("1 2 3")), None);
    assert_eq!(parse_u64(Some(&"900".to_string())), Some(900));
    assert_eq!(parse_u64(None), None);
    assert!(same_text("abc", "abc"));
    assert!(!same_text("abc", "abd"));
}

#[test]
fn zoo_stable_seed_value() {
    let rows = rows_of("12345678912345678");
    assert_eq!(stable_seed("greedy_area", &rows, 42), 263699934);
    assert_eq!(stable_seed("ab", &[], 42), 733567);
}

#[test]
fn zoo_choose_move_plans() {
    let b = standard_board();
    let mut rng = ZooRng::new(3);
    assert!(matches!(choose_move("greedy_area", &b, 50, &mut rng), ZooPlan::Play((0, 0, 9, 0))));
    assert!(matches!(choose_move("minimax_depth_3", &b, 50, &mut rng), ZooPlan::Minimax(3)));
    assert!(matches!(choose_move("reply_aware_strict", &b, 50, &mut rng), ZooPlan::ReplyAware(110)));
    assert!(matches!(
        choose_move("search_shallow", &b, 500, &mut rng),
        ZooPlan::SearchEngine(50, 2, false)
    ));
    assert!(matches!(choose_move("mcts_light", &b, 30, &mut rng), ZooPlan::Mcts(30, 200)));
    assert!(matches!(choose_move("unknown_mode", &b, 50, &mut rng), ZooPlan::Play((0, 0, 9, 0))));
    assert!(matches!(choose_move("adaptive_hybrid", &b, 50, &mut rng), ZooPlan::MixedTactical));
    assert!(matches!(
        choose_move("adaptive_hybrid", &b, 400, &mut rng),
        ZooPlan::SearchEngine(200, 3, false)
    ));
    let empty = Board::from_rows(&rows_of("00000000000000000"));
    assert!(matches!(choose_move("minimax_depth_3", &empty, 50, &mut rng), ZooPlan::Play(PASS)));
}

#[test]
fn zoo_protocol_bot_flow() {
    let mut bot = ZooProtocolBot::new("greedy_area".to_string(), 42);
    assert_eq!(bot.budget_ms(), 5);
    assert_eq!(bot.ready(&words("READY SECOND")), "OK");
    assert_eq!(bot.my_player, SECOND);
    assert_eq!(bot.ready(&words("READY")), "OK");
    assert_eq!(bot.my_player, FIRST);
    assert!(bot.begin_turn(&words("TIME 1000 900")).is_none());
    let rows = rows_of("12345678912345678");
    bot.init(&rows);
    assert_eq!(bot.rng.0, 263699934);
    let (board, budget) = bot.begin_turn(&words("TIME 1000 900")).unwrap();
    assert_eq!(budget, 35);
    assert_eq!(bot.my_time_left_ms, Some(1000));
    assert_eq!(bot.opp_time_left_ms, Some(900));
    let reply = bot.finish_turn(board, (0, 0, 9, 0));
    assert_eq!(reply, "0 0 9 0");
    assert_eq!(bot.state.unwrap().player, SECOND);
    bot.opp(&words("OPP 0 9 9 9 0"));
    assert_eq!(bot.state.unwrap().player, FIRST);
    bot.opp(&words("OPP 0 1 0 1 0"));
    assert_eq!(bot.state.unwrap().player, FIRST);
    let (board2, _) = bot.begin_turn(&words("TIME 100 100")).unwrap();
    assert_eq!(bot.finish_turn(board2, (0, 1, 0, 1)), "-1 -1 -1 -1");
}

#[test]
fn zoo_budget_by_mode() {
    let mut bot = ZooProtocolBot::new("minimax_depth_2".to_string(), 1);
    bot.my_time_left_ms = Some(10_000);
    assert_eq!(bot.budget_ms(), 500);
    let mut s = ZooProtocolBot::new("search_deep".to_string(), 1);
    s.my_time_left_ms = Some(1300);
    assert_eq!(s.budget_ms(), 333);
    let mut m = ZooProtocolBot::new("mcts_light".to_string(), 1);
    m.my_time_left_ms = Some(100);
    assert_eq!(m.budget_ms(), 100);
}
