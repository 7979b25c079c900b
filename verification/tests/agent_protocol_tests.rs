use mushroom_bot::agent::{Agent, AgentReply};
use mushroom_bot::board::Board;
use mushroom_bot::bots::finder_protocol::{FinderProtocol, FinderReply};
use mushroom_bot::bots::policy_protocol::{PolicyProtocol, PolicyReply};
use mushroom_bot::bots::policy_search::turn_budget;
use mushroom_bot::opening::side::GameSide;
use mushroom_bot::types::{FIRST, PASS, SECOND};

fn make_test_board() -> Board {
    let rows: Vec<String> = vec![
        "12345678912345678".to_string(),
        "12345678912345678".to_string(),
        "12345678912345678".to_string(),
        "12345678912345678".to_string(),
        "12345678912345678".to_string(),
        "12345678912345678".to_string(),
        "12345678912345678".to_string(),
        "12345678912345678".to_string(),
        "12345678912345678".to_string(),
        "12345678912345678".to_string(),
    ];
    Board::from_rows(&rows)
}

#[test]
fn test_opp_consecutive_passes_update_board() {
    let mut agent = Agent::new();
    agent.board = Some(make_test_board());
    agent.opp_consecutive_passes = 0;
    agent.opp_passes_since_our_move = 0;

    let _ = agent.handle("OPP -1 -1 -1 -1 0");
    let after_first = agent.board.as_ref().unwrap().clone();
    assert_eq!(after_first.passes, 1);
    assert_eq!(agent.opp_consecutive_passes, 1);
    assert_eq!(agent.opp_passes_since_our_move, 1);

    let _ = agent.handle("OPP -1 -1 -1 -1 0");
    let after_second = agent.board.as_ref().unwrap().clone();
    assert_eq!(after_second.passes, 2);
    assert!(after_second.is_terminal());
    assert_eq!(agent.opp_consecutive_passes, 2);
    assert_eq!(agent.opp_passes_since_our_move, 2);
}

#[test]
fn main_agent_ready_and_init() {
    let mut agent = Agent::new();
    match agent.handle("READY SECOND") {
        AgentReply::Line(s) => assert_eq!(s, "OK"),
        _ => panic!("READY must answer"),
    }
    assert_eq!(agent.my_player, SECOND);
    assert!(agent.side == GameSide::Second);
    match agent.handle("READY") {
        AgentReply::Line(s) => assert_eq!(s, "OK"),
        _ => panic!("READY must answer"),
    }
    assert_eq!(agent.my_player, FIRST);
    let rows = match agent.handle("INIT 12345678912345678 12345678912345678") {
        AgentReply::Init(rows) => rows,
        _ => panic!("INIT hands out rows"),
    };
    assert_eq!(rows.len(), 2);
    let mut all = rows.clone();
    while all.len() < 10 {
        all.push("12345678912345678".to_string());
    }
    assert!(agent.init(&all));
    assert_eq!(agent.board.unwrap().values[0], 1);
    assert!(matches!(agent.handle("FINISH"), AgentReply::Finish));
    assert!(matches!(agent.handle("NOISE"), AgentReply::Nothing));
}

#[test]
fn main_agent_time_turns() {
    let mut agent = Agent::new();
    match agent.handle("TIME 100 100") {
        AgentReply::Line(s) => assert_eq!(s, "-1 -1 -1 -1"),
        _ => panic!("no board: pass"),
    }
    agent.board = Some(make_test_board());
    let (state, my, opp) = match agent.handle("TIME 1500 x") {
        AgentReply::Think(s, my, opp) => (s, my, opp),
        _ => panic!("must think"),
    };
    assert_eq!(my, 1500);
    assert_eq!(opp, 0);
    assert_eq!(agent.finish_turn(state, (0, 0, 0, 3)), "0 0 0 3");
    assert_eq!(agent.board.unwrap().player, SECOND);
    let (state2, _, _) = match agent.handle("TIME 1500 1500") {
        AgentReply::Think(s, my, opp) => (s, my, opp),
        _ => panic!("must think"),
    };
    assert_eq!(agent.finish_turn(state2, (0, 0, 0, 3)), "-1 -1 -1 -1");
}

#[test]
fn main_agent_locks_in_lead() {
    let mut agent = Agent::new();
    let b = make_test_board().apply_action((0, 0, 0, 3)).apply_action(PASS);
    agent.board = Some(b);
    agent.opp_consecutive_passes = 2;
    match agent.handle("TIME 1000 1000") {
        AgentReply::Line(s) => assert_eq!(s, "-1 -1 -1 -1"),
        _ => panic!("leading after two opponent passes: pass"),
    }
    assert_eq!(agent.board.unwrap().passes, 2);
}

#[test]
fn finder_protocol_flow() {
    let mut p = FinderProtocol::new();
    match p.handle("READY SECOND") {
        FinderReply::Line(s) => assert_eq!(s, "OK"),
        _ => panic!("READY must answer"),
    }
    assert_eq!(p.my_player, SECOND);
    p.init(&vec!["12345678912345678".to_string(); 10]);
    let (state, budget) = match p.handle("TIME 10500 1000") {
        FinderReply::Think(s, b) => (s, b),
        _ => panic!("must think"),
    };
    assert_eq!(budget, 238);
    assert_eq!(p.finish_turn(state, (0, 0, 0, 3)), "0 0 0 3");
    assert!(matches!(p.handle("OPP -1 -1 -1 -1 0"), FinderReply::Nothing));
    assert_eq!(p.opp_consecutive_passes, 1);
    assert_eq!(p.board.unwrap().passes, 1);
    let _ = p.handle("OPP -1 -1 -1 -1 0");
    assert_eq!(p.opp_consecutive_passes, 2);
    assert_eq!(p.opp_passes_since_our_move, 2);
    assert_eq!(p.board.unwrap().passes, 1);
    match p.handle("TIME 100 100") {
        FinderReply::Line(s) => assert_eq!(s, "-1 -1 -1 -1"),
        _ => panic!("leading after two opponent passes: pass"),
    }
}

#[test]
fn policy_protocol_flow() {
    let mut p = PolicyProtocol::new();
    assert_eq!(p.my_time_left_ms, 10000);
    match p.handle("TIME 5 5") {
        PolicyReply::Line(s) => assert_eq!(s, "-1 -1 -1 -1"),
        _ => panic!("no board: pass"),
    }
    p.init(&vec!["12345678912345678".to_string(); 10]);
    let (state, t) = match p.handle("TIME abc") {
        PolicyReply::Think(s, t) => (s, t),
        _ => panic!("must think"),
    };
    assert_eq!(t, 10000);
    assert_eq!(turn_budget(&state, t), 100);
    assert_eq!(turn_budget(&state, 700), 11);
    assert_eq!(p.finish_turn(state, (0, 0, 0, 3)), "0 0 0 3");
    let _ = p.handle("OPP 0 9 9 9 0");
    assert_eq!(p.board.unwrap().player, FIRST);
    let _ = p.handle("OPP 0 1 0 1 0");
    assert_eq!(p.board.unwrap().player, FIRST);
}
