use tuenti::labyrinth::{self, Explorer, Step};
use tuenti::paxos::{self, Proposer};

fn blank_map() -> Vec<char> {
    vec![' '; 250 * 250]
}

fn send_text(step: Step) -> String {
    match step {
        Step::Send(s) => s,
        Step::Done => panic!("expected a command, got Done"),
        Step::Failed => panic!("expected a command, got Failed"),
    }
}

#[test]
fn labyrinth_commands() {
    assert_eq!(labyrinth::movement_to_command(1, -2), "2U1R\n");
    assert_eq!(labyrinth::movement_to_command(-2, 1), "1D2L\n");
    assert_eq!(labyrinth::movement_to_command(0, 0), "0D0R\n");
    assert_eq!(labyrinth::movement_to_command(-1, 2), "2D1L\n");
}

#[test]
fn labyrinth_moves_on_open_map() {
    let map = blank_map();
    let moves = labyrinth::generate_movements(125, 125, &map).unwrap();
    assert_eq!(moves, vec![(-2, -1), (-2, 1), (-1, -2), (-1, 2), (1, -2), (1, 2), (2, -1), (2, 1)]);
}

#[test]
fn labyrinth_moves_skip_walls() {
    let mut map = blank_map();
    map[124 * 250 + 123] = '#';
    map[127 * 250 + 126] = '#';
    let moves = labyrinth::generate_movements(125, 125, &map).unwrap();
    assert_eq!(moves, vec![(-2, 1), (-1, -2), (-1, 2), (1, -2), (2, -1), (2, 1)]);
}

#[test]
fn labyrinth_moves_off_the_map() {
    let map = blank_map();
    assert!(labyrinth::generate_movements(1, 125, &map).is_none());
    assert!(labyrinth::generate_movements(125, 248, &map).is_none());
}

#[test]
fn labyrinth_update_writes_window() {
    let mut map = blank_map();
    let response = "abcde\nfghij\nklmno\npqrst\nuvwxy\nwelcome\n";
    assert!(labyrinth::view_fits(10, 20, response));
    labyrinth::update(&mut map, 10, 20, response);
    assert_eq!(map[18 * 250 + 8], 'a');
    assert_eq!(map[18 * 250 + 12], 'e');
    assert_eq!(map[20 * 250 + 10], 'm');
    assert_eq!(map[22 * 250 + 12], 'y');
    assert_eq!(map[17 * 250 + 10], ' ');
    assert_eq!(map[20 * 250 + 13], ' ');
}

#[test]
fn labyrinth_update_handles_crlf() {
    let mut map = blank_map();
    let response = "abcde\r\nfghij\r\nklmno\r\npqrst\r\nuvwxy\r\n";
    assert!(labyrinth::view_fits(10, 20, response));
    labyrinth::update(&mut map, 10, 20, response);
    assert_eq!(map[18 * 250 + 12], 'e');
    assert_eq!(map[22 * 250 + 8], 'u');
}

#[test]
fn labyrinth_short_responses_cannot_be_read() {
    assert!(!labyrinth::view_fits(10, 20, "abcde\nfghij\n"));
    assert!(!labyrinth::view_fits(10, 20, "abcde\nfghij\nklm\npqrst\nuvwxy\n"));
    assert!(!labyrinth::view_fits(1, 20, "abcde\nfghij\nklmno\npqrst\nuvwxy\n"));
    assert!(!labyrinth::view_fits(10, 248, "abcde\nfghij\nklmno\npqrst\nuvwxy\n"));
    assert!(labyrinth::view_fits(2, 247, "abcde\nfghij\nklmno\npqrst\nuvwxyz\n"));
}

#[test]
fn labyrinth_commands_differ_for_different_moves() {
    let moves = [(-2, -1), (-2, 1), (-1, -2), (-1, 2), (1, -2), (1, 2), (2, -1), (2, 1), (0, 0), (10, -12)];
    for a in moves.iter() {
        for b in moves.iter() {
            let same = labyrinth::movement_to_command(a.0, a.1) == labyrinth::movement_to_command(b.0, b.1);
            assert_eq!(same, a == b);
        }
    }
}

#[test]
fn labyrinth_render_rows() {
    let mut map = blank_map();
    map[0] = 'A';
    map[250] = 'B';
    map[250 * 250 - 1] = 'Z';
    let text = labyrinth::render(&map);
    let rows: Vec<&str> = text.split('\n').collect();
    assert_eq!(rows.len(), 250);
    assert!(rows.iter().all(|r| r.chars().count() == 250));
    assert!(rows[0].starts_with('A'));
    assert!(rows[1].starts_with('B'));
    assert!(rows[249].ends_with('Z'));
}

#[test]
fn labyrinth_dead_end_start() {
    let mut e = Explorer::new();
    let walls = "#####\n#...#\n#.K.#\n#...#\n#####\n";
    assert_eq!(send_text(e.on_response(walls)), "0D0R\n");
    assert!(matches!(e.on_response(walls), Step::Done));
    assert!(e.is_finished());
    assert!(matches!(e.on_response(walls), Step::Done));
}

#[test]
fn labyrinth_explores_and_comes_back() {
    let mut e = Explorer::new();
    // From the centre only the move two left, one up is open.
    let start = "#####\n....#\n#.K.#\n#...#\n#####\n";
    assert_eq!(send_text(e.on_response(start)), "1U2L\n");
    // The square reached is a dead end: step back the way we came.
    let dead = "#####\n#...#\n#.K.#\n#...#\n#####\n";
    assert_eq!(send_text(e.on_response(dead)), "1D2R\n");
    // Back at the start, nothing is left to try: leave by the null move.
    assert_eq!(send_text(e.on_response(start)), "0D0R\n");
    assert!(matches!(e.on_response(start), Step::Done));
    let map = e.labyrinth();
    assert_eq!(map[124 * 250 + 123], '.');
    assert_eq!(map[125 * 250 + 125], 'K');
}

#[test]
fn labyrinth_bad_response_fails() {
    let mut e = Explorer::new();
    assert!(matches!(e.on_response("no map here"), Step::Failed));
    assert!(!e.is_finished());
    let walls = "#####\n#...#\n#.K.#\n#...#\n#####\n";
    assert_eq!(send_text(e.on_response(walls)), "0D0R\n");
}

#[test]
fn paxos_message_texts() {
    assert_eq!(paxos::prepare_message(2, 5), "PREPARE {2,9} -> 5\n");
    assert_eq!(paxos::promise_message(7), "PROMISE {7,9} -> 9\n");
    assert_eq!(paxos::accepted_message(3, &vec![1, 2, 3]), "ACCEPTED {servers: [1,2,3], secret_owner: 9} -> 3");
    assert_eq!(
        paxos::accept_message(4, 9, &vec![1, 4], 2, 1),
        "ACCEPT {id: {4,9}, value: {servers: [1,4], secret_owner: 2}} -> 1\n"
    );
    assert_eq!(paxos::accepted_message(3, &vec![]), "ACCEPTED {servers: [], secret_owner: 9} -> 3");
}

#[test]
fn paxos_server_id_from_greeting() {
    assert_eq!(paxos::parse_server_id("SERVER ID: 4\nwelcome\n"), Some(4));
    assert_eq!(paxos::parse_server_id("ID: 12: more\n"), Some(12));
    assert_eq!(paxos::parse_server_id("no id here\n"), None);
    assert_eq!(paxos::parse_server_id(""), None);
}

fn texts(msgs: &[paxos::Message]) -> Vec<(bool, String)> {
    msgs.iter().map(|m| (m.to_others, m.text.clone())).collect()
}

#[test]
fn paxos_learn_then_promises() {
    let mut p = Proposer::new(vec![3, 4, 5, 6, 7, 8]);
    let learn = "ROUND 1: LEARN {servers: [1,2,3], secret_owner: 1}";
    let out = p.on_line(learn).unwrap();
    assert_eq!(
        texts(&out),
        vec![
            (false, "PREPARE {2,9} -> 1\n".to_string()),
            (false, "PREPARE {2,9} -> 2\n".to_string()),
            (false, "PREPARE {2,9} -> 3\n".to_string()),
            (true, "PROMISE {2,9} -> 9\n".to_string()),
        ]
    );
    let out = p.on_line("ROUND 2: 1 -> PROMISE {2,9} no_proposal").unwrap();
    assert_eq!(
        texts(&out),
        vec![
            (false, "ACCEPT {id: {2,9}, value: {servers: [1,2,3,4], secret_owner: 1}} -> 1\n".to_string()),
            (true, "ACCEPTED {servers: [1,2,3], secret_owner: 9} -> 1".to_string()),
            (true, "ACCEPTED {servers: [1,2,3], secret_owner: 9} -> 2".to_string()),
            (true, "ACCEPTED {servers: [1,2,3], secret_owner: 9} -> 3".to_string()),
        ]
    );
    // Accept requests go out once per round.
    let out = p.on_line("ROUND 2: 2 -> PROMISE {2,9} no_proposal").unwrap();
    assert!(out.is_empty());
}

#[test]
fn paxos_ignores_other_lines() {
    let mut p = Proposer::new(vec![1]);
    assert!(p.on_line("ROUND 3: 9 -> ACCEPTED {2,9}").unwrap().is_empty());
    assert!(p.on_line("hello").unwrap().is_empty());
}

#[test]
fn paxos_unreadable_lines() {
    let mut p = Proposer::new(vec![1]);
    assert!(p.on_line("LEARN without a list").is_none());
    assert!(p.on_line("LEARN {servers: [1,x], secret_owner: 2}").is_none());
    // A promise with no membership and no known id cannot be answered.
    let mut q = Proposer::new(vec![]);
    assert!(q.on_line("ROUND 1: 4 -> PROMISE {1,9}").is_none());
    assert!(p.on_line("a -> PROMISE").is_none());
}

#[test]
fn paxos_text_stops_at_unreadable_line() {
    let mut p = Proposer::new(vec![3]);
    let text = "LEARN {servers: [1], secret_owner: 1}\nLEARN broken\nLEARN {servers: [2], secret_owner: 1}\n";
    let (out, ok) = p.on_text(text);
    assert!(!ok);
    assert_eq!(
        texts(&out),
        vec![(false, "PREPARE {2,9} -> 1\n".to_string()), (true, "PROMISE {2,9} -> 9\n".to_string())]
    );
}

#[test]
fn paxos_membership_drops_unknown_first_server() {
    // Every known id is already a member: the first member, unknown and not
    // 9, is left out of the proposal.
    let mut p = Proposer::new(vec![2, 3]);
    p.on_line("LEARN {servers: [5,2,3], secret_owner: 5}").unwrap();
    let out = p.on_line("R 1: 2 -> PROMISE").unwrap();
    assert_eq!(out[0].text, "ACCEPT {id: {2,9}, value: {servers: [2,3], secret_owner: 5}} -> 2\n");
    // With a known first member, the proposal keeps the members and names 9.
    let mut p = Proposer::new(vec![2, 3]);
    p.on_line("LEARN {servers: [2,3], secret_owner: 5}").unwrap();
    let out = p.on_line("R 1: 3 -> PROMISE").unwrap();
    assert_eq!(out[0].text, "ACCEPT {id: {2,9}, value: {servers: [2,3], secret_owner: 9}} -> 3\n");
}
