use std::collections::HashSet;
use tuenti::fortress;
use tuenti::keyboard;
use tuenti::partitions;
use tuenti::rps;
use tuenti::tournament;
use tuenti::tuentistic;

#[test]
fn rps_winner_of_each_pair() {
    let cases = [("P", "R", "P"), ("P", "S", "S"), ("R", "S", "R"), ("R", "R", "-"), ("S", "S", "-")];
    for (a, b, w) in cases.iter() {
        let input = rps::Input { p1: a.to_string(), p2: b.to_string() };
        assert_eq!(rps::process(&input), w.to_string());
    }
}

#[test]
fn rps_unsorted_pair_is_a_draw() {
    let input = rps::Input { p1: "R".to_string(), p2: "P".to_string() };
    assert_eq!(rps::process(&input), "-");
}

#[test]
fn rps_parse_line_sorts_the_hands() {
    let input = rps::parse_line("S P").unwrap();
    assert_eq!(input.p1, "P");
    assert_eq!(input.p2, "S");
    assert_eq!(rps::process(&input), "S");
    let input = rps::parse_line("R P").unwrap();
    assert_eq!(rps::process(&input), "P");
}

#[test]
fn rps_parse_line_needs_two_hands() {
    assert!(rps::parse_line("R").is_none());
}

#[test]
fn tuentistic_counts() {
    let expect = [
        (0u64, "IMPOSSIBLE"),
        (19, "IMPOSSIBLE"),
        (20, "1"),
        (29, "1"),
        (30, "IMPOSSIBLE"),
        (39, "IMPOSSIBLE"),
        (40, "2"),
        (58, "2"),
        (59, "IMPOSSIBLE"),
        (60, "3"),
        (1000, "50"),
    ];
    for (n, r) in expect.iter() {
        assert_eq!(tuentistic::process(&tuentistic::Input { n: *n }), r.to_string());
    }
}

#[test]
fn tuentistic_parse_line() {
    assert_eq!(tuentistic::parse_line("45").unwrap().n, 45);
    assert!(tuentistic::parse_line("-3").is_none());
    assert!(tuentistic::parse_line("4 5").is_none());
}

#[test]
fn keyboard_translates_dvorak_keys() {
    assert_eq!(keyboard::process("Hello, World!"), "Jdppsw <soph!");
    assert_eq!(keyboard::process("pyfgcrl"), "rtyuiop");
    assert_eq!(keyboard::process("aoeu"), "asdf");
    assert_eq!(keyboard::process(""), "");
}

#[test]
fn keyboard_keeps_length() {
    let text = "The quick brown fox; jumps over 13 lazy dogs.";
    assert_eq!(keyboard::process(text).chars().count(), text.chars().count());
}

#[test]
fn partitions_counts_sums_of_two_or_more_parts() {
    let input = partitions::Input { n: 5, forbidden: HashSet::new() };
    assert_eq!(partitions::process(&input).unwrap(), "6");
    let input = partitions::Input { n: 4, forbidden: HashSet::new() };
    assert_eq!(partitions::process(&input).unwrap(), "4");
    let input = partitions::Input { n: 1, forbidden: HashSet::new() };
    assert_eq!(partitions::process(&input).unwrap(), "0");
}

#[test]
fn partitions_skip_forbidden_parts() {
    let mut forbidden = HashSet::new();
    forbidden.insert(1);
    let input = partitions::Input { n: 5, forbidden };
    assert_eq!(partitions::process(&input).unwrap(), "1");
}

#[test]
fn partitions_parse_line() {
    let input = partitions::parse_line("6 1 2").unwrap();
    assert_eq!(input.n, 6);
    assert_eq!(input.forbidden.len(), 2);
    assert!(input.forbidden.contains(&1) && input.forbidden.contains(&2));
    // 6 = 3+3: the only sum of parts from 3..=5 with at least two parts.
    assert_eq!(partitions::process(&input).unwrap(), "1");
    assert!(partitions::parse_line("6 x").is_none());
}

#[test]
fn partitions_count_too_large_for_u32() {
    let input = partitions::Input { n: 200, forbidden: HashSet::new() };
    assert!(partitions::process(&input).is_none());
}

#[test]
fn tournament_winner_is_unbeaten() {
    let matches = vec![
        tournament::Match { p1: 1, p2: 2, player1_wins: true },
        tournament::Match { p1: 3, p2: 1, player1_wins: false },
    ];
    assert_eq!(tournament::process(&tournament::Input { matches }), "1");
    let matches = vec![
        tournament::Match { p1: 1, p2: 2, player1_wins: false },
        tournament::Match { p1: 2, p2: 3, player1_wins: true },
    ];
    assert_eq!(tournament::process(&tournament::Input { matches }), "2");
}

#[test]
fn tournament_no_unbeaten_player() {
    let matches = vec![
        tournament::Match { p1: 1, p2: 2, player1_wins: true },
        tournament::Match { p1: 1, p2: 2, player1_wins: false },
    ];
    assert_eq!(tournament::process(&tournament::Input { matches }), "0");
}

#[test]
fn tournament_parse_input() {
    let lines: Vec<String> = ["2", "2", "1 2 1", "3 1 0", "1", "4 5 0"].iter().map(|s| s.to_string()).collect();
    let inputs = tournament::parse_input(&lines).unwrap();
    assert_eq!(inputs.len(), 2);
    assert_eq!(inputs[0].matches.len(), 2);
    assert_eq!(tournament::process(&inputs[0]), "1");
    assert_eq!(tournament::process(&inputs[1]), "1");
    let short: Vec<String> = ["1", "3", "1 2 1"].iter().map(|s| s.to_string()).collect();
    assert!(tournament::parse_input(&short).is_none());
}

#[test]
fn fortress_tower_sizes() {
    assert_eq!(fortress::tower(0, 1), 0);
    assert_eq!(fortress::tower(1, 1), 1);
    assert_eq!(fortress::tower(2, 1), 2);
    assert_eq!(fortress::tower(3, 1), 43);
    assert_eq!(fortress::tower(4, 1), 156);
    assert_eq!(fortress::tower(3, 2), 52);
    assert_eq!(fortress::tower(3, 3), 64);
    assert_eq!(fortress::tower_checked(3, 1), Some(43));
    assert_eq!(fortress::tower_checked(u64::MAX / 2, u64::MAX / 2), None);
}

#[test]
fn fortress_towers_grow() {
    for h in 0..12u64 {
        for s in 1..6u64 {
            assert!(fortress::tower(h, s) <= fortress::tower(h + 1, s));
            assert!(fortress::tower(h, s) <= fortress::tower(h, s + 1));
        }
    }
}

#[test]
fn fortress_best_towers() {
    assert_eq!(fortress::process(42), "IMPOSSIBLE");
    assert_eq!(fortress::process(43), "3 43");
    assert_eq!(fortress::process(50), "3 43");
    assert_eq!(fortress::process(52), "3 52");
    assert_eq!(fortress::process(156), "4 156");
}

#[test]
fn fortress_parse_line() {
    assert_eq!(fortress::parse_line("156"), Some(156));
    assert_eq!(fortress::parse_line("+7"), Some(7));
    assert_eq!(fortress::parse_line("x"), None);
}
