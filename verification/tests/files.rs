use crc32fast::Hasher;
use num::BigUint;
use tuenti::bathrooms;
use tuenti::edits;
use tuenti::modulus;
use tuenti::ranking;

fn ready_hashers() -> (Hasher, Hasher) {
    let mb = edits::zero_hasher(edits::MB);
    let mut gb = Hasher::new();
    for _ in 0..1000 {
        gb.combine(&mb);
    }
    (gb, mb)
}

fn line(name: &str, round: usize, bytes: &[u8]) -> String {
    format!("{} {}: {:08x}", name, round, crc32fast::hash(bytes))
}

#[test]
fn edits_zero_hasher_hashes_zeros() {
    let h = edits::zero_hasher(100_000);
    assert_eq!(h.finalize(), crc32fast::hash(&vec![0u8; 100_000]));
}

#[test]
fn edits_rounds_of_a_small_file() {
    let (gb, mb) = ready_hashers();
    let mut input = edits::Input { filename: "cat.txt".to_string(), edits: vec![(2, 66), (1, 65)] };
    let text = edits::process(&mut input, 3, &gb, &mb).unwrap();
    let expected = vec![
        line("cat.txt", 0, &[0, 0, 0]),
        line("cat.txt", 1, &[0, 0, 66, 0]),
        line("cat.txt", 2, &[0, 65, 0, 66, 0]),
    ]
    .join("\n");
    assert_eq!(text, expected);
    assert_eq!(input.edits, vec![(2, 66), (1, 65)]);
}

#[test]
fn edits_offsets_are_corrected() {
    let (gb, mb) = ready_hashers();
    let mut input = edits::Input { filename: "f".to_string(), edits: vec![(1, 65), (2, 66)] };
    let text = edits::process(&mut input, 3, &gb, &mb).unwrap();
    assert_eq!(input.edits, vec![(1, 65), (1, 66)]);
    let expected = vec![
        line("f", 0, &[0, 0, 0]),
        line("f", 1, &[0, 65, 0, 0]),
        line("f", 2, &[0, 65, 66, 0, 0]),
    ]
    .join("\n");
    assert_eq!(text, expected);
}

#[test]
fn edits_long_zero_runs_use_ready_hashers() {
    let (gb, mb) = ready_hashers();
    let size: u64 = 2_500_123;
    let mut input = edits::Input { filename: "big".to_string(), edits: vec![(1_000_001, 7)] };
    let text = edits::process(&mut input, size, &gb, &mb).unwrap();
    let mut file = vec![0u8; size as usize];
    let zero_line = line("big", 0, &file);
    file.insert(1_000_001, 7);
    let expected = vec![zero_line, line("big", 1, &file)].join("\n");
    assert_eq!(text, expected);
}

#[test]
fn edits_empty_file() {
    let (gb, mb) = ready_hashers();
    let mut input = edits::Input { filename: "e".to_string(), edits: vec![] };
    assert_eq!(edits::process(&mut input, 0, &gb, &mb).unwrap(), "e 0: 00000000");
    let mut input = edits::Input { filename: "e".to_string(), edits: vec![(0, 1)] };
    assert_eq!(edits::process(&mut input, 0, &gb, &mb).unwrap(), format!("e 0: 00000000\n{}", line("e", 1, &[1])));
}

#[test]
fn edits_past_the_end_cannot_be_hashed() {
    let (gb, mb) = ready_hashers();
    let mut input = edits::Input { filename: "f".to_string(), edits: vec![(5, 1)] };
    assert!(edits::process(&mut input, 3, &gb, &mb).is_none());
}

#[test]
fn edits_correct_offsets_ranks() {
    let mut e = vec![(3, 1), (1, 2), (3, 3)];
    let r = edits::correct_offsets(&mut e);
    assert_eq!(e, vec![(3, 1), (1, 2), (2, 3)]);
    assert_eq!(r, vec![((3, 1), 2), ((1, 2), 0), ((2, 3), 1)]);
}

#[test]
fn edits_sorted_unique() {
    assert_eq!(edits::sorted_unique(&vec![5, 1, 5, 3, 1]), vec![1, 3, 5]);
    assert_eq!(edits::sorted_unique(&vec![]), Vec::<u64>::new());
}

#[test]
fn edits_parse_input() {
    let lines: Vec<String> = ["cat.txt 2", "2 66", "1 65", "dog.txt -1", "emu.txt 0"].iter().map(|s| s.to_string()).collect();
    let inputs = edits::parse_input(&lines).unwrap();
    assert_eq!(inputs.len(), 3);
    assert_eq!(inputs[0].filename, "cat.txt");
    assert_eq!(inputs[0].edits, vec![(2, 66), (1, 65)]);
    assert_eq!(inputs[1].filename, "dog.txt");
    assert!(inputs[1].edits.is_empty());
    assert_eq!(inputs[2].filename, "emu.txt");
    let missing: Vec<String> = ["cat.txt 2", "2 66"].iter().map(|s| s.to_string()).collect();
    assert!(edits::parse_input(&missing).is_none());
    let bad_byte: Vec<String> = ["cat.txt 1", "2 300"].iter().map(|s| s.to_string()).collect();
    assert!(edits::parse_input(&bad_byte).is_none());
}

#[test]
fn bathrooms_parse_input() {
    let lines: Vec<String> = ["2", "2 2", "3", "0 1 1", "2 extra", "1", "1 0"].iter().map(|s| s.to_string()).collect();
    let inputs = bathrooms::parse_input(&lines).unwrap();
    assert_eq!(inputs.len(), 2);
    assert_eq!(inputs[0].num_floors, 2);
    assert_eq!(inputs[0].groups.len(), 2);
    assert_eq!(inputs[0].groups[0].count, 3);
    assert_eq!(inputs[0].groups[0].floors, vec![0, 1]);
    assert_eq!(inputs[0].groups[1].count, 2);
    assert_eq!(inputs[0].groups[1].floors, vec![1]);
    assert_eq!(inputs[1].num_floors, 1);
    assert!(inputs[1].groups.is_empty());
    let short: Vec<String> = ["1", "2 1", "3"].iter().map(|s| s.to_string()).collect();
    assert!(bathrooms::parse_input(&short).is_none());
}

#[test]
fn bathrooms_layout_names() {
    let input = bathrooms::Input {
        num_floors: 3,
        groups: vec![
            bathrooms::Group { count: 3, floors: vec![1, 0] },
            bathrooms::Group { count: 2, floors: vec![1] },
        ],
    };
    let layout = bathrooms::lp_layout(&input).unwrap();
    assert_eq!(layout.group_vars, vec![vec!["G0_F1".to_string(), "G0_F0".to_string()], vec!["G1_F1".to_string()]]);
    assert_eq!(
        layout.floor_vars,
        vec![vec!["G0_F0".to_string()], vec!["G0_F1".to_string(), "G1_F1".to_string()], vec![]]
    );
}

#[test]
fn bathrooms_unknown_floor() {
    let input = bathrooms::Input { num_floors: 2, groups: vec![bathrooms::Group { count: 1, floors: vec![2] }] };
    assert!(bathrooms::lp_layout(&input).is_none());
}

#[test]
fn ranking_counts_and_orders_words() {
    let book = "Hola hola, mundo! ¿Qué tal? mundo MUNDO al";
    let rank = ranking::build_ranking(book);
    let expected: Vec<(String, u32)> =
        vec![("mundo".to_string(), 3), ("hola".to_string(), 2), ("qué".to_string(), 1), ("tal".to_string(), 1)];
    assert_eq!(rank, expected);
    assert_eq!(ranking::process("1", &rank), "mundo 3");
    assert_eq!(ranking::process("4", &rank), "tal 1");
    assert_eq!(ranking::process("hola", &rank), "2 #2");
    assert_eq!(ranking::process("qué", &rank), "1 #3");
}

#[test]
fn ranking_of_clean_text() {
    let rank = ranking::rank_words("abc bca abc  ÁÉÍ");
    assert_eq!(rank, vec![("abc".to_string(), 2), ("bca".to_string(), 1), ("áéí".to_string(), 1)]);
}

#[test]
fn modulus_from_two_pairs() {
    // Two ciphertexts of the same plaintext that differ by the modulus: the
    // two differences are multiples of n whose gcd is n itself.
    let n = BigUint::from(3233u32);
    let e = BigUint::from(65537u32);
    let p = BigUint::from(2u32);
    let c1 = p.modpow(&e, &n);
    let c2 = &c1 + &n;
    let r = modulus::recover_modulus(&c1.to_bytes_be(), &c2.to_bytes_be(), &p.to_bytes_be(), &p.to_bytes_be())
        .unwrap();
    assert_eq!(r, "3233");
}

#[test]
fn modulus_result_divides_both_differences() {
    let n = BigUint::from(3233u32);
    let e = BigUint::from(65537u32);
    let p1 = BigUint::from(2u32);
    let p2 = BigUint::from(3u32);
    let c1 = p1.modpow(&e, &n);
    let c2 = p2.modpow(&e, &n);
    let r = modulus::recover_modulus(&c1.to_bytes_be(), &c2.to_bytes_be(), &p1.to_bytes_be(), &p2.to_bytes_be())
        .unwrap();
    let g: BigUint = r.parse().unwrap();
    let zero = BigUint::from(0u32);
    assert_eq!(&g % &n, zero);
    let d1 = num::pow::pow(p1, 65537) - c1;
    let d2 = num::pow::pow(p2, 65537) - c2;
    assert_eq!(&d1 % &g, zero);
    assert_eq!(&d2 % &g, zero);
}

#[test]
fn modulus_negative_difference() {
    assert!(modulus::recover_modulus(&[5], &[0], &[], &[2]).is_none());
}
