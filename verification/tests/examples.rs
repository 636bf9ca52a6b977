use classic_computer_science_problems::fib_iterative;
use classic_computer_science_problems::fib_memoized::fib_memo;
use classic_computer_science_problems::fib_recursive::{fib, fib_ifelse};
use classic_computer_science_problems::generic_search::{bfs, dfs};
use classic_computer_science_problems::hanoi::Hanoi;
use classic_computer_science_problems::missionaries_and_cannibals::{MCState, MAX_NUM};
use classic_computer_science_problems::unbreakable_encryption::KeyPair;
use std::collections::{HashMap, VecDeque};

const FIRST: [u64; 13] = [0, 1, 1, 2, 3, 5, 8, 13, 21, 34, 55, 89, 144];

#[test]
fn fib_by_recursion_gives_the_first_numbers() {
    for (i, expected) in FIRST.iter().enumerate() {
        assert_eq!(fib(i as u64), *expected);
        assert_eq!(fib_ifelse(i as u64), *expected);
    }
    assert_eq!(fib(20), 6765);
}

#[test]
fn fib_by_loop_gives_the_first_numbers() {
    for (i, expected) in FIRST.iter().enumerate() {
        assert_eq!(fib_iterative::fib(i as u64), *expected);
    }
    assert_eq!(fib_iterative::fib(40), 102334155);
    assert_eq!(fib_iterative::fib(92), 7540113804746346429);
}

#[test]
fn fib_memo_fills_its_cache() {
    let mut cache = HashMap::new();
    assert_eq!(fib_memo(40, &mut cache), 102334155);
    assert_eq!(cache.len(), 41);
    assert_eq!(cache[&10], 55);
    assert_eq!(cache[&0], 0);
    assert_eq!(fib_memo(93, &mut cache), 12200160415121876738);
    assert_eq!(fib_memo(5, &mut cache), 5);
}

#[test]
fn hanoi_starts_with_all_discs_on_the_first_tower() {
    let hanoi = Hanoi::new(3);
    assert_eq!(hanoi.num_discs, 3);
    assert_eq!(hanoi.tower_a, VecDeque::from(vec![3, 2, 1]));
    assert!(hanoi.tower_b.is_empty());
    assert!(hanoi.tower_c.is_empty());
}

#[test]
fn hanoi_solve_moves_the_tower_to_the_third_peg() {
    for discs in 1..=10u64 {
        let mut hanoi = Hanoi::new(discs);
        let start = hanoi.tower_a.clone();
        hanoi.solve();
        assert!(hanoi.tower_a.is_empty());
        assert!(hanoi.tower_b.is_empty());
        assert_eq!(hanoi.tower_c, start);
    }
}

#[test]
fn move_discs_moves_the_top_of_a_tower() {
    let mut begin = VecDeque::from(vec![5, 4, 3, 2, 1]);
    let mut end = VecDeque::from(vec![9]);
    let mut temp = VecDeque::from(vec![7, 6]);
    Hanoi::move_discs(&mut begin, &mut end, &mut temp, 3);
    assert_eq!(begin, VecDeque::from(vec![2, 1]));
    assert_eq!(end, VecDeque::from(vec![5, 4, 3, 9]));
    assert_eq!(temp, VecDeque::from(vec![7, 6]));
}

#[test]
fn missionaries_state_counts_both_banks() {
    let state = MCState::new(2, 1, true);
    assert_eq!(state, MCState { wm: 2, wc: 1, em: 1, ec: 2, is_boat_on_west_bank: true });
    assert_eq!(MAX_NUM, 3);
}

#[test]
fn outnumbered_missionaries_are_not_allowed() {
    assert!(MCState::new(3, 3, true).is_allowed_state());
    assert!(MCState::new(0, 3, true).is_allowed_state());
    assert!(MCState::new(3, 0, false).is_allowed_state());
    assert!(!MCState::new(1, 2, true).is_allowed_state());
    assert!(!MCState::new(2, 1, true).is_allowed_state());
    assert!(MCState::new(2, 2, false).is_allowed_state());
}

#[test]
fn goal_is_everybody_on_the_east_bank() {
    assert!(MCState::new(0, 0, false).test_goal());
    assert!(MCState::new(0, 0, true).test_goal());
    assert!(!MCState::new(0, 1, false).test_goal());
    assert!(!MCState::new(3, 3, true).test_goal());
}

#[test]
fn successors_of_the_start_are_the_safe_crossings() {
    let start = MCState::new(3, 3, true);
    assert_eq!(
        MCState::get_successors(start),
        vec![MCState::new(3, 1, false), MCState::new(3, 2, false), MCState::new(2, 2, false)]
    );
    let back = MCState::new(2, 2, false);
    assert_eq!(MCState::get_successors(back), vec![MCState::new(3, 2, true), MCState::new(3, 3, true)]);
    assert_eq!(
        MCState::get_successors(MCState::new(0, 0, false)),
        vec![MCState::new(0, 2, true), MCState::new(0, 1, true), MCState::new(1, 1, true)]
    );
}

#[test]
fn missionaries_and_cannibals_cross_in_eleven_trips() {
    let start = MCState::new(MAX_NUM, MAX_NUM, true);
    let found = bfs(start, |s| s.test_goal(), MCState::get_successors).unwrap();
    let path: Vec<MCState> = found.to_path().into_iter().collect();
    assert_eq!(path.len(), 12);
    assert_eq!(path[0], start);
    assert_eq!(path[11], MCState::new(0, 0, false));
    for pair in path.windows(2) {
        assert!(MCState::get_successors(pair[0]).contains(&pair[1]));
        assert!(pair[1].is_allowed_state());
    }
    let by_dfs = dfs(start, |s| s.test_goal(), MCState::get_successors).unwrap();
    assert!(by_dfs.to_path().len() >= 12);
}

#[test]
fn decrypt_gives_back_what_was_encrypted() {
    let text = "My super secret password abc890xyz123 🔐";
    let pair = KeyPair::encrypt(text);
    assert_eq!(pair.key_1.len(), text.len());
    assert_eq!(pair.key_2.len(), text.len());
    assert_eq!(String::from_utf8(pair.decrypt()).unwrap(), text);
    assert_eq!(KeyPair::encrypt("").decrypt(), Vec::<u8>::new());
}

#[test]
fn encrypt_with_key_combines_byte_by_byte() {
    let pair = KeyPair::encrypt_with_key("AB", vec![0x0f, 0xff]);
    assert_eq!(pair.key_1, vec![0x0f, 0xff]);
    assert_eq!(pair.key_2, vec![0x41 ^ 0x0f, 0x42 ^ 0xff]);
    assert_eq!(pair.decrypt(), vec![0x41, 0x42]);
}

#[test]
fn decrypt_stops_with_the_shorter_key() {
    let pair = KeyPair { key_1: vec![1, 2, 3], key_2: vec![3, 2] };
    assert_eq!(pair.decrypt(), vec![2, 0]);
}

#[test]
fn random_key_has_the_length_asked_for() {
    assert_eq!(KeyPair::random_key(0).len(), 0);
    assert_eq!(KeyPair::random_key(64).len(), 64);
    assert_ne!(KeyPair::random_key(64), KeyPair::random_key(64));
}
