use ripgzip::bst::tree::AVLTreeMap;
use ripgzip::combinations::combinations;
use ripgzip::flat_map::FlatMap;
use ripgzip::pstack::PStack;
use ripgzip::trust::{CheatingAgent, CooperatingAgent, CopycatAgent, DetectiveAgent, Game, GrudgerAgent, RoundOutcome};

#[test]
fn avl_insert_get_remove() {
    let mut map: AVLTreeMap<u32, String> = AVLTreeMap::new();
    assert!(map.is_empty());
    for i in 0..100u32 {
        assert_eq!(map.insert(i * 7 % 100, format!("v{}", i * 7 % 100)), None);
    }
    assert_eq!(map.len(), 100);
    assert!(!map.is_empty());
    assert_eq!(map.get(&42), Some(&"v42".to_string()));
    assert!(map.contains_key(&99));
    assert_eq!(map.get_key_value(&3), Some((&3, &"v3".to_string())));
    assert_eq!(map.insert(42, "other".to_string()), Some("v42".to_string()));
    assert_eq!(map.len(), 100);
    assert_eq!(map.nth_key_value(0), Some((&0, &"v0".to_string())));
    assert_eq!(map.nth_key_value(57).map(|kv| *kv.0), Some(57));
    assert_eq!(map.nth_key_value(100), None);
    assert_eq!(map.remove(&57), Some("v57".to_string()));
    assert_eq!(map.remove(&57), None);
    assert_eq!(map.len(), 99);
    assert_eq!(map.remove_entry(&0), Some((0, "v0".to_string())));
    assert_eq!(map.len(), 98);
    assert!(!map.print().is_empty());
}

#[test]
fn pstack_versions_share() {
    let empty: PStack<i32> = PStack::new();
    assert!(empty.is_empty());
    assert!(empty.pop().is_none());
    let one = empty.push(1);
    let two = one.push(2);
    assert_eq!(empty.len(), 0);
    assert_eq!(one.len(), 1);
    assert_eq!(two.len(), 2);
    let (top, rest) = two.pop().unwrap();
    assert_eq!(*top, 2);
    assert_eq!(rest.len(), 1);
    let (top1, rest1) = rest.pop().unwrap();
    assert_eq!(*top1, 1);
    assert!(rest1.is_empty());
    // iteration runs from the top
    let mut it = two.iter();
    assert_eq!(it.next().map(|v| *v), Some(2));
    assert_eq!(it.next().map(|v| *v), Some(1));
    assert!(it.next().is_none());
    let copy = two.clone();
    assert_eq!(copy.len(), 2);
}

#[test]
fn flat_map_sorted_operations() {
    let mut m: FlatMap<u64, &str> = FlatMap::new();
    assert!(m.is_empty());
    assert_eq!(m.insert(20, "b"), None);
    assert_eq!(m.insert(10, "a"), None);
    assert_eq!(m.insert(30, "c"), None);
    assert_eq!(m.len(), 3);
    assert!(m.capacity() >= 3);
    assert_eq!(m.insert(20, "B"), Some("b"));
    assert_eq!(m.len(), 3);
    assert_eq!(m.get(&10), Some(&"a"));
    assert_eq!(m.get(&20), Some(&"B"));
    assert_eq!(m.get(&25), None);
    let keys: Vec<u64> = m.as_slice().iter().map(|kv| kv.0).collect();
    assert_eq!(keys, vec![10, 20, 30]);
    assert_eq!(m.remove(&20), Some("B"));
    assert_eq!(m.remove(&20), None);
    assert_eq!(m.remove_entry(&10), Some((10, "a")));
    assert_eq!(m.len(), 1);
    assert_eq!(m.test_bor().len(), 1);
}

#[test]
fn combinations_shapes() {
    assert_eq!(combinations(&[], 3), vec![Vec::<i32>::new()]);
    assert_eq!(combinations(&[1, 2, 3], 0), vec![Vec::<i32>::new()]);
    assert_eq!(
        combinations(&[1, 2, 3], 2),
        vec![vec![1, 2], vec![1, 3], vec![2, 3]]
    );
    assert_eq!(combinations(&[1, 2, 3, 4], 4), vec![vec![1, 2, 3, 4]]);
}

#[test]
fn game_payoffs() {
    let mut game = Game::new(CheatingAgent::default(), CooperatingAgent::default());
    assert_eq!(game.play_round(), RoundOutcome::LeftCheated);
    assert_eq!(game.left_score(), 3);
    assert_eq!(game.right_score(), -1);

    let mut trusting = Game::new(CooperatingAgent::default(), CooperatingAgent::default());
    assert_eq!(trusting.play_round(), RoundOutcome::BothCooperated);
    assert_eq!(trusting.left_score(), 2);
    assert_eq!(trusting.right_score(), 2);

    let mut cynics = Game::new(CheatingAgent::default(), CheatingAgent::default());
    assert_eq!(cynics.play_round(), RoundOutcome::BothCheated);
    assert_eq!(cynics.left_score(), 0);
    assert_eq!(cynics.right_score(), 0);
}

#[test]
fn grudger_and_copycat() {
    // copycat opens by cooperating, then mirrors; grudger never forgives
    let mut game = Game::new(GrudgerAgent::default(), CheatingAgent::default());
    assert_eq!(game.play_round(), RoundOutcome::RightCheated);
    assert_eq!(game.play_round(), RoundOutcome::BothCheated);
    assert_eq!(game.play_round(), RoundOutcome::BothCheated);

    let mut mirror = Game::new(CopycatAgent::default(), CheatingAgent::default());
    assert_eq!(mirror.play_round(), RoundOutcome::RightCheated);
    assert_eq!(mirror.play_round(), RoundOutcome::BothCheated);
}

#[test]
fn detective_probes_then_answers() {
    // against a cooperator the detective ends up exploiting
    let mut game = Game::new(DetectiveAgent::default(), CooperatingAgent::default());
    assert_eq!(game.play_round(), RoundOutcome::BothCooperated);
    assert_eq!(game.play_round(), RoundOutcome::LeftCheated);
    assert_eq!(game.play_round(), RoundOutcome::BothCooperated);
    assert_eq!(game.play_round(), RoundOutcome::BothCooperated);
    assert_eq!(game.play_round(), RoundOutcome::LeftCheated);
    assert_eq!(game.play_round(), RoundOutcome::LeftCheated);
}
