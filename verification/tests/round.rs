use matcher::round::plan_round;
use matcher::round::run_round;
use matcher::store::MatchRow;
use matcher::store::MemStore;
use matcher::store::Person;

fn person(id: u32, waiting: bool) -> Person {
    Person { id, email: format!("p{}@example.org", id), name: format!("Person {}", id), waiting }
}

#[test]
fn plan_round_pairs_lowest_indices_on_equal_weights() {
    let plan = plan_round(&vec![1, 2, 3, 4], &vec![]);
    assert_eq!(plan, vec![(1, Some(2)), (3, Some(4))]);
}

#[test]
fn plan_round_avoids_pairs_that_met_before() {
    let plan = plan_round(&vec![1, 2, 3, 4], &vec![(1, 2, 1), (3, 4, 1)]);
    assert_eq!(plan, vec![(1, Some(3)), (2, Some(4))]);
}

#[test]
fn plan_round_sorts_waiters_before_assigning_indices() {
    let from_sorted = plan_round(&vec![1, 2, 3, 4], &vec![(1, 2, 1)]);
    let from_shuffled = plan_round(&vec![4, 2, 3, 1], &vec![(1, 2, 1)]);
    assert_eq!(from_sorted, from_shuffled);
}

#[test]
fn plan_round_of_nobody_is_empty() {
    assert_eq!(plan_round(&vec![], &vec![]), vec![]);
}

#[test]
fn plan_round_single_waiter_is_a_singleton() {
    assert_eq!(plan_round(&vec![42], &vec![]), vec![(42, None)]);
}

#[test]
fn empty_waiting_set_is_a_no_op_round() {
    let mut s = MemStore::new();
    s.add_person(person(1, false));
    s.record_match(1, 1, Some(2));
    let before_edges = s.edges_among(&vec![1, 2]);
    assert_eq!(run_round(&mut s, 500), None);
    assert_eq!(s.list_waiters(), Vec::<u32>::new());
    assert_eq!(s.matches_at(2), vec![]);
    assert_eq!(s.edges_among(&vec![1, 2]), before_edges);
    assert!(!s.get_person(1).unwrap().waiting);
}

#[test]
fn odd_waiting_count_leaves_exactly_one_singleton() {
    let mut s = MemStore::new();
    s.add_person(person(1, true));
    s.add_person(person(2, true));
    s.add_person(person(3, true));
    let generation = run_round(&mut s, 700).unwrap();
    assert_eq!(generation, 1);

    let rows = s.matches_at(generation);
    assert_eq!(rows.len(), 2);
    let singletons: Vec<&MatchRow> = rows.iter().filter(|r| r.person2.is_none()).collect();
    assert_eq!(singletons.len(), 1);
    assert_eq!(singletons[0].person1, 3);

    // the singleton's waiting flag is cleared exactly like the paired ones
    assert!(!s.get_person(1).unwrap().waiting);
    assert!(!s.get_person(2).unwrap().waiting);
    assert!(!s.get_person(3).unwrap().waiting);
    assert_eq!(s.list_waiters(), Vec::<u32>::new());
}

#[test]
fn a_round_records_pairs_and_their_weights() {
    let mut s = MemStore::new();
    for id in 1..=4 {
        s.add_person(person(id, true));
    }
    let generation = run_round(&mut s, 900).unwrap();
    assert_eq!(generation, 1);
    assert_eq!(
        s.matches_at(1),
        vec![
            MatchRow { generation: 1, person1: 1, person2: Some(2) },
            MatchRow { generation: 1, person1: 3, person2: Some(4) },
        ]
    );
    assert_eq!(s.edges_among(&vec![1, 2, 3, 4]), vec![(1, 2, 1), (3, 4, 1)]);
}

#[test]
fn successive_rounds_bias_away_from_previous_pairs() {
    let mut s = MemStore::new();
    for id in 1..=4 {
        s.add_person(person(id, true));
    }
    assert_eq!(run_round(&mut s, 100), Some(1));
    for id in 1..=4 {
        s.toggle_waiter(id);
    }
    assert_eq!(run_round(&mut s, 200), Some(2));
    assert_eq!(
        s.matches_at(2),
        vec![
            MatchRow { generation: 2, person1: 1, person2: Some(3) },
            MatchRow { generation: 2, person1: 2, person2: Some(4) },
        ]
    );
    assert_eq!(s.edges_among(&vec![1, 3]), vec![(1, 3, 1)]);
    assert_eq!(s.edges_among(&vec![1, 2]), vec![(1, 2, 1)]);
}

#[test]
fn waiter_order_in_the_registry_does_not_matter() {
    let mut a = MemStore::new();
    a.add_person(person(9, true));
    a.add_person(person(4, true));
    a.add_person(person(7, true));
    let mut b = MemStore::new();
    b.add_person(person(4, true));
    b.add_person(person(7, true));
    b.add_person(person(9, true));
    let ga = run_round(&mut a, 1).unwrap();
    let gb = run_round(&mut b, 1).unwrap();
    assert_eq!(a.matches_at(ga), b.matches_at(gb));
}
