use matcher::store::MatchRow;
use matcher::store::MemStore;
use matcher::store::Person;
use matcher::store::SESSION_LIFETIME_SECONDS;
use matcher::store::SignInError;
use matcher::store::filter_edges;
use matcher::store::session_is_live;

fn person(id: u32, waiting: bool) -> Person {
    Person { id, email: format!("p{}@example.org", id), name: format!("Person {}", id), waiting }
}

#[test]
fn get_person_finds_a_registered_participant() {
    let mut s = MemStore::new();
    s.add_person(person(7, false));
    s.add_person(person(9, true));
    let p = s.get_person(9).unwrap();
    assert_eq!(p.id, 9);
    assert_eq!(p.name, "Person 9");
    assert_eq!(p.email, "p9@example.org");
    assert!(p.waiting);
    assert!(s.get_person(8).is_none());
}

#[test]
fn toggle_waiter_flips_only_the_target() {
    let mut s = MemStore::new();
    s.add_person(person(1, false));
    s.add_person(person(2, false));
    s.toggle_waiter(1);
    assert!(s.get_person(1).unwrap().waiting);
    assert!(!s.get_person(2).unwrap().waiting);
    s.toggle_waiter(1);
    assert!(!s.get_person(1).unwrap().waiting);
}

#[test]
fn list_waiters_in_registry_order() {
    let mut s = MemStore::new();
    s.add_person(person(5, true));
    s.add_person(person(3, false));
    s.add_person(person(8, true));
    assert_eq!(s.list_waiters(), vec![5, 8]);
}

#[test]
fn clear_waiting_resets_only_the_target() {
    let mut s = MemStore::new();
    s.add_person(person(1, true));
    s.add_person(person(2, true));
    s.clear_waiting(2);
    assert!(s.get_person(1).unwrap().waiting);
    assert!(!s.get_person(2).unwrap().waiting);
}

#[test]
fn allocate_generation_starts_at_one_and_increases() {
    let mut s = MemStore::new();
    let first = s.allocate_generation(1000);
    assert_eq!(first.generation, 1);
    assert_eq!(first.time, 1000);
    let second = s.allocate_generation(2000);
    assert_eq!(second.generation, 2);
    assert_eq!(second.time, 2000);
}

#[test]
fn record_match_weight_round_trip() {
    let mut s = MemStore::new();
    s.add_person(person(1, true));
    s.add_person(person(2, true));
    s.record_match(1, 1, Some(2));
    assert_eq!(s.edges_among(&vec![1, 2]), vec![(1, 2, 1)]);
    s.record_match(2, 2, Some(1));
    assert_eq!(s.edges_among(&vec![2, 1]), vec![(1, 2, 2)]);
}

#[test]
fn edges_among_restricts_to_the_given_set() {
    let mut s = MemStore::new();
    s.record_match(1, 1, Some(2));
    s.record_match(1, 3, Some(4));
    assert_eq!(s.edges_among(&vec![1, 2]), vec![(1, 2, 1)]);
    assert_eq!(s.edges_among(&vec![1, 3]), vec![]);
    assert_eq!(s.edges_among(&vec![1, 2, 3, 4]), vec![(1, 2, 1), (3, 4, 1)]);
}

#[test]
fn record_match_without_partner_adds_no_weight() {
    let mut s = MemStore::new();
    s.record_match(3, 5, None);
    assert_eq!(s.matches_at(3), vec![MatchRow { generation: 3, person1: 5, person2: None }]);
    assert_eq!(s.edges_among(&vec![5]), vec![]);
}

#[test]
fn matches_at_filters_by_generation() {
    let mut s = MemStore::new();
    s.record_match(1, 1, Some(2));
    s.record_match(2, 1, Some(3));
    s.record_match(2, 4, None);
    assert_eq!(s.matches_at(1), vec![MatchRow { generation: 1, person1: 1, person2: Some(2) }]);
    assert_eq!(
        s.matches_at(2),
        vec![
            MatchRow { generation: 2, person1: 1, person2: Some(3) },
            MatchRow { generation: 2, person1: 4, person2: None },
        ]
    );
    assert_eq!(s.matches_at(9), vec![]);
}

#[test]
fn filter_edges_keeps_rows_inside_the_set() {
    let rows = vec![(1, 2, 4), (1, 3, 1), (2, 5, 2)];
    assert_eq!(filter_edges(&rows, &vec![1, 2, 5]), vec![(1, 2, 4), (2, 5, 2)]);
    assert_eq!(filter_edges(&rows, &vec![]), vec![]);
}

#[test]
fn session_freshness_rule() {
    assert!(session_is_live(0, 0));
    assert!(session_is_live(SESSION_LIFETIME_SECONDS, 0));
    assert!(!session_is_live(SESSION_LIFETIME_SECONDS + 1, 0));
    assert!(session_is_live(0, 1_000_000));
    assert!(session_is_live(i64::MIN, i64::MAX));
    assert!(!session_is_live(i64::MAX, i64::MIN));
}

#[test]
fn sign_in_errors_are_distinguishable() {
    assert_ne!(SignInError::UnknownUser, SignInError::InvalidPassword);
    assert_eq!(SignInError::UnknownUser, SignInError::UnknownUser);
}
