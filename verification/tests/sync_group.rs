use loupe::sync_group::SyncGroup;

type Group = SyncGroup<u32, &'static str, u8>;

#[test]
fn fires_once_when_the_last_party_lets_go() {
    let mut group = Group::new(vec![1, 2, 3]);
    assert_eq!(group.recv(2, "two"), None);
    assert_eq!(group.recv(1, "one"), None);
    assert_eq!(group.try_complete(), None);
    assert_eq!(group.recv(3, "three"), Some(vec![(1, "one"), (2, "two"), (3, "three")]));
    assert_eq!(group.try_complete(), None);
    assert_eq!(group.recv(3, "again"), None);
}

#[test]
fn maker_may_be_the_last_to_let_go() {
    let mut group = Group::new(vec![5, 4]);
    assert!(!group.is_all_ready());
    assert_eq!(group.recv(5, "five"), None);
    assert_eq!(group.recv(4, "four"), None);
    assert!(group.is_all_ready());
    assert_eq!(group.try_complete(), Some(vec![(5, "five"), (4, "four")]));
}

#[test]
fn fires_in_every_order_of_arrival() {
    let orders: [[u32; 4]; 4] = [[0, 1, 2, 3], [3, 2, 1, 0], [1, 0, 3, 2], [2, 3, 0, 1]];
    for order in orders {
        let mut group = Group::new(vec![1, 2, 3]);
        let mut fired = 0;
        for (step, event) in order.iter().enumerate() {
            let out = match event {
                0 => group.try_complete(),
                1 => group.recv(1, "one"),
                2 => group.recv(2, "two"),
                _ => group.recv(3, "three"),
            };
            if let Some(values) = out {
                fired += 1;
                assert_eq!(step, 3);
                assert_eq!(values, vec![(1, "one"), (2, "two"), (3, "three")]);
            }
        }
        assert_eq!(fired, 1);
    }
}

#[test]
fn group_without_keys_fires_when_its_maker_lets_go() {
    let mut group = Group::new(Vec::new());
    assert!(group.is_all_ready());
    assert_eq!(group.try_complete(), Some(Vec::new()));
    assert_eq!(group.try_complete(), None);
}

#[test]
fn does_not_fire_while_a_value_is_missing() {
    let mut group = Group::new(vec![1, 2]);
    assert_eq!(group.recv(1, "one"), None);
    assert_eq!(group.try_complete(), None);
    assert_eq!(group.try_complete(), None);
    assert_eq!(group.try_complete(), None);
    assert!(!group.is_all_ready());
}

#[test]
fn handle_does_not_affect_completion() {
    let mut group = Group::new(vec![1, 2]);
    assert_eq!(group.in_flight(1, 11), None);
    assert_eq!(group.in_flight(1, 12), None);
    assert_eq!(group.in_flight(9, 19), Some(19));
    assert!(!group.is_all_ready());
    assert_eq!(group.recv(1, "one"), None);
    assert_eq!(group.in_flight(1, 13), Some(13));
    assert_eq!(group.in_flight(2, 21), None);
    assert_eq!(group.recv(2, "two"), None);
    assert_eq!(group.try_complete(), Some(vec![(1, "one"), (2, "two")]));
    assert_eq!(group.in_flight(2, 22), Some(22));
}

#[test]
fn value_for_a_foreign_key_is_not_collected() {
    let mut group = Group::new(vec![1]);
    assert_eq!(group.recv(7, "seven"), None);
    assert!(!group.is_all_ready());
    assert_eq!(group.recv(1, "one"), Some(vec![(1, "one")]));
}

#[test]
fn repeated_key_has_one_slot_and_two_parties() {
    let mut group = Group::new(vec![1, 1, 2]);
    assert_eq!(group.recv(1, "first"), None);
    assert_eq!(group.recv(2, "two"), None);
    assert_eq!(group.try_complete(), None);
    assert_eq!(group.recv(1, "second"), Some(vec![(1, "second"), (2, "two")]));
}

#[test]
fn string_keys_are_compared_by_their_characters() {
    let mut group: SyncGroup<String, u32, ()> =
        SyncGroup::new(vec!["abc".to_string(), "abd".to_string()]);
    assert_eq!(group.recv(String::from("abd"), 2), None);
    assert_eq!(group.try_complete(), None);
    assert_eq!(
        group.recv(format!("{}{}", "ab", "c"), 1),
        Some(vec![("abc".to_string(), 1), ("abd".to_string(), 2)])
    );
}

#[test]
fn group_stalls_when_a_party_lets_go_without_its_value() {
    let mut group = Group::new(vec![1, 2]);
    assert!(!group.is_stalled());
    assert_eq!(group.recv(1, "one"), None);
    // the request for key 2 could not be issued
    assert_eq!(group.try_complete(), None);
    assert!(!group.is_stalled());
    assert_eq!(group.try_complete(), None);
    assert!(group.is_stalled());
    assert_eq!(group.try_complete(), None);
    assert_eq!(group.in_flight(2, 7), None);
    assert!(group.is_stalled());
}

#[test]
fn complete_or_spent_group_is_not_stalled() {
    let mut group = Group::new(vec![1]);
    assert_eq!(group.try_complete(), None);
    assert!(!group.is_stalled());
    assert_eq!(group.recv(1, "one"), Some(vec![(1, "one")]));
    assert!(!group.is_stalled());
    let mut empty = Group::new(Vec::new());
    assert!(!empty.is_stalled());
    assert_eq!(empty.try_complete(), Some(Vec::new()));
    assert!(!empty.is_stalled());
}
