use castle::{Action, Castle, CastleError, Connection, PlacedRoom, Pos, Room, SimpleRoom};

fn throne() -> Room {
    Room {
        throne: true,
        name: "Throne Room (White)".to_string(),
        treasure: 0,
        connections: [Connection::Wild, Connection::Wild, Connection::Wild, Connection::Wild],
    }
}

fn vault(connections: [Connection; 4]) -> Room {
    Room { throne: false, treasure: 1, name: "Small Vault".to_string(), connections }
}

fn wild_room() -> Room {
    Room {
        throne: false,
        treasure: 0,
        name: "Hall".to_string(),
        connections: [Connection::Wild, Connection::Wild, Connection::Wild, Connection::Wild],
    }
}

fn shop() -> Vec<Room> {
    vec![
        vault([Connection::Empty, Connection::Empty, Connection::Empty, Connection::Cross(false)]),
        vault([Connection::Empty, Connection::Diamond(false), Connection::Empty, Connection::Empty]),
        vault([Connection::Empty, Connection::Empty, Connection::Moon(false), Connection::Empty]),
        vault([Connection::Cross(false), Connection::Empty, Connection::Empty, Connection::Empty]),
    ]
}

fn with_rooms(rooms: Vec<(Pos, Room)>, damage: u8) -> Castle {
    let mut castle = Castle::new(throne());
    for (pos, room) in rooms {
        castle.rooms.insert(pos, PlacedRoom::from(room, 0));
    }
    castle.damage = damage;
    castle
}

/// A throne with a ring of wild rooms: (1, 0) and (1, 1) are joined to three
/// neighbours, the others to two.
fn ring() -> Castle {
    with_rooms(
        vec![
            ((1, 0), wild_room()),
            ((1, 1), wild_room()),
            ((0, 1), wild_room()),
            ((2, 0), wild_room()),
            ((2, 1), wild_room()),
        ],
        0,
    )
}

#[test]
fn test_connect() {
    assert!(Connection::Empty.connect(&Connection::Empty).is_none());
    assert!(Connection::Empty.connect(&Connection::Wild).is_some());
    assert!(Connection::Empty.connect(&Connection::Diamond(true)).is_some());
    assert!(Connection::Empty.connect(&Connection::Cross(true)).is_some());
    assert!(Connection::Empty.connect(&Connection::Moon(true)).is_some());
}

#[test]
fn test_new() {
    Castle::new(throne());
}

#[test]
fn test_possible_actions() {
    let castle = Castle::new(throne());
    let shop: Vec<Room> = shop().into_iter().collect();
    let actions = castle.possible_actions(&shop);
    assert_eq!(actions.len(), 4);
}

#[test]
fn test_place_action() {
    let castle = Castle::new(throne());
    let shop: Vec<Room> = shop().into_iter().collect();
    let actions = castle.possible_actions(&shop);
    let sample_action = actions[1].clone();
    let result = castle.apply(sample_action);
    assert!(result.is_ok());
    let new_castle = result.unwrap();
    assert_eq!(new_castle.rooms.len(), 2);
}

#[test]
fn connect_values() {
    assert_eq!(Connection::Wild.connect(&Connection::Moon(false)), Some(true));
    assert_eq!(Connection::Cross(true).connect(&Connection::Diamond(false)), Some(true));
    assert_eq!(Connection::Empty.connect(&Connection::Cross(false)), Some(false));
    assert_eq!(Connection::Moon(true).connect(&Connection::Empty), Some(false));
    assert_eq!(Connection::Empty.connect(&Connection::Empty), None);
}

#[test]
fn link_table() {
    assert_eq!(Connection::Wild.link(&Connection::Wild), Ok(Connection::Wild));
    assert_eq!(Connection::Wild.link(&Connection::Diamond(false)), Ok(Connection::Diamond(true)));
    assert_eq!(Connection::Wild.link(&Connection::Cross(false)), Ok(Connection::Cross(true)));
    assert_eq!(Connection::Wild.link(&Connection::Moon(false)), Ok(Connection::Moon(true)));
    assert_eq!(Connection::Diamond(false).link(&Connection::Wild), Ok(Connection::Diamond(false)));
    assert_eq!(Connection::Moon(true).link(&Connection::Wild), Ok(Connection::Moon(true)));
    assert_eq!(Connection::Cross(true).link(&Connection::Cross(false)), Ok(Connection::Cross(true)));
    assert_eq!(Connection::Cross(false).link(&Connection::Cross(true)), Ok(Connection::Cross(false)));
    assert_eq!(Connection::Diamond(true).link(&Connection::Diamond(false)), Ok(Connection::Diamond(true)));
    assert_eq!(Connection::Moon(false).link(&Connection::Moon(true)), Ok(Connection::Moon(false)));
    assert_eq!(Connection::Empty.link(&Connection::Empty), Ok(Connection::Empty));
}

#[test]
fn link_mismatches() {
    assert_eq!(Connection::Diamond(true).link(&Connection::Cross(true)), Ok(Connection::Empty));
    assert_eq!(Connection::Moon(false).link(&Connection::Diamond(true)), Ok(Connection::Empty));
    assert_eq!(Connection::Empty.link(&Connection::Wild), Err(CastleError::InvalidConnection));
    assert_eq!(Connection::Cross(true).link(&Connection::Empty), Err(CastleError::InvalidConnection));
}

#[test]
fn power_of_connectors() {
    assert!(Connection::Diamond(true).power());
    assert!(Connection::Moon(true).power());
    assert!(!Connection::Cross(false).power());
    assert!(!Connection::Wild.power());
    assert!(!Connection::Empty.power());
}

#[test]
fn rotation_shifts_connectors() {
    let room = vault([Connection::Empty, Connection::Wild, Connection::Diamond(true), Connection::Cross(false)]);
    let turned = [Connection::Cross(false), Connection::Empty, Connection::Wild, Connection::Diamond(true)];
    assert_eq!(room.get_rotated_connections(0), room.connections);
    assert_eq!(room.get_rotated_connections(89), room.connections);
    assert_eq!(room.get_rotated_connections(90), turned);
    assert_eq!(room.get_rotated_connections(179), turned);
    assert_eq!(
        room.get_rotated_connections(180),
        [Connection::Diamond(true), Connection::Cross(false), Connection::Empty, Connection::Wild]
    );
    assert_eq!(
        room.get_rotated_connections(270),
        [Connection::Wild, Connection::Diamond(true), Connection::Cross(false), Connection::Empty]
    );
}

#[test]
fn full_turn_is_identity() {
    let room = vault([Connection::Empty, Connection::Wild, Connection::Diamond(true), Connection::Cross(false)]);
    assert_eq!(room.get_rotated_connections(360), room.connections);
    assert_eq!(room.get_rotated_connections(450), room.get_rotated_connections(90));
    let mut connections = room.connections;
    for _ in 0..4 {
        let step = vault(connections);
        connections = step.get_rotated_connections(90);
    }
    assert_eq!(connections, room.connections);
}

#[test]
fn placed_room_connections() {
    let placed = PlacedRoom::from(shop()[0].clone(), 180);
    assert_eq!(placed.get_connections(), [Connection::Empty, Connection::Cross(false), Connection::Empty, Connection::Empty]);
    let back = placed.rotate(0);
    assert_eq!(back.rotation, 0);
    assert_eq!(back.get_connections(), shop()[0].connections);
}

#[test]
fn shop_offers_only_placements() {
    let castle = Castle::new(throne());
    let actions = castle.possible_actions(&shop());
    assert_eq!(actions.len(), 4);
    assert!(actions.iter().all(|a| matches!(a, Action::Place(_, _, 0))));
    let targets: Vec<Pos> = actions
        .iter()
        .map(|a| match a {
            Action::Place(_, pos, _) => *pos,
            _ => (100, 100),
        })
        .collect();
    for pos in [(1, 0), (-1, 0), (0, -1), (0, 1)] {
        assert!(targets.contains(&pos));
    }
}

#[test]
fn placing_twice_is_refused() {
    let castle = Castle::new(throne());
    let room = shop()[0].clone();
    let once = castle.apply(Action::Place(room.clone(), (1, 0), 0)).unwrap();
    assert_eq!(once.rooms.len(), 2);
    assert_eq!(once.apply(Action::Place(room, (1, 0), 0)), Err(CastleError::TakenPosition));
}

#[test]
fn place_errors() {
    let castle = Castle::new(throne());
    let room = shop()[0].clone();
    assert_eq!(castle.apply(Action::Place(room.clone(), (5, 5), 0)), Err(CastleError::InvalidConnection));
    assert_eq!(castle.apply(Action::Place(room.clone(), (-1, 0), 0)), Err(CastleError::InvalidConnection));
    let mut hurt = castle.clone();
    hurt.damage = 1;
    assert_eq!(hurt.apply(Action::Place(room, (1, 0), 0)), Err(CastleError::MustDiscard));
}

#[test]
fn place_then_discard_restores_room_count() {
    let castle = Castle::new(throne());
    let placed = castle.apply(Action::Place(shop()[1].clone(), (-1, 0), 0)).unwrap();
    assert_eq!(placed.rooms.len(), 2);
    let mut due = placed.clone();
    due.damage = 1;
    let after = due.apply(Action::Discard(vec![(-1, 0)])).unwrap();
    assert_eq!(after.rooms.len(), castle.rooms.len());
    assert_eq!(after.damage, 0);
    assert_eq!(after, castle);
}

#[test]
fn discard_errors() {
    let castle = with_rooms(vec![((1, 0), wild_room())], 0);
    assert_eq!(castle.apply(Action::Discard(vec![(1, 0)])), Err(CastleError::NoDamage));
    let mut due = castle.clone();
    due.damage = 1;
    assert_eq!(due.apply(Action::Discard(vec![(0, 0)])), Err(CastleError::NotOuterRoom));
    assert_eq!(due.apply(Action::Discard(vec![(4, 4)])), Err(CastleError::EmptyPosition));
    assert_eq!(due.apply(Action::Discard(vec![])), Err(CastleError::MustDiscard));
    assert_eq!(due.apply(Action::Discard(vec![(1, 0), (0, 0)])), Err(CastleError::MustDiscard));
    let long = with_rooms(vec![((1, 0), wild_room()), ((2, 0), wild_room())], 1);
    assert_eq!(long.apply(Action::Discard(vec![(2, 0), (1, 0)])), Err(CastleError::NoDamage));
    assert_eq!(long.apply(Action::Discard(vec![(2, 0), (5, 5)])), Err(CastleError::EmptyPosition));
}

#[test]
fn discard_prefers_outer_rooms() {
    let mut castle = with_rooms(vec![((1, 0), wild_room()), ((2, 0), wild_room())], 1);
    assert_eq!(castle.apply(Action::Discard(vec![(1, 0)])), Err(CastleError::NotOuterRoom));
    let after = castle.apply(Action::Discard(vec![(2, 0)])).unwrap();
    assert_eq!(after.rooms.len(), 2);
    castle.damage = 2;
    let after = castle.apply(Action::Discard(vec![(2, 0), (1, 0)])).unwrap();
    assert_eq!(after.rooms.len(), 1);
    assert_eq!(after.damage, 0);
}

#[test]
fn discard_falls_back_to_nearly_outer_rooms() {
    let mut castle = ring();
    castle.damage = 1;
    assert_eq!(castle.apply(Action::Discard(vec![(1, 0)])), Err(CastleError::NotNearlyOuterRoom));
    let after = castle.apply(Action::Discard(vec![(2, 0)])).unwrap();
    assert_eq!(after.rooms.len(), 5);
    let mut eligible = castle.possible_discard();
    eligible.sort();
    assert_eq!(eligible, vec![(0, 1), (2, 0), (2, 1)]);
}

#[test]
fn no_discards_without_damage() {
    let castle = with_rooms(vec![((1, 0), wild_room())], 0);
    assert!(castle.all_possible_discards().is_empty());
}

#[test]
fn discard_sequences_resolve_damage() {
    let castle = with_rooms(vec![((1, 0), wild_room()), ((2, 0), wild_room()), ((-1, 0), wild_room())], 2);
    let mut sequences = castle.all_possible_discards();
    sequences.sort();
    assert_eq!(
        sequences,
        vec![vec![(-1, 0), (2, 0)], vec![(2, 0), (-1, 0)], vec![(2, 0), (1, 0)]]
    );
    for s in sequences {
        let after = castle.apply(Action::Discard(s)).unwrap();
        assert_eq!(after.damage, 0);
        assert_eq!(after.rooms.len(), 2);
    }
    let actions = castle.possible_actions(&shop());
    assert_eq!(actions.len(), 3);
    assert!(actions.iter().all(|a| matches!(a, Action::Discard(_))));
}

#[test]
fn lost_castle_offers_no_discard() {
    let castle = with_rooms(vec![((1, 0), wild_room())], 2);
    assert!(castle.is_lost());
    assert!(castle.possible_discard().is_empty());
    assert!(castle.all_possible_discards().is_empty());
}

#[test]
fn lost_without_throne() {
    let mut castle = Castle::new(wild_room());
    castle.rooms.insert((1, 0), PlacedRoom::from(wild_room(), 0));
    assert!(castle.is_lost());
    castle.damage = 0;
    assert!(castle.is_lost());
    let castle = Castle::new(throne());
    assert!(!castle.is_lost());
    let mut hurt = castle.clone();
    hurt.damage = 1;
    assert!(hurt.is_lost());
}

#[test]
fn links_are_counted_once() {
    let castle = Castle::new(throne()).apply(Action::Place(shop()[0].clone(), (1, 0), 0)).unwrap();
    assert_eq!(castle.get_links(), (0, 1, 0, 0));
    let castle = with_rooms(vec![((1, 0), wild_room()), ((0, 1), wild_room()), ((1, 1), wild_room())], 0);
    assert_eq!(castle.get_links(), (0, 0, 0, 4));
    let mixed = with_rooms(
        vec![((1, 0), vault([Connection::Empty, Connection::Empty, Connection::Empty, Connection::Diamond(false)]))],
        0,
    );
    assert_eq!(mixed.get_links(), (1, 0, 0, 0));
}

#[test]
fn treasure_of_powered_rooms() {
    let castle = Castle::new(throne()).apply(Action::Place(shop()[0].clone(), (1, 0), 0)).unwrap();
    assert_eq!(castle.get_treasure(), 1);
    let powered = Room {
        throne: false,
        treasure: 5,
        name: "Armory".to_string(),
        connections: [Connection::Empty, Connection::Empty, Connection::Empty, Connection::Cross(true)],
    };
    let unpowered = Room {
        throne: false,
        treasure: 7,
        name: "Tower".to_string(),
        connections: [Connection::Diamond(true), Connection::Cross(false), Connection::Empty, Connection::Empty],
    };
    let castle = with_rooms(vec![((1, 0), powered), ((-1, 0), unpowered)], 0);
    assert_eq!(castle.get_treasure(), 5);
}

#[test]
fn damage_beyond_links() {
    let castle = Castle::new(throne()).apply(Action::Place(shop()[0].clone(), (1, 0), 0)).unwrap();
    let hit = castle.action_damage(1, 1, 0);
    assert_eq!(hit.damage, 1);
    assert_eq!(hit.rooms.len(), 2);
    let wiped = castle.apply(Action::Damage(0, 3, 0)).unwrap();
    assert_eq!(wiped.damage, 0);
    assert!(wiped.rooms.is_empty());
    let wiped = castle.apply(Action::Damage(2, 2, 2)).unwrap();
    assert_eq!(wiped.damage, 3);
    assert!(wiped.rooms.is_empty());
}

#[test]
fn wild_links_absorb_damage() {
    let castle = with_rooms(vec![((1, 0), wild_room()), ((2, 0), wild_room())], 0);
    assert_eq!(castle.get_links(), (0, 0, 0, 2));
    assert_eq!(castle.action_damage(4, 0, 0).damage, 2);
    assert_eq!(castle.action_damage(2, 0, 0).damage, 2);
    assert_eq!(castle.action_damage(1, 0, 0).damage, 1);
    assert_eq!(castle.action_damage(0, 0, 0).damage, 0);
}

#[test]
fn damage_counter_stops_at_its_maximum() {
    let castle = Castle::new(throne());
    let hit = castle.action_damage(255, 255, 255);
    assert_eq!(hit.damage, 254);
    assert!(hit.rooms.is_empty());
}

#[test]
fn clear_rooms_takes_room_count_from_damage() {
    let mut castle = with_rooms(vec![((1, 0), wild_room())], 0);
    castle.damage = 5;
    let cleared = castle.clear_rooms();
    assert!(cleared.rooms.is_empty());
    assert_eq!(cleared.damage, 3);
}

#[test]
fn move_outer_room() {
    let castle = Castle::new(throne()).apply(Action::Place(shop()[0].clone(), (1, 0), 0)).unwrap();
    let moved = castle.apply(Action::Move((1, 0), (-1, 0), 180)).unwrap();
    assert!(!moved.rooms.contains_key(&(1, 0)));
    assert_eq!(moved.rooms[&(-1, 0)].rotation, 180);
    assert_eq!(moved.rooms[&(-1, 0)].info, shop()[0]);
    assert_eq!(castle.apply(Action::Move((1, 0), (-1, 0), 0)), Err(CastleError::InvalidConnection));
}

#[test]
fn move_errors() {
    let castle = Castle::new(throne()).apply(Action::Place(shop()[0].clone(), (1, 0), 0)).unwrap();
    assert_eq!(castle.apply(Action::Move((1, 0), (1, 0), 0)), Err(CastleError::InvalidPosition));
    assert_eq!(castle.apply(Action::Move((3, 3), (1, 1), 0)), Err(CastleError::EmptyPosition));
    assert_eq!(castle.apply(Action::Move((1, 0), (0, 0), 0)), Err(CastleError::TakenPosition));
    assert_eq!(ring().apply(Action::Move((1, 0), (3, 0), 0)), Err(CastleError::NotOuterRoom));
    let mut hurt = castle.clone();
    hurt.damage = 1;
    assert_eq!(hurt.apply(Action::Move((1, 0), (-1, 0), 180)), Err(CastleError::MustDiscard));
}

#[test]
fn possible_moves_of_outer_room() {
    let castle = with_rooms(vec![((1, 0), wild_room())], 0);
    let mut moves = castle.possible_moves((1, 0), 0);
    moves.sort();
    assert_eq!(moves, vec![(-1, 0), (0, -1), (0, 1)]);
    assert!(ring().possible_moves((1, 0), 0).is_empty());
    assert_eq!(castle.all_possible_moves().len(), 6);
}

#[test]
fn swap_rooms() {
    let castle = with_rooms(vec![((1, 0), wild_room()), ((-1, 0), shop()[1].clone())], 0);
    let swapped = castle.apply(Action::Swap((0, 0), (1, 0))).unwrap();
    assert!(swapped.rooms[&(1, 0)].info.throne);
    assert!(!swapped.rooms[&(0, 0)].info.throne);
    assert_eq!(castle.apply(Action::Swap((1, 0), (-1, 0))), Err(CastleError::InvalidConnection));
    assert_eq!(castle.apply(Action::Swap((1, 0), (1, 0))), Err(CastleError::InvalidPosition));
    assert_eq!(castle.apply(Action::Swap((1, 0), (2, 0))), Err(CastleError::EmptyPosition));
    let mut hurt = castle.clone();
    hurt.damage = 1;
    assert_eq!(hurt.apply(Action::Swap((0, 0), (1, 0))), Err(CastleError::MustDiscard));
}

#[test]
fn possible_swaps_each_pair_once() {
    let castle = with_rooms(vec![((1, 0), wild_room()), ((-1, 0), wild_room())], 0);
    let mut swaps = castle.all_possible_swaps();
    swaps.sort();
    assert_eq!(swaps, vec![((-1, 0), (0, 0)), ((-1, 0), (1, 0)), ((0, 0), (1, 0))]);
    let mut from_throne = castle.possible_swaps((0, 0));
    from_throne.sort();
    assert_eq!(from_throne, vec![(-1, 0), (1, 0)]);
}

#[test]
fn possible_placements_are_distinct() {
    let castle = with_rooms(vec![((1, 0), wild_room())], 0);
    let mut places = castle.possible_placements(&PlacedRoom::from(wild_room(), 0));
    places.sort();
    assert_eq!(places, vec![(-1, 0), (0, -1), (0, 1), (1, -1), (1, 1), (2, 0)]);
    let all = castle.all_possible_placements(&shop());
    assert_eq!(all.len(), 6);
    assert!(all.contains(&(0, (2, 0))));
}

#[test]
fn every_offered_action_applies() {
    let castle = with_rooms(vec![((1, 0), wild_room()), ((0, 1), shop()[3].clone())], 0);
    let actions = castle.possible_actions(&shop());
    assert!(!actions.is_empty());
    for action in actions {
        assert!(castle.apply(action).is_ok());
    }
}

#[test]
fn simple_room_record() {
    let placed = PlacedRoom::from(shop()[0].clone(), 90);
    let simple = SimpleRoom::from_room(&placed);
    assert!(!simple.is_throne());
    assert_eq!(simple.get_name(), "Small Vault");
    assert_eq!(simple.get_treasure(), 1);
    assert_eq!(simple.get_rotation(), 90);
    assert_eq!(simple.get_original_connections(), shop()[0].connections);
    assert_eq!(simple.get_connections(), placed.get_connections());
    let turned = simple.rotate(270);
    assert_eq!(turned.get_rotation(), 270);
    assert_eq!(turned.get_connections(), [Connection::Empty, Connection::Empty, Connection::Cross(false), Connection::Empty]);
}

#[test]
fn error_messages() {
    assert_eq!(CastleError::TakenPosition.message(), "Room position is already taken");
    assert_eq!(castle::RoomError::InvalidRotation.message(), "Invalid rotation. Rotation must be 0, 90, 180 or 270.");
}

#[test]
fn actions_come_in_a_fixed_order() {
    let castle = Castle::new(throne());
    let actions = castle.possible_actions(&shop());
    let expected = vec![
        Action::Place(shop()[0].clone(), (1, 0), 0),
        Action::Place(shop()[1].clone(), (-1, 0), 0),
        Action::Place(shop()[2].clone(), (0, -1), 0),
        Action::Place(shop()[3].clone(), (0, 1), 0),
    ];
    assert_eq!(actions, expected);
    assert_eq!(castle.clone().possible_actions(&shop()), actions);
    let wider = with_rooms(vec![((1, 0), wild_room()), ((-1, 0), wild_room())], 0);
    assert_eq!(wider.possible_actions(&shop()), wider.clone().possible_actions(&shop()));
}

#[test]
fn one_vault_one_discard() {
    let castle = with_rooms(vec![((1, 0), shop()[0].clone())], 1);
    assert_eq!(castle.all_possible_discards(), vec![vec![(1, 0)]]);
    assert_eq!(castle.possible_actions(&shop()), vec![Action::Discard(vec![(1, 0)])]);
}

#[test]
fn discards_listed_in_order() {
    let castle = with_rooms(vec![((1, 0), wild_room()), ((2, 0), wild_room()), ((-1, 0), wild_room())], 2);
    assert_eq!(castle.possible_discard(), vec![(-1, 0), (2, 0)]);
    assert_eq!(
        castle.all_possible_discards(),
        vec![vec![(-1, 0), (2, 0)], vec![(2, 0), (-1, 0)], vec![(2, 0), (1, 0)]]
    );
    let mut ring = ring();
    ring.damage = 1;
    assert_eq!(ring.possible_discard(), vec![(0, 1), (2, 0), (2, 1)]);
}

#[test]
fn placement_pairs_in_order() {
    let castle = with_rooms(vec![((1, 0), wild_room())], 0);
    assert_eq!(
        castle.all_possible_placements(&shop()),
        vec![(0, (2, 0)), (1, (-1, 0)), (2, (0, -1)), (2, (1, -1)), (3, (0, 1)), (3, (1, 1))]
    );
    assert_eq!(
        castle.possible_placements(&PlacedRoom::from(wild_room(), 0)),
        vec![(-1, 0), (0, -1), (0, 1), (1, -1), (1, 1), (2, 0)]
    );
}
