use dungeon_core::map_generation::{initialize_map, Neighbors, RoomInformation, RoomPos};
use dungeon_core::random::rng_from_seed;
use dungeon_core::room::{
    check_for_enemies, enemy_slain, finished_room, open_doors, process_tick, remove_enemy,
    room_transit, spawn_map, spawn_room, spawner_enemy_type, Door, Enemy, EnemySlainEvent,
    EnemyType, GameState, LeaveRoomEvent, Room, RoomFinishedEvent, RoomStatus, RoomType, Spawner,
    TransitionDirection,
};
use dungeon_core::room_generation::{add_walls, create_room_map, X_ROOM_LENGTH, Y_ROOM_LENGTH};
use dungeon_core::room::TileType;

/// Entering a Closed room with a live enemy activates it without
/// finishing it
#[test]
fn activation_with_live_enemy() {
    let pos = RoomPos::new(4, 5);
    let mut state = GameState::new();
    state.rooms.push(Room { position: pos, status: RoomStatus::Closed });
    state.enemies.push(Enemy { id: 0, position: pos, enemy_type: EnemyType::BigBlob });
    state.next_enemy_id = 1;

    let finished = room_transit(&mut state, &LeaveRoomEvent(pos, TransitionDirection::Up));

    assert!(finished.is_none());
    assert_eq!(state.rooms[0].status, RoomStatus::Active);
    assert_eq!(state.enemies.len(), 1);
}

/// Slaying the last enemy of an Active room finishes it exactly once;
/// a duplicate signal for the removed enemy is ignored
#[test]
fn finish_on_last_enemy_slain() {
    let pos = RoomPos::new(4, 5);
    let mut state = GameState::new();
    state.rooms.push(Room { position: pos, status: RoomStatus::Active });
    state.enemies.push(Enemy { id: 0, position: pos, enemy_type: EnemyType::BigBlob });
    state.next_enemy_id = 1;
    state.doors.push(Door { position: pos, direction: TransitionDirection::Up, open: false });

    let finished = process_tick(&mut state, &Vec::new(), &vec![EnemySlainEvent(pos, 0)]);

    assert_eq!(finished.len(), 1);
    assert_eq!(finished[0], RoomFinishedEvent(pos));
    assert_eq!(state.rooms[0].status, RoomStatus::Finished);
    assert!(state.enemies.is_empty());
    assert!(state.doors[0].open);

    // The duplicate signal for the already-removed enemy is ignored
    let finished2 = process_tick(&mut state, &Vec::new(), &vec![EnemySlainEvent(pos, 0)]);
    assert!(finished2.is_empty());
    assert_eq!(state.rooms[0].status, RoomStatus::Finished);
}

/// Entering a room with no enemies and no spawners finishes it in the
/// same processing step
#[test]
fn instant_finish_empty_room() {
    let pos = RoomPos::new(2, 2);
    let mut state = GameState::new();
    state.rooms.push(Room { position: pos, status: RoomStatus::Closed });
    state.doors.push(Door { position: pos, direction: TransitionDirection::Left, open: false });

    let finished = room_transit(&mut state, &LeaveRoomEvent(pos, TransitionDirection::Down));
    assert_eq!(finished, Some(RoomFinishedEvent(pos)));

    // One whole tick over the same signal finishes the room and opens
    // its door
    let mut state2 = GameState::new();
    state2.rooms.push(Room { position: pos, status: RoomStatus::Closed });
    state2.doors.push(Door { position: pos, direction: TransitionDirection::Left, open: false });
    let events = process_tick(
        &mut state2,
        &vec![LeaveRoomEvent(pos, TransitionDirection::Down)],
        &Vec::new(),
    );
    assert_eq!(events, vec![RoomFinishedEvent(pos)]);
    assert_eq!(state2.rooms[0].status, RoomStatus::Finished);
    assert!(state2.doors[0].open);
}

/// Entering a Closed room with spawners produces one enemy per spawner
/// and consumes them, without finishing the room
#[test]
fn spawners_trigger_on_entry() {
    let pos = RoomPos::new(3, 3);
    let elsewhere = RoomPos::new(6, 6);
    let mut state = GameState::new();
    state.rooms.push(Room { position: pos, status: RoomStatus::Closed });
    state.spawners.push(Spawner { position: pos, enemy_type: EnemyType::SmallBlob });
    state.spawners.push(Spawner { position: elsewhere, enemy_type: EnemyType::Boss });
    state.spawners.push(Spawner { position: pos, enemy_type: EnemyType::SniperEnemy });

    let finished = room_transit(&mut state, &LeaveRoomEvent(pos, TransitionDirection::Right));

    assert!(finished.is_none());
    assert_eq!(state.rooms[0].status, RoomStatus::Active);
    assert_eq!(state.enemies.len(), 2);
    assert_eq!(state.enemies[0].position, pos);
    assert_eq!(state.enemies[0].enemy_type, EnemyType::SmallBlob);
    assert_eq!(state.enemies[0].id, 0);
    assert_eq!(state.enemies[1].enemy_type, EnemyType::SniperEnemy);
    assert_eq!(state.enemies[1].id, 1);
    assert_eq!(state.next_enemy_id, 2);
    // Only the spawner of the other room is left
    assert_eq!(state.spawners.len(), 1);
    assert_eq!(state.spawners[0].position, elsewhere);
}

/// Opening the doors of a room twice leaves them as opening them once
#[test]
fn door_open_idempotent() {
    let pos = RoomPos::new(1, 1);
    let other = RoomPos::new(2, 1);
    let mut state = GameState::new();
    state.doors.push(Door { position: pos, direction: TransitionDirection::Up, open: false });
    state.doors.push(Door { position: other, direction: TransitionDirection::Down, open: false });
    state.doors.push(Door { position: pos, direction: TransitionDirection::Left, open: false });

    open_doors(&mut state, &RoomFinishedEvent(pos));
    let snapshot = state.doors.clone();
    open_doors(&mut state, &RoomFinishedEvent(pos));

    assert_eq!(state.doors, snapshot);
    assert!(state.doors[0].open);
    assert!(!state.doors[1].open);
    assert!(state.doors[2].open);
}

/// Stale notifications are ignored: unknown coordinates, unknown enemy
/// identities, rooms that are not Active
#[test]
fn stale_notifications_ignored() {
    let pos = RoomPos::new(5, 5);
    let mut state = GameState::new();
    state.rooms.push(Room { position: pos, status: RoomStatus::Closed });
    state.enemies.push(Enemy { id: 4, position: pos, enemy_type: EnemyType::CrossEnemy });
    state.next_enemy_id = 5;

    // A finished notification for a coordinate with no room changes nothing
    finished_room(&mut state, &RoomFinishedEvent(RoomPos::new(0, 0)));
    assert_eq!(state.rooms[0].status, RoomStatus::Closed);

    // A slain signal for a room that is not Active is ignored
    assert!(enemy_slain(&state, &EnemySlainEvent(pos, 4)).is_none());

    // Removing an unknown enemy identity changes nothing
    remove_enemy(&mut state, 77);
    assert_eq!(state.enemies.len(), 1);

    // The enemy check excludes exactly the slain identity
    assert!(check_for_enemies(&state.enemies, &pos, None));
    assert!(!check_for_enemies(&state.enemies, &pos, Some(4)));
}

/// Statuses never regress over a whole scenario
#[test]
fn lifecycle_is_monotone() {
    let pos = RoomPos::new(4, 3);
    let mut state = GameState::new();
    state.rooms.push(Room { position: pos, status: RoomStatus::Closed });
    state.enemies.push(Enemy { id: 0, position: pos, enemy_type: EnemyType::PistolEnemy });
    state.next_enemy_id = 1;

    let mut observed = vec![state.rooms[0].status];
    process_tick(
        &mut state,
        &vec![LeaveRoomEvent(pos, TransitionDirection::Up)],
        &Vec::new(),
    );
    observed.push(state.rooms[0].status);
    process_tick(&mut state, &Vec::new(), &vec![EnemySlainEvent(pos, 0)]);
    observed.push(state.rooms[0].status);
    // A further entry signal leaves the finished room alone
    process_tick(
        &mut state,
        &vec![LeaveRoomEvent(pos, TransitionDirection::Up)],
        &Vec::new(),
    );
    observed.push(state.rooms[0].status);

    assert_eq!(
        observed,
        vec![
            RoomStatus::Closed,
            RoomStatus::Active,
            RoomStatus::Finished,
            RoomStatus::Finished,
        ]
    );
}

/// Spawning a room record creates the room entity with its initial
/// status and the closed doors of its edges
#[test]
fn spawn_room_statuses_and_doors() {
    let mut state = GameState::new();
    let start = RoomInformation::new(
        RoomType::Start,
        4,
        4,
        Neighbors { top: true, bottom: false, left: false, right: true },
    );
    let normal = RoomInformation::new(RoomType::Normal, 4, 5, Neighbors::new());
    spawn_room(&mut state, &start);
    spawn_room(&mut state, &normal);

    assert_eq!(state.rooms.len(), 2);
    assert_eq!(state.rooms[0].status, RoomStatus::Active);
    assert_eq!(state.rooms[1].status, RoomStatus::Closed);
    assert_eq!(state.doors.len(), 2);
    assert_eq!(state.doors[0].direction, TransitionDirection::Up);
    assert_eq!(state.doors[1].direction, TransitionDirection::Right);
    assert!(!state.doors[0].open && !state.doors[1].open);
}

/// Spawning a generated map creates one room per non-Empty cell
#[test]
fn spawn_map_covers_generated_level() {
    let mut rng = rng_from_seed(11);
    let level = match initialize_map(&mut rng) {
        Ok(level) => level,
        Err(e) => panic!("generation failed: {:?}", e),
    };
    let mut state = GameState::new();
    spawn_map(&mut state, &level.map);

    let mut non_empty = 0;
    for row in level.map.iter() {
        for info in row.iter() {
            if info.room_type != RoomType::Empty {
                non_empty += 1;
                let room = state
                    .rooms
                    .iter()
                    .find(|r| r.position == info.position)
                    .expect("missing room entity");
                let expected = if info.room_type == RoomType::Start {
                    RoomStatus::Active
                } else {
                    RoomStatus::Closed
                };
                assert_eq!(room.status, expected);
            }
        }
    }
    assert_eq!(state.rooms.len(), non_empty);
    for door in state.doors.iter() {
        assert!(!door.open);
        assert!(state.rooms.iter().any(|r| r.position == door.position));
    }
}

/// A room template turns into tiles, flipped into place, and the border
/// gets walls and exactly the doors of the room's neighbors
#[test]
fn template_tiles_and_walls() {
    let rows: Vec<Vec<u8>> = vec![b"XS.".to_vec()];
    let map = create_room_map(&rows);
    assert_eq!(map.len(), Y_ROOM_LENGTH - 2);
    assert_eq!(map[0].len(), X_ROOM_LENGTH - 2);
    // The first template row lands on the top interior row
    assert_eq!(map[Y_ROOM_LENGTH - 3][0], TileType::Wall);
    assert_eq!(map[Y_ROOM_LENGTH - 3][1], TileType::Spawner);
    assert_eq!(map[Y_ROOM_LENGTH - 3][2], TileType::Empty);
    assert_eq!(map[0][0], TileType::Empty);

    let walled = add_walls(
        map,
        Neighbors { top: true, bottom: false, left: true, right: false },
    );
    assert_eq!(walled.len(), Y_ROOM_LENGTH);
    assert_eq!(walled[0].len(), X_ROOM_LENGTH);
    assert_eq!(walled[Y_ROOM_LENGTH - 1][X_ROOM_LENGTH / 2], TileType::Door);
    assert_eq!(walled[0][X_ROOM_LENGTH / 2], TileType::Wall);
    assert_eq!(walled[Y_ROOM_LENGTH / 2][0], TileType::Door);
    assert_eq!(walled[Y_ROOM_LENGTH / 2][X_ROOM_LENGTH - 1], TileType::Wall);
    assert_eq!(walled[0][0], TileType::Wall);
    // The template's wall tile sits shifted by the border
    assert_eq!(walled[Y_ROOM_LENGTH - 2][1], TileType::Wall);
    assert_eq!(walled[1][1], TileType::Empty);
}

/// The spawner enemy table: the boss room forces the boss, other rooms
/// map the drawn number through the fixed table
#[test]
fn spawner_enemy_table() {
    assert_eq!(spawner_enemy_type(RoomType::Boss, 3), EnemyType::Boss);
    assert_eq!(spawner_enemy_type(RoomType::Normal, 0), EnemyType::BigBlob);
    assert_eq!(spawner_enemy_type(RoomType::Normal, 1), EnemyType::PistolEnemy);
    assert_eq!(spawner_enemy_type(RoomType::Normal, 2), EnemyType::SplitShotEnemy);
    assert_eq!(spawner_enemy_type(RoomType::Normal, 3), EnemyType::ShotgunEnemy);
    assert_eq!(spawner_enemy_type(RoomType::Normal, 4), EnemyType::SniperEnemy);
    assert_eq!(spawner_enemy_type(RoomType::Normal, 5), EnemyType::CrossEnemy);
    assert_eq!(spawner_enemy_type(RoomType::Normal, 6), EnemyType::CircleEnemy);
    assert_eq!(spawner_enemy_type(RoomType::Start, 7), EnemyType::MachineGunEnemy);
}
