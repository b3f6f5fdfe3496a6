use dungeon_core::map_generation::{
    contains_pos, convert_rooms_to_map, count_neighbors, generate_map, get_boss_room,
    initialize_map, initialize_map_with_cap, pos_sum, GenerationError, RoomPos, MAX_ROOMS,
    MIN_ROOMS, X_MAP_LENGTH, Y_MAP_LENGTH,
};
use dungeon_core::random::rng_from_seed;
use dungeon_core::room::RoomType;

/// Test if the position addition works
#[test]
fn test_pos_sum() {
    assert_eq!(
        pos_sum(&RoomPos::new(1, 2), &RoomPos::new(3, 4)),
        RoomPos::new(4, 6)
    );
}

/// Test if the position of the rooms will be added correctly
#[test]
fn test_count_neighbors() {
    let rooms: Vec<RoomPos> = vec![
        RoomPos::new(5, 4),
        RoomPos::new(6, 4),
        RoomPos::new(8, 2),
        RoomPos::new(5, 3),
    ];

    assert_eq!(count_neighbors(&RoomPos::new(5, 4), &rooms), 2);
    assert_eq!(count_neighbors(&RoomPos::new(6, 4), &rooms), 1);
    assert_eq!(count_neighbors(&RoomPos::new(8, 2), &rooms), 0);
}

/// Print some statistics about the map generation
#[test]
fn test_room_generation() {
    let trials = 100000;
    let mut count = 0;
    let mut failed = 0;
    let mut boss_room_fails = 0;

    let mut rng = rng_from_seed(42);

    // Try room generations until a valid map is found
    for _i in 0..trials {
        let rooms = generate_map(&mut rng);
        if rooms.len() >= MIN_ROOMS && rooms.len() <= MAX_ROOMS {
            count += rooms.len();

            let boss_room = get_boss_room(&rooms, &mut rng);
            if boss_room.is_none() {
                boss_room_fails += 1;
                failed += 1;
            }
        } else {
            failed += 1;
        }
    }

    let average_room_count = count as f32 / (trials - failed) as f32;
    println!("Maximum rooms: {}", MAX_ROOMS);
    println!("Minimum rooms: {}", MIN_ROOMS);
    println!("Possible rooms: {}", X_MAP_LENGTH * Y_MAP_LENGTH);
    println!(
        "Average room count: {0} with {1} map coverage",
        average_room_count,
        (average_room_count / (X_MAP_LENGTH * Y_MAP_LENGTH) as f32 * 100.0),
    );
    println!(
        "Failed percentage: {}",
        failed as f32 / trials as f32 * 100.0
    );
    println!(
        "Boss room fails: {}",
        boss_room_fails as f32 / trials as f32 * 100.0
    );
}

/// Test if the map is generated correctly
#[test]
fn test_map_generation() {
    let mut rng = rng_from_seed(7);
    for _i in 0..1000 {
        // Generate the positions of the rooms
        let rooms = generate_map(&mut rng);
        if rooms.len() >= MIN_ROOMS && rooms.len() <= MAX_ROOMS {
            let initial_room_count = rooms.len();

            // Try to add a boss room to the map
            let boss_room = get_boss_room(&rooms, &mut rng);
            if let Some(boss_room) = boss_room {
                // Convert the flat room array to the two dimensional map
                let map = convert_rooms_to_map(&rooms, &boss_room);

                let mut room_count = 0;
                for row in map {
                    let mut line = String::new();
                    for room in row {
                        if room.room_type == RoomType::Normal {
                            line.push_str(&format!("{0: <3} |", "X"));
                            room_count += 1;
                        } else if room.room_type == RoomType::Start {
                            line.push_str(&format!("{0: <3} |", "S"));
                            room_count += 1;
                        } else if room.room_type == RoomType::Boss {
                            line.push_str(&format!("{0: <3} |", "B"));
                            room_count += 1;
                        } else {
                            line.push_str(&format!("{0: <3} |", "#"));
                        }
                    }
                    println!("{}", line);
                }

                assert!(room_count == initial_room_count);
                return;
            }
        }
    }

    println!("Map generation test failed");
}

/// Assembling a small fixed room set tags every cell with the right type
#[test]
fn assemble_small_level() {
    let rooms = vec![
        RoomPos::new(4, 4),
        RoomPos::new(4, 5),
        RoomPos::new(5, 4),
        RoomPos::new(4, 3),
    ];
    let boss = RoomPos::new(4, 3);
    let map = convert_rooms_to_map(&rooms, &boss);

    assert_eq!(map.len(), 9);
    for (y, row) in map.iter().enumerate() {
        assert_eq!(row.len(), 9);
        for (x, info) in row.iter().enumerate() {
            let (xi, yi) = (x as i32, y as i32);
            let expected = if xi == 4 && yi == 4 {
                RoomType::Start
            } else if xi == 4 && yi == 3 {
                RoomType::Boss
            } else if (xi == 4 && yi == 5) || (xi == 5 && yi == 4) {
                RoomType::Normal
            } else {
                RoomType::Empty
            };
            assert_eq!(info.room_type, expected);
            assert_eq!(info.position, RoomPos::new(xi, yi));
        }
    }

    // Neighbor flags of the start room: rooms above, below and to the right
    let start = &map[4][4];
    assert!(start.neighbors.top);
    assert!(start.neighbors.bottom);
    assert!(start.neighbors.right);
    assert!(!start.neighbors.left);
}

/// A successful generation meets every stated invariant
#[test]
fn generation_invariants_hold() {
    let mut rng = rng_from_seed(7);
    let level = match initialize_map(&mut rng) {
        Ok(level) => level,
        Err(e) => panic!("generation failed: {:?}", e),
    };

    // Room count in the accepted range
    assert!(level.rooms.len() >= MIN_ROOMS && level.rooms.len() <= MAX_ROOMS);

    // The start room comes first, all rooms are distinct and in bounds
    let start = RoomPos::new(X_MAP_LENGTH / 2, Y_MAP_LENGTH / 2);
    assert_eq!(level.rooms[0], start);
    for (i, r) in level.rooms.iter().enumerate() {
        assert!(r.x >= 0 && r.x < X_MAP_LENGTH && r.y >= 0 && r.y < Y_MAP_LENGTH);
        for (j, q) in level.rooms.iter().enumerate() {
            if i != j {
                assert_ne!(r, q);
            }
        }
    }

    // Degree constraint: at most two already-included neighbors at the
    // moment each room was included
    for i in 1..level.rooms.len() {
        let prefix: Vec<RoomPos> = level.rooms[..i].to_vec();
        assert!(count_neighbors(&level.rooms[i], &prefix) <= 2);
    }

    // Connectivity: every room reachable from the start room
    let mut reached = vec![start];
    let mut frontier = vec![start];
    while let Some(p) = frontier.pop() {
        for q in [p.up(), p.down(), p.left(), p.right()] {
            if contains_pos(&level.rooms, q) && !reached.contains(&q) {
                reached.push(q);
                frontier.push(q);
            }
        }
    }
    for r in level.rooms.iter() {
        assert!(reached.contains(r));
    }

    // Boss room: a leaf, not the start room, marked Boss exactly once
    assert!(contains_pos(&level.rooms, level.boss_room));
    assert_eq!(count_neighbors(&level.boss_room, &level.rooms), 1);
    assert_ne!(level.boss_room, start);
    let mut boss_cells = 0;
    for (y, row) in level.map.iter().enumerate() {
        for (x, info) in row.iter().enumerate() {
            let p = RoomPos::new(x as i32, y as i32);
            if info.room_type == RoomType::Boss {
                boss_cells += 1;
                assert_eq!(p, level.boss_room);
            }
            // Assembler totality: every cell has a record, Empty exactly
            // off the room set
            assert_eq!(info.position, p);
            assert_eq!(
                info.room_type == RoomType::Empty,
                !contains_pos(&level.rooms, p)
            );
        }
    }
    assert_eq!(boss_cells, 1);
    assert_eq!(level.map[4][4].room_type, RoomType::Start);
}

/// The same seed replays the same generation
#[test]
fn seeded_generation_is_deterministic() {
    let mut a = rng_from_seed(12345);
    let mut b = rng_from_seed(12345);
    let ra = generate_map(&mut a);
    let rb = generate_map(&mut b);
    assert_eq!(ra, rb);

    let mut c = rng_from_seed(54321);
    let rc = generate_map(&mut c);
    assert_eq!(rc[0], RoomPos::new(4, 4));
}

/// With no attempts allowed, generation reports exhaustion
#[test]
fn generation_exhausted_with_zero_attempts() {
    let mut rng = rng_from_seed(1);
    let r = initialize_map_with_cap(&mut rng, 0);
    assert!(matches!(r, Err(GenerationError::GenerationExhausted)));
}

/// A boss room is only reported when a leaf room exists
#[test]
fn boss_room_needs_a_leaf() {
    // A 2x2 block: every room has two neighbors, no leaf anywhere
    let rooms = vec![
        RoomPos::new(4, 4),
        RoomPos::new(5, 4),
        RoomPos::new(4, 5),
        RoomPos::new(5, 5),
    ];
    let mut rng = rng_from_seed(3);
    assert!(get_boss_room(&rooms, &mut rng).is_none());

    // Adding a leaf makes it the only candidate
    let mut with_leaf = rooms.clone();
    with_leaf.push(RoomPos::new(6, 5));
    // (5,5) now has three neighbors; (6,5) has exactly one
    let boss = get_boss_room(&with_leaf, &mut rng);
    assert_eq!(boss, Some(RoomPos::new(6, 5)));
}
