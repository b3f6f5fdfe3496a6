//! Room tile layout: turning a room template into a tile grid and
//! surrounding it with walls and doors.
//!
//! A template is a list of byte rows read from a room file; which file is
//! chosen, and reading it, is the caller's business. Here the bytes become
//! tiles and the room gets its border: walls all around, with one door per
//! side that has a neighboring room.

use vstd::prelude::*;
use crate::map_generation::Neighbors;
use crate::room::TileType;

verus! {

/// Horizontal length of a room, in tiles.
pub const X_ROOM_LENGTH: usize = 25;
/// Vertical length of a room, in tiles.
pub const Y_ROOM_LENGTH: usize = 15;

/// The tile a template byte stands for: `X` is a wall, `S` a spawner,
/// anything else floor.
pub open spec fn spec_tile_of(b: u8) -> TileType {
    if b == 88 {
        TileType::Wall
    } else if b == 83 {
        TileType::Spawner
    } else {
        TileType::Empty
    }
}

/// The tile the interior cell (x, y) receives from the template rows:
/// template rows fill the interior from the top down, so the row index is
/// flipped; cells the template does not cover stay floor.
pub open spec fn spec_template_tile(rows: Seq<Vec<u8>>, x: int, y: int) -> TileType {
    let src = Y_ROOM_LENGTH - 3 - y;
    if 0 <= src < rows.len() && x < rows[src]@.len() {
        spec_tile_of(rows[src]@[x])
    } else {
        TileType::Empty
    }
}

/// Convert a room template into the interior tile grid of a room.
pub fn create_room_map(rows: &Vec<Vec<u8>>) -> (map: Vec<Vec<TileType>>)
    ensures
        map@.len() == Y_ROOM_LENGTH - 2,
        forall|y: int| 0 <= y < map@.len() ==> (#[trigger] map@[y])@.len() == X_ROOM_LENGTH - 2,
        forall|y: int, x: int|
            #![trigger map@[y]@[x]]
            0 <= y < Y_ROOM_LENGTH - 2 && 0 <= x < X_ROOM_LENGTH - 2 ==> map@[y]@[x]
                == spec_template_tile(rows@, x, y),
{
    let mut map: Vec<Vec<TileType>> = Vec::new();
    let mut y: usize = 0;
    while y < Y_ROOM_LENGTH - 2
        invariant
            0 <= y <= Y_ROOM_LENGTH - 2,
            map@.len() == y,
            forall|yy: int| 0 <= yy < map@.len() ==> (#[trigger] map@[yy])@.len() == X_ROOM_LENGTH
                - 2,
            forall|yy: int, x: int|
                #![trigger map@[yy]@[x]]
                0 <= yy < y && 0 <= x < X_ROOM_LENGTH - 2 ==> map@[yy]@[x] == spec_template_tile(
                    rows@,
                    x,
                    yy,
                ),
        decreases Y_ROOM_LENGTH - 2 - y,
    {
        // Template rows fill the interior from the top down
        let src = Y_ROOM_LENGTH - 3 - y;
        let mut row: Vec<TileType> = Vec::new();
        let mut x: usize = 0;
        while x < X_ROOM_LENGTH - 2
            invariant
                0 <= x <= X_ROOM_LENGTH - 2,
                src == Y_ROOM_LENGTH - 3 - y,
                0 <= y < Y_ROOM_LENGTH - 2,
                row@.len() == x,
                forall|xx: int|
                    0 <= xx < x ==> (#[trigger] row@[xx]) == spec_template_tile(
                        rows@,
                        xx,
                        y as int,
                    ),
            decreases X_ROOM_LENGTH - 2 - x,
        {
            let tile = if src < rows.len() && x < rows[src].len() {
                let b = rows[src][x];
                if b == 88u8 {
                    TileType::Wall
                } else if b == 83u8 {
                    TileType::Spawner
                } else {
                    TileType::Empty
                }
            } else {
                TileType::Empty
            };
            row.push(tile);
            x = x + 1;
        }
        map.push(row);
        y = y + 1;
    }
    map
}

/// The tile the full room grid holds at (x, y) after the border is added:
/// a door in the middle of each side that has a neighbor, the template
/// interior shifted by one, and walls everywhere else on the border.
pub open spec fn spec_walled_tile(
    map: Seq<Vec<TileType>>,
    neighbors: Neighbors,
    x: int,
    y: int,
) -> TileType {
    if neighbors.top && y == Y_ROOM_LENGTH - 1 && x == X_ROOM_LENGTH / 2 {
        TileType::Door
    } else if neighbors.bottom && y == 0 && x == X_ROOM_LENGTH / 2 {
        TileType::Door
    } else if neighbors.left && y == Y_ROOM_LENGTH / 2 && x == 0 {
        TileType::Door
    } else if neighbors.right && y == Y_ROOM_LENGTH / 2 && x == X_ROOM_LENGTH - 1 {
        TileType::Door
    } else if 1 <= y <= Y_ROOM_LENGTH - 2 && 1 <= x <= X_ROOM_LENGTH - 2 {
        map[y - 1]@[x - 1]
    } else {
        TileType::Wall
    }
}

/// Surround the interior tile grid with walls, with one door in the middle
/// of each side that has a neighboring room.
pub fn add_walls(map: Vec<Vec<TileType>>, neighbors: Neighbors) -> (new_map: Vec<Vec<TileType>>)
    requires
        map@.len() == Y_ROOM_LENGTH - 2,
        forall|y: int| 0 <= y < map@.len() ==> (#[trigger] map@[y])@.len() == X_ROOM_LENGTH - 2,
    ensures
        new_map@.len() == Y_ROOM_LENGTH,
        forall|y: int| 0 <= y < new_map@.len() ==> (#[trigger] new_map@[y])@.len()
            == X_ROOM_LENGTH,
        forall|y: int, x: int|
            #![trigger new_map@[y]@[x]]
            0 <= y < Y_ROOM_LENGTH && 0 <= x < X_ROOM_LENGTH ==> new_map@[y]@[x]
                == spec_walled_tile(map@, neighbors, x, y),
{
    let mut new_map: Vec<Vec<TileType>> = Vec::new();
    let mut y: usize = 0;
    while y < Y_ROOM_LENGTH
        invariant
            0 <= y <= Y_ROOM_LENGTH,
            map@.len() == Y_ROOM_LENGTH - 2,
            forall|yy: int| 0 <= yy < map@.len() ==> (#[trigger] map@[yy])@.len() == X_ROOM_LENGTH
                - 2,
            new_map@.len() == y,
            forall|yy: int| 0 <= yy < new_map@.len() ==> (#[trigger] new_map@[yy])@.len()
                == X_ROOM_LENGTH,
            forall|yy: int, x: int|
                #![trigger new_map@[yy]@[x]]
                0 <= yy < y && 0 <= x < X_ROOM_LENGTH ==> new_map@[yy]@[x] == spec_walled_tile(
                    map@,
                    neighbors,
                    x,
                    yy,
                ),
        decreases Y_ROOM_LENGTH - y,
    {
        let mut row: Vec<TileType> = Vec::new();
        let mut x: usize = 0;
        while x < X_ROOM_LENGTH
            invariant
                0 <= x <= X_ROOM_LENGTH,
                0 <= y < Y_ROOM_LENGTH,
                map@.len() == Y_ROOM_LENGTH - 2,
                forall|yy: int| 0 <= yy < map@.len() ==> (#[trigger] map@[yy])@.len()
                    == X_ROOM_LENGTH - 2,
                row@.len() == x,
                forall|xx: int|
                    0 <= xx < x ==> (#[trigger] row@[xx]) == spec_walled_tile(
                        map@,
                        neighbors,
                        xx,
                        y as int,
                    ),
            decreases X_ROOM_LENGTH - x,
        {
            let tile = if neighbors.top && y == Y_ROOM_LENGTH - 1 && x == X_ROOM_LENGTH / 2 {
                TileType::Door
            } else if neighbors.bottom && y == 0 && x == X_ROOM_LENGTH / 2 {
                TileType::Door
            } else if neighbors.left && y == Y_ROOM_LENGTH / 2 && x == 0 {
                TileType::Door
            } else if neighbors.right && y == Y_ROOM_LENGTH / 2 && x == X_ROOM_LENGTH - 1 {
                TileType::Door
            } else if 1 <= y && y <= Y_ROOM_LENGTH - 2 && 1 <= x && x <= X_ROOM_LENGTH - 2 {
                map[y - 1][x - 1]
            } else {
                TileType::Wall
            };
            row.push(tile);
            x = x + 1;
        }
        new_map.push(row);
        y = y + 1;
    }
    new_map
}

} // verus!
