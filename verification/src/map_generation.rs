//! Grid topology: the fixed coordinate space, room positions and their four
//! neighbor operations, and neighbor counting against a set of rooms.

use vstd::prelude::*;

verus! {

/// Horizontal length of the map, in rooms.
pub const X_MAP_LENGTH: i32 = 9;
/// Vertical length of the map, in rooms.
pub const Y_MAP_LENGTH: i32 = 9;

/// Array based position of a room.
#[derive(Clone, Copy, Debug, PartialEq, Eq, Structural, Hash)]
pub struct RoomPos {
    pub x: i32,
    pub y: i32,
}

impl RoomPos {
    /// The position lies inside the map borders.
    pub open spec fn spec_in_bounds(self) -> bool {
        0 <= self.x < X_MAP_LENGTH && 0 <= self.y < Y_MAP_LENGTH
    }

    pub fn new(x: i32, y: i32) -> (r: RoomPos)
        ensures
            r == (RoomPos { x, y }),
    {
        RoomPos { x, y }
    }

    /// Get the position above the current one.
    pub fn up(&self) -> (r: RoomPos)
        requires
            self.y < i32::MAX,
        ensures
            r == self.spec_up(),
    {
        RoomPos { x: self.x, y: self.y + 1 }
    }

    /// Get the position below the current one.
    pub fn down(&self) -> (r: RoomPos)
        requires
            self.y > i32::MIN,
        ensures
            r == self.spec_down(),
    {
        RoomPos { x: self.x, y: self.y - 1 }
    }

    /// Get the position to the right of the current one.
    pub fn right(&self) -> (r: RoomPos)
        requires
            self.x < i32::MAX,
        ensures
            r == self.spec_right(),
    {
        RoomPos { x: self.x + 1, y: self.y }
    }

    /// Get the position to the left of the current one.
    pub fn left(&self) -> (r: RoomPos)
        requires
            self.x > i32::MIN,
        ensures
            r == self.spec_left(),
    {
        RoomPos { x: self.x - 1, y: self.y }
    }

    pub open spec fn spec_up(self) -> RoomPos {
        RoomPos { x: self.x, y: (self.y + 1) as i32 }
    }

    pub open spec fn spec_down(self) -> RoomPos {
        RoomPos { x: self.x, y: (self.y - 1) as i32 }
    }

    pub open spec fn spec_right(self) -> RoomPos {
        RoomPos { x: (self.x + 1) as i32, y: self.y }
    }

    pub open spec fn spec_left(self) -> RoomPos {
        RoomPos { x: (self.x - 1) as i32, y: self.y }
    }
}

/// The start room sits at the center of the map.
pub open spec fn start_pos() -> RoomPos {
    RoomPos { x: (X_MAP_LENGTH / 2) as i32, y: (Y_MAP_LENGTH / 2) as i32 }
}

/// Two positions are orthogonally adjacent: they differ by one step on
/// exactly one axis.
pub open spec fn adjacent(a: RoomPos, b: RoomPos) -> bool {
    b == a.spec_up() || b == a.spec_down() || b == a.spec_left() || b == a.spec_right()
}

/// Add two positions together.
pub fn pos_sum(pos1: &RoomPos, pos2: &RoomPos) -> (r: RoomPos)
    requires
        i32::MIN <= pos1.x + pos2.x <= i32::MAX,
        i32::MIN <= pos1.y + pos2.y <= i32::MAX,
    ensures
        r.x == pos1.x + pos2.x,
        r.y == pos1.y + pos2.y,
{
    RoomPos { x: pos1.x + pos2.x, y: pos1.y + pos2.y }
}

/// Whether a vector of rooms holds the given position.
pub fn contains_pos(rooms: &Vec<RoomPos>, pos: RoomPos) -> (r: bool)
    ensures
        r == rooms@.contains(pos),
{
    let mut i: usize = 0;
    while i < rooms.len()
        invariant
            0 <= i <= rooms@.len(),
            forall|k: int| 0 <= k < i ==> rooms@[k] != pos,
        decreases rooms@.len() - i,
    {
        if rooms[i] == pos {
            return true;
        }
        i = i + 1;
    }
    false
}

/// How many of the four neighbors of `pos` lie in `rooms`.
pub open spec fn nbr_count(rooms: Seq<RoomPos>, pos: RoomPos) -> int {
    (if rooms.contains(pos.spec_up()) { 1int } else { 0int })
        + (if rooms.contains(pos.spec_down()) { 1int } else { 0int })
        + (if rooms.contains(pos.spec_right()) { 1int } else { 0int })
        + (if rooms.contains(pos.spec_left()) { 1int } else { 0int })
}

/// Count the number of neighbors of a room which are already in the map.
pub fn count_neighbors(room_pos: &RoomPos, rooms: &Vec<RoomPos>) -> (count: i32)
    requires
        i32::MIN < room_pos.x < i32::MAX,
        i32::MIN < room_pos.y < i32::MAX,
    ensures
        count == nbr_count(rooms@, *room_pos),
        0 <= count <= 4,
{
    let mut count: i32 = 0;
    if contains_pos(rooms, room_pos.up()) {
        count += 1;
    }
    if contains_pos(rooms, room_pos.down()) {
        count += 1;
    }
    if contains_pos(rooms, room_pos.right()) {
        count += 1;
    }
    if contains_pos(rooms, room_pos.left()) {
        count += 1;
    }
    count
}

/// Neighbors of a room: one flag for each of the four sides.
#[derive(Clone, Copy, Debug, PartialEq, Eq, Structural)]
pub struct Neighbors {
    pub top: bool,
    pub bottom: bool,
    pub left: bool,
    pub right: bool,
}

impl Neighbors {
    /// The flags record, for each side of `pos`, whether the adjacent
    /// position lies in `rooms`.
    pub open spec fn matches(self, pos: RoomPos, rooms: Seq<RoomPos>) -> bool {
        &&& self.top == rooms.contains(pos.spec_up())
        &&& self.bottom == rooms.contains(pos.spec_down())
        &&& self.left == rooms.contains(pos.spec_left())
        &&& self.right == rooms.contains(pos.spec_right())
    }

    pub fn new() -> (r: Neighbors)
        ensures
            r == (Neighbors { top: false, bottom: false, left: false, right: false }),
    {
        Neighbors { top: false, bottom: false, left: false, right: false }
    }

    /// Derive the neighbor flags of `room` against the given room set.
    pub fn new_with_rooms(room: &RoomPos, rooms: &Vec<RoomPos>) -> (r: Neighbors)
        requires
            i32::MIN < room.x < i32::MAX,
            i32::MIN < room.y < i32::MAX,
        ensures
            r.matches(*room, rooms@),
    {
        let mut neighbors = Neighbors::new();

        if contains_pos(rooms, room.up()) {
            neighbors.top = true;
        }
        if contains_pos(rooms, room.down()) {
            neighbors.bottom = true;
        }
        if contains_pos(rooms, room.left()) {
            neighbors.left = true;
        }
        if contains_pos(rooms, room.right()) {
            neighbors.right = true;
        }

        neighbors
    }
}

/// Least number of rooms an accepted map may have.
pub const MIN_ROOMS: usize = 8;
/// Greatest number of rooms an accepted map may have.
pub const MAX_ROOMS: usize = 12;
/// A candidate room is included when a draw from `0..ROOM_CHANCE_DEN` falls
/// below `ROOM_CHANCE_NUM`: an inclusion probability of four tenths.
pub const ROOM_CHANCE_NUM: usize = 4;
pub const ROOM_CHANCE_DEN: usize = 10;
/// How many whole generation attempts are made before giving up.
pub const GENERATION_ATTEMPT_CAP: usize = 1000;

/// Every position of the sequence lies inside the map borders.
pub open spec fn all_in_bounds(s: Seq<RoomPos>) -> bool {
    forall|i: int| 0 <= i < s.len() ==> (#[trigger] s[i]).spec_in_bounds()
}

/// Every room after the first is adjacent to a room included before it.
pub open spec fn connected_prefix(rooms: Seq<RoomPos>) -> bool {
    forall|i: int|
        #![trigger rooms[i]]
        1 <= i < rooms.len() ==> exists|j: int| 0 <= j < i && adjacent(rooms[j], rooms[i])
}

/// Every room had at most two already-included neighbors at the moment it
/// was included.
pub open spec fn degree_bounded(rooms: Seq<RoomPos>) -> bool {
    forall|i: int|
        #![trigger rooms.take(i)]
        1 <= i < rooms.len() ==> nbr_count(rooms.take(i), rooms[i]) <= 2
}

/// What one generation attempt guarantees of the rooms it returns: the start
/// room comes first, positions are distinct and inside the borders, each
/// later room touches an earlier one, and none saw more than two included
/// neighbors when it was added.
pub open spec fn rooms_wf(rooms: Seq<RoomPos>) -> bool {
    &&& rooms.len() >= 1
    &&& rooms[0] == start_pos()
    &&& rooms.no_duplicates()
    &&& all_in_bounds(rooms)
    &&& connected_prefix(rooms)
    &&& degree_bounded(rooms)
}

/// The candidate queue holds distinct, in-bounds positions that are not yet
/// rooms, each adjacent to some included room.
pub open spec fn queue_wf(rooms: Seq<RoomPos>, queue: Seq<RoomPos>) -> bool {
    &&& queue.no_duplicates()
    &&& forall|i: int| 0 <= i < queue.len() ==> (#[trigger] queue[i]).spec_in_bounds()
    &&& forall|i: int| 0 <= i < queue.len() ==> !rooms.contains(#[trigger] queue[i])
    &&& forall|i: int|
        #![trigger queue[i]]
        0 <= i < queue.len() ==> exists|j: int| 0 <= j < rooms.len() && adjacent(rooms[j], queue[i])
}

/// Distinct in-bounds positions number at most the cells of the grid.
pub proof fn lemma_rooms_len_bound(rooms: Seq<RoomPos>)
    requires
        rooms.no_duplicates(),
        all_in_bounds(rooms),
    ensures
        rooms.len() <= X_MAP_LENGTH * Y_MAP_LENGTH,
{
    let f = |i: int| RoomPos { x: (i % 9) as i32, y: (i / 9) as i32 };
    let cells = vstd::set_lib::set_int_range(0, 81);
    let grid = cells.map(f);
    vstd::set_lib::lemma_int_range(0, 81);
    vstd::set_lib::lemma_map_size_bound(cells, grid, f);
    assert forall|p: RoomPos| #[trigger] rooms.to_set().contains(p) implies grid.contains(p) by {
        assert(rooms.contains(p));
        let k = choose|k: int| 0 <= k < rooms.len() && rooms[k] == p;
        assert(rooms[k].spec_in_bounds());
        let i = p.y as int * 9 + p.x as int;
        vstd::arithmetic::div_mod::lemma_fundamental_div_mod_converse(
            i,
            9,
            p.y as int,
            p.x as int,
        );
        assert(cells.contains(i) && f(i) == p);
    }
    vstd::set_lib::lemma_len_subset(rooms.to_set(), grid);
    rooms.unique_seq_to_set();
}

/// The queue after one candidate is offered: the position is appended
/// exactly when it lies inside the borders and is neither a room nor
/// already queued.
pub open spec fn queue_after_candidate(
    rooms: Seq<RoomPos>,
    queue: Seq<RoomPos>,
    pos: RoomPos,
) -> Seq<RoomPos> {
    if pos.spec_in_bounds() && !rooms.contains(pos) && !queue.contains(pos) {
        queue.push(pos)
    } else {
        queue
    }
}

/// The queue after a just-included room offers its four neighbors, in the
/// order up, down, right, left.
pub open spec fn queue_after_neighbors(
    rooms: Seq<RoomPos>,
    queue: Seq<RoomPos>,
    pos: RoomPos,
) -> Seq<RoomPos> {
    let q1 = queue_after_candidate(rooms, queue, pos.spec_up());
    let q2 = queue_after_candidate(rooms, q1, pos.spec_down());
    let q3 = queue_after_candidate(rooms, q2, pos.spec_right());
    queue_after_candidate(rooms, q3, pos.spec_left())
}

/// If a position is inside the borders and not yet a room or queued, add it
/// to the candidate queue.
fn push_candidate(rooms: &Vec<RoomPos>, queue: &mut Vec<RoomPos>, pos: RoomPos)
    requires
        queue_wf(rooms@, old(queue)@),
        exists|j: int| 0 <= j < rooms@.len() && adjacent(rooms@[j], pos),
    ensures
        queue_wf(rooms@, final(queue)@),
        final(queue)@ == queue_after_candidate(rooms@, old(queue)@, pos),
{
    // Check if the position is inside the map borders
    if pos.x < 0 || pos.x >= X_MAP_LENGTH || pos.y < 0 || pos.y >= Y_MAP_LENGTH {
        return;
    }

    // If the position is already a room or already queued, skip it
    if !contains_pos(rooms, pos) && !contains_pos(queue, pos) {
        queue.push(pos);
    }
}

/// Queue the four neighbors of a just-included room as future candidates:
/// the queue is extended, in order, by exactly those neighbors that are
/// inside the borders and not yet rooms or queued at their check.
fn add_possible_neighbors(room_pos: &RoomPos, rooms: &Vec<RoomPos>, queue: &mut Vec<RoomPos>)
    requires
        queue_wf(rooms@, old(queue)@),
        rooms@.contains(*room_pos),
        room_pos.spec_in_bounds(),
    ensures
        queue_wf(rooms@, final(queue)@),
        final(queue)@ == queue_after_neighbors(rooms@, old(queue)@, *room_pos),
        final(queue)@.len() <= old(queue)@.len() + 4,
{
    let ghost k = choose|j: int| 0 <= j < rooms@.len() && rooms@[j] == *room_pos;
    proof {
        assert(adjacent(rooms@[k], room_pos.spec_up()));
        assert(adjacent(rooms@[k], room_pos.spec_down()));
        assert(adjacent(rooms@[k], room_pos.spec_right()));
        assert(adjacent(rooms@[k], room_pos.spec_left()));
    }
    push_candidate(rooms, queue, room_pos.up());
    push_candidate(rooms, queue, room_pos.down());
    push_candidate(rooms, queue, room_pos.right());
    push_candidate(rooms, queue, room_pos.left());
}

/// Check if a room can be added to the map and try to add it.
///
/// The room is rejected outright when it already has more than two included
/// neighbors; otherwise a draw from the random source decides inclusion.
fn check_possible_room(
    room_pos: &RoomPos,
    rooms: &mut Vec<RoomPos>,
    queue: &mut Vec<RoomPos>,
    rng: &mut rand::rngs::StdRng,
) -> (r: bool)
    requires
        rooms_wf(old(rooms)@),
        queue_wf(old(rooms)@, old(queue)@),
        room_pos.spec_in_bounds(),
        !old(rooms)@.contains(*room_pos),
        !old(queue)@.contains(*room_pos),
        exists|j: int| 0 <= j < old(rooms)@.len() && adjacent(old(rooms)@[j], *room_pos),
    ensures
        rooms_wf(final(rooms)@),
        queue_wf(final(rooms)@, final(queue)@),
        r == (nbr_count(old(rooms)@, *room_pos) <= 2),
        final(rooms)@ == old(rooms)@ || final(rooms)@ == old(rooms)@.push(*room_pos),
        !r ==> final(rooms)@ == old(rooms)@,
        final(rooms)@ == old(rooms)@ ==> final(queue)@ == old(queue)@,
        final(rooms)@ == old(rooms)@.push(*room_pos) ==> final(queue)@ == queue_after_neighbors(
            final(rooms)@,
            old(queue)@,
            *room_pos,
        ),
        final(queue)@.len() <= old(queue)@.len() + 4,
{
    // Check if the room has more than two neighbors already in the map
    if count_neighbors(room_pos, rooms) > 2 {
        return false;
    }

    // Percent chance of adding the room to the map
    if crate::random::rng_gen_range(rng, ROOM_CHANCE_DEN) < ROOM_CHANCE_NUM {
        let ghost old_rooms = rooms@;
        let ghost old_queue = queue@;
        rooms.push(*room_pos);
        proof {
            let nr = rooms@;
            assert(nr.len() == old_rooms.len() + 1);
            assert(nr[old_rooms.len() as int] == *room_pos);
            assert(nr.contains(*room_pos));
            assert forall|i: int| 0 <= i < nr.len() implies (#[trigger] nr[i]).spec_in_bounds() by {
                if i < old_rooms.len() {
                    assert(old_rooms[i].spec_in_bounds());
                }
            }
            assert forall|i: int, j: int|
                0 <= i < nr.len() && 0 <= j < nr.len() && i != j implies nr[i] != nr[j] by {
                if i < old_rooms.len() && j < old_rooms.len() {
                    assert(old_rooms[i] != old_rooms[j]);
                } else if j == old_rooms.len() {
                    assert(nr[j] == *room_pos);
                    assert(nr[i] == old_rooms[i]);
                    if old_rooms[i] == *room_pos {
                        assert(old_rooms.contains(*room_pos));
                    }
                } else {
                    assert(nr[i] == *room_pos);
                    assert(nr[j] == old_rooms[j]);
                    if old_rooms[j] == *room_pos {
                        assert(old_rooms.contains(*room_pos));
                    }
                }
            }
            assert(nr.no_duplicates());
            assert forall|i: int|
                #![trigger nr[i]]
                1 <= i < nr.len() implies exists|j: int| 0 <= j < i && adjacent(nr[j], nr[i]) by {
                if i < old_rooms.len() {
                    assert(old_rooms[i] == nr[i]);
                    let j = choose|j: int| 0 <= j < i && adjacent(old_rooms[j], old_rooms[i]);
                    assert(adjacent(nr[j], nr[i]));
                } else {
                    let j = choose|j: int|
                        0 <= j < old_rooms.len() && adjacent(old_rooms[j], *room_pos);
                    assert(adjacent(nr[j], nr[i]));
                }
            }
            assert forall|i: int|
                #![trigger nr.take(i)]
                1 <= i < nr.len() implies nbr_count(nr.take(i), nr[i]) <= 2 by {
                assert(nr.take(i) =~= old_rooms.take(i));
                if i == old_rooms.len() {
                    assert(old_rooms.take(i) =~= old_rooms);
                }
            }
            assert(rooms_wf(nr));
            assert forall|i: int| 0 <= i < queue@.len() implies !nr.contains(
                #[trigger] queue@[i],
            ) by {
                assert(!old_rooms.contains(queue@[i]));
                assert(queue@[i] != *room_pos);
                if nr.contains(queue@[i]) {
                    let j = choose|j: int| 0 <= j < nr.len() && nr[j] == queue@[i];
                    assert(j < old_rooms.len() ==> old_rooms[j] == queue@[i]);
                }
            }
            assert forall|i: int|
                #![trigger queue@[i]]
                0 <= i < queue@.len() implies exists|j: int|
                0 <= j < nr.len() && adjacent(nr[j], queue@[i]) by {
                let j = choose|j: int|
                    0 <= j < old_rooms.len() && adjacent(old_rooms[j], old_queue[i]);
                assert(adjacent(nr[j], queue@[i]));
            }
            assert(queue_wf(nr, queue@));
        }
        add_possible_neighbors(room_pos, rooms, queue);
    }

    true
}

/// Generate a one dimensional array of rooms.
///
/// Starting from the start room, candidates are drawn from the queue and
/// included at random, each enqueueing its own in-bounds neighbors.
pub fn generate_map(rng: &mut rand::rngs::StdRng) -> (rooms: Vec<RoomPos>)
    ensures
        rooms_wf(rooms@),
{
    // Rooms that will be added to the map
    let mut rooms: Vec<RoomPos> = Vec::new();
    // Possible rooms which could be added to the map
    let mut queue: Vec<RoomPos> = Vec::new();

    // Add the first room
    let middle_pos: RoomPos = RoomPos::new(X_MAP_LENGTH / 2, Y_MAP_LENGTH / 2);
    rooms.push(middle_pos);
    queue.push(middle_pos.up());
    queue.push(middle_pos.down());
    queue.push(middle_pos.right());
    queue.push(middle_pos.left());

    proof {
        assert(rooms@ =~= seq![start_pos()]);
        assert(queue@ =~= seq![
            start_pos().spec_up(),
            start_pos().spec_down(),
            start_pos().spec_right(),
            start_pos().spec_left(),
        ]);
        assert forall|i: int|
            #![trigger queue@[i]]
            0 <= i < queue@.len() implies exists|j: int|
            0 <= j < rooms@.len() && adjacent(rooms@[j], queue@[i]) by {
            assert(adjacent(rooms@[0], queue@[i]));
        }
        assert(queue_wf(rooms@, queue@));
    }

    // Generate rooms
    while queue.len() > 0
        invariant
            rooms_wf(rooms@),
            queue_wf(rooms@, queue@),
            rooms@.len() <= X_MAP_LENGTH * Y_MAP_LENGTH,
        decreases 5 * (X_MAP_LENGTH * Y_MAP_LENGTH - rooms@.len()) + queue@.len(),
    {
        // Get the next possible room from the queue
        let ghost old_queue = queue@;
        let pos = queue.pop().unwrap();
        proof {
            assert(pos == old_queue[old_queue.len() - 1]);
            assert forall|i: int| 0 <= i < queue@.len() implies old_queue[i] == #[trigger] queue@[i] by {}
            assert(!queue@.contains(pos)) by {
                if queue@.contains(pos) {
                    let i = choose|i: int| 0 <= i < queue@.len() && queue@[i] == pos;
                    assert(old_queue[i] == old_queue[old_queue.len() - 1]);
                }
            }
            assert(queue_wf(rooms@, queue@));
        }

        check_possible_room(&pos, &mut rooms, &mut queue, rng);
        proof {
            lemma_rooms_len_bound(rooms@);
        }
    }

    rooms
}

/// Basic room information to generate the map: produced once by the
/// assembler and immutable thereafter.
#[derive(Clone, Copy, Debug)]
pub struct RoomInformation {
    pub room_type: crate::room::RoomType,
    pub position: RoomPos,
    pub neighbors: Neighbors,
}

impl RoomInformation {
    pub fn new(room_type: crate::room::RoomType, x: i32, y: i32, neighbors: Neighbors) -> (r:
        RoomInformation)
        ensures
            r.room_type == room_type,
            r.position == (RoomPos { x, y }),
            r.neighbors == neighbors,
    {
        RoomInformation { room_type, position: RoomPos { x, y }, neighbors }
    }
}

/// The room type a grid cell receives: `Empty` off the room set, `Start` at
/// the center, `Boss` at the chosen boss position, `Normal` elsewhere.
pub open spec fn spec_room_type(p: RoomPos, rooms: Seq<RoomPos>, boss: RoomPos) -> crate::room::RoomType {
    if !rooms.contains(p) {
        crate::room::RoomType::Empty
    } else if p == start_pos() {
        crate::room::RoomType::Start
    } else if p == boss {
        crate::room::RoomType::Boss
    } else {
        crate::room::RoomType::Normal
    }
}

/// The record of cell (x, y): its own position, neighbor flags derived from
/// the room set, and the cell's room type.
pub open spec fn record_matches(
    info: RoomInformation,
    x: int,
    y: int,
    rooms: Seq<RoomPos>,
    boss: RoomPos,
) -> bool {
    let p = RoomPos { x: x as i32, y: y as i32 };
    &&& info.position == p
    &&& info.neighbors.matches(p, rooms)
    &&& info.room_type == spec_room_type(p, rooms, boss)
}

/// The assembled grid is total: height by width, one matching record per cell.
pub open spec fn map_matches(
    map: Seq<Vec<RoomInformation>>,
    rooms: Seq<RoomPos>,
    boss: RoomPos,
) -> bool {
    &&& map.len() == Y_MAP_LENGTH
    &&& forall|y: int| 0 <= y < map.len() ==> (#[trigger] map[y])@.len() == X_MAP_LENGTH
    &&& forall|y: int, x: int|
        0 <= y < map.len() && 0 <= x < X_MAP_LENGTH ==> record_matches(
            #[trigger] map[y]@[x],
            x,
            y,
            rooms,
            boss,
        )
}

/// Pick a boss room: one leaf room (exactly one neighbor in the set, not the
/// start room), chosen at random; `None` when no leaf exists.
pub fn get_boss_room(rooms: &Vec<RoomPos>, rng: &mut rand::rngs::StdRng) -> (r: Option<RoomPos>)
    requires
        all_in_bounds(rooms@),
    ensures
        match r {
            Some(b) => rooms@.contains(b) && nbr_count(rooms@, b) == 1 && b != start_pos(),
            None => forall|i: int|
                0 <= i < rooms@.len() ==> !(nbr_count(rooms@, #[trigger] rooms@[i]) == 1
                    && rooms@[i] != start_pos()),
        },
{
    // Get all rooms with only one neighbor, excluding the start room
    let mut boss_rooms: Vec<RoomPos> = Vec::new();
    let start_room = RoomPos::new(X_MAP_LENGTH / 2, Y_MAP_LENGTH / 2);

    let mut i: usize = 0;
    while i < rooms.len()
        invariant
            all_in_bounds(rooms@),
            0 <= i <= rooms@.len(),
            start_room == start_pos(),
            forall|k: int|
                0 <= k < boss_rooms@.len() ==> rooms@.contains(#[trigger] boss_rooms@[k])
                    && nbr_count(rooms@, boss_rooms@[k]) == 1 && boss_rooms@[k] != start_pos(),
            forall|k: int|
                0 <= k < i ==> !(nbr_count(rooms@, #[trigger] rooms@[k]) == 1 && rooms@[k]
                    != start_pos()) || boss_rooms@.contains(rooms@[k]),
        decreases rooms@.len() - i,
    {
        let room = rooms[i];
        proof {
            assert(rooms@[i as int].spec_in_bounds());
        }
        if count_neighbors(&room, rooms) == 1 && !(room == start_room) {
            let ghost old_boss = boss_rooms@;
            boss_rooms.push(room);
            proof {
                assert forall|k: int| 0 <= k < old_boss.len() implies boss_rooms@.contains(
                    #[trigger] old_boss[k],
                ) by {
                    assert(boss_rooms@[k] == old_boss[k]);
                }
                assert(boss_rooms@[old_boss.len() as int] == room);
                assert(boss_rooms@.contains(room));
            }
        }
        i = i + 1;
    }

    if boss_rooms.len() == 0 {
        None
    } else {
        // Get a random room from the list
        let k = crate::random::rng_gen_range(rng, boss_rooms.len());
        Some(boss_rooms[k])
    }
}

/// Convert the flat room array to the two dimensional map and set each
/// cell's record: a pure, total assembly.
pub fn convert_rooms_to_map(rooms: &Vec<RoomPos>, boss_room: &RoomPos) -> (map: Vec<
    Vec<RoomInformation>,
>)
    ensures
        map_matches(map@, rooms@, *boss_room),
{
    let mut map: Vec<Vec<RoomInformation>> = Vec::new();

    let mut y: i32 = 0;
    while y < Y_MAP_LENGTH
        invariant
            0 <= y <= Y_MAP_LENGTH,
            map@.len() == y,
            forall|yy: int| 0 <= yy < map@.len() ==> (#[trigger] map@[yy])@.len() == X_MAP_LENGTH,
            forall|yy: int, xx: int|
                0 <= yy < map@.len() && 0 <= xx < X_MAP_LENGTH ==> record_matches(
                    #[trigger] map@[yy]@[xx],
                    xx,
                    yy,
                    rooms@,
                    *boss_room,
                ),
        decreases Y_MAP_LENGTH - y,
    {
        let mut row: Vec<RoomInformation> = Vec::new();
        let mut x: i32 = 0;
        while x < X_MAP_LENGTH
            invariant
                0 <= y < Y_MAP_LENGTH,
                0 <= x <= X_MAP_LENGTH,
                row@.len() == x,
                forall|xx: int|
                    0 <= xx < row@.len() ==> record_matches(
                        #[trigger] row@[xx],
                        xx,
                        y as int,
                        rooms@,
                        *boss_room,
                    ),
            decreases X_MAP_LENGTH - x,
        {
            let pos = RoomPos::new(x, y);
            // Calculate the neighbors of the room for further use
            let neighbors = Neighbors::new_with_rooms(&pos, rooms);

            // Add room type, position and neighbors to the record
            if contains_pos(rooms, pos) {
                if y == Y_MAP_LENGTH / 2 && x == X_MAP_LENGTH / 2 {
                    row.push(RoomInformation::new(crate::room::RoomType::Start, x, y, neighbors));
                } else if y == boss_room.y && x == boss_room.x {
                    row.push(RoomInformation::new(crate::room::RoomType::Boss, x, y, neighbors));
                } else {
                    row.push(RoomInformation::new(crate::room::RoomType::Normal, x, y, neighbors));
                }
            } else {
                row.push(RoomInformation::new(crate::room::RoomType::Empty, x, y, neighbors));
            }
            x = x + 1;
        }
        map.push(row);
        y = y + 1;
    }

    map
}

/// Generation failed: the attempt cap was reached without a room count in
/// range together with a valid boss room.
#[derive(Clone, Copy, Debug, PartialEq, Eq, Structural)]
pub enum GenerationError {
    GenerationExhausted,
}

/// A successfully generated level: the flat room set, the chosen boss room,
/// and the assembled grid of room records.
pub struct LevelMap {
    pub rooms: Vec<RoomPos>,
    pub boss_room: RoomPos,
    pub map: Vec<Vec<RoomInformation>>,
}

impl LevelMap {
    /// Everything a successful generation guarantees: a well-formed room
    /// set of acceptable size, a leaf boss room distinct from the start,
    /// and a total grid assembled from exactly those rooms.
    pub open spec fn wf(self) -> bool {
        &&& rooms_wf(self.rooms@)
        &&& MIN_ROOMS <= self.rooms@.len() <= MAX_ROOMS
        &&& self.rooms@.contains(self.boss_room)
        &&& nbr_count(self.rooms@, self.boss_room) == 1
        &&& self.boss_room != start_pos()
        &&& map_matches(self.map@, self.rooms@, self.boss_room)
    }
}

/// Create a new map, trying whole generations until a valid one is found,
/// up to the given attempt cap.
pub fn initialize_map_with_cap(rng: &mut rand::rngs::StdRng, attempt_cap: usize) -> (r: Result<
    LevelMap,
    GenerationError,
>)
    ensures
        match r {
            Ok(level) => level.wf(),
            Err(e) => e == GenerationError::GenerationExhausted,
        },
{
    // Try room generations until a valid map is found
    let mut attempt: usize = 0;
    while attempt < attempt_cap
        invariant
            attempt <= attempt_cap,
        decreases attempt_cap - attempt,
    {
        // Generate the positions of the rooms
        let rooms = generate_map(rng);
        if rooms.len() >= MIN_ROOMS && rooms.len() <= MAX_ROOMS {
            // Try to add a boss room to the map
            let boss_room = get_boss_room(&rooms, rng);
            if let Some(boss_room) = boss_room {
                // Convert the flat room array to the two dimensional map
                let map = convert_rooms_to_map(&rooms, &boss_room);
                return Ok(LevelMap { rooms, boss_room, map });
            }
        }
        attempt = attempt + 1;
    }
    Err(GenerationError::GenerationExhausted)
}

/// Create a new map with the built-in attempt cap.
pub fn initialize_map(rng: &mut rand::rngs::StdRng) -> (r: Result<LevelMap, GenerationError>)
    ensures
        match r {
            Ok(level) => level.wf(),
            Err(e) => e == GenerationError::GenerationExhausted,
        },
{
    initialize_map_with_cap(rng, GENERATION_ATTEMPT_CAP)
}

/// A walk through the room set: non-empty, staying on rooms, each step
/// moving to an adjacent position.
pub open spec fn is_path(p: Seq<RoomPos>, rooms: Seq<RoomPos>) -> bool {
    &&& p.len() >= 1
    &&& forall|k: int| 0 <= k < p.len() ==> rooms.contains(#[trigger] p[k])
    &&& forall|k: int| 0 <= k < p.len() - 1 ==> adjacent(#[trigger] p[k], p[k + 1])
}

/// A room is reachable from the start room via a path of neighbor-adjacent
/// rooms inside the set.
pub open spec fn reachable_from_start(rooms: Seq<RoomPos>, c: RoomPos) -> bool {
    exists|p: Seq<RoomPos>|
        is_path(p, rooms) && p[0] == start_pos() && p[p.len() - 1] == c
}

#[verifier::rlimit(50)]
proof fn lemma_reach_index(rooms: Seq<RoomPos>, i: int)
    requires
        rooms.len() >= 1,
        rooms[0] == start_pos(),
        connected_prefix(rooms),
        0 <= i < rooms.len(),
    ensures
        reachable_from_start(rooms, rooms[i]),
    decreases i,
{
    if i == 0 {
        let p = seq![rooms[0]];
        assert(rooms.contains(rooms[0]));
        assert(is_path(p, rooms));
        assert(p[0] == start_pos() && p[p.len() - 1] == rooms[0]);
    } else {
        let j = choose|j: int| 0 <= j < i && adjacent(rooms[j], rooms[i]);
        lemma_reach_index(rooms, j);
        let p = choose|p: Seq<RoomPos>|
            is_path(p, rooms) && p[0] == start_pos() && p[p.len() - 1] == rooms[j];
        let p2 = p.push(rooms[i]);
        assert(rooms.contains(rooms[i]));
        assert forall|k: int| 0 <= k < p2.len() implies rooms.contains(#[trigger] p2[k]) by {
            if k < p.len() {
                assert(p2[k] == p[k]);
            }
        }
        assert forall|k: int| 0 <= k < p2.len() - 1 implies adjacent(#[trigger] p2[k], p2[k + 1]) by {
            if k < p.len() - 1 {
                assert(p2[k] == p[k] && p2[k + 1] == p[k + 1]);
            } else {
                assert(p2[k] == p[p.len() - 1] && p2[k + 1] == rooms[i]);
            }
        }
        assert(is_path(p2, rooms));
        assert(p2[0] == start_pos() && p2[p2.len() - 1] == rooms[i]);
    }
}

/// Boss uniqueness law: in a successfully generated level, a grid cell's
/// record has type Boss exactly when its coordinate is the chosen boss
/// room, which is a leaf room and not the start room.
pub proof fn lemma_exactly_one_boss(level: LevelMap)
    requires
        level.wf(),
    ensures
        forall|y: int, x: int|
            #![trigger level.map@[y]@[x]]
            0 <= y < Y_MAP_LENGTH && 0 <= x < X_MAP_LENGTH ==> (level.map@[y]@[x].room_type
                == crate::room::RoomType::Boss <==> (RoomPos { x: x as i32, y: y as i32 })
                == level.boss_room),
        nbr_count(level.rooms@, level.boss_room) == 1,
        level.boss_room != start_pos(),
{
    assert forall|y: int, x: int|
        #![trigger level.map@[y]@[x]]
        0 <= y < Y_MAP_LENGTH && 0 <= x < X_MAP_LENGTH implies (level.map@[y]@[x].room_type
        == crate::room::RoomType::Boss <==> (RoomPos { x: x as i32, y: y as i32 })
        == level.boss_room) by {
        assert(record_matches(level.map@[y]@[x], x, y, level.rooms@, level.boss_room));
    }
}

/// Connectivity law: in a well-formed generated room set, every room is
/// reachable from the start room via a path of neighbor-adjacent rooms.
pub proof fn lemma_rooms_connected(rooms: Seq<RoomPos>)
    requires
        rooms_wf(rooms),
    ensures
        forall|i: int| 0 <= i < rooms.len() ==> reachable_from_start(rooms, #[trigger] rooms[i]),
{
    assert forall|i: int| 0 <= i < rooms.len() implies reachable_from_start(
        rooms,
        #[trigger] rooms[i],
    ) by {
        lemma_reach_index(rooms, i);
    }
}

} // verus!
