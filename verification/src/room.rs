//! Room lifecycle: the per-room Closed -> Active -> Finished state machine,
//! driven by player-transition and enemy-death signals, and the door
//! controller that opens a room's doors once it finishes.

use vstd::prelude::*;
use crate::map_generation::RoomPos;

verus! {

/// Type of the room.
///
/// * `Start` - first room, where the player spawns
/// * `Empty` - grid cell with no room
/// * `Normal` - standard room with enemies
/// * `Boss` - room where the boss waits
#[derive(Clone, Copy, Debug, PartialEq, Eq, Structural)]
pub enum RoomType {
    Start,
    Empty,
    Normal,
    Boss,
}

/// Status of the room.
///
/// * `Closed` - not yet visited; can be activated by the player
/// * `Active` - the player entered and the room is being fought
/// * `Finished` - cleared; terminal, never left again
#[derive(Clone, Copy, Debug, PartialEq, Eq, Structural)]
pub enum RoomStatus {
    Closed,
    Active,
    Finished,
}

/// Type of a specific tile of a room.
///
/// * `Wall` - blocks the player
/// * `Empty` - no tile
/// * `Door` - opened once the room is completed
/// * `Spawner` - spawns a specific enemy
#[derive(Clone, Copy, Debug, PartialEq, Eq, Structural)]
pub enum TileType {
    Empty,
    Wall,
    Door,
    Spawner,
}

/// Transition direction of a room transition: the edge the player crosses.
#[derive(Clone, Copy, Debug, PartialEq, Eq, Structural)]
pub enum TransitionDirection {
    Up,
    Down,
    Left,
    Right,
}

/// Statuses only ever advance along Closed -> Active -> Finished.
pub open spec fn status_le(a: RoomStatus, b: RoomStatus) -> bool {
    match a {
        RoomStatus::Closed => true,
        RoomStatus::Active => b != RoomStatus::Closed,
        RoomStatus::Finished => b == RoomStatus::Finished,
    }
}

/// The advancing order on statuses is transitive, so any chain of
/// transitions that each advance a room's status keeps the whole observed
/// sequence monotone.
pub proof fn lemma_status_le_trans(a: RoomStatus, b: RoomStatus, c: RoomStatus)
    requires
        status_le(a, b),
        status_le(b, c),
    ensures
        status_le(a, c),
{
}

/// Enemy type tag carried by spawners and the enemies they produce.
#[derive(Clone, Copy, Debug, PartialEq, Eq, Structural, Hash)]
pub enum EnemyType {
    BigBlob,
    MediumBlob,
    SmallBlob,
    PistolEnemy,
    SplitShotEnemy,
    MachineGunEnemy,
    ShotgunEnemy,
    SniperEnemy,
    CrossEnemy,
    CircleEnemy,
    Boss,
}

/// The enemy type a spawner produces: the boss room always spawns the
/// boss; elsewhere the drawn number picks from the non-boss table.
pub open spec fn spec_spawner_enemy_type(room_type: RoomType, draw: usize) -> EnemyType {
    if room_type == RoomType::Boss {
        EnemyType::Boss
    } else if draw == 0 {
        EnemyType::BigBlob
    } else if draw == 1 {
        EnemyType::PistolEnemy
    } else if draw == 2 {
        EnemyType::SplitShotEnemy
    } else if draw == 3 {
        EnemyType::ShotgunEnemy
    } else if draw == 4 {
        EnemyType::SniperEnemy
    } else if draw == 5 {
        EnemyType::CrossEnemy
    } else if draw == 6 {
        EnemyType::CircleEnemy
    } else {
        EnemyType::MachineGunEnemy
    }
}

/// Pick the enemy type of a spawner from the room's type and a drawn
/// number: the boss room forces the boss, any other room maps the draw
/// through the fixed table.
pub fn spawner_enemy_type(room_type: RoomType, draw: usize) -> (r: EnemyType)
    ensures
        r == spec_spawner_enemy_type(room_type, draw),
{
    if matches!(room_type, RoomType::Boss) {
        EnemyType::Boss
    } else {
        match draw {
            0 => EnemyType::BigBlob,
            1 => EnemyType::PistolEnemy,
            2 => EnemyType::SplitShotEnemy,
            3 => EnemyType::ShotgunEnemy,
            4 => EnemyType::SniperEnemy,
            5 => EnemyType::CrossEnemy,
            6 => EnemyType::CircleEnemy,
            _ => EnemyType::MachineGunEnemy,
        }
    }
}

/// A live room entity: it owns a coordinate and its lifecycle status.
#[derive(Clone, Copy, Debug, PartialEq, Eq, Structural)]
pub struct Room {
    pub position: RoomPos,
    pub status: RoomStatus,
}

/// A live door entity: owned by the room at its coordinate, sitting on one
/// of its edges, opened exactly once when the room finishes.
#[derive(Clone, Copy, Debug, PartialEq, Eq, Structural)]
pub struct Door {
    pub position: RoomPos,
    pub direction: TransitionDirection,
    pub open: bool,
}

/// A live enemy entity: an identity, the room it is tagged with, and its
/// enemy type.
#[derive(Clone, Copy, Debug, PartialEq, Eq, Structural)]
pub struct Enemy {
    pub id: u64,
    pub position: RoomPos,
    pub enemy_type: EnemyType,
}

/// A spawner: tagged with a coordinate and an enemy type, consumed the
/// first time its room activates to produce an enemy.
#[derive(Clone, Copy, Debug, PartialEq, Eq, Structural)]
pub struct Spawner {
    pub position: RoomPos,
    pub enemy_type: EnemyType,
}

/// Event to signal that the room at the coordinate is finished.
#[derive(Clone, Copy, Debug, PartialEq, Eq, Structural)]
pub struct RoomFinishedEvent(pub RoomPos);

/// Event to signal that the player left a room, entering the room at the
/// coordinate through the given edge. The direction only repositions the
/// player visually and is not read by the lifecycle controller.
#[derive(Clone, Copy, Debug, PartialEq, Eq, Structural)]
pub struct LeaveRoomEvent(pub RoomPos, pub TransitionDirection);

/// Event to signal that the enemy with the given identity was slain in the
/// room at the coordinate.
#[derive(Clone, Copy, Debug, PartialEq, Eq, Structural)]
pub struct EnemySlainEvent(pub RoomPos, pub u64);

/// The live entity sets of one level, owned by the single coordinating
/// game loop: rooms, doors, enemies and spawners, plus the counter that
/// hands out fresh enemy identities.
pub struct GameState {
    pub rooms: Vec<Room>,
    pub doors: Vec<Door>,
    pub enemies: Vec<Enemy>,
    pub spawners: Vec<Spawner>,
    pub next_enemy_id: u64,
}

/// At most one live room entity per coordinate.
pub open spec fn room_positions_unique(rooms: Seq<Room>) -> bool {
    forall|i: int, j: int|
        0 <= i < rooms.len() && 0 <= j < rooms.len() && i != j ==> (#[trigger] rooms[i]).position
            != (#[trigger] rooms[j]).position
}

/// Some live room owns the coordinate.
pub open spec fn has_room_at(rooms: Seq<Room>, pos: RoomPos) -> bool {
    exists|i: int| 0 <= i < rooms.len() && (#[trigger] rooms[i]).position == pos
}

/// The index of the room at the coordinate (meaningful when one exists).
pub open spec fn room_index_of(rooms: Seq<Room>, pos: RoomPos) -> int {
    choose|i: int| 0 <= i < rooms.len() && (#[trigger] rooms[i]).position == pos
}

/// The status of the room at the coordinate (meaningful when one exists).
pub open spec fn status_at(rooms: Seq<Room>, pos: RoomPos) -> RoomStatus {
    rooms[room_index_of(rooms, pos)].status
}

/// A live enemy is tagged with the coordinate, not counting the one the
/// `killed` identity names.
pub open spec fn enemy_remains(enemies: Seq<Enemy>, pos: RoomPos, killed: Option<u64>) -> bool {
    exists|i: int|
        0 <= i < enemies.len() && (#[trigger] enemies[i]).position == pos && (match killed {
            Some(k) => enemies[i].id != k,
            None => true,
        })
}

/// Some spawner is tagged with the coordinate.
pub open spec fn has_spawner_at(spawners: Seq<Spawner>, pos: RoomPos) -> bool {
    exists|i: int| 0 <= i < spawners.len() && (#[trigger] spawners[i]).position == pos
}

/// The spawners tagged with the coordinate, in order.
pub open spec fn spawners_at(spawners: Seq<Spawner>, pos: RoomPos) -> Seq<Spawner> {
    spawners.filter(|s: Spawner| s.position == pos)
}

/// The live enemies left after the one with the given identity is
/// removed; an unknown identity removes nothing.
pub open spec fn enemies_after_remove(enemies: Seq<Enemy>, id: u64) -> Seq<Enemy> {
    enemies.filter(|e: Enemy| e.id != id)
}

/// What is left after the spawners at the coordinate are consumed.
pub open spec fn spawners_after_trigger(spawners: Seq<Spawner>, pos: RoomPos) -> Seq<Spawner> {
    spawners.filter(|s: Spawner| s.position != pos)
}

/// The enemies produced when the spawners at the coordinate trigger: one
/// per spawner, of the spawner's type, with fresh identities from `base`.
pub open spec fn spawned_enemies(spawners: Seq<Spawner>, pos: RoomPos, base: u64) -> Seq<Enemy> {
    Seq::new(
        spawners_at(spawners, pos).len(),
        |k: int| Enemy {
            id: (base + k) as u64,
            position: pos,
            enemy_type: spawners_at(spawners, pos)[k].enemy_type,
        },
    )
}

/// Entering the room at the coordinate: a Closed room there becomes
/// Active; everything else is untouched.
pub open spec fn rooms_after_enter(rooms: Seq<Room>, pos: RoomPos) -> Seq<Room> {
    rooms.map_values(
        |r: Room|
            if r.position == pos && r.status == RoomStatus::Closed {
                Room { position: r.position, status: RoomStatus::Active }
            } else {
                r
            },
    )
}

/// Finishing the room at the coordinate: an Active room there becomes
/// Finished; everything else is untouched.
pub open spec fn rooms_after_finish(rooms: Seq<Room>, pos: RoomPos) -> Seq<Room> {
    rooms.map_values(
        |r: Room|
            if r.position == pos && r.status == RoomStatus::Active {
                Room { position: r.position, status: RoomStatus::Finished }
            } else {
                r
            },
    )
}

/// Opening the doors of the room at the coordinate: every door there is
/// open afterwards; all other doors are untouched.
pub open spec fn doors_after_open(doors: Seq<Door>, pos: RoomPos) -> Seq<Door> {
    doors.map_values(
        |d: Door|
            if d.position == pos {
                Door { position: d.position, direction: d.direction, open: true }
            } else {
                d
            },
    )
}

impl GameState {
    /// Well-formedness: one room per coordinate, and live enemies carry
    /// distinct identities below the fresh-identity counter.
    pub open spec fn wf(self) -> bool {
        &&& room_positions_unique(self.rooms@)
        &&& forall|i: int|
            0 <= i < self.enemies@.len() ==> (#[trigger] self.enemies@[i]).id < self.next_enemy_id
        &&& forall|i: int, j: int|
            0 <= i < self.enemies@.len() && 0 <= j < self.enemies@.len() && i != j ==> (
            #[trigger] self.enemies@[i]).id != (#[trigger] self.enemies@[j]).id
    }

    /// The ghost snapshot of this state.
    pub open spec fn model(self) -> StateModel {
        StateModel {
            rooms: self.rooms@,
            doors: self.doors@,
            enemies: self.enemies@,
            spawners: self.spawners@,
            next_enemy_id: self.next_enemy_id,
        }
    }

    /// An empty level: no live entities yet.
    pub fn new() -> (s: GameState)
        ensures
            s.wf(),
            s.rooms@.len() == 0,
            s.doors@.len() == 0,
            s.enemies@.len() == 0,
            s.spawners@.len() == 0,
            s.next_enemy_id == 0,
    {
        GameState {
            rooms: Vec::new(),
            doors: Vec::new(),
            enemies: Vec::new(),
            spawners: Vec::new(),
            next_enemy_id: 0,
        }
    }
}

/// Check whether a live enemy tagged with the given room remains, excluding
/// the just-killed one if an identity is given.
pub fn check_for_enemies(
    enemies: &Vec<Enemy>,
    room_pos: &RoomPos,
    killed_enemy: Option<u64>,
) -> (r: bool)
    ensures
        r == enemy_remains(enemies@, *room_pos, killed_enemy),
{
    let mut i: usize = 0;
    while i < enemies.len()
        invariant
            0 <= i <= enemies@.len(),
            forall|k: int|
                0 <= k < i ==> !((#[trigger] enemies@[k]).position == *room_pos && (match killed_enemy {
                    Some(id) => enemies@[k].id != id,
                    None => true,
                })),
        decreases enemies@.len() - i,
    {
        let e = enemies[i];
        let excluded = match killed_enemy {
            Some(id) => e.id == id,
            None => false,
        };
        if !excluded && e.position == *room_pos {
            return true;
        }
        i = i + 1;
    }
    false
}

/// Find the live room at the coordinate, if any.
fn find_room_index(rooms: &Vec<Room>, pos: RoomPos) -> (r: Option<usize>)
    ensures
        match r {
            Some(i) => i < rooms@.len() && rooms@[i as int].position == pos,
            None => !has_room_at(rooms@, pos),
        },
{
    let mut i: usize = 0;
    while i < rooms.len()
        invariant
            0 <= i <= rooms@.len(),
            forall|k: int| 0 <= k < i ==> (#[trigger] rooms@[k]).position != pos,
        decreases rooms@.len() - i,
    {
        if rooms[i].position == pos {
            return Some(i);
        }
        i = i + 1;
    }
    None
}

/// With one room per coordinate, the room found at a coordinate is the
/// room the specification speaks of.
proof fn lemma_room_index_unique(rooms: Seq<Room>, pos: RoomPos, i: int)
    requires
        room_positions_unique(rooms),
        0 <= i < rooms.len(),
        rooms[i].position == pos,
    ensures
        has_room_at(rooms, pos),
        room_index_of(rooms, pos) == i,
        status_at(rooms, pos) == rooms[i].status,
{
    assert(has_room_at(rooms, pos));
    let j = room_index_of(rooms, pos);
    assert(0 <= j < rooms.len() && rooms[j].position == pos);
    if i != j {
        assert(rooms[i].position != rooms[j].position);
    }
}

/// Finish the room at the event's coordinate if it is Active.
///
/// A Finished room is terminal, so a repeated notification is a no-op.
pub fn finished_room(state: &mut GameState, ev: &RoomFinishedEvent)
    requires
        old(state).wf(),
    ensures
        final(state).wf(),
        final(state).rooms@ == rooms_after_finish(old(state).rooms@, ev.0),
        final(state).doors@ == old(state).doors@,
        final(state).enemies@ == old(state).enemies@,
        final(state).spawners@ == old(state).spawners@,
        final(state).next_enemy_id == old(state).next_enemy_id,
{
    let ghost old_rooms = state.rooms@;
    match find_room_index(&state.rooms, ev.0) {
        Some(i) => {
            if matches!(state.rooms[i].status, RoomStatus::Active) {
                state.rooms.set(i, Room { position: ev.0, status: RoomStatus::Finished });
            }
            proof {
                assert forall|k: int|
                    0 <= k < old_rooms.len() && k != i implies old_rooms[k].position != ev.0 by {
                    assert(old_rooms[k].position != old_rooms[i as int].position);
                }
                assert(state.rooms@ =~= rooms_after_finish(old_rooms, ev.0));
            }
        },
        None => {
            proof {
                assert forall|k: int| 0 <= k < old_rooms.len() implies old_rooms[k].position
                    != ev.0 by {
                    if old_rooms[k].position == ev.0 {
                        assert(has_room_at(old_rooms, ev.0));
                    }
                }
                assert(state.rooms@ =~= rooms_after_finish(old_rooms, ev.0));
            }
        },
    }
}

/// Open every door of the room at the event's coordinate.
///
/// Opening an already-open door is a no-op, so the operation is idempotent.
pub fn open_doors(state: &mut GameState, ev: &RoomFinishedEvent)
    requires
        old(state).wf(),
    ensures
        final(state).wf(),
        final(state).doors@ == doors_after_open(old(state).doors@, ev.0),
        final(state).rooms@ == old(state).rooms@,
        final(state).enemies@ == old(state).enemies@,
        final(state).spawners@ == old(state).spawners@,
        final(state).next_enemy_id == old(state).next_enemy_id,
{
    let ghost old_doors = state.doors@;
    let mut i: usize = 0;
    while i < state.doors.len()
        invariant
            0 <= i <= state.doors@.len(),
            state.doors@.len() == old_doors.len(),
            forall|k: int|
                i <= k < old_doors.len() ==> state.doors@[k] == old_doors[k],
            forall|k: int|
                0 <= k < i ==> state.doors@[k] == doors_after_open(old_doors, ev.0)[k],
            state.rooms@ == old(state).rooms@,
            state.enemies@ == old(state).enemies@,
            state.spawners@ == old(state).spawners@,
            state.next_enemy_id == old(state).next_enemy_id,
            old(state).wf(),
        decreases old_doors.len() - i,
    {
        let d = state.doors[i];
        if d.position == ev.0 {
            state.doors.set(i, Door { position: d.position, direction: d.direction, open: true });
        }
        i = i + 1;
    }
    proof {
        assert(state.doors@ =~= doors_after_open(old_doors, ev.0));
    }
}

/// Door-open idempotence law: opening the doors of a room twice leaves the
/// doors exactly as opening them once does.
pub proof fn lemma_open_doors_idempotent(doors: Seq<Door>, pos: RoomPos)
    ensures
        doors_after_open(doors_after_open(doors, pos), pos) == doors_after_open(doors, pos),
{
    assert(doors_after_open(doors_after_open(doors, pos), pos) =~= doors_after_open(doors, pos));
}

/// How consuming one more spawner changes the two spawner partitions.
proof fn lemma_spawners_at_push(spawners: Seq<Spawner>, s: Spawner, pos: RoomPos)
    ensures
        spawners_at(spawners.push(s), pos) == (if s.position == pos {
            spawners_at(spawners, pos).push(s)
        } else {
            spawners_at(spawners, pos)
        }),
        spawners_after_trigger(spawners.push(s), pos) == (if s.position != pos {
            spawners_after_trigger(spawners, pos).push(s)
        } else {
            spawners_after_trigger(spawners, pos)
        }),
{
    reveal(Seq::filter);
    assert(spawners.push(s).drop_last() =~= spawners);
    assert(spawners.push(s).last() == s);
}

/// No more spawners sit at a coordinate than there are spawners.
proof fn lemma_spawners_at_len(spawners: Seq<Spawner>, pos: RoomPos)
    ensures
        spawners_at(spawners, pos).len() <= spawners.len(),
    decreases spawners.len(),
{
    if spawners.len() > 0 {
        let dl = spawners.drop_last();
        lemma_spawners_at_len(dl, pos);
        lemma_spawners_at_push(dl, spawners.last(), pos);
        assert(dl.push(spawners.last()) =~= spawners);
    }
}

/// The spawners at a coordinate and those elsewhere partition the set.
proof fn lemma_spawners_partition(spawners: Seq<Spawner>, pos: RoomPos)
    ensures
        spawners_at(spawners, pos).len() + spawners_after_trigger(spawners, pos).len()
            == spawners.len(),
    decreases spawners.len(),
{
    reveal(Seq::filter);
    if spawners.len() > 0 {
        let dl = spawners.drop_last();
        lemma_spawners_partition(dl, pos);
        lemma_spawners_at_push(dl, spawners.last(), pos);
        assert(dl.push(spawners.last()) =~= spawners);
    }
}

/// A spawner sits at the coordinate exactly when the selection there is
/// non-empty.
proof fn lemma_spawners_at_nonempty(spawners: Seq<Spawner>, pos: RoomPos)
    ensures
        has_spawner_at(spawners, pos) <==> spawners_at(spawners, pos).len() > 0,
    decreases spawners.len(),
{
    reveal(Seq::filter);
    if spawners.len() > 0 {
        let dl = spawners.drop_last();
        lemma_spawners_at_nonempty(dl, pos);
        lemma_spawners_at_push(dl, spawners.last(), pos);
        assert(dl.push(spawners.last()) =~= spawners);
        if has_spawner_at(spawners, pos) {
            let w = choose|i: int|
                0 <= i < spawners.len() && (#[trigger] spawners[i]).position == pos;
            if w < dl.len() {
                assert(dl[w].position == pos);
                assert(has_spawner_at(dl, pos));
            }
        }
        if has_spawner_at(dl, pos) {
            let w = choose|i: int| 0 <= i < dl.len() && (#[trigger] dl[i]).position == pos;
            assert(spawners[w].position == pos);
        }
        if spawners.last().position == pos {
            assert(spawners[spawners.len() - 1].position == pos);
        }
    }
}

/// Spawn one enemy per spawner tagged with the room, consuming those
/// spawners, and report whether any enemy was produced.
pub fn spawn_enemies(state: &mut GameState, room_pos: &RoomPos) -> (spawned: bool)
    requires
        old(state).wf(),
        old(state).next_enemy_id + old(state).spawners@.len() <= u64::MAX,
    ensures
        final(state).wf(),
        final(state).rooms@ == old(state).rooms@,
        final(state).doors@ == old(state).doors@,
        final(state).spawners@ == spawners_after_trigger(old(state).spawners@, *room_pos),
        final(state).enemies@ == old(state).enemies@ + spawned_enemies(
            old(state).spawners@,
            *room_pos,
            old(state).next_enemy_id,
        ),
        final(state).next_enemy_id == old(state).next_enemy_id + spawners_at(
            old(state).spawners@,
            *room_pos,
        ).len(),
        final(state).next_enemy_id + final(state).spawners@.len() <= old(state).next_enemy_id
            + old(state).spawners@.len(),
        spawned == has_spawner_at(old(state).spawners@, *room_pos),
{
    let ghost old_sp = state.spawners@;
    let ghost old_en = state.enemies@;
    let ghost base = state.next_enemy_id;
    let pos = *room_pos;

    let mut kept: Vec<Spawner> = Vec::new();
    let mut spawned_any = false;
    let mut i: usize = 0;
    while i < state.spawners.len()
        invariant
            0 <= i <= old_sp.len(),
            state.spawners@ == old_sp,
            state.rooms@ == old(state).rooms@,
            state.doors@ == old(state).doors@,
            pos == *room_pos,
            base + old_sp.len() <= u64::MAX,
            kept@ == spawners_after_trigger(old_sp.take(i as int), pos),
            state.next_enemy_id == base + spawners_at(old_sp.take(i as int), pos).len(),
            spawners_at(old_sp.take(i as int), pos).len() <= i,
            state.enemies@ == old_en + spawned_enemies(old_sp.take(i as int), pos, base),
            spawned_any == (spawners_at(old_sp.take(i as int), pos).len() > 0),
            forall|k: int|
                0 <= k < state.enemies@.len() ==> (#[trigger] state.enemies@[k]).id
                    < state.next_enemy_id,
            forall|k: int, l: int|
                0 <= k < state.enemies@.len() && 0 <= l < state.enemies@.len() && k != l ==> (
                #[trigger] state.enemies@[k]).id != (#[trigger] state.enemies@[l]).id,
        decreases old_sp.len() - i,
    {
        let s = state.spawners[i];
        proof {
            assert(old_sp.take(i + 1) =~= old_sp.take(i as int).push(s));
            lemma_spawners_at_push(old_sp.take(i as int), s, pos);
        }
        if s.position == pos {
            let ghost n = spawners_at(old_sp.take(i as int), pos).len();
            state.enemies.push(
                Enemy { id: state.next_enemy_id, position: s.position, enemy_type: s.enemy_type },
            );
            state.next_enemy_id = state.next_enemy_id + 1;
            spawned_any = true;
            proof {
                assert(spawners_at(old_sp.take(i + 1), pos) == spawners_at(
                    old_sp.take(i as int),
                    pos,
                ).push(s));
                assert(spawned_enemies(old_sp.take(i + 1), pos, base) =~= spawned_enemies(
                    old_sp.take(i as int),
                    pos,
                    base,
                ).push(Enemy { id: (base + n) as u64, position: pos, enemy_type: s.enemy_type }));
                assert(state.enemies@ =~= old_en + spawned_enemies(old_sp.take(i + 1), pos, base));
            }
        } else {
            kept.push(s);
        }
        i = i + 1;
    }
    proof {
        assert(old_sp.take(old_sp.len() as int) =~= old_sp);
        lemma_spawners_at_nonempty(old_sp, pos);
    }
    state.spawners = kept;
    proof {
        lemma_spawners_at_len(old_sp, pos);
        lemma_spawners_partition(old_sp, pos);
    }
    spawned_any
}

/// Room transition: the player entered the room at the event's coordinate.
///
/// A Closed room there becomes Active. On activation, when no live enemy
/// is tagged with the room, its spawners trigger; when that leaves the
/// room without enemies, the room-finished notification is emitted at
/// once: empty rooms finish instantly. A room that is already Active or
/// Finished, or a coordinate without a room, is left untouched.
pub fn room_transit(state: &mut GameState, ev: &LeaveRoomEvent) -> (finished: Option<
    RoomFinishedEvent,
>)
    requires
        old(state).wf(),
        old(state).next_enemy_id + old(state).spawners@.len() <= u64::MAX,
    ensures
        final(state).wf(),
        final(state).rooms@ == rooms_after_enter(old(state).rooms@, ev.0),
        final(state).doors@ == old(state).doors@,
        final(state).next_enemy_id + final(state).spawners@.len() <= old(state).next_enemy_id
            + old(state).spawners@.len(),
        ({
            let s0 = *old(state);
            let entered = has_room_at(s0.rooms@, ev.0) && status_at(s0.rooms@, ev.0)
                == RoomStatus::Closed;
            if entered && !enemy_remains(s0.enemies@, ev.0, None::<u64>) {
                &&& final(state).spawners@ == spawners_after_trigger(s0.spawners@, ev.0)
                &&& final(state).enemies@ == s0.enemies@ + spawned_enemies(
                    s0.spawners@,
                    ev.0,
                    s0.next_enemy_id,
                )
                &&& final(state).next_enemy_id == s0.next_enemy_id + spawners_at(
                    s0.spawners@,
                    ev.0,
                ).len()
                &&& finished == (if has_spawner_at(s0.spawners@, ev.0) {
                    None::<RoomFinishedEvent>
                } else {
                    Some(RoomFinishedEvent(ev.0))
                })
            } else {
                &&& final(state).spawners@ == s0.spawners@
                &&& final(state).enemies@ == s0.enemies@
                &&& final(state).next_enemy_id == s0.next_enemy_id
                &&& finished == None::<RoomFinishedEvent>
            }
        }),
{
    match find_room_index(&state.rooms, ev.0) {
        Some(i) => {
            proof {
                lemma_room_index_unique(old(state).rooms@, ev.0, i as int);
            }
            if matches!(state.rooms[i].status, RoomStatus::Closed) {
                // Activate the room by changing the room status
                let ghost old_rooms = state.rooms@;
                state.rooms.set(i, Room { position: ev.0, status: RoomStatus::Active });
                proof {
                    assert forall|k: int|
                        0 <= k < old_rooms.len() && k != i implies old_rooms[k].position
                        != ev.0 by {
                        assert(old_rooms[k].position != old_rooms[i as int].position);
                    }
                    assert(state.rooms@ =~= rooms_after_enter(old_rooms, ev.0));
                }

                // Check for living enemies or enemies that will be spawned.
                // If no enemy lives and none will be spawned, finish the
                // room directly.
                if !check_for_enemies(&state.enemies, &ev.0, None) {
                    if !spawn_enemies(state, &ev.0) {
                        return Some(RoomFinishedEvent(ev.0));
                    }
                }
                None
            } else {
                proof {
                    assert forall|k: int|
                        0 <= k < state.rooms@.len() && k != i implies state.rooms@[k].position
                        != ev.0 by {
                        assert(state.rooms@[k].position != state.rooms@[i as int].position);
                    }
                    assert(state.rooms@ =~= rooms_after_enter(state.rooms@, ev.0));
                }
                None
            }
        },
        None => {
            proof {
                assert forall|k: int|
                    0 <= k < state.rooms@.len() implies state.rooms@[k].position != ev.0 by {
                    if state.rooms@[k].position == ev.0 {
                        assert(has_room_at(state.rooms@, ev.0));
                    }
                }
                assert(state.rooms@ =~= rooms_after_enter(state.rooms@, ev.0));
            }
            None
        },
    }
}

/// Remove the slain enemy from the live set. An identity with no matching
/// enemy is stale and ignored.
pub fn remove_enemy(state: &mut GameState, id: u64)
    requires
        old(state).wf(),
    ensures
        final(state).wf(),
        final(state).enemies@ == enemies_after_remove(old(state).enemies@, id),
        final(state).rooms@ == old(state).rooms@,
        final(state).doors@ == old(state).doors@,
        final(state).spawners@ == old(state).spawners@,
        final(state).next_enemy_id == old(state).next_enemy_id,
{
    broadcast use vstd::prelude::Seq::lemma_filter_push;

    let ghost old_enemies = state.enemies@;
    let ghost pred = |e: Enemy| e.id != id;
    let mut kept: Vec<Enemy> = Vec::new();
    let mut i: usize = 0;
    while i < state.enemies.len()
        invariant
            0 <= i <= state.enemies@.len(),
            state.enemies@ == old_enemies,
            kept@ == old_enemies.take(i as int).filter(pred),
            pred == (|e: Enemy| e.id != id),
        decreases state.enemies@.len() - i,
    {
        let e = state.enemies[i];
        proof {
            assert(pred(e) == (e.id != id));
            assert(old_enemies.take(i + 1) =~= old_enemies.take(i as int).push(e));
            old_enemies.take(i as int).lemma_filter_push(e, pred);
            assert(old_enemies.take(i as int).push(e).filter(pred) == (if pred(e) {
                old_enemies.take(i as int).filter(pred).push(e)
            } else {
                old_enemies.take(i as int).filter(pred)
            }));
        }
        if !(e.id == id) {
            kept.push(e);
        }
        i = i + 1;
    }
    proof {
        assert(old_enemies.take(old_enemies.len() as int) =~= old_enemies);
    }
    state.enemies = kept;
    proof {
        let ne = state.enemies@;
        assert forall|k: int| 0 <= k < ne.len() implies (#[trigger] ne[k]).id
            < state.next_enemy_id by {
            assert(old_enemies.contains(ne[k])) by {
                old_enemies.lemma_filter_contains_rev(pred, ne[k]);
            }
            let m = choose|m: int| 0 <= m < old_enemies.len() && old_enemies[m] == ne[k];
            assert(old_enemies[m].id < state.next_enemy_id);
        }
        assert forall|k: int, l: int|
            0 <= k < ne.len() && 0 <= l < ne.len() && k != l implies (#[trigger] ne[k]).id != (
        #[trigger] ne[l]).id by {
            lemma_filter_distinct(old_enemies, pred, k, l);
        }
    }
}

/// Distinct elements of a sequence without duplicate identities keep
/// distinct identities after filtering.
proof fn lemma_filter_distinct(enemies: Seq<Enemy>, pred: spec_fn(Enemy) -> bool, k: int, l: int)
    requires
        forall|i: int, j: int|
            0 <= i < enemies.len() && 0 <= j < enemies.len() && i != j ==> (
            #[trigger] enemies[i]).id != (#[trigger] enemies[j]).id,
        0 <= k < enemies.filter(pred).len(),
        0 <= l < enemies.filter(pred).len(),
        k != l,
    ensures
        enemies.filter(pred)[k].id != enemies.filter(pred)[l].id,
    decreases enemies.len(),
{
    broadcast use vstd::prelude::Seq::lemma_filter_push;

    if enemies.len() > 0 {
        let rest = enemies.drop_last();
        let last = enemies.last();
        assert(enemies =~= rest.push(last));
        let f = rest.filter(pred);
        if pred(last) {
            assert(enemies.filter(pred) == f.push(last));
            if k < f.len() && l < f.len() {
                lemma_filter_distinct(rest, pred, k, l);
            } else {
                // one of the two is the pushed last element; it came from
                // the last index of `enemies`, the other from an earlier one
                let m = if k < f.len() { k } else { l };
                assert(f[m] == enemies.filter(pred)[m]);
                assert(rest.contains(f[m])) by {
                    rest.lemma_filter_contains_rev(pred, f[m]);
                }
                let w = choose|w: int| 0 <= w < rest.len() && rest[w] == f[m];
                assert(enemies[w] == f[m] && enemies[enemies.len() - 1] == last);
            }
        } else {
            assert(enemies.filter(pred) == f);
            lemma_filter_distinct(rest, pred, k, l);
        }
    }
}

/// Finish the room when an enemy was slain in it and it was the last one.
///
/// Emits the room-finished notification when the room at the event's
/// coordinate is Active and no live enemy other than the slain one is
/// tagged with it; a stale event (unknown room, or a room not Active) is
/// ignored.
pub fn enemy_slain(state: &GameState, ev: &EnemySlainEvent) -> (finished: Option<
    RoomFinishedEvent,
>)
    requires
        state.wf(),
    ensures
        finished == (if has_room_at(state.rooms@, ev.0) && status_at(state.rooms@, ev.0)
            == RoomStatus::Active && !enemy_remains(state.enemies@, ev.0, Some(ev.1)) {
            Some(RoomFinishedEvent(ev.0))
        } else {
            None::<RoomFinishedEvent>
        }),
{
    match find_room_index(&state.rooms, ev.0) {
        Some(i) => {
            proof {
                lemma_room_index_unique(state.rooms@, ev.0, i as int);
            }
            if matches!(state.rooms[i].status, RoomStatus::Active) {
                if !check_for_enemies(&state.enemies, &ev.0, Some(ev.1)) {
                    return Some(RoomFinishedEvent(ev.0));
                }
            }
            None
        },
        None => None,
    }
}

/// The status a room entity starts its life with: the start room is
/// Active from the outset, every other room begins Closed.
pub open spec fn initial_status(t: RoomType) -> RoomStatus {
    if t == RoomType::Start {
        RoomStatus::Active
    } else {
        RoomStatus::Closed
    }
}

/// The closed doors a room record brings with it: one per side that has a
/// neighbor, in the order top, bottom, left, right.
pub open spec fn doors_for(info: crate::map_generation::RoomInformation) -> Seq<Door> {
    (if info.neighbors.top {
        seq![Door { position: info.position, direction: TransitionDirection::Up, open: false }]
    } else {
        Seq::<Door>::empty()
    }) + (if info.neighbors.bottom {
        seq![Door { position: info.position, direction: TransitionDirection::Down, open: false }]
    } else {
        Seq::<Door>::empty()
    }) + (if info.neighbors.left {
        seq![Door { position: info.position, direction: TransitionDirection::Left, open: false }]
    } else {
        Seq::<Door>::empty()
    }) + (if info.neighbors.right {
        seq![Door { position: info.position, direction: TransitionDirection::Right, open: false }]
    } else {
        Seq::<Door>::empty()
    })
}

/// Spawn the room entity of a record, Active when it is the start room
/// and Closed otherwise, together with the closed doors of its edges.
pub fn spawn_room(state: &mut GameState, room_information: &crate::map_generation::RoomInformation)
    requires
        old(state).wf(),
        !has_room_at(old(state).rooms@, room_information.position),
    ensures
        final(state).wf(),
        final(state).rooms@ == old(state).rooms@.push(
            Room {
                position: room_information.position,
                status: initial_status(room_information.room_type),
            },
        ),
        final(state).doors@ == old(state).doors@ + doors_for(*room_information),
        final(state).enemies@ == old(state).enemies@,
        final(state).spawners@ == old(state).spawners@,
        final(state).next_enemy_id == old(state).next_enemy_id,
{
    let ghost old_rooms = state.rooms@;
    let ghost old_doors = state.doors@;

    // The start room is active from the outset
    let room_status = match room_information.room_type {
        RoomType::Start => RoomStatus::Active,
        _ => RoomStatus::Closed,
    };
    let position = room_information.position;
    state.rooms.push(Room { position, status: room_status });

    // Spawn the closed doors of the room's edges
    if room_information.neighbors.top {
        state.doors.push(Door { position, direction: TransitionDirection::Up, open: false });
    }
    if room_information.neighbors.bottom {
        state.doors.push(Door { position, direction: TransitionDirection::Down, open: false });
    }
    if room_information.neighbors.left {
        state.doors.push(Door { position, direction: TransitionDirection::Left, open: false });
    }
    if room_information.neighbors.right {
        state.doors.push(Door { position, direction: TransitionDirection::Right, open: false });
    }

    proof {
        assert(state.doors@ =~= old_doors + doors_for(*room_information));
        let nr = state.rooms@;
        assert forall|i: int, j: int|
            0 <= i < nr.len() && 0 <= j < nr.len() && i != j implies (#[trigger] nr[i]).position
            != (#[trigger] nr[j]).position by {
            if i < old_rooms.len() && j < old_rooms.len() {
                assert(old_rooms[i].position != old_rooms[j].position);
            } else if j == old_rooms.len() {
                assert(nr[i] == old_rooms[i]);
                if old_rooms[i].position == position {
                    assert(has_room_at(old_rooms, position));
                }
            } else {
                assert(nr[j] == old_rooms[j]);
                if old_rooms[j].position == position {
                    assert(has_room_at(old_rooms, position));
                }
            }
        }
    }
}

/// A room pushed at a fresh coordinate leaves every existing room's
/// status lookup unchanged.
proof fn lemma_status_at_push(rooms: Seq<Room>, r: Room, p: RoomPos)
    requires
        room_positions_unique(rooms.push(r)),
        has_room_at(rooms, p),
    ensures
        has_room_at(rooms.push(r), p),
        status_at(rooms.push(r), p) == status_at(rooms, p),
{
    let i = room_index_of(rooms, p);
    assert(0 <= i < rooms.len() && rooms[i].position == p);
    assert(rooms.push(r)[i] == rooms[i]);
    lemma_room_index_unique(rooms.push(r), p, i);
    assert forall|a: int, b: int|
        0 <= a < rooms.len() && 0 <= b < rooms.len() && a != b implies (
    #[trigger] rooms[a]).position != (#[trigger] rooms[b]).position by {
        assert(rooms.push(r)[a] == rooms[a] && rooms.push(r)[b] == rooms[b]);
        assert(rooms.push(r)[a].position != rooms.push(r)[b].position);
    }
    assert(room_positions_unique(rooms));
    lemma_room_index_unique(rooms, p, i);
}

/// A grid cell with these indices was already walked by `spawn_map` when
/// the walk stands at row `y`, column `x`.
pub open spec fn cell_walked(cx: int, cy: int, x: int, y: int) -> bool {
    cy < y || (cy == y && cx < x)
}

/// A live room entity with exactly this coordinate and status exists.
pub open spec fn has_room_with(rooms: Seq<Room>, pos: RoomPos, status: RoomStatus) -> bool {
    exists|i: int| 0 <= i < rooms.len() && #[trigger] rooms[i] == (Room { position: pos, status })
}

/// Pushing another room does not disturb an existing room entity.
proof fn lemma_has_room_with_push(rooms: Seq<Room>, r: Room, pos: RoomPos, status: RoomStatus)
    requires
        has_room_with(rooms, pos, status),
    ensures
        has_room_with(rooms.push(r), pos, status),
{
    let w = choose|i: int|
        0 <= i < rooms.len() && #[trigger] rooms[i] == (Room { position: pos, status });
    assert(rooms.push(r)[w] == rooms[w]);
}

/// Every room of `map` walked before column `x` of row `y` has its live
/// entity, with its initial status.
pub open spec fn cells_spawned(
    map: Seq<Vec<crate::map_generation::RoomInformation>>,
    rooms: Seq<Room>,
    x: int,
    y: int,
) -> bool {
    forall|yy: int, xx: int|
        #![trigger map[yy]@[xx]]
        0 <= yy < map.len() && 0 <= xx < map[yy]@.len() && cell_walked(xx, yy, x, y)
            && map[yy]@[xx].room_type != RoomType::Empty ==> has_room_with(
            rooms,
            map[yy]@[xx].position,
            initial_status(map[yy]@[xx].room_type),
        )
}

/// Every live room entity stems from a walked, non-Empty cell of `map`.
pub open spec fn rooms_from_cells(
    map: Seq<Vec<crate::map_generation::RoomInformation>>,
    rooms: Seq<Room>,
    x: int,
    y: int,
) -> bool {
    forall|i: int|
        0 <= i < rooms.len() ==> {
            let p = (#[trigger] rooms[i]).position;
            &&& 0 <= p.y < map.len()
            &&& 0 <= p.x < map[p.y as int]@.len()
            &&& cell_walked(p.x as int, p.y as int, x, y)
            &&& map[p.y as int]@[p.x as int].room_type != RoomType::Empty
            &&& map[p.y as int]@[p.x as int].position == p
            &&& rooms[i].status == initial_status(map[p.y as int]@[p.x as int].room_type)
        }
}

/// The doors of one map row's first `n` cells: each non-Empty record
/// contributes its own doors, in walk order.
pub open spec fn doors_of_row(row: Seq<crate::map_generation::RoomInformation>, n: int) -> Seq<
    Door,
>
    decreases n,
{
    if n <= 0 {
        Seq::empty()
    } else {
        doors_of_row(row, n - 1) + (if row[n - 1].room_type != RoomType::Empty {
            doors_for(row[n - 1])
        } else {
            Seq::<Door>::empty()
        })
    }
}

/// The doors of the map's first `n` rows, in walk order.
pub open spec fn doors_of_map(map: Seq<Vec<crate::map_generation::RoomInformation>>, n: int) -> Seq<
    Door,
>
    decreases n,
{
    if n <= 0 {
        Seq::empty()
    } else {
        doors_of_map(map, n - 1) + doors_of_row(map[n - 1]@, map[n - 1]@.len() as int)
    }
}

/// Every live door is closed and owned by a live room.
pub open spec fn doors_closed_on_rooms(doors: Seq<Door>, rooms: Seq<Room>) -> bool {
    forall|i: int|
        0 <= i < doors.len() ==> !(#[trigger] doors[i]).open && has_room_at(
            rooms,
            doors[i].position,
        )
}

/// Spawn the map: one live room entity, with its doors, for every grid
/// cell whose record is not Empty.
pub fn spawn_map(state: &mut GameState, map: &Vec<Vec<crate::map_generation::RoomInformation>>)
    requires
        old(state).wf(),
        old(state).rooms@.len() == 0,
        old(state).doors@.len() == 0,
        forall|y: int, x: int|
            #![trigger map@[y]@[x]]
            0 <= y < map@.len() && 0 <= x < map@[y]@.len() ==> map@[y]@[x].position
                == (RoomPos { x: x as i32, y: y as i32 }),
        map@.len() <= i32::MAX,
        forall|y: int| 0 <= y < map@.len() ==> (#[trigger] map@[y])@.len() <= i32::MAX,
    ensures
        final(state).wf(),
        cells_spawned(map@, final(state).rooms@, 0, map@.len() as int),
        rooms_from_cells(map@, final(state).rooms@, 0, map@.len() as int),
        final(state).doors@ == doors_of_map(map@, map@.len() as int),
        doors_closed_on_rooms(final(state).doors@, final(state).rooms@),
        final(state).enemies@ == old(state).enemies@,
        final(state).spawners@ == old(state).spawners@,
        final(state).next_enemy_id == old(state).next_enemy_id,
{
    let mut y: usize = 0;
    while y < map.len()
        invariant
            0 <= y <= map@.len(),
            map@.len() <= i32::MAX,
            forall|yy: int| 0 <= yy < map@.len() ==> (#[trigger] map@[yy])@.len() <= i32::MAX,
            forall|yy: int, xx: int|
                #![trigger map@[yy]@[xx]]
                0 <= yy < map@.len() && 0 <= xx < map@[yy]@.len() ==> map@[yy]@[xx].position
                    == (RoomPos { x: xx as i32, y: yy as i32 }),
            state.wf(),
            cells_spawned(map@, state.rooms@, 0, y as int),
            rooms_from_cells(map@, state.rooms@, 0, y as int),
            state.doors@ == doors_of_map(map@, y as int),
            doors_closed_on_rooms(state.doors@, state.rooms@),
            state.enemies@ == old(state).enemies@,
            state.spawners@ == old(state).spawners@,
            state.next_enemy_id == old(state).next_enemy_id,
        decreases map@.len() - y,
    {
        proof {
            assert(state.doors@ =~= doors_of_map(map@, y as int) + doors_of_row(
                map@[y as int]@,
                0,
            ));
        }
        let mut x: usize = 0;
        while x < map[y].len()
            invariant
                0 <= y < map@.len(),
                0 <= x <= map@[y as int]@.len(),
                map@.len() <= i32::MAX,
                forall|yy: int| 0 <= yy < map@.len() ==> (#[trigger] map@[yy])@.len() <= i32::MAX,
                forall|yy: int, xx: int|
                    #![trigger map@[yy]@[xx]]
                    0 <= yy < map@.len() && 0 <= xx < map@[yy]@.len() ==> map@[yy]@[xx].position
                        == (RoomPos { x: xx as i32, y: yy as i32 }),
                state.wf(),
                cells_spawned(map@, state.rooms@, x as int, y as int),
                rooms_from_cells(map@, state.rooms@, x as int, y as int),
                state.doors@ == doors_of_map(map@, y as int) + doors_of_row(
                    map@[y as int]@,
                    x as int,
                ),
                doors_closed_on_rooms(state.doors@, state.rooms@),
                state.enemies@ == old(state).enemies@,
                state.spawners@ == old(state).spawners@,
                state.next_enemy_id == old(state).next_enemy_id,
            decreases map@[y as int]@.len() - x,
        {
            let info = &map[y][x];
            if !matches!(info.room_type, RoomType::Empty) {
                let ghost pre_rooms = state.rooms@;
                let ghost pre_doors = state.doors@;
                let ghost p = info.position;
                proof {
                    if has_room_at(pre_rooms, p) {
                        let w = room_index_of(pre_rooms, p);
                        assert(0 <= w < pre_rooms.len() && pre_rooms[w].position == p);
                        assert(cell_walked(p.x as int, p.y as int, x as int, y as int));
                    }
                }
                spawn_room(state, info);
                proof {
                    let r = Room { position: p, status: initial_status(info.room_type) };
                    assert(state.rooms@ == pre_rooms.push(r));
                    assert(state.rooms@[pre_rooms.len() as int] == r);
                    assert(has_room_with(state.rooms@, p, initial_status(info.room_type)));
                    assert forall|yy: int, xx: int|
                        #![trigger map@[yy]@[xx]]
                        0 <= yy < map@.len() && 0 <= xx < map@[yy]@.len()
                            && cell_walked(xx, yy, x + 1, y as int) && map@[yy]@[xx].room_type
                            != RoomType::Empty implies has_room_with(
                        state.rooms@,
                        map@[yy]@[xx].position,
                        initial_status(map@[yy]@[xx].room_type),
                    ) by {
                        if cell_walked(xx, yy, x as int, y as int) {
                            lemma_has_room_with_push(
                                pre_rooms,
                                r,
                                map@[yy]@[xx].position,
                                initial_status(map@[yy]@[xx].room_type),
                            );
                        }
                    }
                    assert forall|i: int|
                        0 <= i < state.doors@.len() implies !(#[trigger] state.doors@[i]).open
                        && has_room_at(state.rooms@, state.doors@[i].position) by {
                        if i < pre_doors.len() {
                            assert(!pre_doors[i].open && has_room_at(pre_rooms, pre_doors[i].position));
                            let w = room_index_of(pre_rooms, pre_doors[i].position);
                            assert(state.doors@[i] == pre_doors[i]);
                            assert(state.rooms@[w] == pre_rooms[w]);
                        } else {
                            assert(state.doors@[i].position == p && !state.doors@[i].open);
                        }
                    }
                    assert(map@[y as int]@[x as int] == *info);
                    assert(doors_of_row(map@[y as int]@, x + 1) == doors_of_row(
                        map@[y as int]@,
                        x as int,
                    ) + doors_for(*info));
                    assert(state.doors@ =~= doors_of_map(map@, y as int) + doors_of_row(
                        map@[y as int]@,
                        x + 1,
                    ));
                }
            } else {
                proof {
                    assert(doors_of_row(map@[y as int]@, x + 1) =~= doors_of_row(
                        map@[y as int]@,
                        x as int,
                    ));
                    assert forall|yy: int, xx: int|
                        #![trigger map@[yy]@[xx]]
                        0 <= yy < map@.len() && 0 <= xx < map@[yy]@.len()
                            && cell_walked(xx, yy, x + 1, y as int) && map@[yy]@[xx].room_type
                            != RoomType::Empty implies has_room_with(
                        state.rooms@,
                        map@[yy]@[xx].position,
                        initial_status(map@[yy]@[xx].room_type),
                    ) by {
                        assert(cell_walked(xx, yy, x as int, y as int));
                    }
                }
            }
            x = x + 1;
        }
        y = y + 1;
        proof {
            assert(doors_of_map(map@, y as int) == doors_of_map(map@, y - 1) + doors_of_row(
                map@[y - 1]@,
                map@[y - 1]@.len() as int,
            ));
            assert(state.doors@ =~= doors_of_map(map@, y as int));
            assert forall|yy: int, xx: int|
                #![trigger map@[yy]@[xx]]
                0 <= yy < map@.len() && 0 <= xx < map@[yy]@.len() && cell_walked(
                    xx,
                    yy,
                    0,
                    y as int,
                ) && map@[yy]@[xx].room_type != RoomType::Empty implies has_room_with(
                state.rooms@,
                map@[yy]@[xx].position,
                initial_status(map@[yy]@[xx].room_type),
            ) by {
                assert(cell_walked(xx, yy, map@[(y - 1) as int]@.len() as int, (y - 1) as int));
            }
        }
    }
}

/// A ghost snapshot of the live entity sets. The tick dispatcher's
/// contract pins its result as a fold of the per-signal transitions over
/// such snapshots.
pub struct StateModel {
    pub rooms: Seq<Room>,
    pub doors: Seq<Door>,
    pub enemies: Seq<Enemy>,
    pub spawners: Seq<Spawner>,
    pub next_enemy_id: u64,
}

/// One player-transition signal, exactly as `room_transit` performs it.
pub open spec fn transit_step(s: StateModel, ev: LeaveRoomEvent) -> (StateModel, Option<
    RoomFinishedEvent,
>) {
    let entered = has_room_at(s.rooms, ev.0) && status_at(s.rooms, ev.0) == RoomStatus::Closed;
    if entered && !enemy_remains(s.enemies, ev.0, None::<u64>) {
        (
            StateModel {
                rooms: rooms_after_enter(s.rooms, ev.0),
                doors: s.doors,
                enemies: s.enemies + spawned_enemies(s.spawners, ev.0, s.next_enemy_id),
                spawners: spawners_after_trigger(s.spawners, ev.0),
                next_enemy_id: (s.next_enemy_id + spawners_at(s.spawners, ev.0).len()) as u64,
            },
            if has_spawner_at(s.spawners, ev.0) {
                None::<RoomFinishedEvent>
            } else {
                Some(RoomFinishedEvent(ev.0))
            },
        )
    } else {
        (
            StateModel {
                rooms: rooms_after_enter(s.rooms, ev.0),
                doors: s.doors,
                enemies: s.enemies,
                spawners: s.spawners,
                next_enemy_id: s.next_enemy_id,
            },
            None::<RoomFinishedEvent>,
        )
    }
}

/// One enemy-death signal: the slain enemy despawns, then the room
/// finishes when it is Active and no enemy remains there.
pub open spec fn slain_step(s: StateModel, ev: EnemySlainEvent) -> (StateModel, Option<
    RoomFinishedEvent,
>) {
    let enemies2 = enemies_after_remove(s.enemies, ev.1);
    let emit = has_room_at(s.rooms, ev.0) && status_at(s.rooms, ev.0) == RoomStatus::Active
        && !enemy_remains(enemies2, ev.0, Some(ev.1));
    (
        StateModel {
            rooms: s.rooms,
            doors: s.doors,
            enemies: enemies2,
            spawners: s.spawners,
            next_enemy_id: s.next_enemy_id,
        },
        if emit {
            Some(RoomFinishedEvent(ev.0))
        } else {
            None::<RoomFinishedEvent>
        },
    )
}

/// One room-finished notification: the named room finishes and its doors
/// open.
pub open spec fn finish_step(s: StateModel, ev: RoomFinishedEvent) -> StateModel {
    StateModel {
        rooms: rooms_after_finish(s.rooms, ev.0),
        doors: doors_after_open(s.doors, ev.0),
        enemies: s.enemies,
        spawners: s.spawners,
        next_enemy_id: s.next_enemy_id,
    }
}

/// Drain the player-transition signals, first to last, collecting the
/// notifications they emit.
pub open spec fn transit_phase(
    s: StateModel,
    evs: Seq<LeaveRoomEvent>,
    acc: Seq<RoomFinishedEvent>,
) -> (StateModel, Seq<RoomFinishedEvent>)
    decreases evs.len(),
{
    if evs.len() == 0 {
        (s, acc)
    } else {
        let (s2, f) = transit_step(s, evs[0]);
        transit_phase(
            s2,
            evs.drop_first(),
            (match f {
                Some(x) => acc.push(x),
                None => acc,
            }),
        )
    }
}

/// Drain the enemy-death signals, first to last, collecting the
/// notifications they emit.
pub open spec fn slain_phase(
    s: StateModel,
    evs: Seq<EnemySlainEvent>,
    acc: Seq<RoomFinishedEvent>,
) -> (StateModel, Seq<RoomFinishedEvent>)
    decreases evs.len(),
{
    if evs.len() == 0 {
        (s, acc)
    } else {
        let (s2, f) = slain_step(s, evs[0]);
        slain_phase(
            s2,
            evs.drop_first(),
            (match f {
                Some(x) => acc.push(x),
                None => acc,
            }),
        )
    }
}

/// Apply the collected room-finished notifications, first to last.
pub open spec fn finish_phase(s: StateModel, evs: Seq<RoomFinishedEvent>) -> StateModel
    decreases evs.len(),
{
    if evs.len() == 0 {
        s
    } else {
        finish_phase(finish_step(s, evs[0]), evs.drop_first())
    }
}

/// What one whole tick does: the buffered player-transition signals are
/// drained in order, then the buffered enemy-death signals, and the
/// notifications they produced are applied to the rooms and the doors.
pub open spec fn tick_model(
    s: StateModel,
    leave: Seq<LeaveRoomEvent>,
    slain: Seq<EnemySlainEvent>,
) -> (StateModel, Seq<RoomFinishedEvent>) {
    let (s1, f1) = transit_phase(s, leave, Seq::empty());
    let (s2, f2) = slain_phase(s1, slain, f1);
    (finish_phase(s2, f2), f2)
}

proof fn lemma_transit_phase_snoc(
    s: StateModel,
    evs: Seq<LeaveRoomEvent>,
    acc: Seq<RoomFinishedEvent>,
    e: LeaveRoomEvent,
)
    ensures
        transit_phase(s, evs.push(e), acc) == ({
            let (s1, f1) = transit_phase(s, evs, acc);
            let (s2, f) = transit_step(s1, e);
            (
                s2,
                (match f {
                    Some(x) => f1.push(x),
                    None => f1,
                }),
            )
        }),
    decreases evs.len(),
{
    reveal_with_fuel(transit_phase, 3);
    if evs.len() == 0 {
        assert(evs.push(e)[0] == e);
        assert(evs.push(e).drop_first() =~= Seq::<LeaveRoomEvent>::empty());
    } else {
        assert(evs.push(e)[0] == evs[0]);
        assert(evs.push(e).drop_first() =~= evs.drop_first().push(e));
        let (s2, f) = transit_step(s, evs[0]);
        lemma_transit_phase_snoc(
            s2,
            evs.drop_first(),
            (match f {
                Some(x) => acc.push(x),
                None => acc,
            }),
            e,
        );
    }
}

proof fn lemma_slain_phase_snoc(
    s: StateModel,
    evs: Seq<EnemySlainEvent>,
    acc: Seq<RoomFinishedEvent>,
    e: EnemySlainEvent,
)
    ensures
        slain_phase(s, evs.push(e), acc) == ({
            let (s1, f1) = slain_phase(s, evs, acc);
            let (s2, f) = slain_step(s1, e);
            (
                s2,
                (match f {
                    Some(x) => f1.push(x),
                    None => f1,
                }),
            )
        }),
    decreases evs.len(),
{
    reveal_with_fuel(slain_phase, 3);
    if evs.len() == 0 {
        assert(evs.push(e)[0] == e);
        assert(evs.push(e).drop_first() =~= Seq::<EnemySlainEvent>::empty());
    } else {
        assert(evs.push(e)[0] == evs[0]);
        assert(evs.push(e).drop_first() =~= evs.drop_first().push(e));
        let (s2, f) = slain_step(s, evs[0]);
        lemma_slain_phase_snoc(
            s2,
            evs.drop_first(),
            (match f {
                Some(x) => acc.push(x),
                None => acc,
            }),
            e,
        );
    }
}

proof fn lemma_finish_phase_snoc(s: StateModel, evs: Seq<RoomFinishedEvent>, e: RoomFinishedEvent)
    ensures
        finish_phase(s, evs.push(e)) == finish_step(finish_phase(s, evs), e),
    decreases evs.len(),
{
    reveal_with_fuel(finish_phase, 3);
    if evs.len() == 0 {
        assert(evs.push(e)[0] == e);
        assert(evs.push(e).drop_first() =~= Seq::<RoomFinishedEvent>::empty());
    } else {
        assert(evs.push(e)[0] == evs[0]);
        assert(evs.push(e).drop_first() =~= evs.drop_first().push(e));
        lemma_finish_phase_snoc(finish_step(s, evs[0]), evs.drop_first(), e);
    }
}

/// Some notification of the tick names this coordinate.
pub open spec fn finished_contains(finished: Seq<RoomFinishedEvent>, pos: RoomPos) -> bool {
    exists|k: int| 0 <= k < finished.len() && (#[trigger] finished[k]).0 == pos
}

/// A same-length room set with the same coordinates and only advanced
/// statuses advances the status lookup of any present coordinate.
proof fn lemma_status_at_monotone(a: Seq<Room>, b: Seq<Room>, p: RoomPos)
    requires
        room_positions_unique(a),
        a.len() == b.len(),
        forall|i: int| 0 <= i < a.len() ==> (#[trigger] b[i]).position == a[i].position,
        forall|i: int| 0 <= i < a.len() ==> status_le(a[i].status, (#[trigger] b[i]).status),
        has_room_at(a, p),
    ensures
        has_room_at(b, p),
        status_le(status_at(a, p), status_at(b, p)),
{
    let w = room_index_of(a, p);
    assert(0 <= w < a.len() && a[w].position == p);
    lemma_room_index_unique(a, p, w);
    assert(b[w].position == p);
    assert forall|i: int, j: int|
        0 <= i < b.len() && 0 <= j < b.len() && i != j implies (#[trigger] b[i]).position != (
    #[trigger] b[j]).position by {
        assert(a[i].position != a[j].position);
    }
    assert(room_positions_unique(b));
    lemma_room_index_unique(b, p, w);
}

/// Entering a Closed room leaves it Active.
proof fn lemma_enter_status(rooms: Seq<Room>, pos: RoomPos)
    requires
        room_positions_unique(rooms),
        has_room_at(rooms, pos),
        status_at(rooms, pos) == RoomStatus::Closed,
    ensures
        has_room_at(rooms_after_enter(rooms, pos), pos),
        status_at(rooms_after_enter(rooms, pos), pos) == RoomStatus::Active,
{
    let w = room_index_of(rooms, pos);
    assert(0 <= w < rooms.len() && rooms[w].position == pos);
    lemma_room_index_unique(rooms, pos, w);
    let b = rooms_after_enter(rooms, pos);
    assert(b[w] == (Room { position: pos, status: RoomStatus::Active }));
    assert forall|i: int, j: int|
        0 <= i < b.len() && 0 <= j < b.len() && i != j implies (#[trigger] b[i]).position != (
    #[trigger] b[j]).position by {
        assert(rooms[i].position != rooms[j].position);
    }
    assert(room_positions_unique(b));
    lemma_room_index_unique(b, pos, w);
}

/// Finishing a room that is not Closed leaves it Finished.
proof fn lemma_finish_status(rooms: Seq<Room>, pos: RoomPos)
    requires
        room_positions_unique(rooms),
        has_room_at(rooms, pos),
        status_at(rooms, pos) != RoomStatus::Closed,
    ensures
        has_room_at(rooms_after_finish(rooms, pos), pos),
        status_at(rooms_after_finish(rooms, pos), pos) == RoomStatus::Finished,
{
    let w = room_index_of(rooms, pos);
    assert(0 <= w < rooms.len() && rooms[w].position == pos);
    lemma_room_index_unique(rooms, pos, w);
    let b = rooms_after_finish(rooms, pos);
    assert(b[w].position == pos && b[w].status == RoomStatus::Finished);
    assert forall|i: int, j: int|
        0 <= i < b.len() && 0 <= j < b.len() && i != j implies (#[trigger] b[i]).position != (
    #[trigger] b[j]).position by {
        assert(rooms[i].position != rooms[j].position);
    }
    assert(room_positions_unique(b));
    lemma_room_index_unique(b, pos, w);
}

/// Process one tick: drain the buffered player-transition signals, then
/// the buffered enemy-death signals, each exactly once and in the order
/// they were raised, and apply every room-finished notification they
/// produced to the lifecycle and the doors.
///
/// Over the whole tick, room statuses only advance, and a door ends open
/// exactly when it was open before or its room finished this tick; every
/// room named by a returned notification is Finished afterwards.
pub fn process_tick(
    state: &mut GameState,
    leave_events: &Vec<LeaveRoomEvent>,
    slain_events: &Vec<EnemySlainEvent>,
) -> (finished: Vec<RoomFinishedEvent>)
    requires
        old(state).wf(),
        old(state).next_enemy_id + old(state).spawners@.len() <= u64::MAX,
    ensures
        final(state).wf(),
        final(state).next_enemy_id + final(state).spawners@.len() <= old(state).next_enemy_id
            + old(state).spawners@.len(),
        final(state).rooms@.len() == old(state).rooms@.len(),
        forall|i: int|
            0 <= i < old(state).rooms@.len() ==> (#[trigger] final(state).rooms@[i]).position
                == old(state).rooms@[i].position,
        forall|i: int|
            0 <= i < old(state).rooms@.len() ==> status_le(
                old(state).rooms@[i].status,
                (#[trigger] final(state).rooms@[i]).status,
            ),
        final(state).doors@.len() == old(state).doors@.len(),
        forall|i: int|
            0 <= i < old(state).doors@.len() ==> {
                let d0 = old(state).doors@[i];
                let d1 = (#[trigger] final(state).doors@[i]);
                d1.position == d0.position && d1.direction == d0.direction && d1.open == (d0.open
                    || finished_contains(finished@, d0.position))
            },
        forall|k: int|
            0 <= k < finished@.len() ==> has_room_at(
                final(state).rooms@,
                (#[trigger] finished@[k]).0,
            ) && status_at(final(state).rooms@, finished@[k].0) == RoomStatus::Finished,
        ({
            let (m, f) = tick_model(old(state).model(), leave_events@, slain_events@);
            final(state).model() == m && finished@ == f
        }),
{
    let ghost rooms0 = state.rooms@;
    let ghost doors0 = state.doors@;
    let mut finished: Vec<RoomFinishedEvent> = Vec::new();

    // Drain the player-transition signals, in order
    let mut j: usize = 0;
    while j < leave_events.len()
        invariant
            0 <= j <= leave_events@.len(),
            ({
                let (m, f) = transit_phase(
                    old(state).model(),
                    leave_events@.take(j as int),
                    Seq::empty(),
                );
                state.model() == m && finished@ == f
            }),
            state.wf(),
            old(state).next_enemy_id + old(state).spawners@.len() <= u64::MAX,
            state.next_enemy_id + state.spawners@.len() <= old(state).next_enemy_id + old(
                state,
            ).spawners@.len(),
            state.rooms@.len() == rooms0.len(),
            forall|i: int|
                0 <= i < rooms0.len() ==> (#[trigger] state.rooms@[i]).position
                    == rooms0[i].position,
            forall|i: int|
                0 <= i < rooms0.len() ==> status_le(
                    rooms0[i].status,
                    (#[trigger] state.rooms@[i]).status,
                ),
            state.doors@ == doors0,
            forall|k: int|
                0 <= k < finished@.len() ==> has_room_at(state.rooms@, (#[trigger] finished@[k]).0)
                    && status_at(state.rooms@, finished@[k].0) != RoomStatus::Closed,
        decreases leave_events@.len() - j,
    {
        let ghost pre = state.rooms@;
        let ghost pre_model = state.model();
        let ghost pre_finished = finished@;
        let ev = &leave_events[j];
        let r = room_transit(state, ev);
        proof {
            lemma_enter_monotone(pre, ev.0);
            assert forall|i: int| 0 <= i < rooms0.len() implies status_le(
                rooms0[i].status,
                (#[trigger] state.rooms@[i]).status,
            ) by {
                lemma_status_le_trans(rooms0[i].status, pre[i].status, state.rooms@[i].status);
            }
            assert forall|k: int| 0 <= k < finished@.len() implies has_room_at(
                state.rooms@,
                (#[trigger] finished@[k]).0,
            ) && status_at(state.rooms@, finished@[k].0) != RoomStatus::Closed by {
                assert forall|i: int, j2: int|
                    0 <= i < pre.len() && 0 <= j2 < pre.len() && i != j2 implies (
                #[trigger] pre[i]).position != (#[trigger] pre[j2]).position by {
                    assert(rooms0[i].position != rooms0[j2].position);
                }
                lemma_status_at_monotone(pre, state.rooms@, finished@[k].0);
            }
        }
        if let Some(f) = r {
            proof {
                assert forall|i: int, j2: int|
                    0 <= i < pre.len() && 0 <= j2 < pre.len() && i != j2 implies (
                #[trigger] pre[i]).position != (#[trigger] pre[j2]).position by {
                    assert(rooms0[i].position != rooms0[j2].position);
                }
                lemma_enter_status(pre, ev.0);
            }
            finished.push(f);
        }
        proof {
            lemma_transit_phase_snoc(
                old(state).model(),
                leave_events@.take(j as int),
                Seq::empty(),
                *ev,
            );
            assert(leave_events@.take(j + 1) =~= leave_events@.take(j as int).push(*ev));
            assert(state.model() == transit_step(pre_model, *ev).0);
            assert(finished@ == (match transit_step(pre_model, *ev).1 {
                Some(x) => pre_finished.push(x),
                None => pre_finished,
            }));
        }
        j = j + 1;
    }

    proof {
        assert(leave_events@.take(leave_events@.len() as int) =~= leave_events@);
    }
    let ghost s1_model = state.model();
    let ghost f1_acc = finished@;

    // Drain the enemy-death signals, in order; the combat collaborator's
    // despawn of the slain enemy is applied first
    let mut j2: usize = 0;
    while j2 < slain_events.len()
        invariant
            0 <= j2 <= slain_events@.len(),
            ({
                let (m, f) = slain_phase(s1_model, slain_events@.take(j2 as int), f1_acc);
                state.model() == m && finished@ == f
            }),
            state.wf(),
            old(state).next_enemy_id + old(state).spawners@.len() <= u64::MAX,
            state.next_enemy_id + state.spawners@.len() <= old(state).next_enemy_id + old(
                state,
            ).spawners@.len(),
            state.rooms@.len() == rooms0.len(),
            forall|i: int|
                0 <= i < rooms0.len() ==> (#[trigger] state.rooms@[i]).position
                    == rooms0[i].position,
            forall|i: int|
                0 <= i < rooms0.len() ==> status_le(
                    rooms0[i].status,
                    (#[trigger] state.rooms@[i]).status,
                ),
            state.doors@ == doors0,
            forall|k: int|
                0 <= k < finished@.len() ==> has_room_at(state.rooms@, (#[trigger] finished@[k]).0)
                    && status_at(state.rooms@, finished@[k].0) != RoomStatus::Closed,
        decreases slain_events@.len() - j2,
    {
        let ghost pre_model = state.model();
        let ghost pre_finished = finished@;
        let ev = &slain_events[j2];
        remove_enemy(state, ev.1);
        let r = enemy_slain(state, ev);
        if let Some(f) = r {
            finished.push(f);
        }
        proof {
            lemma_slain_phase_snoc(s1_model, slain_events@.take(j2 as int), f1_acc, *ev);
            assert(slain_events@.take(j2 + 1) =~= slain_events@.take(j2 as int).push(*ev));
            assert(state.model() == slain_step(pre_model, *ev).0);
            assert(finished@ == (match slain_step(pre_model, *ev).1 {
                Some(x) => pre_finished.push(x),
                None => pre_finished,
            }));
        }
        j2 = j2 + 1;
    }

    proof {
        assert(slain_events@.take(slain_events@.len() as int) =~= slain_events@);
    }
    let ghost s2_model = state.model();

    // Apply the room-finished notifications: finish each named room and
    // open its doors
    let ghost rooms1 = state.rooms@;
    let ghost all_finished = finished@;
    let mut k: usize = 0;
    while k < finished.len()
        invariant
            0 <= k <= all_finished.len(),
            finished@ == all_finished,
            state.model() == finish_phase(s2_model, all_finished.take(k as int)),
            state.wf(),
            old(state).next_enemy_id + old(state).spawners@.len() <= u64::MAX,
            state.next_enemy_id + state.spawners@.len() <= old(state).next_enemy_id + old(
                state,
            ).spawners@.len(),
            state.rooms@.len() == rooms0.len(),
            rooms1.len() == rooms0.len(),
            forall|i: int|
                0 <= i < rooms0.len() ==> (#[trigger] state.rooms@[i]).position
                    == rooms0[i].position,
            forall|i: int|
                0 <= i < rooms0.len() ==> (#[trigger] rooms1[i]).position == rooms0[i].position,
            forall|i: int|
                0 <= i < rooms0.len() ==> status_le(
                    rooms0[i].status,
                    (#[trigger] state.rooms@[i]).status,
                ),
            forall|i: int|
                0 <= i < rooms0.len() ==> status_le(
                    rooms1[i].status,
                    (#[trigger] state.rooms@[i]).status,
                ),
            state.doors@.len() == doors0.len(),
            forall|i: int|
                0 <= i < doors0.len() ==> {
                    let d0 = doors0[i];
                    let d1 = (#[trigger] state.doors@[i]);
                    d1.position == d0.position && d1.direction == d0.direction && d1.open == (
                    d0.open || finished_contains(all_finished.take(k as int), d0.position))
                },
            forall|l: int|
                0 <= l < all_finished.len() ==> has_room_at(
                    state.rooms@,
                    (#[trigger] all_finished[l]).0,
                ) && status_at(state.rooms@, all_finished[l].0) != RoomStatus::Closed,
            forall|l: int|
                0 <= l < k ==> status_at(state.rooms@, (#[trigger] all_finished[l]).0)
                    == RoomStatus::Finished,
        decreases all_finished.len() - k,
    {
        let ghost pre = state.rooms@;
        let ghost pre_model = state.model();
        let f = finished[k];
        finished_room(state, &f);
        proof {
            lemma_finish_monotone(pre, f.0);
            assert forall|i: int| 0 <= i < rooms0.len() implies status_le(
                rooms0[i].status,
                (#[trigger] state.rooms@[i]).status,
            ) by {
                lemma_status_le_trans(rooms0[i].status, pre[i].status, state.rooms@[i].status);
            }
            assert forall|i: int| 0 <= i < rooms0.len() implies status_le(
                rooms1[i].status,
                (#[trigger] state.rooms@[i]).status,
            ) by {
                lemma_status_le_trans(rooms1[i].status, pre[i].status, state.rooms@[i].status);
            }
            assert forall|i: int, j3: int|
                0 <= i < pre.len() && 0 <= j3 < pre.len() && i != j3 implies (
            #[trigger] pre[i]).position != (#[trigger] pre[j3]).position by {
                assert(rooms0[i].position != rooms0[j3].position);
            }
            assert forall|l: int| 0 <= l < all_finished.len() implies has_room_at(
                state.rooms@,
                (#[trigger] all_finished[l]).0,
            ) && status_at(state.rooms@, all_finished[l].0) != RoomStatus::Closed by {
                lemma_status_at_monotone(pre, state.rooms@, all_finished[l].0);
            }
            assert forall|l: int| 0 <= l < k + 1 implies status_at(
                state.rooms@,
                (#[trigger] all_finished[l]).0,
            ) == RoomStatus::Finished by {
                if l < k {
                    lemma_status_at_monotone(pre, state.rooms@, all_finished[l].0);
                } else {
                    lemma_finish_status(pre, f.0);
                }
            }
        }
        let ghost pre_doors = state.doors@;
        open_doors(state, &f);
        proof {
            assert forall|i: int| 0 <= i < doors0.len() implies {
                let d0 = doors0[i];
                let d1 = (#[trigger] state.doors@[i]);
                d1.position == d0.position && d1.direction == d0.direction && d1.open == (d0.open
                    || finished_contains(all_finished.take(k + 1), d0.position))
            } by {
                assert(state.doors@[i] == (if pre_doors[i].position == f.0 {
                    Door {
                        position: pre_doors[i].position,
                        direction: pre_doors[i].direction,
                        open: true,
                    }
                } else {
                    pre_doors[i]
                }));
                assert(all_finished.take(k + 1)[k as int] == f);
                if finished_contains(all_finished.take(k as int), doors0[i].position) {
                    let w = choose|l: int|
                        0 <= l < k && (#[trigger] all_finished.take(k as int)[l]).0
                            == doors0[i].position;
                    assert(all_finished.take(k + 1)[w] == all_finished[w]);
                }
                if finished_contains(all_finished.take(k + 1), doors0[i].position) && doors0[i].position != f.0 {
                    let w = choose|l: int|
                        0 <= l < k + 1 && (#[trigger] all_finished.take(k + 1)[l]).0
                            == doors0[i].position;
                    assert(w < k);
                    assert(all_finished.take(k as int)[w] == all_finished[w]);
                }
            }
        }
        proof {
            lemma_finish_phase_snoc(s2_model, all_finished.take(k as int), f);
            assert(all_finished.take(k + 1) =~= all_finished.take(k as int).push(f));
            assert(state.model() == finish_step(pre_model, f));
        }
        k = k + 1;
    }
    proof {
        assert(all_finished.take(all_finished.len() as int) =~= all_finished);
    }
    finished
}

/// Lifecycle monotonicity law, player-entry step: entering a room keeps
/// every room's coordinate and only ever advances a status.
pub proof fn lemma_enter_monotone(rooms: Seq<Room>, pos: RoomPos)
    ensures
        rooms_after_enter(rooms, pos).len() == rooms.len(),
        forall|i: int|
            0 <= i < rooms.len() ==> (#[trigger] rooms_after_enter(rooms, pos)[i]).position
                == rooms[i].position,
        forall|i: int|
            0 <= i < rooms.len() ==> status_le(
                rooms[i].status,
                (#[trigger] rooms_after_enter(rooms, pos)[i]).status,
            ),
{
}

/// Lifecycle monotonicity law, finish step: finishing a room keeps every
/// room's coordinate and only ever advances a status.
pub proof fn lemma_finish_monotone(rooms: Seq<Room>, pos: RoomPos)
    ensures
        rooms_after_finish(rooms, pos).len() == rooms.len(),
        forall|i: int|
            0 <= i < rooms.len() ==> (#[trigger] rooms_after_finish(rooms, pos)[i]).position
                == rooms[i].position,
        forall|i: int|
            0 <= i < rooms.len() ==> status_le(
                rooms[i].status,
                (#[trigger] rooms_after_finish(rooms, pos)[i]).status,
            ),
{
}

} // verus!
