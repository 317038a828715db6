//! Mob kinds and their per-kind behaviour tables; perception records and the
//! per-tick sensing, forgetting and movement-resolution logic.

use vstd::prelude::*;
use crate::geometry::{Pos, cardinal_adjacent, chebyshev, manhattan};
use crate::grid::CellSet;

verus! {

/// Search horizon for mob pathfinding.
pub const MAX_PATH: i32 = 100;

/// A hider chases a remembered target only within this distance.
pub const HIDER_CHASE_DISTANCE: i64 = 5;

/// Cells a charger overshoots past its target.
pub const KOOL_AID_OVERSHOOT: usize = 4;

/// Milliseconds before an unrefreshed memory is dropped.
pub const FORGET_DURATION_MS: u64 = 30_000;

/// Chebyshev radius within which a noise is heard.
pub const HEARING_RADIUS: i32 = 20;

/// The closed set of mob kinds.
#[derive(Clone, Copy, Debug, PartialEq, Eq, Structural)]
pub enum MobKind {
    Zombie,
    Sculpture,
    Hider,
    KoolAidMan,
    Wraith,
    Eyeball,
}

/// Milliseconds between two moves of a mob of this kind.
pub open spec fn spec_move_delay_ms(k: MobKind) -> u64 {
    match k {
        MobKind::Zombie => 1000,
        MobKind::Sculpture => 16,
        MobKind::Hider => 200,
        MobKind::KoolAidMan => 100,
        MobKind::Wraith => 300,
        MobKind::Eyeball => 1000,
    }
}

/// Damage at which a mob of this kind dies.
pub open spec fn spec_max_damage(k: MobKind) -> i32 {
    match k {
        MobKind::Zombie => 3,
        MobKind::Sculpture => 99,
        MobKind::Hider => 2,
        MobKind::KoolAidMan => 5,
        MobKind::Wraith => 2,
        MobKind::Eyeball => 99,
    }
}

impl MobKind {
    pub fn get_move_delay_ms(&self) -> (r: u64)
        ensures
            r == spec_move_delay_ms(*self),
    {
        match self {
            MobKind::Zombie => 1000,
            MobKind::Sculpture => 16,
            MobKind::Hider => 200,
            MobKind::KoolAidMan => 100,
            MobKind::Wraith => 300,
            MobKind::Eyeball => 1000,
        }
    }

    pub fn max_damage(&self) -> (r: i32)
        ensures
            r == spec_max_damage(*self),
    {
        match self {
            MobKind::Zombie => 3,
            MobKind::Sculpture => 99,
            MobKind::Hider => 2,
            MobKind::KoolAidMan => 5,
            MobKind::Wraith => 2,
            MobKind::Eyeball => 99,
        }
    }
}


/// A remembered sighting or sound: the position and how long ago it was
/// sensed.
#[derive(Clone, Copy, Debug, PartialEq, Eq, Structural)]
pub struct Memory {
    pub pos: Pos,
    pub elapsed_ms: u64,
}

/// The charger's two-state machine: resting on a timer, or following a
/// precomputed straight-line path.
pub enum ChargeState {
    Resting { timer_ms: u64 },
    Moving { path: Vec<Pos> },
}

/// A mob's full per-entity state.
pub struct Mob {
    pub kind: MobKind,
    pub pos: Pos,
    pub move_timer_ms: u64,
    pub damage: i32,
    pub saw: Option<Memory>,
    pub heard: Option<Memory>,
    pub charge: Option<ChargeState>,
}

/// What one movement resolution decided.
#[derive(Clone, Copy, Debug, PartialEq, Eq, Structural)]
pub enum MobAction {
    Wait,
    Move { to: Pos, bust: bool },
    Attack,
}

impl Mob {
    pub fn new(kind: MobKind, pos: Pos) -> (r: Mob)
        ensures
            r.kind == kind,
            r.pos == pos,
            r.damage == 0,
            r.saw is None,
            r.heard is None,
            r.move_timer_ms == 0,
            kind == MobKind::KoolAidMan <==> r.charge is Some,
    {
        Mob {
            kind,
            pos,
            move_timer_ms: 0,
            damage: 0,
            saw: None,
            heard: None,
            charge: if kind == MobKind::KoolAidMan {
                Some(ChargeState::Resting { timer_ms: 0 })
            } else {
                None
            },
        }
    }
}

/// The sight sensor's result: a fresh memory of the player when the mob's
/// cell is player-visible and the player is not itself hidden; a fresh memory
/// of the player's destination when a watched player steps away from the
/// remembered cell in view; otherwise the old memory.
pub open spec fn sight_update(
    cur: Option<Memory>,
    mob_pos: Pos,
    player_pos: Pos,
    visibility: Set<Pos>,
    sight_blocked: Set<Pos>,
    last_move: Option<(Pos, Pos)>,
) -> Option<Memory> {
    if visibility.contains(mob_pos) && !sight_blocked.contains(player_pos) {
        Some(Memory { pos: player_pos, elapsed_ms: 0 })
    } else {
        match (last_move, cur) {
            (Some((source, dest)), Some(mem)) => {
                if mem.pos == source && visibility.contains(mob_pos) {
                    Some(Memory { pos: dest, elapsed_ms: 0 })
                } else {
                    cur
                }
            },
            _ => cur,
        }
    }
}

/// Run the sight sensor for one mob: visibility is symmetric-gated (a hidden
/// player is never acquired), and a player seen stepping out of the
/// remembered cell drags the memory along.
pub fn sense_sight(
    mob: &mut Mob,
    player_pos: Pos,
    player_visibility: &CellSet,
    sight_blocked: &CellSet,
    last_move: Option<(Pos, Pos)>,
)
    ensures
        final(mob).saw == sight_update(
            old(mob).saw,
            old(mob).pos,
            player_pos,
            player_visibility.cells(),
            sight_blocked.cells(),
            last_move,
        ),
        final(mob).kind == old(mob).kind,
        final(mob).pos == old(mob).pos,
        final(mob).heard == old(mob).heard,
        final(mob).damage == old(mob).damage,
        final(mob).move_timer_ms == old(mob).move_timer_ms,
{
    let sees = player_visibility.contains(mob.pos);
    let hidden = sight_blocked.contains(player_pos);
    if sees && !hidden {
        mob.saw = Some(Memory { pos: player_pos, elapsed_ms: 0 });
    } else if let Some((source, dest)) = last_move {
        if let Some(mem) = mob.saw {
            if mem.pos == source && sees {
                mob.saw = Some(Memory { pos: dest, elapsed_ms: 0 });
            }
        }
    }
}

/// Run the hearing sensor: a noise within the hearing radius leaves a fresh
/// memory of its origin, with no line-of-sight requirement.
pub fn sense_hearing(mob: &mut Mob, noise: Pos)
    ensures
        chebyshev(noise, old(mob).pos) <= HEARING_RADIUS ==> final(mob).heard == Some(
            Memory { pos: noise, elapsed_ms: 0 },
        ),
        chebyshev(noise, old(mob).pos) > HEARING_RADIUS ==> final(mob).heard == old(mob).heard,
        final(mob).kind == old(mob).kind,
        final(mob).pos == old(mob).pos,
        final(mob).saw == old(mob).saw,
        final(mob).damage == old(mob).damage,
        final(mob).move_timer_ms == old(mob).move_timer_ms,
{
    let dx: i64 = (noise.x as i64) - (mob.pos.x as i64);
    let dy: i64 = (noise.y as i64) - (mob.pos.y as i64);
    let ax: i64 = if dx >= 0 { dx } else { -dx };
    let ay: i64 = if dy >= 0 { dy } else { -dy };
    let cheb: i64 = if ax >= ay { ax } else { ay };
    if cheb <= HEARING_RADIUS as i64 {
        mob.heard = Some(Memory { pos: noise, elapsed_ms: 0 });
    }
}

/// One forgetting step for a memory: age it by the elapsed time; drop it when
/// the mob stands on the remembered cell (nothing left to investigate) or the
/// forget duration has passed, whichever comes first.
pub open spec fn forget_update(mem: Option<Memory>, mob_pos: Pos, delta_ms: u64) -> Option<
    Memory,
> {
    match mem {
        None => None,
        Some(m) => {
            if mob_pos == m.pos || m.elapsed_ms + delta_ms > FORGET_DURATION_MS {
                None
            } else {
                Some(Memory { pos: m.pos, elapsed_ms: (m.elapsed_ms + delta_ms) as u64 })
            }
        },
    }
}

fn tick_memory(mem: Option<Memory>, mob_pos: Pos, delta_ms: u64) -> (r: Option<Memory>)
    ensures
        r == forget_update(mem, mob_pos, delta_ms),
{
    match mem {
        None => None,
        Some(m) => {
            if mob_pos == m.pos {
                None
            } else if delta_ms > FORGET_DURATION_MS || m.elapsed_ms > FORGET_DURATION_MS - delta_ms
            {
                None
            } else {
                Some(Memory { pos: m.pos, elapsed_ms: m.elapsed_ms + delta_ms })
            }
        },
    }
}

/// Age both memories of a mob by the tick's elapsed time.
pub fn forget(mob: &mut Mob, delta_ms: u64)
    ensures
        final(mob).saw == forget_update(old(mob).saw, old(mob).pos, delta_ms),
        final(mob).heard == forget_update(old(mob).heard, old(mob).pos, delta_ms),
        final(mob).kind == old(mob).kind,
        final(mob).pos == old(mob).pos,
        final(mob).damage == old(mob).damage,
        final(mob).move_timer_ms == old(mob).move_timer_ms,
{
    mob.saw = tick_memory(mob.saw, mob.pos, delta_ms);
    mob.heard = tick_memory(mob.heard, mob.pos, delta_ms);
}

/// A memory left to age through a sequence of forgetting steps.
pub open spec fn run_forget(mem: Option<Memory>, mob_pos: Pos, deltas: Seq<u64>) -> Option<Memory>
    decreases deltas.len(),
{
    if deltas.len() == 0 {
        mem
    } else {
        run_forget(forget_update(mem, mob_pos, deltas[0]), mob_pos, deltas.skip(1))
    }
}

pub open spec fn sum_deltas(deltas: Seq<u64>) -> int
    decreases deltas.len(),
{
    if deltas.len() == 0 {
        0
    } else {
        deltas[0] + sum_deltas(deltas.skip(1))
    }
}

proof fn lemma_run_forget_none(mob_pos: Pos, deltas: Seq<u64>)
    ensures
        run_forget(None, mob_pos, deltas) is None,
    decreases deltas.len(),
{
    if deltas.len() > 0 {
        lemma_run_forget_none(mob_pos, deltas.skip(1));
    }
}

/// Memory forgetting: a record whose age plus the coming ticks' total time
/// exceeds the forget duration is gone after those ticks, whatever the mob's
/// position, as long as no sense event refreshes it in between.
pub proof fn lemma_memory_forgotten(mem: Memory, mob_pos: Pos, deltas: Seq<u64>)
    requires
        deltas.len() >= 1,
        mem.elapsed_ms + sum_deltas(deltas) > FORGET_DURATION_MS,
    ensures
        run_forget(Some(mem), mob_pos, deltas) is None,
    decreases deltas.len(),
{
    let next = forget_update(Some(mem), mob_pos, deltas[0]);
    if next is None {
        lemma_run_forget_none(mob_pos, deltas.skip(1));
    } else {
        let m2 = next->Some_0;
        assert(m2.elapsed_ms == mem.elapsed_ms + deltas[0]);
        assert(m2.elapsed_ms <= FORGET_DURATION_MS);
        if deltas.skip(1).len() == 0 {
            assert(sum_deltas(deltas.skip(1)) == 0);
            assert(false);
        } else {
            lemma_memory_forgotten(m2, mob_pos, deltas.skip(1));
        }
    }
}

/// Relies on line_drawing::WalkGrid: a grid walk from the start point to the
/// end point taking only orthogonal unit steps, both endpoints included, so
/// it yields exactly one more point than the Manhattan distance.
#[verifier::external_body]
fn walk_grid_line(a: Pos, b: Pos) -> (r: Vec<Pos>)
    requires
        a.in_bounds(),
        b.in_bounds(),
    ensures
        r@.len() == manhattan(a, b) + 1,
        r@[0] == a,
        r@.last() == b,
        forall|i: int| 1 <= i < r@.len() ==> cardinal_adjacent(r@[i - 1], #[trigger] r@[i]),
{
    line_drawing::WalkGrid::new((a.x, a.y), (b.x, b.y))
        .map(|xy: (i32, i32)| Pos { x: xy.0, y: xy.1 })
        .collect()
}

fn clamp_coord(v: i64) -> (r: i32)
    ensures
        -1_000_000 <= r <= 1_000_000,
{
    if v < -1_000_000 {
        -1_000_000
    } else if v > 1_000_000 {
        1_000_000
    } else {
        v as i32
    }
}

/// The charger's straight run: the line to the target extended a few cells
/// past it, coordinates clamped to the coordinate range.
fn charge_path(from: Pos, target: Pos) -> (r: Vec<Pos>)
    requires
        from.in_bounds(),
        target.in_bounds(),
    ensures
        r@.len() >= 1,
        r@[0] == from,
{
    let mut line = walk_grid_line(from, target);
    let over = Pos {
        x: clamp_coord(2 * (target.x as i64) - (from.x as i64)),
        y: clamp_coord(2 * (target.y as i64) - (from.y as i64)),
    };
    let ext = walk_grid_line(target, over);
    let mut k: usize = 1;
    while k < ext.len() && k <= KOOL_AID_OVERSHOOT
        invariant
            line@.len() >= 1,
            line@[0] == from,
        decreases ext@.len() - k,
    {
        line.push(ext[k]);
        k = k + 1;
    }
    line
}

/// The position a mob's memories point at: the sight memory first, else the
/// sound memory.
pub open spec fn remembered_target(mob: Mob) -> Option<Pos> {
    match (mob.saw, mob.heard) {
        (Some(m), _) => Some(m.pos),
        (None, Some(m)) => Some(m.pos),
        (None, None) => None,
    }
}

/// Whether a hider chases its memory: the remembered cell is in range and
/// within the chase distance of the mob.
pub open spec fn hider_chases(mob: Mob) -> bool {
    match remembered_target(mob) {
        Some(t) => t.in_bounds() && crate::geometry::dist_sq(t, mob.pos) <= HIDER_CHASE_DISTANCE
            * HIDER_CHASE_DISTANCE,
        None => false,
    }
}

/// Where a mob wants to go this tick: the most recent sight memory, else the
/// most recent sound memory; a hider only chases a nearby memory and
/// otherwise flees toward a nearest reachable cover cell.
pub fn select_target(
    mob: &Mob,
    walk_blocked: &CellSet,
    sight_blocked: &CellSet,
) -> (r: Option<Pos>)
    requires
        mob.pos.in_bounds(),
    ensures
        mob.kind != MobKind::Hider ==> r == remembered_target(*mob),
        mob.kind == MobKind::Hider && hider_chases(*mob) ==> r == remembered_target(*mob),
        mob.kind == MobKind::Hider && !hider_chases(*mob) ==> {
            &&& (r matches Some(p) ==> sight_blocked.cells().contains(p) && crate::pathfind::hide_reachable(
                walk_blocked.cells(),
                mob.pos,
                p,
            ) && crate::pathfind::nearest_hidden(
                p,
                mob.pos,
                walk_blocked.cells(),
                sight_blocked.cells(),
            ))
            &&& (sight_blocked.cells().contains(mob.pos) ==> r == Some(mob.pos))
        },
{
    let remembered: Option<Pos> = match (mob.saw, mob.heard) {
        (Some(m), _) => Some(m.pos),
        (None, Some(m)) => Some(m.pos),
        (None, None) => None,
    };
    match mob.kind {
        MobKind::Hider => {
            let near = match remembered {
                Some(p) => {
                    if crate::pathfind::in_bounds_exec(p) {
                        crate::geometry::dist_squared(p, mob.pos) <= HIDER_CHASE_DISTANCE
                            * HIDER_CHASE_DISTANCE
                    } else {
                        false
                    }
                },
                None => false,
            };
            if near {
                remembered
            } else {
                crate::pathfind::find_hiding_spot(mob.pos, walk_blocked, sight_blocked)
            }
        },
        _ => remembered,
    }
}

/// Resolve one movement tick for a mob, per its kind's policy. On its move
/// timer elapsing the mob takes one path step toward its target (chargers
/// follow a straight run that ignores walls and busts them), reserves the
/// destination cell against same-tick collisions, or attacks when the step
/// would land on the player.
pub fn mob_tick(
    mob: &mut Mob,
    player_pos: Pos,
    walk_blocked: &mut CellSet,
    sight_blocked: &CellSet,
    fov: &CellSet,
    flashlight: &CellSet,
    delta_ms: u64,
) -> (action: MobAction)
    requires
        old(mob).pos.in_bounds(),
        player_pos.in_bounds(),
    ensures
        final(mob).kind == old(mob).kind,
        final(mob).pos.in_bounds(),
        action matches MobAction::Move { to, bust } ==> {
            &&& final(mob).pos == to
            &&& to != player_pos
            &&& (!bust ==> cardinal_adjacent(old(mob).pos, to))
            &&& (bust ==> old(mob).charge is Some)
            &&& (old(mob).kind == MobKind::Sculpture ==> !fov.cells().contains(to)
                && !fov.cells().contains(old(mob).pos))
            &&& final(walk_blocked).cells() == old(walk_blocked).cells().insert(to)
        },
        !(action is Move) ==> final(mob).pos == old(mob).pos && final(walk_blocked).cells() == old(
            walk_blocked,
        ).cells(),
        action is Attack ==> old(mob).kind != MobKind::Sculpture || !fov.cells().contains(
            old(mob).pos,
        ),
        (final(mob).charge is Some) == (old(mob).charge is Some),
        old(mob).move_timer_ms + delta_ms < spec_move_delay_ms(old(mob).kind) ==> action
            == MobAction::Wait && final(mob).move_timer_ms == old(mob).move_timer_ms + delta_ms
            && final(mob).saw == old(mob).saw && final(mob).heard == old(mob).heard
            && final(mob).charge == old(mob).charge,
        forall|t: Pos|
            old(mob).kind != MobKind::Hider && old(mob).kind != MobKind::Sculpture && old(
                mob,
            ).charge is None && old(mob).move_timer_ms + delta_ms >= spec_move_delay_ms(
                old(mob).kind,
            ) && remembered_target(*old(mob)) == Some(t) && t != old(mob).pos && t.in_bounds() && (
            exists|p: Seq<Pos>|
                crate::pathfind::valid_path(
                    p,
                    old(mob).pos,
                    t,
                    MAX_PATH as int,
                    old(walk_blocked).cells(),
                )) ==> !(action is Wait),
{
    let delay = mob.kind.get_move_delay_ms();
    let timer = if mob.move_timer_ms > 1_000_000_000 {
        1_000_000_001
    } else if delta_ms > 1_000_000_000 {
        1_000_000_001
    } else {
        mob.move_timer_ms + delta_ms
    };
    mob.move_timer_ms = timer;
    if timer < delay {
        return MobAction::Wait;
    }
    let mut target: Option<Pos> = select_target(mob, walk_blocked, sight_blocked);
    let mut bust_through_walls = false;
    // The charger alternates resting and a straight-line run.
    match mob.charge.take() {
        None => {},
        Some(ChargeState::Moving { path }) => {
            bust_through_walls = true;
            if path.len() == 0 {
                mob.charge = Some(ChargeState::Resting { timer_ms: 0 });
                target = None;
            } else {
                target = Some(path[0]);
                mob.charge = Some(ChargeState::Moving { path });
            }
        },
        Some(ChargeState::Resting { timer_ms }) => {
            bust_through_walls = true;
            let t = if timer_ms > 1_000_000_000 {
                1_000_000_001
            } else if delta_ms > 1_000_000_000 {
                1_000_000_001
            } else {
                timer_ms + delta_ms
            };
            if t >= 1000 {
                if let Some(p) = target {
                    if crate::pathfind::in_bounds_exec(p) {
                        let run = charge_path(mob.pos, p);
                        mob.charge = Some(ChargeState::Moving { path: run });
                    } else {
                        mob.charge = Some(ChargeState::Resting { timer_ms: t });
                    }
                } else {
                    mob.charge = Some(ChargeState::Resting { timer_ms: t });
                }
            } else {
                mob.charge = Some(ChargeState::Resting { timer_ms: t });
            }
            target = None;
        },
    }
    let target = match target {
        None => {
            return MobAction::Wait;
        },
        Some(t) => t,
    };
    if !(-1_000_000 <= target.x && target.x <= 1_000_000 && -1_000_000 <= target.y && target.y
        <= 1_000_000) {
        return MobAction::Wait;
    }
    let avoid_player_sight = match mob.kind {
        MobKind::Sculpture => true,
        _ => false,
    };
    let empty = CellSet::new();
    let move_pos: Option<Pos> = if bust_through_walls {
        Some(target)
    } else {
        let fov_or_empty: &CellSet = if avoid_player_sight {
            fov
        } else {
            &empty
        };
        match crate::pathfind::path(mob.pos, target, MAX_PATH, walk_blocked, fov_or_empty,
            flashlight) {
            Some(p) => {
                if p.len() >= 2 {
                    proof {
                        assert(crate::pathfind::step_ok(
                            p@[0],
                            p@[1],
                            target,
                            MAX_PATH as int,
                            walk_blocked.cells(),
                        ));
                    }
                    Some(p[1])
                } else {
                    None
                }
            },
            None => None,
        }
    };
    let move_pos = match move_pos {
        None => {
            return MobAction::Wait;
        },
        Some(m) => m,
    };
    if move_pos != player_pos {
        let sculpture_watched = avoid_player_sight && (fov.contains(move_pos) || fov.contains(
            mob.pos,
        ));
        if !sculpture_watched {
            if move_pos.x < -1_000_000 || move_pos.x > 1_000_000 || move_pos.y < -1_000_000
                || move_pos.y > 1_000_000 {
                return MobAction::Wait;
            }
            walk_blocked.insert(move_pos);
            mob.pos = move_pos;
            if bust_through_walls {
                if let Some(ChargeState::Moving { path }) = &mut mob.charge {
                    if path.len() > 0 {
                        path.remove(0);
                    }
                }
            }
            mob.move_timer_ms = 0;
            return MobAction::Move { to: move_pos, bust: bust_through_walls };
        }
        MobAction::Wait
    } else {
        if !(avoid_player_sight && fov.contains(mob.pos)) {
            mob.move_timer_ms = 0;
            return MobAction::Attack;
        }
        MobAction::Wait
    }
}

/// The ten-by-ten square around a cell, where reinforcements may appear.
pub open spec fn spec_spawn_square(c: Pos) -> crate::geometry::Rect {
    crate::geometry::Rect {
        x1: (c.x - 5) as i32,
        y1: (c.y - 5) as i32,
        x2: (c.x + 4) as i32,
        y2: (c.y + 4) as i32,
    }
}

fn spawn_square(c: Pos) -> (r: crate::geometry::Rect)
    requires
        -500_000 <= c.x <= 500_000,
        -500_000 <= c.y <= 500_000,
    ensures
        r == spec_spawn_square(c),
        r.wf(),
{
    crate::geometry::Rect { x1: c.x - 5, y1: c.y - 5, x2: c.x + 4, y2: c.y + 4 }
}

/// A cell near a noise where a charger reinforcement can appear unseen: a
/// random cell of the square around the noise that the player cannot see.
/// Nothing is returned when the player sees the whole square.
pub fn pick_spawn_cell(
    origin: Pos,
    player_visibility: &CellSet,
    rng: &mut rand::rngs::ThreadRng,
) -> (r: Option<Pos>)
    requires
        -500_000 <= origin.x <= 500_000,
        -500_000 <= origin.y <= 500_000,
    ensures
        r matches Some(p) ==> !player_visibility.cells().contains(p),
        r is None ==> forall|p: Pos|
            spec_spawn_square(origin).spec_contains(p) ==> player_visibility.cells().contains(p),
{
    let square = spawn_square(origin);
    let cells = square.cells();
    let mut legal: Vec<Pos> = Vec::new();
    let mut i: usize = 0;
    while i < cells.len()
        invariant
            i <= cells@.len(),
            forall|q: Pos| square.spec_contains(q) ==> cells@.contains(q),
            forall|a: int|
                0 <= a < legal@.len() ==> !player_visibility.cells().contains(
                    #[trigger] legal@[a],
                ),
            forall|t: int|
                0 <= t < i && !player_visibility.cells().contains(#[trigger] cells@[t])
                    ==> legal@.contains(cells@[t]),
        decreases cells@.len() - i,
    {
        let p = cells[i];
        if !player_visibility.contains(p) {
            let ghost l0 = legal@;
            legal.push(p);
            proof {
                assert(legal@[legal@.len() - 1] == p);
                assert forall|t: int|
                    0 <= t < i + 1 && !player_visibility.cells().contains(
                        #[trigger] cells@[t],
                    ) implies legal@.contains(cells@[t]) by {
                    if t < i && !player_visibility.cells().contains(cells@[t]) {
                        let u = choose|u: int| 0 <= u < l0.len() && l0[u] == cells@[t];
                        assert(legal@[u] == cells@[t]);
                    }
                }
            }
        }
        i = i + 1;
    }
    if legal.len() == 0 {
        proof {
            assert forall|p: Pos|
                spec_spawn_square(origin).spec_contains(p) implies player_visibility
                .cells().contains(p) by {
                assert(cells@.contains(p));
                let t = choose|t: int| 0 <= t < cells@.len() && cells@[t] == p;
            }
        }
        None
    } else {
        Some(legal[crate::rng::rand_index(rng, legal.len())])
    }
}

/// Apply damage to a mob; it dies when the total reaches its kind's
/// threshold.
pub fn damage_mob(mob: &mut Mob, damage: i32) -> (dead: bool)
    requires
        0 <= damage,
        old(mob).damage >= 0,
    ensures
        final(mob).kind == old(mob).kind,
        final(mob).pos == old(mob).pos,
        old(mob).damage + damage <= i32::MAX ==> final(mob).damage == old(mob).damage + damage,
        dead == (final(mob).damage >= spec_max_damage(final(mob).kind)),
{
    if mob.damage > i32::MAX - damage {
        mob.damage = i32::MAX;
    } else {
        mob.damage = mob.damage + damage;
    }
    mob.damage >= mob.kind.max_damage()
}

} // verus!
