//! The world model of the soccer-field simulation: players, the ball, and
//! the physics rule applied once per tick.
//!
//! Positions are whole field units, always clamped to the playable area.
//! Velocities are kept in milli-units per tick (fixed-point with a scale of
//! 1000), so the whole physics step is exact integer arithmetic.  The spec
//! functions in this module are the mathematical definition of one tick;
//! every exec method is proved to compute exactly them.

use vstd::prelude::*;

use crate::math::{clamp, clamp_i64, iabs, isqrt, round_milli, sqrt_floor, tdiv};
use crate::math::{
    lemma_sqrt_floor_monotone, lemma_sqrt_floor_square, lemma_sqrt_floor_upper, lemma_tdiv_nonneg,
};

verus! {

/// Field height in units (vertical axis).
pub const FIELD_BOUNDARY_Y: i16 = 800;

/// Field width in units (horizontal axis).
pub const FIELD_BOUNDARY_X: i16 = 400;

/// Width of the border strip that positions never enter.
pub const MARGIN: i16 = 8;

/// The configured maximum player speed (5 units per tick), in milli-units.
pub const MAX_PLAYER_SPEED_MILLI: u64 = 5000;

/// Squared distance below which a player counts as arrived at its target.
pub const ARRIVED_DIST_SQ: u64 = 25;

/// Squared distance below which a player touches the ball.
pub const CONTACT_DIST_SQ: u64 = 324;

/// Squared distance above which the distance-proportional desired speed
/// exceeds the configured maximum (distance 50 = maximum 5 divided by the
/// acceleration factor 0.1).
pub const FAR_DIST_SQ: u64 = 2500;

/// A bound every velocity component stays below (the farthest target is
/// under 874 units away, giving a desired speed under 88 units per tick).
pub const SPEED_LIMIT_MILLI: i32 = 100_000;

/// A position on the field: (vertical, horizontal), in whole units.
#[derive(Copy, Clone, Debug, PartialEq, Eq, Structural)]
pub struct Coordinate(pub i16, pub i16);

/// A velocity: (vertical, horizontal), in milli-units per tick.
#[derive(Copy, Clone, Debug, PartialEq, Eq, Structural)]
pub struct Speed(pub i32, pub i32);

/// One player: stable identity, steering target, position and velocity.
#[derive(Copy, Clone, Debug)]
pub struct Player {
    pub id: u16,
    pub target: Coordinate,
    pub position: Coordinate,
    pub speed: Speed,
}

/// The single ball.
#[derive(Copy, Clone, Debug)]
pub struct Ball {
    pub position: Coordinate,
    pub speed: Speed,
}

/// Mathematical image of a player.
pub struct PlayerModel {
    pub id: int,
    pub target: (int, int),
    pub pos: (int, int),
    pub speed: (int, int),
}

/// Mathematical image of the ball.
pub struct BallModel {
    pub pos: (int, int),
    pub speed: (int, int),
}

impl View for Coordinate {
    type V = (int, int);

    open spec fn view(&self) -> (int, int) {
        (self.0 as int, self.1 as int)
    }
}

impl View for Speed {
    type V = (int, int);

    open spec fn view(&self) -> (int, int) {
        (self.0 as int, self.1 as int)
    }
}

impl View for Player {
    type V = PlayerModel;

    open spec fn view(&self) -> PlayerModel {
        PlayerModel {
            id: self.id as int,
            target: self.target@,
            pos: self.position@,
            speed: self.speed@,
        }
    }
}

impl View for Ball {
    type V = BallModel;

    open spec fn view(&self) -> BallModel {
        BallModel { pos: self.position@, speed: self.speed@ }
    }
}

/// Both components lie in the playable area.
pub open spec fn in_bounds(p: (int, int)) -> bool {
    &&& MARGIN <= p.0 <= FIELD_BOUNDARY_Y - MARGIN
    &&& MARGIN <= p.1 <= FIELD_BOUNDARY_X - MARGIN
}

/// Both velocity components are within the global speed bound.
pub open spec fn speed_ok(v: (int, int)) -> bool {
    &&& iabs(v.0) <= SPEED_LIMIT_MILLI
    &&& iabs(v.1) <= SPEED_LIMIT_MILLI
}

pub open spec fn player_wf(p: PlayerModel) -> bool {
    &&& in_bounds(p.pos)
    &&& in_bounds(p.target)
    &&& speed_ok(p.speed)
    &&& 0 <= p.id <= u16::MAX
}

pub open spec fn ball_wf(b: BallModel) -> bool {
    &&& in_bounds(b.pos)
    &&& speed_ok(b.speed)
}

/// Squared distance between two positions.
pub open spec fn dist_sq(a: (int, int), b: (int, int)) -> int {
    (a.0 - b.0) * (a.0 - b.0) + (a.1 - b.1) * (a.1 - b.1)
}

/// One position update: add the velocity, round milli-units to whole
/// units (halves away from zero), and clamp into the playable area.
pub open spec fn move_coord(pos: (int, int), v: (int, int)) -> (int, int) {
    (
        clamp(round_milli(pos.0 * 1000 + v.0), MARGIN as int, FIELD_BOUNDARY_Y - MARGIN),
        clamp(round_milli(pos.1 * 1000 + v.1), MARGIN as int, FIELD_BOUNDARY_X - MARGIN),
    )
}

/// Friction on one component: nine tenths, rounded toward zero.
pub open spec fn decay(v: int) -> int {
    tdiv(9 * v, 10)
}

/// Friction on a velocity; if either component has decayed to exactly
/// zero, the other is forced to zero as well.
pub open spec fn friction_pair(v: (int, int)) -> (int, int) {
    let a = decay(v.0);
    let b = decay(v.1);
    if a == 0 || b == 0 {
        (0, 0)
    } else {
        (a, b)
    }
}

/// Velocity after the boundary check: at or beyond the vertical limits the
/// vertical component flips sign; otherwise, at or beyond the horizontal
/// limits the horizontal component flips.  Only the first matching rule
/// applies, so in a corner only the vertical component is inverted.
pub open spec fn bounce_pair(pos: (int, int), v: (int, int)) -> (int, int) {
    if pos.0 >= FIELD_BOUNDARY_Y - MARGIN {
        (-v.0, v.1)
    } else if pos.0 <= MARGIN {
        (-v.0, v.1)
    } else if pos.1 >= FIELD_BOUNDARY_X - MARGIN {
        (v.0, -v.1)
    } else if pos.1 <= MARGIN {
        (v.0, -v.1)
    } else {
        v
    }
}

/// One whole ball tick: friction, then movement, then the bounce.
pub open spec fn ball_step(b: BallModel) -> BallModel {
    let v = friction_pair(b.speed);
    let pos = move_coord(b.pos, v);
    BallModel { pos, speed: bounce_pair(pos, v) }
}

/// A velocity component aimed along a delta: speed scaled by the ratio of
/// the delta to the full distance d (all in milli-units, truncated).
pub open spec fn aim(num: int, delta: int, d: int) -> int {
    tdiv(num * delta * 1000, d)
}

/// The desired player speed in milli-units: the distance times the
/// acceleration factor 0.1 when that exceeds the configured maximum,
/// otherwise the maximum itself.
pub open spec fn desired_speed(ssq: int, d: int) -> int {
    if ssq > FAR_DIST_SQ {
        tdiv(d, 10)
    } else {
        MAX_PLAYER_SPEED_MILLI as int
    }
}

/// The ball as pushed by a touching player: its velocity is rebuilt from
/// the player's velocity scaled through the bearing between the two, and
/// its position immediately moves by that velocity.
pub open spec fn push_ball(b: BallModel, p: PlayerModel) -> BallModel {
    let ssq = dist_sq(p.pos, b.pos);
    let v = if ssq == 0 {
        (0int, p.speed.1)
    } else {
        let d = sqrt_floor(ssq * 1_000_000);
        (aim(p.speed.0, p.pos.0 - b.pos.0, d), aim(p.speed.1, p.pos.1 - b.pos.1, d))
    };
    BallModel { pos: move_coord(b.pos, v), speed: v }
}

/// One player tick.  Far from the target: aim the velocity at the target
/// with the desired speed, move, and push the ball on contact.  Within the
/// arrived threshold: nothing changes.
pub open spec fn player_step(p: PlayerModel, b: BallModel) -> (PlayerModel, BallModel) {
    let ssq = dist_sq(p.target, p.pos);
    if ssq > ARRIVED_DIST_SQ {
        let d = sqrt_floor(ssq * 1_000_000);
        let sp = desired_speed(ssq, d);
        let v = (aim(sp, p.target.0 - p.pos.0, d), aim(sp, p.target.1 - p.pos.1, d));
        let p2 = PlayerModel { pos: move_coord(p.pos, v), speed: v, ..p };
        if dist_sq(p2.pos, b.pos) < CONTACT_DIST_SQ {
            (p2, push_ball(b, p2))
        } else {
            (p2, b)
        }
    } else {
        (p, b)
    }
}

/// The whole world: every player keyed by its id, the ball, and the
/// monotonically increasing id counter.  Ids are handed out once and
/// never reused, so the player sequence is strictly increasing by id.
#[derive(Debug)]
pub struct SoccerField {
    pub players: Vec<Player>,
    pub ball: Ball,
    pub id_inc: u16,
}

/// Mathematical image of the world.
#[verifier::ext_equal]
pub struct WorldModel {
    pub players: Seq<PlayerModel>,
    pub ball: BallModel,
    pub id_inc: int,
}

impl View for SoccerField {
    type V = WorldModel;

    open spec fn view(&self) -> WorldModel {
        WorldModel {
            players: self.players@.map_values(|p: Player| p@),
            ball: self.ball@,
            id_inc: self.id_inc as int,
        }
    }
}

/// The world invariant: players are strictly increasing by id (so ids are
/// unique), every id has already been counted past by id_inc, and every
/// entity is within bounds and within the speed limit.
pub open spec fn world_wf(w: WorldModel) -> bool {
    &&& forall|i: int, j: int|
        0 <= i < j < w.players.len() ==> #[trigger] w.players[i].id < #[trigger] w.players[j].id
    &&& forall|i: int|
        0 <= i < w.players.len() ==> player_wf(#[trigger] w.players[i]) && w.players[i].id
            < w.id_inc
    &&& ball_wf(w.ball)
    &&& 0 <= w.id_inc <= u16::MAX
}

/// Some player carries this id.
pub open spec fn has_player(w: WorldModel, id: int) -> bool {
    exists|i: int| 0 <= i < w.players.len() && #[trigger] w.players[i].id == id
}

/// All players stepped in order, threading the ball through each step.
pub open spec fn run_players(ps: Seq<PlayerModel>, b: BallModel) -> (Seq<PlayerModel>, BallModel)
    decreases ps.len(),
{
    if ps.len() == 0 {
        (ps, b)
    } else {
        let first = player_step(ps[0], b);
        let rest = run_players(ps.drop_first(), first.1);
        (seq![first.0] + rest.0, rest.1)
    }
}

/// One physics tick of the whole world: every player in id order, then
/// the ball.
pub open spec fn world_physics(w: WorldModel) -> WorldModel {
    let pb = run_players(w.players, w.ball);
    WorldModel { players: pb.0, ball: ball_step(pb.1), id_inc: w.id_inc }
}

/// The player created by a join: at the clamped origin, standing still,
/// targeting its own position.
pub open spec fn new_player(id: int) -> PlayerModel {
    PlayerModel {
        id,
        target: (MARGIN as int, MARGIN as int),
        pos: (MARGIN as int, MARGIN as int),
        speed: (0, 0),
    }
}

/// The world after a join: the fresh player appended, the counter bumped.
pub open spec fn join_spec(w: WorldModel) -> WorldModel {
    WorldModel { players: w.players.push(new_player(w.id_inc)), id_inc: w.id_inc + 1, ..w }
}

/// The players with the first holder of the given id removed; a world
/// without that id is unchanged.
pub open spec fn remove_id(ps: Seq<PlayerModel>, id: int) -> Seq<PlayerModel>
    decreases ps.len(),
{
    if ps.len() == 0 {
        ps
    } else if ps[0].id == id {
        ps.drop_first()
    } else {
        seq![ps[0]] + remove_id(ps.drop_first(), id)
    }
}

/// The world after a leave.
pub open spec fn leave_spec(w: WorldModel, id: int) -> WorldModel {
    WorldModel { players: remove_id(w.players, id), ..w }
}

/// A player with a fresh steering target (clamped to the field).
pub open spec fn retarget(p: PlayerModel, y: int, x: int) -> PlayerModel {
    PlayerModel {
        target: (
            clamp(y, MARGIN as int, FIELD_BOUNDARY_Y - MARGIN),
            clamp(x, MARGIN as int, FIELD_BOUNDARY_X - MARGIN),
        ),
        ..p
    }
}

/// The players with the first holder of the given id retargeted; a world
/// without that id is unchanged.
pub open spec fn set_target(ps: Seq<PlayerModel>, id: int, y: int, x: int) -> Seq<PlayerModel>
    decreases ps.len(),
{
    if ps.len() == 0 {
        ps
    } else if ps[0].id == id {
        seq![retarget(ps[0], y, x)] + ps.drop_first()
    } else {
        seq![ps[0]] + set_target(ps.drop_first(), id, y, x)
    }
}

/// The world after a steering command.
pub open spec fn target_spec(w: WorldModel, id: int, y: int, x: int) -> WorldModel {
    WorldModel { players: set_target(w.players, id, y, x), ..w }
}

/// Mathematical image of a published snapshot.
#[verifier::ext_equal]
pub struct SnapshotModel {
    pub ball: (int, int),
    pub players: Seq<(int, (int, int))>,
}

/// What a snapshot of a world holds: the ball position and the pairs of
/// player id and player position, in id order.
pub open spec fn snapshot_spec(w: WorldModel) -> SnapshotModel {
    SnapshotModel {
        ball: w.ball.pos,
        players: w.players.map_values(|p: PlayerModel| (p.id, p.pos)),
    }
}

/// The published, fully materialised copy of all positions: the ball and
/// one (id, position) pair per player.  It carries no velocities and no
/// targets.
#[derive(Clone, Debug)]
pub struct PositionsList {
    pub ball: Coordinate,
    pub players: Vec<(u16, Coordinate)>,
}

impl View for PositionsList {
    type V = SnapshotModel;

    open spec fn view(&self) -> SnapshotModel {
        SnapshotModel {
            ball: self.ball@,
            players: self.players@.map_values(|e: (u16, Coordinate)| (e.0 as int, e.1@)),
        }
    }
}

impl SoccerField {
    /// The empty field: no players, the ball resting mid-field, the id
    /// counter at zero.
    pub fn new() -> (f: SoccerField)
        ensures
            f@.players.len() == 0,
            f@.ball.pos == (400int, 200int),
            f@.ball.speed == (0int, 0int),
            f@.id_inc == 0,
            world_wf(f@),
    {
        let f = SoccerField {
            players: Vec::new(),
            ball: Ball { position: Coordinate(400, 200), speed: Speed(0, 0) },
            id_inc: 0,
        };
        proof {
            assert(f@.players =~= Seq::<PlayerModel>::empty());
        }
        f
    }

    /// Allocate the next id and insert a fresh player for it at the
    /// origin; the returned id is the old counter value, and it has never
    /// been carried by any player before.
    pub fn player_join(&mut self) -> (id: u16)
        requires
            world_wf(old(self)@),
            old(self)@.id_inc < u16::MAX,
        ensures
            id == old(self)@.id_inc,
            final(self)@ == join_spec(old(self)@),
            world_wf(final(self)@),
            !has_player(old(self)@, id as int),
    {
        let player_id = self.id_inc;
        self.id_inc = self.id_inc + 1;
        let origin = Coordinate::new(0, 0);
        self.players.push(
            Player { id: player_id, target: origin, position: origin, speed: Speed(0, 0) },
        );
        proof {
            assert(self@.players =~= join_spec(old(self)@).players);
            assert(self@ =~= join_spec(old(self)@));
        }
        player_id
    }

    /// Materialise the snapshot of the current world: ball position and
    /// one (id, position) pair per player, in id order.
    pub fn positions(&self) -> (pl: PositionsList)
        ensures
            pl@ == snapshot_spec(self@),
    {
        let mut pairs: Vec<(u16, Coordinate)> = Vec::new();
        let n = self.players.len();
        let mut i: usize = 0;
        while i < n
            invariant
                i <= n,
                n == self.players.len(),
                pairs@.len() == i,
                forall|j: int|
                    0 <= j < i ==> #[trigger] pairs@[j] == (
                        self.players@[j].id,
                        self.players@[j].position,
                    ),
            decreases n - i,
        {
            let p = &self.players[i];
            pairs.push((p.id, p.position));
            i = i + 1;
        }
        let pl = PositionsList { ball: self.ball.position, players: pairs };
        proof {
            assert(pl@.players =~= snapshot_spec(self@).players);
            assert(pl@ =~= snapshot_spec(self@));
        }
        pl
    }
}

/// When the first holder of the id sits at index i, remove_id removes
/// exactly that index.
proof fn lemma_remove_id_at(ps: Seq<PlayerModel>, id: int, i: int)
    requires
        0 <= i < ps.len(),
        forall|j: int| 0 <= j < i ==> #[trigger] ps[j].id != id,
        ps[i].id == id,
    ensures
        remove_id(ps, id) =~= ps.remove(i),
    decreases i,
{
    if i == 0 {
    } else {
        lemma_remove_id_at(ps.drop_first(), id, i - 1);
    }
}

/// A sequence without the id is left unchanged by remove_id.
proof fn lemma_remove_id_absent(ps: Seq<PlayerModel>, id: int)
    requires
        forall|j: int| 0 <= j < ps.len() ==> #[trigger] ps[j].id != id,
    ensures
        remove_id(ps, id) =~= ps,
    decreases ps.len(),
{
    if ps.len() > 0 {
        lemma_remove_id_absent(ps.drop_first(), id);
    }
}

/// When the first holder of the id sits at index i, set_target updates
/// exactly that index.
proof fn lemma_set_target_at(ps: Seq<PlayerModel>, id: int, y: int, x: int, i: int)
    requires
        0 <= i < ps.len(),
        forall|j: int| 0 <= j < i ==> #[trigger] ps[j].id != id,
        ps[i].id == id,
    ensures
        set_target(ps, id, y, x) =~= ps.update(i, retarget(ps[i], y, x)),
    decreases i,
{
    if i == 0 {
    } else {
        lemma_set_target_at(ps.drop_first(), id, y, x, i - 1);
    }
}

/// A sequence without the id is left unchanged by set_target.
proof fn lemma_set_target_absent(ps: Seq<PlayerModel>, id: int, y: int, x: int)
    requires
        forall|j: int| 0 <= j < ps.len() ==> #[trigger] ps[j].id != id,
    ensures
        set_target(ps, id, y, x) =~= ps,
    decreases ps.len(),
{
    if ps.len() > 0 {
        lemma_set_target_absent(ps.drop_first(), id, y, x);
    }
}

impl SoccerField {
    /// Advance physics by one tick: every player in id order (each may
    /// push the ball), then the ball itself.
    pub fn update(&mut self)
        requires
            world_wf(old(self)@),
        ensures
            final(self)@ == world_physics(old(self)@),
            world_wf(final(self)@),
    {
        let ghost w0 = old(self)@;
        let n = self.players.len();
        let mut i: usize = 0;
        proof {
            assert(w0.players.skip(0) =~= w0.players);
            assert(self@.players.take(0) + run_players(w0.players, w0.ball).0 =~= run_players(
                w0.players,
                w0.ball,
            ).0);
        }
        while i < n
            invariant
                i <= n,
                n == self.players.len(),
                self.id_inc == old(self).id_inc,
                self@.players.len() == w0.players.len(),
                forall|j: int| i <= j < n ==> #[trigger] self@.players[j] == w0.players[j],
                forall|j: int|
                    0 <= j < i ==> player_wf(#[trigger] self@.players[j]) && self@.players[j].id
                        == w0.players[j].id,
                ball_wf(self@.ball),
                world_wf(w0),
                run_players(w0.players, w0.ball).0 =~= self@.players.take(i as int)
                    + run_players(w0.players.skip(i as int), self@.ball).0,
                run_players(w0.players, w0.ball).1 == run_players(
                    w0.players.skip(i as int),
                    self@.ball,
                ).1,
            decreases n - i,
        {
            let ghost pre = self@;
            let mut p = self.players[i];
            proof {
                assert(p@ == pre.players[i as int]);
                assert(pre.players[i as int] == w0.players[i as int]);
                assert(player_wf(p@));
            }
            p.update(&mut self.ball);
            self.players.set(i, p);
            proof {
                assert forall|j: int| i + 1 <= j < n implies #[trigger] self@.players[j]
                    == w0.players[j] by {
                    assert(self@.players[j] == pre.players[j]);
                }
                assert forall|j: int| 0 <= j < i + 1 implies player_wf(
                    #[trigger] self@.players[j],
                ) && self@.players[j].id == w0.players[j].id by {
                    if j < i {
                        assert(self@.players[j] == pre.players[j]);
                    } else {
                        assert(self@.players[j] == p@);
                    }
                }
                let rest = w0.players.skip(i as int);
                assert(rest.len() > 0);
                assert(rest[0] == w0.players[i as int]);
                assert(rest.drop_first() =~= w0.players.skip(i as int + 1));
                assert(self@.players.take(i as int + 1) =~= pre.players.take(i as int) + seq![
                    p@,
                ]);
                assert(self@.players.take(i as int + 1) + run_players(
                    w0.players.skip(i as int + 1),
                    self@.ball,
                ).0 =~= pre.players.take(i as int) + (seq![p@] + run_players(
                    rest.drop_first(),
                    self@.ball,
                ).0));
            }
            i = i + 1;
        }
        proof {
            assert(w0.players.skip(n as int) =~= Seq::<PlayerModel>::empty());
            assert(self@.players.take(n as int) =~= self@.players);
            assert(self@.players =~= run_players(w0.players, w0.ball).0);
        }
        self.ball.update();
        proof {
            assert(self@ =~= world_physics(w0));
        }
    }

    /// Remove the player with this id; an absent id is a silent no-op.
    pub fn player_leave(&mut self, id: u16)
        requires
            world_wf(old(self)@),
        ensures
            final(self)@ == leave_spec(old(self)@, id as int),
            world_wf(final(self)@),
            !has_player(final(self)@, id as int),
    {
        let ghost w0 = old(self)@;
        let n = self.players.len();
        let mut i: usize = 0;
        while i < n
            invariant
                i <= n,
                n == self.players.len(),
                w0 == old(self)@,
                self@ == w0,
                world_wf(w0),
                forall|j: int| 0 <= j < i ==> #[trigger] w0.players[j].id != id,
            decreases n - i,
        {
            if self.players[i].id == id {
                self.players.remove(i);
                proof {
                    lemma_remove_id_at(w0.players, id as int, i as int);
                    assert(self@.players =~= w0.players.remove(i as int));
                    assert(self@ =~= leave_spec(w0, id as int));
                    assert forall|k: int| 0 <= k < self@.players.len() implies #[trigger] self@
                        .players[k].id != id by {
                        if k >= i {
                            assert(self@.players[k] == w0.players[k + 1]);
                            assert(w0.players[i as int].id < w0.players[k + 1].id);
                        }
                    }
                }
                return ;
            }
            i = i + 1;
        }
        proof {
            lemma_remove_id_absent(w0.players, id as int);
            assert(self@ =~= leave_spec(w0, id as int));
        }
    }

    /// Update the steering target of the player with this id (clamped to
    /// the field); an absent id is a silent no-op.
    pub fn set_player_target(&mut self, id: u16, y: i16, x: i16)
        requires
            world_wf(old(self)@),
        ensures
            final(self)@ == target_spec(old(self)@, id as int, y as int, x as int),
            world_wf(final(self)@),
    {
        let ghost w0 = old(self)@;
        let n = self.players.len();
        let mut i: usize = 0;
        while i < n
            invariant
                i <= n,
                n == self.players.len(),
                w0 == old(self)@,
                self@ == w0,
                world_wf(w0),
                forall|j: int| 0 <= j < i ==> #[trigger] w0.players[j].id != id,
            decreases n - i,
        {
            if self.players[i].id == id {
                let mut p = self.players[i];
                p.update_target(y, x);
                self.players.set(i, p);
                proof {
                    lemma_set_target_at(w0.players, id as int, y as int, x as int, i as int);
                    assert(self@.players =~= w0.players.update(
                        i as int,
                        retarget(w0.players[i as int], y as int, x as int),
                    ));
                    assert(self@ =~= target_spec(w0, id as int, y as int, x as int));
                }
                return ;
            }
            i = i + 1;
        }
        proof {
            lemma_set_target_absent(w0.players, id as int, y as int, x as int);
            assert(self@ =~= target_spec(w0, id as int, y as int, x as int));
        }
    }
}

impl Coordinate {
    /// Build a coordinate from raw components, clamped into the playable
    /// area, so that every Coordinate the world holds is in bounds.
    pub fn new(y: i16, x: i16) -> (c: Coordinate)
        ensures
            c@ == (
                clamp(y as int, MARGIN as int, FIELD_BOUNDARY_Y - MARGIN),
                clamp(x as int, MARGIN as int, FIELD_BOUNDARY_X - MARGIN),
            ),
            in_bounds(c@),
    {
        Coordinate(
            clamp_i64(y as i64, MARGIN, FIELD_BOUNDARY_Y - MARGIN),
            clamp_i64(x as i64, MARGIN, FIELD_BOUNDARY_X - MARGIN),
        )
    }

    /// Add a velocity to this position, rounding and clamping to bounds.
    pub fn apply_speed_with_boundaries(&mut self, speed: Speed)
        ensures
            final(self)@ == move_coord(old(self)@, speed@),
            in_bounds(final(self)@),
    {
        self.0 = moved_component(self.0, speed.0, FIELD_BOUNDARY_Y);
        self.1 = moved_component(self.1, speed.1, FIELD_BOUNDARY_X);
    }
}

/// One clamped, rounded position component after adding a velocity.
fn moved_component(pos: i16, v: i32, bound: i16) -> (r: i16)
    requires
        MARGIN <= bound - MARGIN,
    ensures
        r == clamp(round_milli(pos * 1000 + v), MARGIN as int, bound - MARGIN),
{
    let t: i64 = pos as i64 * 1000 + v as i64;
    let rounded: i64 = if t >= 0 {
        ((t as u64 + 500) / 1000) as i64
    } else {
        let m: u64 = ((-t) as u64 + 500) / 1000;
        -(m as i64)
    };
    clamp_i64(rounded, MARGIN, bound - MARGIN)
}

impl Speed {
    /// Apply friction: both components shrink to nine tenths (toward
    /// zero); if either lands exactly on zero, both become zero.
    pub fn reduce(&mut self)
        requires
            speed_ok(old(self)@),
        ensures
            final(self)@ == friction_pair(old(self)@),
            speed_ok(final(self)@),
    {
        let a = decayed_component(self.0);
        let b = decayed_component(self.1);
        if a == 0 || b == 0 {
            self.0 = 0;
            self.1 = 0;
        } else {
            self.0 = a;
            self.1 = b;
        }
    }
}

/// One velocity component after friction.
fn decayed_component(v: i32) -> (r: i32)
    requires
        iabs(v as int) <= SPEED_LIMIT_MILLI,
    ensures
        r == decay(v as int),
        iabs(r as int) <= iabs(v as int),
{
    let m: u64 = if v >= 0 {
        v as u64
    } else {
        (-(v as i64)) as u64
    };
    let m9: u64 = m * 9 / 10;
    proof {
        assert(m * 9 / 10 <= m) by (nonlinear_arith)
            requires m >= 0;
        if v >= 0 {
            assert(9 * (v as int) == m * 9);
            lemma_tdiv_nonneg(m as int * 9, 10);
        } else {
            assert(-(9 * (v as int)) == m * 9);
            lemma_tdiv_nonneg(m as int * 9, 10);
        }
    }
    if v >= 0 {
        m9 as i32
    } else {
        -(m9 as i32)
    }
}

/// A delta between two in-bounds positions is no longer (in milli-units)
/// than the full distance between them.
proof fn lemma_delta_le_dist(delta: int, ssq: int)
    requires
        delta * delta <= ssq,
    ensures
        iabs(delta) * 1000 <= sqrt_floor(ssq * 1_000_000),
{
    let m = iabs(delta);
    assert(m * 1000 * (m * 1000) == (delta * delta) * 1_000_000 && delta * delta >= 0)
        by (nonlinear_arith)
        requires
            m == delta || m == -delta,
    ;
    lemma_sqrt_floor_square(m * 1000);
    lemma_sqrt_floor_monotone((delta * delta) * 1_000_000, ssq * 1_000_000);
}

/// A positive squared distance gives a milli-distance of at least 1000.
proof fn lemma_dist_least_one(ssq: int)
    requires
        ssq >= 1,
    ensures
        sqrt_floor(ssq * 1_000_000) >= 1000,
{
    assert(1000 * 1000 == 1_000_000int);
    lemma_sqrt_floor_square(1000);
    lemma_sqrt_floor_monotone(1_000_000, ssq * 1_000_000);
}

/// On this field no two in-bounds positions are further apart than
/// 872999 milli-units.
proof fn lemma_dist_upper(ssq: int)
    requires
        0 <= ssq <= 762_112,
    ensures
        sqrt_floor(ssq * 1_000_000) <= 872_999,
{
    assert(873_000int * 873_000int == 762_129_000_000int) by (nonlinear_arith);
    lemma_sqrt_floor_upper(ssq * 1_000_000, 872_999);
}

/// The squared distance between two in-bounds positions is at most
/// 784^2 + 384^2 = 762112.
proof fn lemma_dist_sq_bounds(a: (int, int), b: (int, int))
    requires
        in_bounds(a),
        in_bounds(b),
    ensures
        0 <= (a.0 - b.0) * (a.0 - b.0) <= 614_656,
        0 <= (a.1 - b.1) * (a.1 - b.1) <= 147_456,
        0 <= dist_sq(a, b) <= 762_112,
        (a.0 - b.0) * (a.0 - b.0) <= dist_sq(a, b),
        (a.1 - b.1) * (a.1 - b.1) <= dist_sq(a, b),
        iabs(a.0 - b.0) <= 784,
        iabs(a.1 - b.1) <= 784,
{
    let dy = a.0 - b.0;
    let dx = a.1 - b.1;
    assert(0 <= dy * dy <= 614_656) by (nonlinear_arith)
        requires -784 <= dy <= 784;
    assert(0 <= dx * dx <= 147_456) by (nonlinear_arith)
        requires -384 <= dx <= 384;
}

/// The scaled bearing component tdiv(num * delta * 1000, d), computed on
/// magnitudes; its magnitude never exceeds the magnitude of num.
fn scaled(num: i64, delta: i64, d: u64) -> (r: i32)
    requires
        d >= 1,
        iabs(num as int) <= 100_000,
        iabs(delta as int) <= 1000,
        iabs(delta as int) * 1000 <= d,
    ensures
        r == aim(num as int, delta as int, d as int),
        iabs(r as int) <= iabs(num as int),
{
    let nm: u64 = if num >= 0 {
        num as u64
    } else {
        (-num) as u64
    };
    let dm: u64 = if delta >= 0 {
        delta as u64
    } else {
        (-delta) as u64
    };
    proof {
        assert(nm * dm <= 100_000_000 && nm * dm >= 0 && (nm * dm == num as int * delta as int
            || nm * dm == -(num as int * delta as int))) by (nonlinear_arith)
            requires
                0 <= nm <= 100_000,
                0 <= dm <= 1000,
                nm == num as int || nm == -(num as int),
                dm == delta as int || dm == -(delta as int),
        ;
    }
    let prod: u64 = nm * dm * 1000;
    let mag: u64 = prod / d;
    proof {
        let pnum = num as int * delta as int;
        assert(nm * dm == iabs(pnum));
        assert((((num as int) < 0) != ((delta as int) < 0)) ==> num as int * delta as int <= 0)
            by (nonlinear_arith);
        assert((((num as int) < 0) == ((delta as int) < 0)) ==> num as int * delta as int >= 0)
            by (nonlinear_arith);
        assert(nm * (dm * 1000) <= nm * (d as int) && nm * dm * 1000 == nm * (dm * 1000))
            by (nonlinear_arith)
            requires
                nm >= 0,
                0 <= dm * 1000 <= d,
        ;
        vstd::arithmetic::div_mod::lemma_div_by_multiple(nm as int, d as int);
        vstd::arithmetic::div_mod::lemma_div_is_ordered(
            prod as int,
            nm as int * (d as int),
            d as int,
        );
        assert(mag <= nm);
        vstd::arithmetic::div_mod::lemma_div_of0(d as int);
        if pnum >= 0 {
            assert(prod == pnum * 1000);
            lemma_tdiv_nonneg(pnum * 1000, d as int);
        } else {
            assert(prod == -(pnum * 1000));
            lemma_tdiv_nonneg(-(pnum * 1000), d as int);
        }
    }
    if (num < 0) != (delta < 0) {
        -(mag as i32)
    } else {
        mag as i32
    }
}

impl Player {
    /// Point the player at a fresh steering target, clamped to the field.
    pub fn update_target(&mut self, y: i16, x: i16)
        ensures
            final(self).target@ == (
                clamp(y as int, MARGIN as int, FIELD_BOUNDARY_Y - MARGIN),
                clamp(x as int, MARGIN as int, FIELD_BOUNDARY_X - MARGIN),
            ),
            in_bounds(final(self).target@),
            final(self).id == old(self).id,
            final(self).position == old(self).position,
            final(self).speed == old(self).speed,
    {
        self.target = Coordinate::new(y, x);
    }

    /// One player tick: while the target is further than the arrived
    /// threshold, aim the velocity at it with the desired speed, move,
    /// and push the ball when the new position touches it; once arrived,
    /// leave both position and velocity untouched.
    pub fn update(&mut self, ball: &mut Ball)
        requires
            player_wf(old(self)@),
            ball_wf(old(ball)@),
        ensures
            (final(self)@, final(ball)@) == player_step(old(self)@, old(ball)@),
            player_wf(final(self)@),
            ball_wf(final(ball)@),
    {
        proof {
            lemma_dist_sq_bounds(old(self)@.target, old(self)@.pos);
        }
        let dy: i64 = self.target.0 as i64 - self.position.0 as i64;
        let dx: i64 = self.target.1 as i64 - self.position.1 as i64;
        let ssq: u64 = (dy * dy + dx * dx) as u64;
        if ssq > ARRIVED_DIST_SQ {
            proof {
                lemma_dist_least_one(ssq as int);
                lemma_dist_upper(ssq as int);
                lemma_delta_le_dist(dy as int, ssq as int);
                lemma_delta_le_dist(dx as int, ssq as int);
            }
            let d: u64 = isqrt(ssq * 1_000_000);
            let sp: u64 = if ssq > FAR_DIST_SQ {
                proof {
                    lemma_tdiv_nonneg(d as int, 10);
                }
                d / 10
            } else {
                MAX_PLAYER_SPEED_MILLI
            };
            self.speed = Speed(scaled(sp as i64, dy, d), scaled(sp as i64, dx, d));
            self.position.apply_speed_with_boundaries(self.speed);
            proof {
                lemma_dist_sq_bounds(self@.pos, old(ball)@.pos);
            }
            let cy: i64 = self.position.0 as i64 - ball.position.0 as i64;
            let cx: i64 = self.position.1 as i64 - ball.position.1 as i64;
            let csq: u64 = (cy * cy + cx * cx) as u64;
            if csq < CONTACT_DIST_SQ {
                ball.pushed_by(&*self);
            }
        }
    }
}

impl Ball {
    /// The touch response: the ball's velocity is rebuilt from the
    /// player's velocity, each component scaled through the bearing
    /// between ball and player, and the ball moves at once.  When the two
    /// positions coincide the bearing degenerates to sine 0 and cosine 1.
    pub fn pushed_by(&mut self, player: &Player)
        requires
            ball_wf(old(self)@),
            player_wf(player@),
        ensures
            final(self)@ == push_ball(old(self)@, player@),
            ball_wf(final(self)@),
    {
        proof {
            lemma_dist_sq_bounds(player@.pos, old(self)@.pos);
        }
        let dy: i64 = player.position.0 as i64 - self.position.0 as i64;
        let dx: i64 = player.position.1 as i64 - self.position.1 as i64;
        let ssq: u64 = (dy * dy + dx * dx) as u64;
        if ssq == 0 {
            self.speed = Speed(0, player.speed.1);
        } else {
            proof {
                lemma_dist_least_one(ssq as int);
                lemma_delta_le_dist(dy as int, ssq as int);
                lemma_delta_le_dist(dx as int, ssq as int);
            }
            let d: u64 = isqrt(ssq * 1_000_000);
            self.speed = Speed(
                scaled(player.speed.0 as i64, dy, d),
                scaled(player.speed.1 as i64, dx, d),
            );
        }
        self.position.apply_speed_with_boundaries(self.speed);
    }

    /// One whole ball tick: friction, movement, bounce.
    pub fn update(&mut self)
        requires
            ball_wf(old(self)@),
        ensures
            final(self)@ == ball_step(old(self)@),
            ball_wf(final(self)@),
    {
        self.update_speed();
        self.update_position();
        self.bounce();
    }

    /// Move by the current velocity, clamped to the field.
    pub fn update_position(&mut self)
        ensures
            final(self)@.pos == move_coord(old(self)@.pos, old(self)@.speed),
            final(self)@.speed == old(self)@.speed,
            in_bounds(final(self)@.pos),
    {
        self.position.apply_speed_with_boundaries(self.speed);
    }

    /// Apply friction to the current velocity.
    pub fn update_speed(&mut self)
        requires
            speed_ok(old(self)@.speed),
        ensures
            final(self)@.speed == friction_pair(old(self)@.speed),
            final(self)@.pos == old(self)@.pos,
            speed_ok(final(self)@.speed),
    {
        self.speed.reduce();
    }

    /// Invert the velocity component for the axis whose boundary the ball
    /// sits on; the first matching axis wins and the other is untouched.
    pub fn bounce(&mut self)
        requires
            speed_ok(old(self)@.speed),
        ensures
            final(self)@.speed == bounce_pair(old(self)@.pos, old(self)@.speed),
            final(self)@.pos == old(self)@.pos,
            speed_ok(final(self)@.speed),
    {
        if self.position.0 >= FIELD_BOUNDARY_Y - MARGIN {
            self.speed.0 = -self.speed.0;
        } else if self.position.0 <= MARGIN {
            self.speed.0 = -self.speed.0;
        } else if self.position.1 >= FIELD_BOUNDARY_X - MARGIN {
            self.speed.1 = -self.speed.1;
        } else if self.position.1 <= MARGIN {
            self.speed.1 = -self.speed.1;
        }
    }
}


/// The ball repeated through whole ticks, with no player contact.
pub open spec fn ball_iter(b: BallModel, n: nat) -> BallModel
    decreases n,
{
    if n == 0 {
        b
    } else {
        ball_iter(ball_step(b), (n - 1) as nat)
    }
}

/// Friction never grows a velocity component.
pub proof fn lemma_friction_shrinks(v: (int, int))
    ensures
        iabs(friction_pair(v).0) <= iabs(v.0),
        iabs(friction_pair(v).1) <= iabs(v.1),
{
    lemma_decay_shrinks(v.0);
    lemma_decay_shrinks(v.1);
}

/// One decayed component is no larger in magnitude than before, and a
/// nonzero component strictly shrinks.
proof fn lemma_decay_shrinks(v: int)
    ensures
        iabs(decay(v)) <= iabs(v),
        v != 0 ==> iabs(decay(v)) <= iabs(v) - 1,
{
    let m = iabs(v);
    if v >= 0 {
        assert(9 * v == 9 * m);
        lemma_tdiv_nonneg(9 * m, 10);
    } else {
        assert(-(9 * v) == 9 * m);
        lemma_tdiv_nonneg(9 * m, 10);
        assert(decay(v) == -((9 * m) / 10));
    }
    assert(9 * m / 10 <= m) by (nonlinear_arith)
        requires m >= 0;
    if v != 0 {
        assert(9 * m / 10 <= m - 1) by (nonlinear_arith)
            requires m >= 1;
    }
}

/// In the absence of a player touch, one whole ball tick never grows the
/// velocity magnitude: friction shrinks each component and a bounce only
/// flips a sign.
pub proof fn lemma_ball_speed_decays(b: BallModel)
    ensures
        iabs(ball_step(b).speed.0) <= iabs(b.speed.0),
        iabs(ball_step(b).speed.1) <= iabs(b.speed.1),
{
    lemma_friction_shrinks(b.speed);
}

/// A resting ball stays exactly at rest.
pub proof fn lemma_ball_rest_is_fixed(b: BallModel)
    requires
        b.speed == (0int, 0int),
        in_bounds(b.pos),
    ensures
        ball_step(b).speed == (0int, 0int),
        ball_step(b).pos == b.pos,
{
    assert(decay(0) == 0) by {
        lemma_tdiv_nonneg(0, 10);
    }
    crate::math::lemma_round_milli_exact(b.pos.0);
    crate::math::lemma_round_milli_exact(b.pos.1);
    assert(b.pos.0 * 1000 + 0 == b.pos.0 * 1000);
    assert(b.pos.1 * 1000 + 0 == b.pos.1 * 1000);
}

/// Once no player touches it, the ball comes to exactly (0, 0) velocity
/// within a bounded number of ticks: one tick per unit of the larger
/// starting component magnitude.
pub proof fn lemma_ball_comes_to_rest(b: BallModel, n: nat)
    requires
        n >= iabs(b.speed.0),
        n >= iabs(b.speed.1),
    ensures
        ball_iter(b, n).speed == (0int, 0int),
    decreases n,
{
    if n == 0 {
    } else {
        let b2 = ball_step(b);
        if b.speed.0 == 0 || b.speed.1 == 0 {
            assert(decay(0) == 0) by {
                lemma_tdiv_nonneg(0, 10);
            }
            assert(b2.speed == (0int, 0int));
        } else {
            lemma_decay_shrinks(b.speed.0);
            lemma_decay_shrinks(b.speed.1);
        }
        assert(iabs(b2.speed.0) <= n - 1 && iabs(b2.speed.1) <= n - 1);
        lemma_ball_comes_to_rest(b2, (n - 1) as nat);
    }
}

/// A bounce on the vertical boundary inverts only the vertical velocity
/// component; the horizontal one is untouched in that same tick.
pub proof fn lemma_bounce_vertical(pos: (int, int), v: (int, int))
    requires
        pos.0 >= FIELD_BOUNDARY_Y - MARGIN || pos.0 <= MARGIN,
    ensures
        bounce_pair(pos, v) == (-v.0, v.1),
{
}

/// A bounce on the horizontal boundary, away from the vertical one,
/// inverts only the horizontal velocity component.  (When both boundaries
/// are touched at once, the vertical rule wins and the horizontal
/// component stays.)
pub proof fn lemma_bounce_horizontal(pos: (int, int), v: (int, int))
    requires
        MARGIN < pos.0 < FIELD_BOUNDARY_Y - MARGIN,
        pos.1 >= FIELD_BOUNDARY_X - MARGIN || pos.1 <= MARGIN,
    ensures
        bounce_pair(pos, v) == (v.0, -v.1),
{
}

/// Away from every boundary a bounce changes nothing.
pub proof fn lemma_bounce_interior(pos: (int, int), v: (int, int))
    requires
        MARGIN < pos.0 < FIELD_BOUNDARY_Y - MARGIN,
        MARGIN < pos.1 < FIELD_BOUNDARY_X - MARGIN,
    ensures
        bounce_pair(pos, v) == v,
{
}

} // verus!
