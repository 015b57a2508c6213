//! The simulation-loop step and the join protocol.
//!
//! The loop itself (sleeping, draining the inbound channel, broadcasting)
//! lives outside the library; what it decides each tick is `tick`: apply
//! the drained commands in arrival order, advance physics once, and
//! publish a snapshot only while somebody subscribes.  The join handshake
//! is a correlation-token protocol: `new_join_token` draws the token and
//! `match_join` is the filter a connecting relay runs on every event.

use vstd::prelude::*;

use crate::soccer_field::{
    has_player, join_spec, leave_spec, new_player, player_step, remove_id, run_players,
    set_target, snapshot_spec, target_spec, world_physics, world_wf, PositionsList, SoccerField,
    WorldModel,
};

verus! {

/// A command into the simulation loop.
#[derive(Copy, Clone, Debug, PartialEq, Eq, Structural)]
pub enum PlayerUpdates {
    /// A new steering target (vertical, horizontal) for the player.
    Position(u16, i16, i16),
    /// A join request carrying the connection's correlation token.
    Join(u16),
    /// The player with this id leaves the field.
    Leave(u16),
}

/// An event out of the simulation loop.
#[derive(Clone, Debug)]
pub enum FieldUpdates {
    /// The snapshot of all positions after a tick.
    Positions(PositionsList),
    /// A join acknowledgement: correlation token, then the assigned id.
    Joined(u16, u16),
}

/// The world after one command: a steering update, a join, or a leave.
pub open spec fn apply_command(w: WorldModel, c: PlayerUpdates) -> WorldModel {
    match c {
        PlayerUpdates::Position(id, y, x) => target_spec(w, id as int, y as int, x as int),
        PlayerUpdates::Join(_) => join_spec(w),
        PlayerUpdates::Leave(id) => leave_spec(w, id as int),
    }
}

/// The world after a batch of commands, applied in arrival order.
pub open spec fn apply_commands(w: WorldModel, cmds: Seq<PlayerUpdates>) -> WorldModel
    decreases cmds.len(),
{
    if cmds.len() == 0 {
        w
    } else {
        apply_commands(apply_command(w, cmds[0]), cmds.drop_first())
    }
}

/// How many of the commands are join requests.
pub open spec fn join_count(cmds: Seq<PlayerUpdates>) -> int
    decreases cmds.len(),
{
    if cmds.len() == 0 {
        0
    } else {
        (if cmds[0] is Join {
            1int
        } else {
            0int
        }) + join_count(cmds.drop_first())
    }
}

/// The join acknowledgements a batch of commands produces, in order:
/// one Joined event per join request, carrying the id counter at the
/// moment that join was applied.
pub open spec fn joined_events(w: WorldModel, cmds: Seq<PlayerUpdates>) -> Seq<FieldUpdates>
    decreases cmds.len(),
{
    if cmds.len() == 0 {
        Seq::empty()
    } else {
        let head: Seq<FieldUpdates> = match cmds[0] {
            PlayerUpdates::Join(tok) => seq![FieldUpdates::Joined(tok, w.id_inc as u16)],
            _ => Seq::empty(),
        };
        head + joined_events(apply_command(w, cmds[0]), cmds.drop_first())
    }
}

/// One whole tick of the world: all commands in order, then physics.
pub open spec fn tick_spec(w: WorldModel, cmds: Seq<PlayerUpdates>) -> WorldModel {
    world_physics(apply_commands(w, cmds))
}

proof fn lemma_join_count_nonneg(cmds: Seq<PlayerUpdates>)
    ensures
        join_count(cmds) >= 0,
    decreases cmds.len(),
{
    if cmds.len() > 0 {
        lemma_join_count_nonneg(cmds.drop_first());
    }
}

/// Appending one command applies it after the rest.
proof fn lemma_apply_commands_snoc(w: WorldModel, cmds: Seq<PlayerUpdates>, c: PlayerUpdates)
    ensures
        apply_commands(w, cmds.push(c)) == apply_command(apply_commands(w, cmds), c),
    decreases cmds.len(),
{
    reveal_with_fuel(apply_commands, 3);
    if cmds.len() == 0 {
        assert(cmds.push(c)[0] == c);
        assert(cmds.push(c).drop_first() =~= cmds);
    } else {
        assert(cmds.push(c)[0] == cmds[0]);
        assert(cmds.push(c).drop_first() =~= cmds.drop_first().push(c));
        lemma_apply_commands_snoc(apply_command(w, cmds[0]), cmds.drop_first(), c);
    }
}

/// Appending one command appends its acknowledgement, if any.
proof fn lemma_joined_events_snoc(w: WorldModel, cmds: Seq<PlayerUpdates>, c: PlayerUpdates)
    ensures
        joined_events(w, cmds.push(c)) =~= joined_events(w, cmds) + (match c {
            PlayerUpdates::Join(tok) => seq![
                FieldUpdates::Joined(tok, apply_commands(w, cmds).id_inc as u16),
            ],
            _ => Seq::<FieldUpdates>::empty(),
        }),
    decreases cmds.len(),
{
    reveal_with_fuel(apply_commands, 3);
    reveal_with_fuel(joined_events, 3);
    if cmds.len() == 0 {
        assert(cmds.push(c)[0] == c);
        assert(cmds.push(c).drop_first() =~= cmds);
    } else {
        assert(cmds.push(c)[0] == cmds[0]);
        assert(cmds.push(c).drop_first() =~= cmds.drop_first().push(c));
        lemma_joined_events_snoc(apply_command(w, cmds[0]), cmds.drop_first(), c);
    }
}

/// Splitting a batch at its first command splits its join count.
proof fn lemma_join_count_first(cmds: Seq<PlayerUpdates>)
    requires
        cmds.len() > 0,
    ensures
        join_count(cmds) == (if cmds[0] is Join {
            1int
        } else {
            0int
        }) + join_count(cmds.drop_first()),
{
}

/// One whole step of the simulation loop, between two sleeps: apply every
/// drained command in arrival order, advance physics by one tick, and,
/// only while at least one subscriber listens, append the snapshot of the
/// new world to the outgoing events.  The returned events are the join
/// acknowledgements in command order, then that optional snapshot.
pub fn tick(
    field: &mut SoccerField,
    commands: &Vec<PlayerUpdates>,
    subscribers: usize,
) -> (events: Vec<FieldUpdates>)
    requires
        world_wf(old(field)@),
        old(field)@.id_inc + join_count(commands@) <= u16::MAX,
    ensures
        final(field)@ == tick_spec(old(field)@, commands@),
        world_wf(final(field)@),
        events@.len() == joined_events(old(field)@, commands@).len() + (if subscribers > 0 {
            1int
        } else {
            0int
        }),
        events@.take(joined_events(old(field)@, commands@).len() as int) == joined_events(
            old(field)@,
            commands@,
        ),
        subscribers > 0 ==> (events@.last() matches FieldUpdates::Positions(pl) && pl@
            == snapshot_spec(final(field)@)),
        subscribers == 0 ==> forall|j: int|
            0 <= j < events@.len() ==> !(#[trigger] events@[j] is Positions),
{
    let ghost w0 = old(field)@;
    let ghost all = commands@;
    let mut events: Vec<FieldUpdates> = Vec::new();
    let n = commands.len();
    let mut i: usize = 0;
    proof {
        assert(all.take(0) =~= Seq::<PlayerUpdates>::empty());
        assert(all.skip(0) =~= all);
        assert(events@ =~= joined_events(w0, all.take(0)));
    }
    while i < n
        invariant
            i <= n,
            n == commands@.len(),
            commands@ == all,
            w0.id_inc >= 0,
            world_wf(field@),
            field@ == apply_commands(w0, all.take(i as int)),
            field@.id_inc + join_count(all.skip(i as int)) <= u16::MAX,
            events@ =~= joined_events(w0, all.take(i as int)),
            forall|j: int| 0 <= j < events@.len() ==> #[trigger] events@[j] is Joined,
        decreases n - i,
    {
        let c = commands[i];
        proof {
            assert(all.skip(i as int)[0] == all[i as int]);
            assert(all.skip(i as int).drop_first() =~= all.skip(i as int + 1));
            lemma_join_count_first(all.skip(i as int));
            lemma_join_count_nonneg(all.skip(i as int + 1));
            lemma_apply_commands_snoc(w0, all.take(i as int), c);
            lemma_joined_events_snoc(w0, all.take(i as int), c);
            assert(all.take(i as int).push(c) =~= all.take(i as int + 1));
        }
        match c {
            PlayerUpdates::Position(id, y, x) => {
                field.set_player_target(id, y, x);
            },
            PlayerUpdates::Join(token) => {
                let id = field.player_join();
                events.push(FieldUpdates::Joined(token, id));
            },
            PlayerUpdates::Leave(id) => {
                field.player_leave(id);
            },
        }
        proof {
            assert(events@ =~= joined_events(w0, all.take(i as int + 1)));
        }
        i = i + 1;
    }
    proof {
        assert(all.take(n as int) =~= all);
        lemma_join_count_nonneg(all.skip(n as int));
    }
    field.update();
    let ghost acks = joined_events(w0, all);
    proof {
        assert(events@.take(acks.len() as int) =~= events@);
    }
    if subscribers > 0 {
        let snap = field.positions();
        events.push(FieldUpdates::Positions(snap));
        proof {
            assert(events@.take(acks.len() as int) =~= acks);
        }
    }
    events
}

/// Draw a fresh correlation token for a join handshake.  The value is
/// random: nothing is promised of it, and the protocol filters strictly
/// by equality, so nothing needs to be.
pub fn new_join_token() -> u16 {
    rand::random::<u16>()
}

/// Relies on rand::random: a uniformly drawn value of the type; nothing
/// is promised of the result.
pub assume_specification<T>[ rand::random::<T> ]() -> (r: T)
    where
        rand::distributions::Standard: rand::distributions::Distribution<T>,
;

/// The handshake filter: a relay holding its own token accepts exactly a
/// Joined event that carries that token, and takes the id it brings;
/// every other event is discarded.
pub fn match_join(token: u16, event: &FieldUpdates) -> (r: Option<u16>)
    ensures
        match *event {
            FieldUpdates::Joined(t, id) => r == (if t == token {
                Some(id)
            } else {
                None::<u16>
            }),
            _ => r == None::<u16>,
        },
{
    match event {
        FieldUpdates::Joined(t, id) => {
            if *t == token {
                Some(*id)
            } else {
                None
            }
        },
        _ => None,
    }
}

/// How many of the commands are joins carrying exactly this token.
pub open spec fn join_count_token(cmds: Seq<PlayerUpdates>, t: u16) -> int
    decreases cmds.len(),
{
    if cmds.len() == 0 {
        0
    } else {
        (if cmds[0] == PlayerUpdates::Join(t) {
            1int
        } else {
            0int
        }) + join_count_token(cmds.drop_first(), t)
    }
}

/// The ids carried by the Joined events for one token, in event order.
pub open spec fn ids_for_token(events: Seq<FieldUpdates>, t: u16) -> Seq<u16>
    decreases events.len(),
{
    if events.len() == 0 {
        Seq::empty()
    } else {
        let rest = ids_for_token(events.drop_first(), t);
        match events[0] {
            FieldUpdates::Joined(et, id) => if et == t {
                seq![id] + rest
            } else {
                rest
            },
            _ => rest,
        }
    }
}

/// The ids carried by all Joined events, in event order.
pub open spec fn joined_ids(events: Seq<FieldUpdates>) -> Seq<u16>
    decreases events.len(),
{
    if events.len() == 0 {
        Seq::empty()
    } else {
        let rest = joined_ids(events.drop_first());
        match events[0] {
            FieldUpdates::Joined(_, id) => seq![id] + rest,
            _ => rest,
        }
    }
}

/// A batch acknowledges one Joined event per Join with a given token, and
/// every id it assigns is at least the id counter it started from.
pub proof fn lemma_ids_for_token_counts(w: WorldModel, cmds: Seq<PlayerUpdates>, t: u16)
    requires
        0 <= w.id_inc,
        w.id_inc + join_count(cmds) <= u16::MAX,
    ensures
        ids_for_token(joined_events(w, cmds), t).len() == join_count_token(cmds, t),
        forall|k: int|
            0 <= k < ids_for_token(joined_events(w, cmds), t).len() ==> #[trigger] ids_for_token(
                joined_events(w, cmds),
                t,
            )[k] >= w.id_inc,
    decreases cmds.len(),
{
    if cmds.len() > 0 {
        let w1 = apply_command(w, cmds[0]);
        let rest = cmds.drop_first();
        let tail = joined_events(w1, rest);
        lemma_join_count_first(cmds);
        lemma_join_count_nonneg(rest);
        lemma_ids_for_token_counts(w1, rest, t);
        match cmds[0] {
            PlayerUpdates::Join(tok) => {
                let e = FieldUpdates::Joined(tok, w.id_inc as u16);
                assert(joined_events(w, cmds) =~= seq![e] + tail);
                assert((seq![e] + tail)[0] == e);
                assert((seq![e] + tail).drop_first() =~= tail);
            },
            _ => {
                assert(joined_events(w, cmds) =~= tail);
            },
        }
    }
}

/// The ids a batch assigns are strictly increasing in event order (and so
/// pairwise distinct), starting at the id counter the batch began with.
pub proof fn lemma_joined_ids_strictly_increase(w: WorldModel, cmds: Seq<PlayerUpdates>)
    requires
        0 <= w.id_inc,
        w.id_inc + join_count(cmds) <= u16::MAX,
    ensures
        joined_ids(joined_events(w, cmds)).len() == join_count(cmds),
        forall|k: int|
            0 <= k < joined_ids(joined_events(w, cmds)).len() ==> #[trigger] joined_ids(
                joined_events(w, cmds),
            )[k] >= w.id_inc,
        forall|a: int, b: int|
            0 <= a < b < joined_ids(joined_events(w, cmds)).len() ==> #[trigger] joined_ids(
                joined_events(w, cmds),
            )[a] < #[trigger] joined_ids(joined_events(w, cmds))[b],
        forall|k: int|
            0 <= k < joined_ids(joined_events(w, cmds)).len() ==> #[trigger] joined_ids(
                joined_events(w, cmds),
            )[k] < w.id_inc + join_count(cmds),
    decreases cmds.len(),
{
    if cmds.len() > 0 {
        let w1 = apply_command(w, cmds[0]);
        let rest = cmds.drop_first();
        let tail = joined_events(w1, rest);
        lemma_join_count_first(cmds);
        lemma_join_count_nonneg(rest);
        lemma_joined_ids_strictly_increase(w1, rest);
        match cmds[0] {
            PlayerUpdates::Join(tok) => {
                let e = FieldUpdates::Joined(tok, w.id_inc as u16);
                assert(joined_events(w, cmds) =~= seq![e] + tail);
                assert((seq![e] + tail)[0] == e);
                assert((seq![e] + tail).drop_first() =~= tail);
                assert(w1.id_inc == w.id_inc + 1);
            },
            _ => {
                assert(joined_events(w, cmds) =~= tail);
                assert(w1.id_inc == w.id_inc);
            },
        }
    }
}

/// Two concurrent joins with different correlation tokens each receive
/// exactly one Joined event carrying their own token, and the two ids
/// assigned are distinct.
pub proof fn lemma_concurrent_joins(w: WorldModel, cmds: Seq<PlayerUpdates>, ta: u16, tb: u16)
    requires
        0 <= w.id_inc,
        w.id_inc + join_count(cmds) <= u16::MAX,
        ta != tb,
        join_count_token(cmds, ta) == 1,
        join_count_token(cmds, tb) == 1,
    ensures
        ids_for_token(joined_events(w, cmds), ta).len() == 1,
        ids_for_token(joined_events(w, cmds), tb).len() == 1,
        ids_for_token(joined_events(w, cmds), ta)[0] != ids_for_token(
            joined_events(w, cmds),
            tb,
        )[0],
    decreases cmds.len(),
{
    lemma_ids_for_token_counts(w, cmds, ta);
    lemma_ids_for_token_counts(w, cmds, tb);
    let w1 = apply_command(w, cmds[0]);
    let rest = cmds.drop_first();
    let tail = joined_events(w1, rest);
    lemma_join_count_first(cmds);
    lemma_join_count_nonneg(rest);
    match cmds[0] {
        PlayerUpdates::Join(tok) => {
            let e = FieldUpdates::Joined(tok, w.id_inc as u16);
            assert(joined_events(w, cmds) =~= seq![e] + tail);
            assert((seq![e] + tail)[0] == e);
            assert((seq![e] + tail).drop_first() =~= tail);
            if tok == ta {
                lemma_ids_for_token_counts(w1, rest, tb);
                assert(ids_for_token(joined_events(w, cmds), tb) =~= ids_for_token(tail, tb));
                assert(ids_for_token(tail, tb)[0] >= w1.id_inc);
            } else if tok == tb {
                lemma_ids_for_token_counts(w1, rest, ta);
                assert(ids_for_token(joined_events(w, cmds), ta) =~= ids_for_token(tail, ta));
                assert(ids_for_token(tail, ta)[0] >= w1.id_inc);
            } else {
                lemma_concurrent_joins(w1, rest, ta, tb);
            }
        },
        _ => {
            assert(joined_events(w, cmds) =~= tail);
            lemma_concurrent_joins(w1, rest, ta, tb);
        },
    }
}


/// Applying a batch raises the id counter by exactly its join count, and
/// the physics step leaves the counter alone.
proof fn lemma_id_inc_after_commands(w: WorldModel, cmds: Seq<PlayerUpdates>)
    ensures
        apply_commands(w, cmds).id_inc == w.id_inc + join_count(cmds),
        tick_spec(w, cmds).id_inc == w.id_inc + join_count(cmds),
    decreases cmds.len(),
{
    if cmds.len() > 0 {
        lemma_id_inc_after_commands(apply_command(w, cmds[0]), cmds.drop_first());
    }
}

/// Ids keep strictly increasing across whole ticks: every id assigned in
/// a later tick is larger than every id assigned in an earlier one, so an
/// id is never handed out twice over the engine's lifetime.
pub proof fn lemma_ids_increase_across_ticks(
    w: WorldModel,
    first: Seq<PlayerUpdates>,
    second: Seq<PlayerUpdates>,
)
    requires
        0 <= w.id_inc,
        w.id_inc + join_count(first) <= u16::MAX,
        tick_spec(w, first).id_inc + join_count(second) <= u16::MAX,
    ensures
        forall|a: int, b: int|
            0 <= a < joined_ids(joined_events(w, first)).len() && 0 <= b < joined_ids(
                joined_events(tick_spec(w, first), second),
            ).len() ==> #[trigger] joined_ids(joined_events(w, first))[a] < #[trigger] joined_ids(
                joined_events(tick_spec(w, first), second),
            )[b],
{
    lemma_join_count_nonneg(first);
    lemma_join_count_nonneg(second);
    lemma_id_inc_after_commands(w, first);
    lemma_joined_ids_strictly_increase(w, first);
    lemma_joined_ids_strictly_increase(tick_spec(w, first), second);
}


/// The worlds reached by a run of whole ticks, one command batch each.
pub open spec fn run_ticks(w: WorldModel, batches: Seq<Seq<PlayerUpdates>>) -> WorldModel
    decreases batches.len(),
{
    if batches.len() == 0 {
        w
    } else {
        run_ticks(tick_spec(w, batches[0]), batches.drop_first())
    }
}

/// Removing some id never brings another id in.
proof fn lemma_remove_id_keeps_absent(ps: Seq<crate::soccer_field::PlayerModel>, rid: int, id: int)
    requires
        forall|j: int| 0 <= j < ps.len() ==> (#[trigger] ps[j]).id != id,
    ensures
        forall|k: int|
            0 <= k < remove_id(ps, rid).len() ==> (#[trigger] remove_id(ps, rid)[k]).id != id,
    decreases ps.len(),
{
    if ps.len() > 0 {
        assert forall|j: int| 0 <= j < ps.drop_first().len() implies (#[trigger] ps.drop_first()[j]).id
            != id by {
            assert(ps.drop_first()[j] == ps[j + 1]);
        }
        lemma_remove_id_keeps_absent(ps.drop_first(), rid, id);
        let out = remove_id(ps, rid);
        if ps[0].id == rid {
            assert forall|k: int| 0 <= k < out.len() implies (#[trigger] out[k]).id != id by {
                assert(out[k] == ps.drop_first()[k]);
            }
        } else {
            assert forall|k: int| 0 <= k < out.len() implies (#[trigger] out[k]).id != id by {
                if k == 0 {
                    assert(out[k] == ps[0]);
                } else {
                    assert(out[k] == remove_id(ps.drop_first(), rid)[k - 1]);
                }
            }
        }
    }
}

/// Retargeting keeps every id exactly where it is.
proof fn lemma_set_target_keeps_ids(ps: Seq<crate::soccer_field::PlayerModel>, tid: int, y: int, x: int)
    ensures
        set_target(ps, tid, y, x).len() == ps.len(),
        forall|k: int|
            0 <= k < ps.len() ==> (#[trigger] set_target(ps, tid, y, x)[k]).id == ps[k].id,
    decreases ps.len(),
{
    if ps.len() > 0 {
        lemma_set_target_keeps_ids(ps.drop_first(), tid, y, x);
    }
}

/// Physics keeps every id exactly where it is.
proof fn lemma_run_players_keeps_ids(
    ps: Seq<crate::soccer_field::PlayerModel>,
    b: crate::soccer_field::BallModel,
)
    ensures
        run_players(ps, b).0.len() == ps.len(),
        forall|k: int| 0 <= k < ps.len() ==> (#[trigger] run_players(ps, b).0[k]).id == ps[k].id,
    decreases ps.len(),
{
    if ps.len() > 0 {
        let first = player_step(ps[0], b);
        lemma_run_players_keeps_ids(ps.drop_first(), first.1);
    }
}

/// One command cannot resurrect an id the counter has already passed.
proof fn lemma_absent_after_command(w: WorldModel, c: PlayerUpdates, id: int)
    requires
        !has_player(w, id),
        id < w.id_inc,
    ensures
        !has_player(apply_command(w, c), id),
        id < apply_command(w, c).id_inc,
{
    let w1 = apply_command(w, c);
    match c {
        PlayerUpdates::Position(pid, y, x) => {
            lemma_set_target_keeps_ids(w.players, pid as int, y as int, x as int);
            assert forall|k: int| 0 <= k < w1.players.len() implies (#[trigger] w1.players[k]).id
                != id by {
                assert(w1.players[k].id == w.players[k].id);
            }
        },
        PlayerUpdates::Join(_) => {
            assert forall|k: int| 0 <= k < w1.players.len() implies (#[trigger] w1.players[k]).id
                != id by {
                if k < w.players.len() {
                    assert(w1.players[k] == w.players[k]);
                } else {
                    assert(w1.players[k] == new_player(w.id_inc));
                }
            }
        },
        PlayerUpdates::Leave(rid) => {
            lemma_remove_id_keeps_absent(w.players, rid as int, id);
        },
    }
}

/// A batch of commands cannot resurrect such an id either.
proof fn lemma_absent_after_commands(w: WorldModel, cmds: Seq<PlayerUpdates>, id: int)
    requires
        !has_player(w, id),
        id < w.id_inc,
    ensures
        !has_player(apply_commands(w, cmds), id),
        id < apply_commands(w, cmds).id_inc,
    decreases cmds.len(),
{
    if cmds.len() > 0 {
        lemma_absent_after_command(w, cmds[0], id);
        lemma_absent_after_commands(apply_command(w, cmds[0]), cmds.drop_first(), id);
    }
}

/// Neither can the physics step.
proof fn lemma_absent_after_physics(w: WorldModel, id: int)
    requires
        !has_player(w, id),
    ensures
        !has_player(world_physics(w), id),
        world_physics(w).id_inc == w.id_inc,
{
    let w1 = world_physics(w);
    lemma_run_players_keeps_ids(w.players, w.ball);
    assert forall|k: int| 0 <= k < w1.players.len() implies (#[trigger] w1.players[k]).id != id by {
        assert(w1.players[k].id == w.players[k].id);
    }
}

/// Once a player has left, its id is gone for good: ids are never reused,
/// so no later world and no later snapshot carries it again, whatever
/// commands later ticks bring.
pub proof fn lemma_leave_is_permanent(w: WorldModel, id: int, batches: Seq<Seq<PlayerUpdates>>)
    requires
        !has_player(w, id),
        id < w.id_inc,
    ensures
        !has_player(run_ticks(w, batches), id),
        id < run_ticks(w, batches).id_inc,
        forall|k: int|
            0 <= k < snapshot_spec(run_ticks(w, batches)).players.len() ==> (
            #[trigger] snapshot_spec(run_ticks(w, batches)).players[k]).0 != id,
    decreases batches.len(),
{
    if batches.len() == 0 {
    } else {
        lemma_absent_after_commands(w, batches[0], id);
        lemma_absent_after_physics(apply_commands(w, batches[0]), id);
        lemma_leave_is_permanent(tick_spec(w, batches[0]), id, batches.drop_first());
    }
    let wn = run_ticks(w, batches);
    assert forall|k: int| 0 <= k < snapshot_spec(wn).players.len() implies (
    #[trigger] snapshot_spec(wn).players[k]).0 != id by {
        assert(snapshot_spec(wn).players[k] == (wn.players[k].id, wn.players[k].pos));
    }
}


} // verus!
