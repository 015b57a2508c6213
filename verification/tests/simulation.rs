use tokio_web_demo::engine::{match_join, new_join_token, tick, FieldUpdates, PlayerUpdates};
use tokio_web_demo::soccer_field::{Coordinate, SoccerField};

fn joined(events: &[FieldUpdates]) -> Vec<(u16, u16)> {
    events
        .iter()
        .filter_map(|e| match e {
            FieldUpdates::Joined(t, id) => Some((*t, *id)),
            _ => None,
        })
        .collect()
}

fn snapshots(events: &[FieldUpdates]) -> usize {
    events
        .iter()
        .filter(|e| matches!(e, FieldUpdates::Positions(_)))
        .count()
}

#[test]
fn concurrent_joins_get_distinct_increasing_ids() {
    let mut field = SoccerField::new();
    let cmds = vec![PlayerUpdates::Join(42), PlayerUpdates::Join(43)];
    let events = tick(&mut field, &cmds, 0);
    assert_eq!(joined(&events), vec![(42, 0), (43, 1)]);

    // Each relay filters strictly by its own token.
    let mine: Vec<u16> = events.iter().filter_map(|e| match_join(42, e)).collect();
    let theirs: Vec<u16> = events.iter().filter_map(|e| match_join(43, e)).collect();
    assert_eq!(mine, vec![0]);
    assert_eq!(theirs, vec![1]);
    assert_ne!(mine[0], theirs[0]);
}

#[test]
fn ids_are_never_reused_after_a_leave() {
    let mut field = SoccerField::new();
    let events = tick(&mut field, &vec![PlayerUpdates::Join(1)], 0);
    assert_eq!(joined(&events), vec![(1, 0)]);

    tick(&mut field, &vec![PlayerUpdates::Leave(0)], 0);
    let events = tick(&mut field, &vec![PlayerUpdates::Join(2)], 0);
    assert_eq!(joined(&events), vec![(2, 1)]);
}

#[test]
fn no_snapshot_without_subscribers() {
    let mut field = SoccerField::new();
    let mut published: usize = 0;
    published += snapshots(&tick(&mut field, &vec![PlayerUpdates::Join(5)], 0));
    for _ in 0..10 {
        published += snapshots(&tick(&mut field, &Vec::new(), 0));
    }
    assert_eq!(published, 0);
}

#[test]
fn snapshot_published_once_per_tick_with_subscribers() {
    let mut field = SoccerField::new();
    let events = tick(&mut field, &vec![PlayerUpdates::Join(5)], 1);
    assert_eq!(snapshots(&events), 1);
    match events.last().unwrap() {
        FieldUpdates::Positions(list) => {
            assert_eq!(list.ball, Coordinate(400, 200));
            assert_eq!(list.players.len(), 1);
            assert_eq!(list.players[0], (0, Coordinate(8, 8)));
        },
        other => panic!("expected a snapshot, got {:?}", other),
    }
}

#[test]
fn left_player_never_reappears_in_snapshots() {
    let mut field = SoccerField::new();
    tick(&mut field, &vec![PlayerUpdates::Join(1), PlayerUpdates::Join(2)], 0);
    let cmds = vec![PlayerUpdates::Leave(0), PlayerUpdates::Join(3)];
    let events = tick(&mut field, &cmds, 1);
    for _ in 0..5 {
        let more = tick(&mut field, &Vec::new(), 1);
        for e in events.iter().chain(more.iter()) {
            if let FieldUpdates::Positions(list) = e {
                assert!(list.players.iter().all(|(id, _)| *id != 0));
            }
        }
    }
}

#[test]
fn stale_commands_are_silent_noops() {
    let mut field = SoccerField::new();
    tick(&mut field, &vec![PlayerUpdates::Join(1)], 0);
    // Position and Leave for ids that do not exist change nothing.
    let events = tick(
        &mut field,
        &vec![PlayerUpdates::Position(77, 100, 100), PlayerUpdates::Leave(77)],
        0,
    );
    assert_eq!(events.len(), 0);
    assert_eq!(field.players.len(), 1);
    assert_eq!(field.players[0].position, Coordinate(8, 8));
}

#[test]
fn match_join_filters_by_token() {
    assert_eq!(match_join(5, &FieldUpdates::Joined(5, 3)), Some(3));
    assert_eq!(match_join(5, &FieldUpdates::Joined(6, 3)), None);
    let mut field = SoccerField::new();
    let events = tick(&mut field, &Vec::new(), 1);
    assert_eq!(match_join(5, events.last().unwrap()), None);
}

#[test]
fn join_tokens_are_drawable() {
    // Nothing is promised of the value; the call must merely work.
    let _t: u16 = new_join_token();
}

#[test]
fn player_converges_to_its_target_and_stays() {
    // Field 800 x 400 with margin 8 and maximum speed 5 per tick: a
    // player joining at the clamped origin (8, 8) and steering toward
    // (400, 0) (clamped to (400, 8)) ends up within the arrived
    // threshold of 5 units and its position never moves again.
    let mut field = SoccerField::new();
    tick(&mut field, &vec![PlayerUpdates::Join(9)], 0);
    tick(&mut field, &vec![PlayerUpdates::Position(0, 400, 0)], 0);
    for _ in 0..300 {
        tick(&mut field, &Vec::new(), 0);
    }
    let settled = field.players[0].position;
    let dy = (settled.0 as i64 - 400).abs();
    let dx = (settled.1 as i64 - 8).abs();
    assert!(dy * dy + dx * dx <= 25, "settled too far away: {:?}", settled);
    for _ in 0..50 {
        tick(&mut field, &Vec::new(), 0);
        assert_eq!(field.players[0].position, settled);
    }
}

#[test]
fn colliding_tokens_still_get_distinct_ids() {
    // A token collision is possible (tokens are only 16 bits wide): both
    // joins are acknowledged, with distinct ids; a relay filtering by
    // that token simply takes the first.
    let mut field = SoccerField::new();
    let events = tick(&mut field, &vec![PlayerUpdates::Join(7), PlayerUpdates::Join(7)], 0);
    assert_eq!(joined(&events), vec![(7, 0), (7, 1)]);
}

#[test]
fn many_joins_in_one_tick_get_strictly_increasing_ids() {
    let mut field = SoccerField::new();
    let cmds: Vec<PlayerUpdates> = (0..300u16).map(PlayerUpdates::Join).collect();
    let events = tick(&mut field, &cmds, 0);
    let ids: Vec<u16> = joined(&events).iter().map(|(_, id)| *id).collect();
    assert_eq!(ids.len(), 300);
    for w in ids.windows(2) {
        assert!(w[0] < w[1]);
    }
    assert_eq!(field.players.len(), 300);
}
