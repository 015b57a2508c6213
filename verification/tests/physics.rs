use tokio_web_demo::soccer_field::{Ball, Coordinate, Player, Speed};

#[test]
fn coordinates_clamp_to_field() {
    assert_eq!(Coordinate::new(0, 0), Coordinate(8, 8));
    assert_eq!(Coordinate::new(-100, 50), Coordinate(8, 50));
    assert_eq!(Coordinate::new(1000, 1000), Coordinate(792, 392));
    assert_eq!(Coordinate::new(400, 200), Coordinate(400, 200));
    assert_eq!(Coordinate::new(800, 400), Coordinate(792, 392));
}

#[test]
fn movement_rounds_half_away_from_zero() {
    let mut c = Coordinate(100, 100);
    c.apply_speed_with_boundaries(Speed(1500, -1500));
    assert_eq!(c, Coordinate(102, 99));

    let mut c = Coordinate(100, 100);
    c.apply_speed_with_boundaries(Speed(-500, 500));
    assert_eq!(c, Coordinate(100, 101));

    let mut c = Coordinate(100, 100);
    c.apply_speed_with_boundaries(Speed(-501, 499));
    assert_eq!(c, Coordinate(99, 100));
}

#[test]
fn movement_clamps_at_margins() {
    let mut c = Coordinate(10, 390);
    c.apply_speed_with_boundaries(Speed(-20000, 20000));
    assert_eq!(c, Coordinate(8, 392));

    let mut c = Coordinate(790, 10);
    c.apply_speed_with_boundaries(Speed(20000, -20000));
    assert_eq!(c, Coordinate(792, 8));
}

#[test]
fn friction_decays_exactly_nine_tenths() {
    let mut s = Speed(1000, -500);
    s.reduce();
    assert_eq!(s, Speed(900, -450));

    let mut s = Speed(-1000, 900);
    s.reduce();
    assert_eq!(s, Speed(-900, 810));
}

#[test]
fn friction_zeroes_both_once_either_is_zero() {
    let mut s = Speed(1, 1);
    s.reduce();
    assert_eq!(s, Speed(0, 0));

    let mut s = Speed(10, 0);
    s.reduce();
    assert_eq!(s, Speed(0, 0));

    let mut s = Speed(0, 4000);
    s.reduce();
    assert_eq!(s, Speed(0, 0));
}

#[test]
fn bounce_on_vertical_boundary_flips_only_vertical() {
    let mut b = Ball { position: Coordinate(792, 200), speed: Speed(3000, 1500) };
    b.bounce();
    assert_eq!(b.speed, Speed(-3000, 1500));
    assert_eq!(b.position, Coordinate(792, 200));

    let mut b = Ball { position: Coordinate(8, 200), speed: Speed(-3000, 1500) };
    b.bounce();
    assert_eq!(b.speed, Speed(3000, 1500));
}

#[test]
fn bounce_on_horizontal_boundary_flips_only_horizontal() {
    let mut b = Ball { position: Coordinate(400, 392), speed: Speed(3000, 1500) };
    b.bounce();
    assert_eq!(b.speed, Speed(3000, -1500));

    let mut b = Ball { position: Coordinate(400, 8), speed: Speed(3000, -1500) };
    b.bounce();
    assert_eq!(b.speed, Speed(3000, 1500));
}

#[test]
fn bounce_in_a_corner_flips_only_vertical() {
    let mut b = Ball { position: Coordinate(792, 392), speed: Speed(3000, 1500) };
    b.bounce();
    assert_eq!(b.speed, Speed(-3000, 1500));
}

#[test]
fn bounce_in_the_interior_changes_nothing() {
    let mut b = Ball { position: Coordinate(400, 200), speed: Speed(3000, 1500) };
    b.bounce();
    assert_eq!(b.speed, Speed(3000, 1500));
}

#[test]
fn untouched_ball_comes_to_rest() {
    let mut b = Ball { position: Coordinate(400, 200), speed: Speed(5000, 4000) };
    for _ in 0..200 {
        b.update();
    }
    assert_eq!(b.speed, Speed(0, 0));
    let resting = b.position;
    b.update();
    assert_eq!(b.position, resting);
}

#[test]
fn ball_speed_magnitude_never_grows_without_contact() {
    let mut b = Ball { position: Coordinate(780, 380), speed: Speed(60000, 50000) };
    let mut prev = b.speed;
    for _ in 0..100 {
        b.update();
        assert!(b.speed.0.abs() <= prev.0.abs());
        assert!(b.speed.1.abs() <= prev.1.abs());
        prev = b.speed;
    }
}

#[test]
fn touching_player_overwrites_ball_velocity() {
    // The player moves from (390, 200) toward (450, 200): 6 units per
    // tick, arriving at (396, 200), within the contact threshold of the
    // ball at (400, 200).  The ball's own velocity is replaced by the
    // player's velocity through the bearing, not decayed from its prior
    // value, and its position moves in the same tick.
    let mut p = Player {
        id: 0,
        target: Coordinate(450, 200),
        position: Coordinate(390, 200),
        speed: Speed(0, 0),
    };
    let mut b = Ball { position: Coordinate(400, 200), speed: Speed(2000, 1000) };
    p.update(&mut b);
    assert_eq!(p.position, Coordinate(396, 200));
    assert_eq!(p.speed, Speed(6000, 0));
    assert_eq!(b.speed, Speed(-6000, 0));
    assert_eq!(b.position, Coordinate(394, 200));
}

#[test]
fn arrived_player_freezes() {
    let mut p = Player {
        id: 3,
        target: Coordinate(100, 100),
        position: Coordinate(103, 100),
        speed: Speed(1234, 5678),
    };
    let mut b = Ball { position: Coordinate(400, 200), speed: Speed(0, 0) };
    p.update(&mut b);
    assert_eq!(p.position, Coordinate(103, 100));
    assert_eq!(p.speed, Speed(1234, 5678));
    assert_eq!(b.speed, Speed(0, 0));
}
