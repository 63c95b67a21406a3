use hexgrid::point::Point;
use hexgrid::direction::Direction;
use hexgrid::grid::{TileGrid, tile_hit_test};
use hexgrid::path::{PathFinder, TileState};
use hexgrid::direction::screen_offset;
use hexgrid::direction::Direction::{NE, E, SE, SW, W, NW};

fn default_grid() -> TileGrid {
    TileGrid::new(Point::new(0, 0), Point::new(0, 0), 200, 200)
}

#[test]
fn tile_hit_test_() {
    let expected = [
        [1, 1, 1, 1, 1, 1, 1, 1, 1, 1, 1, 1, 1, 1, 1, 1, 0, 2, 2, 2, 2, 2, 2, 2, 2, 2, 2, 2, 2, 2, 2, 2],
        [1, 1, 1, 1, 1, 1, 1, 1, 1, 1, 1, 1, 0, 0, 0, 0, 0, 0, 0, 0, 0, 2, 2, 2, 2, 2, 2, 2, 2, 2, 2, 2],
        [1, 1, 1, 1, 1, 1, 1, 1, 0, 0, 0, 0, 0, 0, 0, 0, 0, 0, 0, 0, 0, 0, 0, 0, 0, 2, 2, 2, 2, 2, 2, 2],
        [1, 1, 1, 1, 0, 0, 0, 0, 0, 0, 0, 0, 0, 0, 0, 0, 0, 0, 0, 0, 0, 0, 0, 0, 0, 0, 0, 0, 0, 2, 2, 2],
        [0, 0, 0, 0, 0, 0, 0, 0, 0, 0, 0, 0, 0, 0, 0, 0, 0, 0, 0, 0, 0, 0, 0, 0, 0, 0, 0, 0, 0, 0, 0, 0],
        [0, 0, 0, 0, 0, 0, 0, 0, 0, 0, 0, 0, 0, 0, 0, 0, 0, 0, 0, 0, 0, 0, 0, 0, 0, 0, 0, 0, 0, 0, 0, 0],
        [0, 0, 0, 0, 0, 0, 0, 0, 0, 0, 0, 0, 0, 0, 0, 0, 0, 0, 0, 0, 0, 0, 0, 0, 0, 0, 0, 0, 0, 0, 0, 0],
        [0, 0, 0, 0, 0, 0, 0, 0, 0, 0, 0, 0, 0, 0, 0, 0, 0, 0, 0, 0, 0, 0, 0, 0, 0, 0, 0, 0, 0, 0, 0, 0],
        [0, 0, 0, 0, 0, 0, 0, 0, 0, 0, 0, 0, 0, 0, 0, 0, 0, 0, 0, 0, 0, 0, 0, 0, 0, 0, 0, 0, 0, 0, 0, 0],
        [0, 0, 0, 0, 0, 0, 0, 0, 0, 0, 0, 0, 0, 0, 0, 0, 0, 0, 0, 0, 0, 0, 0, 0, 0, 0, 0, 0, 0, 0, 0, 0],
        [0, 0, 0, 0, 0, 0, 0, 0, 0, 0, 0, 0, 0, 0, 0, 0, 0, 0, 0, 0, 0, 0, 0, 0, 0, 0, 0, 0, 0, 0, 0, 0],
        [0, 0, 0, 0, 0, 0, 0, 0, 0, 0, 0, 0, 0, 0, 0, 0, 0, 0, 0, 0, 0, 0, 0, 0, 0, 0, 0, 0, 0, 0, 0, 0],
        [3, 0, 0, 0, 0, 0, 0, 0, 0, 0, 0, 0, 0, 0, 0, 0, 0, 0, 0, 0, 0, 0, 0, 0, 0, 0, 0, 0, 0, 0, 0, 0],
        [3, 3, 3, 3, 3, 0, 0, 0, 0, 0, 0, 0, 0, 0, 0, 0, 0, 0, 0, 0, 0, 0, 0, 0, 0, 0, 0, 0, 4, 4, 4, 4],
        [3, 3, 3, 3, 3, 3, 3, 3, 3, 0, 0, 0, 0, 0, 0, 0, 0, 0, 0, 0, 0, 0, 0, 0, 4, 4, 4, 4, 4, 4, 4, 4],
        [3, 3, 3, 3, 3, 3, 3, 3, 3, 3, 3, 3, 3, 0, 0, 0, 0, 0, 0, 0, 4, 4, 4, 4, 4, 4, 4, 4, 4, 4, 4, 4]];
    for y in 0..16 {
        for x in 0..32 {
            assert_eq!(tile_hit_test(Point::new(x, y)).code(), expected[y as usize][x as usize]);
        }
    }
}

#[test]
fn from_screen1() {
    let t = TileGrid::new(Point::new(272, 182), Point::new(98, 100), 200, 200);
    assert_eq!(t.from_screen(Point::new(-320, -240)), t.from_linear_inv(12702));
    assert_eq!(t.from_screen(Point::new(-320, 620)), t.from_linear_inv(23538));
    assert_eq!(t.from_screen(Point::new(256, -242)), t.from_linear_inv(14484));
}

#[test]
fn from_screen2() {
    let mut t = default_grid();

    for tpos in &[Point::new(0, 0), Point::new(30, 50)] {
        t.set_pos(*tpos);
        for spos in &[Point::new(0, 0), Point::new(100, 200)] {
            t.set_screen_pos(*spos);
            assert_eq!(t.from_screen(spos.add(Point::new(0, 0))), tpos.add(Point::new(0, -1)));
            assert_eq!(t.from_screen(spos.add(Point::new(16, 0))), tpos.add(Point::new(0, 0)));
            assert_eq!(t.from_screen(spos.add(Point::new(48, 0))), tpos.add(Point::new(1, 0)));
            assert_eq!(t.from_screen(spos.add(Point::new(48, -1))), tpos.add(Point::new(2, 0)));
            assert_eq!(t.from_screen(spos.add(Point::new(0, 4))), tpos.add(Point::new(0, 0)));
        }
    }
}

#[test]
fn to_screen1() {
    let mut t = TileGrid::new(Point::new(272, 182), Point::new(98, 100), 200, 200);

    assert_eq!(t.to_screen(t.from_linear_inv(12702)), Point::new(-336, -250));

    t.set_pos(Point::new(96, 100));
    assert_eq!(t.to_screen(t.from_linear_inv(20704)), Point::new(304, 230));
}

#[test]
fn to_screen2() {
    let t = default_grid();
    assert_eq!(t.to_screen(Point::new(0, 0)), Point::new(0, 0));
}

#[test]
fn go() {
    let t = default_grid();
    assert_eq!(t.go_unbounded(Point::new(0, 0), Direction::W, 1), Point::new(-1, -1));
    assert_eq!(t.go(Point::new(0, 0), Direction::W, 1), None);
    assert_eq!(t.go_clipped(Point::new(0, 0), Direction::W, 1), Point::new(0, 0));
    assert_eq!(t.go_unbounded(Point::new(22, 11), Direction::E, 0), Point::new(22, 11));
    assert_eq!(t.go_unbounded(Point::new(22, 11), Direction::E, 1), Point::new(23, 11));
}

#[test]
fn direction() {
    let t = default_grid();

    for &dir in Direction::values().iter() {
        for dist in 1..=10 {
            let from = Point::new(100, 100);
            let to = t.go_unbounded(from, dir, dist);
            assert_eq!(t.direction(from, to), dir);
        }
    }

    assert_eq!(t.direction(t.from_linear_inv(21101), t.from_linear_inv(18488)), Direction::NE);
}

#[test]
fn distance() {
    let t = default_grid();
    assert_eq!(t.distance(Point::new(1234, -5678), Point::new(1234, -5678)), 0);

    assert_eq!(t.distance(t.from_linear_inv(0x4838), t.from_linear_inv(0x526d)), 19);
    assert_eq!(t.distance(t.from_linear_inv(0x526d), t.from_linear_inv(0x4838)), 19);

    assert_eq!(t.distance(t.from_linear_inv(0x7023), t.from_linear_inv(0x5031)), 52);
    assert_eq!(t.distance(t.from_linear_inv(0x5031), t.from_linear_inv(0x7023)), 52);
}

#[test]
fn is_in_front_of() {
    let t = default_grid();
    assert_eq!(t.is_in_front_of(t.from_linear_inv(0x4450), t.from_linear_inv(0x3e10)), true);
    assert_eq!(t.is_in_front_of(Point::new(100, 100), Point::new(100, 100)), true);
    assert_eq!(t.is_in_front_of(Point::new(101, 100), Point::new(100, 100)), true);
    assert_eq!(t.is_in_front_of(Point::new(100, 101), Point::new(100, 100)), true);
    assert_eq!(t.is_in_front_of(Point::new(100, 99), Point::new(100, 100)), false);
}

#[test]
fn is_to_right_of() {
    let t = default_grid();
    assert_eq!(t.is_to_right_of(Point::new(100, 100), Point::new(100, 100)), true);
    assert_eq!(t.is_to_right_of(Point::new(99, 100), Point::new(100, 100)), true);
    assert_eq!(t.is_to_right_of(Point::new(100, 99), Point::new(100, 100)), true);
    assert_eq!(t.is_to_right_of(Point::new(100, 101), Point::new(100, 100)), true);
    assert_eq!(t.is_to_right_of(Point::new(99, 99), Point::new(100, 100)), true);

    assert_eq!(t.is_to_right_of(Point::new(101, 100), Point::new(100, 100)), false);
    assert_eq!(t.is_to_right_of(Point::new(101, 99), Point::new(100, 100)), false);
    assert_eq!(t.is_to_right_of(Point::new(101, 101), Point::new(100, 100)), false);
}

#[test]
fn path_finder() {
    let mut t = PathFinder::new(default_grid(), 5000);
    assert_eq!(t.steps_len(), 0);

    let no_block = |_p: Point| TileState::Passable(0);
    let all_blocked = |_p: Point| TileState::Blocked;

    assert_eq!(t.find(Point::new(0, 0), Point::new(0, 0), false, no_block), Some(vec![]));
    assert_eq!(t.find(Point::new(0, 0), Point::new(1, 0), false, no_block), Some(vec![E]));
    assert_eq!(t.find(Point::new(0, 0), Point::new(2, 0), false, no_block), Some(vec![E, NE]));
    assert_eq!(t.find(Point::new(0, 0), Point::new(1, 1), false, no_block), Some(vec![E, SE]));
    assert_eq!(t.find(Point::new(1, 1), Point::new(0, 0), false, no_block), Some(vec![W, NW]));
    assert_eq!(t.find(Point::new(0, 1), Point::new(3, 1), false, no_block), Some(vec![E, E, NE]));
    assert_eq!(t.find(Point::new(0, 1), Point::new(3, 0), false, no_block), Some(vec![E, NE, NE]));
    assert_eq!(t.find(Point::new(1, 1), Point::new(1, 4), false, no_block), Some(vec![SE, SE, SE]));

    let block_10 = |p: Point| if p == Point::new(1, 0) {
        TileState::Blocked
    } else {
        TileState::Passable(0)
    };
    assert_eq!(t.find(Point::new(0, 0), Point::new(1, 1), false, block_10), Some(vec![SE, E]));

    let penalty_10 = |p: Point| if p == Point::new(1, 0) {
        TileState::Passable(100)
    } else {
        TileState::Passable(0)
    };
    assert_eq!(t.find(Point::new(0, 0), Point::new(1, 1), false, penalty_10), Some(vec![SE, E]));

    let block_01 = |p: Point| if p == Point::new(0, 1) {
        TileState::Blocked
    } else {
        TileState::Passable(0)
    };
    assert_eq!(t.find(Point::new(1, 1), Point::new(0, 0), false, block_01), Some(vec![NW, W]));

    let block_both = |p: Point| if p == Point::new(0, 1) || p == Point::new(1, 0) {
        TileState::Blocked
    } else {
        TileState::Passable(0)
    };
    assert_eq!(t.find(Point::new(0, 0), Point::new(1, 1), false, block_both), None);

    assert_eq!(t.find(Point::new(0, 0), Point::new(199, 199), false, all_blocked), None);
}

#[test]
fn path_finder_smooth() {
    let mut t = PathFinder::new(default_grid(), 5000);
    assert_eq!(t.find(Point::new(2, 0), Point::new(0, 3), false, |_p: Point| TileState::Passable(0)),
        Some(vec![SE, SW, SE, SW]));
    assert_eq!(t.find(Point::new(2, 0), Point::new(0, 3), true, |_p: Point| TileState::Passable(0)),
        Some(vec![SE, SE, SW, SW]));
}

#[test]
fn path_finder_max_depth() {
    let mut t = PathFinder::new(default_grid(), 10);
    assert_eq!(t.find(Point::new(2, 0), Point::new(0, 0), false,
        |p: Point| if p == Point::new(1, 0) || p == Point::new(0, 1) {
            TileState::Blocked
        } else {
            TileState::Passable(0)
        }),
        None);
    assert_eq!(t.steps_len(), 10);
}

#[test]
fn linear_round_trips() {
    let t = default_grid();
    for &n in &[0, 1, 199, 200, 12702, 0x4838, 200 * 200 - 1] {
        let p = t.from_linear(n);
        assert_eq!(t.to_linear(p), Some(n));
        let q = t.from_linear_inv(n);
        assert_eq!(t.to_linear_inv(q), Some(n));
    }
    assert_eq!(t.from_linear(403), Point::new(3, 2));
    assert_eq!(t.from_linear_inv(403), Point::new(196, 2));
    assert_eq!(t.to_linear(Point::new(200, 0)), None);
    assert_eq!(t.to_linear_inv(Point::new(0, 200)), None);
}

#[test]
fn bounds_and_edges() {
    let t = TileGrid::new(Point::new(0, 0), Point::new(0, 0), 100, 80);
    assert_eq!(t.len(), 8000);
    assert!(t.is_in_bounds(Point::new(0, 0)));
    assert!(t.is_in_bounds(Point::new(99, 79)));
    assert!(!t.is_in_bounds(Point::new(100, 79)));
    assert!(!t.is_in_bounds(Point::new(-1, 0)));
    assert!(t.is_on_edge(Point::new(0, 5)));
    assert!(t.is_on_edge(Point::new(99, 5)));
    assert!(t.is_on_edge(Point::new(5, 79)));
    assert!(!t.is_on_edge(Point::new(5, 5)));
    assert_eq!(t.clip(Point::new(-3, 90)), Point::new(0, 79));
    assert_eq!(t.clip(Point::new(50, 40)), Point::new(50, 40));
}

#[test]
fn go_bounds_round_trip() {
    // `go` answers some exactly when the unbounded step stays in bounds.
    let t = default_grid();
    for &dir in Direction::values().iter() {
        for &(x, y) in &[(0, 0), (0, 199), (199, 0), (199, 199), (5, 5)] {
            let p = Point::new(x, y);
            let q = t.go_unbounded(p, dir, 1);
            assert_eq!(t.go(p, dir, 1).is_some(), t.is_in_bounds(q));
        }
    }
}

#[test]
fn direction_ordinals() {
    assert_eq!(Direction::NE.ordinal(), 0);
    assert_eq!(Direction::E.ordinal(), 1);
    assert_eq!(Direction::SE.ordinal(), 2);
    assert_eq!(Direction::SW.ordinal(), 3);
    assert_eq!(Direction::W.ordinal(), 4);
    assert_eq!(Direction::NW.ordinal(), 5);
    assert_eq!(Direction::from_ordinal(2), Some(Direction::SE));
    assert_eq!(Direction::from_ordinal(6), None);
    for i in 0..6 {
        assert_eq!(Direction::from_ordinal(i).unwrap().ordinal(), i);
    }
}

#[test]
fn screen_offsets() {
    assert_eq!(screen_offset(NE), Point::new(16, -12));
    assert_eq!(screen_offset(E), Point::new(32, 0));
    assert_eq!(screen_offset(SE), Point::new(16, 12));
    assert_eq!(screen_offset(SW), Point::new(-16, 12));
    assert_eq!(screen_offset(W), Point::new(-32, 0));
    assert_eq!(screen_offset(NW), Point::new(-16, -12));
}

#[test]
fn round_trip_center() {
    // The pixel 16 right and 8 down of a tile's anchor maps back to the tile.
    let t = TileGrid::new(Point::new(272, 182), Point::new(98, 100), 200, 200);
    for &(x, y) in &[(0, 0), (98, 100), (97, 3), (199, 199), (1, 1), (150, 42)] {
        let p = Point::new(x, y);
        let s = t.to_screen(p);
        assert_eq!(t.from_screen(s.add(Point::new(16, 8))), p);
    }
}

#[test]
fn screen_pos_mut_updates() {
    let mut t = default_grid();
    *t.screen_pos_mut() = Point::new(7, 9);
    assert_eq!(t.screen_pos(), Point::new(7, 9));
    assert_eq!(t.pos(), Point::new(0, 0));
    assert_eq!(t.width(), 200);
    assert_eq!(t.height(), 200);
}

#[test]
fn beyond_walks() {
    let t = default_grid();
    assert_eq!(t.beyond(Point::new(3, 3), Point::new(3, 3), 0), Point::new(3, 3));
    assert_eq!(t.beyond(Point::new(10, 10), Point::new(20, 10), 5), Point::new(8, 13));
    assert_eq!(t.beyond(Point::new(10, 10), Point::new(10, 20), 3), Point::new(9, 11));
    assert_eq!(t.beyond(Point::new(5, 5), Point::new(8, 9), 100), Point::new(0, 14));
    let u = TileGrid::new(Point::new(272, 182), Point::new(98, 100), 200, 200);
    assert_eq!(u.beyond(Point::new(98, 100), Point::new(102, 104), 7), Point::new(95, 104));
}
