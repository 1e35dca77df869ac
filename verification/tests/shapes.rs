use noiter::shapes::circle::Circle;
use noiter::shapes::circumference::Circumference;
use noiter::shapes::line::{LineIter, StepCase};
use noiter::shapes::octant::{octant, Octant};

fn points(mut iter: LineIter) -> Vec<(u16, u16)> {
    let mut out = Vec::new();
    while let Some((_, x, y)) = iter.next() {
        out.push((x, y));
    }
    out
}

#[test]
fn test_line() {
    let arr = [(3, 2), (4, 2), (5, 3), (6, 3), (7, 4), (8, 4)];
    let mut iter = arr.iter().copied();
    for (x, y) in points(LineIter::new(3, 2, 8, 4)) {
        let (nx, ny) = iter.next().unwrap();
        assert_eq!(x, nx, "{x} {y} {nx} {ny}");
        assert_eq!(y, ny, "{x} {y} {nx} {ny}");
    }
    let mut iter = arr.iter().copied().rev();
    for (x, y) in points(LineIter::new(8, 4, 3, 2)) {
        let (nx, ny) = iter.next().unwrap();
        assert_eq!(x, nx, "{x} {y} {nx} {ny}");
        assert_eq!(y, ny, "{x} {y} {nx} {ny}");
    }
    let arr = [(2, 3), (2, 4), (3, 5), (3, 6), (4, 7), (4, 8)];
    let mut iter = arr.iter().copied();
    for (x, y) in points(LineIter::new(2, 3, 4, 8)) {
        let (nx, ny) = iter.next().unwrap();
        assert_eq!(x, nx, "{x} {y} {nx} {ny}");
        assert_eq!(y, ny, "{x} {y} {nx} {ny}");
    }
    let mut iter = arr.iter().copied().rev();
    for (x, y) in points(LineIter::new(4, 8, 2, 3)) {
        let (nx, ny) = iter.next().unwrap();
        assert_eq!(x, nx, "{x} {y} {nx} {ny}");
        assert_eq!(y, ny, "{x} {y} {nx} {ny}");
    }
    for i in 0..8 {
        for j in 0..8 {
            for k in 0..8 {
                if i == k || (j == 0 && k == 8) {
                    continue;
                }
                let iter_a = points(LineIter::new(i, 0, j, 8));
                let iter_b = points(LineIter::new(j, 8, 0, k));
                let iter_c = points(LineIter::new(0, k, i, 0));
                let start_a = iter_a.first().copied();
                let start_b = iter_b.first().copied();
                let start_c = iter_c.first().copied();
                assert_eq!(start_a, Some((i, 0)), "{i} {j} {k}");
                assert_eq!(start_b, Some((j, 8)), "{i} {j} {k}");
                assert_eq!(start_c, Some((0, k)), "{i} {j} {k}");
                assert_eq!(iter_a.last().copied(), start_b, "{i} {j} {k}");
                assert_eq!(iter_b.last().copied(), start_c, "{i} {j} {k}");
                assert_eq!(iter_c.last().copied(), start_a, "{i} {j} {k}");
            }
        }
    }
}

#[test]
fn test_octant() {
    for (i, x, y) in octant(10, 20, 1, 2) {
        assert_eq!(
            (x, y),
            match i {
                Octant::Zero => (11, 22),
                Octant::One => (12, 21),
                Octant::Two => (8, 21),
                Octant::Three => (9, 22),
                Octant::Four => (9, 18),
                Octant::Five => (8, 19),
                Octant::Six => (12, 19),
                Octant::Seven => (11, 18),
            }
        );
    }
}

#[test]
fn octant_lists_all_eight_in_order() {
    let r = octant(100, 200, 3, 5);
    let order: Vec<Octant> = r.iter().map(|p| p.0).collect();
    assert_eq!(
        order,
        vec![
            Octant::Zero,
            Octant::One,
            Octant::Two,
            Octant::Three,
            Octant::Four,
            Octant::Five,
            Octant::Six,
            Octant::Seven
        ]
    );
    assert_eq!((r[0].1, r[0].2), (103, 205));
    assert_eq!((r[5].1, r[5].2), (95, 197));
}

#[test]
fn line_starts_and_ends_at_its_endpoints() {
    for (x0, y0, x1, y1) in [(0, 0, 0, 0), (5, 5, 5, 9), (9, 1, 2, 1), (40000, 3, 39990, 10)] {
        let p = points(LineIter::new(x0, y0, x1, y1));
        assert_eq!(p.first().copied(), Some((x0, y0)));
        assert_eq!(p.last().copied(), Some((x1, y1)));
        for w in p.windows(2) {
            let dx = (w[1].0 as i32 - w[0].0 as i32).abs();
            let dy = (w[1].1 as i32 - w[0].1 as i32).abs();
            assert!(dx <= 1 && dy <= 1 && dx + dy >= 1);
        }
    }
}

#[test]
fn line_of_one_point() {
    assert_eq!(points(LineIter::new(7, 7, 7, 7)), vec![(7, 7)]);
}

#[test]
fn line_first_step_is_start() {
    let mut it = LineIter::new(1, 1, 4, 1);
    assert!(matches!(it.next(), Some((StepCase::Start, 1, 1))));
    assert!(matches!(it.next(), Some((_, 2, 1))));
}

#[test]
fn line_back_undoes_next() {
    let mut it = LineIter::new(0, 0, 6, 3);
    let _ = it.next();
    let _ = it.next();
    let (case, x, y) = it.next().unwrap();
    it.back(case);
    let again = it.next().unwrap();
    assert_eq!((again.1, again.2), (x, y));
}

fn circumference_points(r: u16) -> Vec<(u16, u16)> {
    let mut c = Circumference::new(r);
    let mut out = Vec::new();
    while let Some(p) = c.next() {
        out.push(p);
    }
    out
}

#[test]
fn circumference_of_radius_eight() {
    assert_eq!(
        circumference_points(8),
        vec![(8, 0), (8, 1), (8, 2), (8, 3), (7, 4), (6, 5)]
    );
}

#[test]
fn circumference_of_radius_zero() {
    assert_eq!(circumference_points(0), vec![(0, 0)]);
}

#[test]
fn circumference_of_a_large_radius_is_empty() {
    assert_eq!(circumference_points(40000), vec![]);
}

#[test]
fn circle_of_radius_one() {
    let mut c = Circle::new(10, 10, 1);
    let mut out = Vec::new();
    while let Some(p) = c.next() {
        out.push(p);
    }
    assert_eq!(
        out,
        vec![
            (11, 10),
            (9, 10),
            (10, 10),
            (11, 10),
            (9, 10),
            (10, 10),
            (10, 11),
            (10, 9)
        ]
    );
}

#[test]
fn circle_stays_in_its_square() {
    let mut c = Circle::new(100, 200, 8);
    let mut n = 0;
    while let Some((x, y)) = c.next() {
        assert!((92..=108).contains(&x) && (192..=208).contains(&y));
        n += 1;
    }
    assert!(n > 0);
}

#[test]
fn circle_stays_inside_next_radius() {
    for r in [0u16, 1, 5, 8, 30] {
        let pts = Circle::new(300, 400, r).points();
        assert!(!pts.is_empty());
        for (x, y) in pts {
            let dx = x as i64 - 300;
            let dy = y as i64 - 400;
            assert!(dx * dx + dy * dy < (r as i64 + 1) * (r as i64 + 1));
        }
    }
}

#[test]
fn velocity_turns_toward_directions() {
    let v = noiter::cell::CellVelocity { x: 2, y: -3 };
    let d = noiter::simulate_world::Direction::Left;
    let t = v.to_dir(d);
    assert_eq!((t.x, t.y), (3, 2));
    let t = v.to_dir(noiter::simulate_world::Direction::Up);
    assert_eq!((t.x, t.y), (2, 3));
    let t = v.to_dir(noiter::simulate_world::Direction::DownRight);
    assert_eq!((t.x, t.y), (3, -3));
    assert!(!v.is_zero());
    assert!(noiter::cell::CellVelocity { x: 0, y: 0 }.is_zero());
}

#[test]
fn full_line_crosses_chunks() {
    let start = noiter::chunk_map::FullIndex::from((255u16, 10u16));
    let vel = noiter::cell::CellVelocity { x: 2, y: -1 };
    let mut line = noiter::shapes::line::LineFullIter::new_vel(start, vel);
    let mut cells = Vec::new();
    while let Some((_, i)) = line.next() {
        cells.push(i.to_u16());
    }
    assert_eq!(cells.first().copied(), Some((255, 10)));
    assert_eq!(cells.last().copied(), Some((257, 9)));
    let end = noiter::chunk_map::FullIndex::from((257u16, 9u16));
    assert_eq!(end.chunk_index.x, 1);
    let mut to_end = noiter::shapes::line::LineFullIter::new(start, end);
    let mut n = 0;
    while to_end.next().is_some() {
        n += 1;
    }
    assert_eq!(n, cells.len());
}

#[test]
fn line_has_longer_distance_plus_one_points_and_steps_on_their_axes() {
    for &(x0, y0, x1, y1) in &[(3u16, 2u16, 8u16, 4u16), (10, 10, 7, 20), (5, 5, 5, 5), (0, 9, 4, 0)] {
        let mut it = LineIter::new(x0, y0, x1, y1);
        let mut prev: Option<(u16, u16)> = None;
        let mut n = 0;
        while let Some((case, x, y)) = it.next() {
            if let Some((px, py)) = prev {
                match case {
                    StepCase::Dx => assert!(x != px && y == py),
                    StepCase::Dy => assert!(x == px && y != py),
                    StepCase::Both => assert!(x != px && y != py),
                    StepCase::Start => panic!("a second start"),
                }
            }
            prev = Some((x, y));
            n += 1;
        }
        let dx = (x1 as i32 - x0 as i32).abs();
        let dy = (y1 as i32 - y0 as i32).abs();
        assert_eq!(n, dx.max(dy) + 1);
    }
}

#[test]
fn circle_holds_its_centre_and_four_extreme_points() {
    for r in [0u16, 1, 6, 20] {
        let pts = Circle::new(100, 200, r).points();
        for p in [(100, 200), (100 - r, 200), (100 + r, 200), (100, 200 - r), (100, 200 + r)] {
            assert!(pts.contains(&p), "{r} {p:?}");
        }
    }
}

#[test]
fn circle_is_symmetric_about_its_centre() {
    for r in [0u16, 3, 9, 17] {
        let pts = Circle::new(300, 400, r).points();
        for &(x, y) in &pts {
            assert!(pts.contains(&(600 - x, y)));
            assert!(pts.contains(&(x, 800 - y)));
        }
    }
}

#[test]
fn circumference_of_the_largest_radius_ends() {
    let r: u16 = 0x7fff;
    let mut c = Circumference::new(r);
    let mut n = 0u32;
    let mut last = (0u16, 0u16);
    while let Some(p) = c.next() {
        let (x, y) = (p.0 as u64, p.1 as u64);
        assert!(x * x + y * y < (r as u64 + 1) * (r as u64 + 1));
        last = p;
        n += 1;
    }
    assert!(n > 20000 && last.0 >= last.1);
}

#[test]
fn full_line_runs_between_its_cells_and_a_still_line_is_its_start() {
    let at = |cx: u8, cy: u8, x: u8, y: u8| noiter::chunk_map::FullIndex {
        cell_index: noiter::matrix::MatrixIndex { x, y },
        chunk_index: noiter::matrix::MatrixIndex { x: cx, y: cy },
    };
    let i0 = at(3, 4, 250, 10);
    let i1 = at(4, 4, 3, 12);
    let mut line = noiter::shapes::line::LineFullIter::new(i0, i1);
    let mut cells = Vec::new();
    while let Some((_, i)) = line.next() {
        cells.push(i);
    }
    assert_eq!(cells.first(), Some(&i0));
    assert_eq!(cells.last(), Some(&i1));
    assert_eq!(cells.len(), 10);
    let mut still = noiter::shapes::line::LineFullIter::new_vel(i0, noiter::cell::CellVelocity { x: 0, y: 0 });
    assert!(matches!(still.next(), Some((StepCase::Start, i)) if i == i0));
    assert!(still.next().is_none());
}
