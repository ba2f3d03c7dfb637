use ruscape::{
    LinkId,
    n_values, toroidal_distance, toroidal_transform, AgentSet, OriginLocation, PatchSet,
    SampleError, TurtleSet, VarStore, World, FULL_TURN, SCALE,
};

fn set_of(ids: &[usize]) -> TurtleSet {
    AgentSet::from_ids(&ids.to_vec())
}

#[test]
fn identities_stay_dense_after_death() {
    let mut w: World<i64> = World::init(0, 10, 10, OriginLocation::Corner, true);
    let born = w.crt(10);
    assert_eq!(born.to_vec(), (0..10).collect::<Vec<usize>>());
    w.die(3);
    assert_eq!(w.count_turtles(), 9);
    let mut seen: Vec<usize> = (0..9).map(|t| w.turtle(t).who).collect();
    seen.sort();
    seen.dedup();
    assert_eq!(seen, (0..9).collect::<Vec<usize>>());
}

#[test]
fn the_last_turtle_takes_the_freed_identity() {
    let mut w: World<i64> = World::init(5, 10, 10, OriginLocation::Corner, false);
    w.setxy(4, 3 * SCALE, 2 * SCALE);
    w.die(1);
    let moved = w.turtle(1);
    assert_eq!(moved.who, 1);
    assert_eq!((moved.xcor, moved.ycor), (3 * SCALE, 2 * SCALE));
    let p = w.patch(3 * SCALE, 2 * SCALE);
    assert_eq!(w.patch_at_index(p).turtles_on.to_vec(), vec![1]);
    let origin = w.patch(0, 0);
    let mut here = w.patch_at_index(origin).turtles_on.to_vec();
    here.sort();
    assert_eq!(here, vec![0, 2, 3]);
}

#[test]
fn every_turtle_resides_on_its_patch_only() {
    let mut w: World<i64> = World::init(20, 5, 5, OriginLocation::Center, false);
    for t in 0..20usize {
        let x = (t as i64 - 10) * 700;
        let y = (t as i64 % 7 - 3) * 1300;
        w.setxy(t, x, y);
    }
    for t in 0..20usize {
        let tu = w.turtle(t);
        let home = w.patch(tu.xcor, tu.ycor);
        for p in 0..w.count_patches() {
            let on = w.patch_at_index(p).turtles_on.contains(t);
            assert_eq!(on, p == home);
        }
    }
}

#[test]
fn periodic_neighbors_are_symmetric() {
    let w: World<i64> = World::init(0, 3, 2, OriginLocation::Center, true);
    let n = w.count_patches();
    for p in 0..n {
        for q in w.patch_at_index(p).neighbors.to_vec() {
            assert!(w.patch_at_index(q).neighbors.contains(p));
        }
        for q in w.patch_at_index(p).neighbors4.to_vec() {
            assert!(w.patch_at_index(q).neighbors4.contains(p));
        }
    }
}

#[test]
fn bounded_neighbor_counts() {
    let w: World<i64> = World::init(0, 4, 4, OriginLocation::Corner, false);
    let corner = w.patch_xy(0, 0);
    let edge = w.patch_xy(0, 2);
    let inner = w.patch_xy(2, 2);
    assert_eq!(w.patch_at_index(corner).neighbors.count(), 3);
    assert_eq!(w.patch_at_index(corner).neighbors4.count(), 2);
    assert_eq!(w.patch_at_index(edge).neighbors.count(), 5);
    assert_eq!(w.patch_at_index(edge).neighbors4.count(), 3);
    assert_eq!(w.patch_at_index(inner).neighbors.count(), 8);
    assert_eq!(w.patch_at_index(inner).neighbors4.count(), 4);
    let far = w.patch_xy(4, 4);
    assert_eq!(w.patch_at_index(far).neighbors.count(), 3);
}

#[test]
fn large_periodic_grid_scenario() {
    let w: World<i64> = World::init(0, 100, 100, OriginLocation::Corner, true);
    assert_eq!(w.patches().count(), 101 * 101);
    let p = w.patch(0, 0);
    assert_eq!(w.patch_at_index(p).neighbors.count(), 8);
    assert_eq!(w.patch_at_index(p).neighborhood.count(), 9);
    assert_eq!(w.patch_at_index(p).neighborhood4.count(), 5);
}

#[test]
fn neighbors_in_offset_order() {
    let w: World<i64> = World::init(0, 2, 2, OriginLocation::Corner, false);
    let p = w.patch_xy(1, 1);
    assert_eq!(p, 4);
    assert_eq!(w.patch_at_index(p).neighbors.to_vec(), vec![0, 1, 2, 3, 5, 6, 7, 8]);
    assert_eq!(w.patch_at_index(p).neighbors4.to_vec(), vec![1, 7, 3, 5]);
    assert_eq!(w.patch_at_index(p).neighborhood.to_vec(), vec![0, 1, 2, 3, 5, 6, 7, 8, 4]);
}

#[test]
fn ask_visits_each_member_once_in_varying_order() {
    let w: World<i64> = World::init(12, 3, 3, OriginLocation::Corner, true);
    let ts = w.turtles();
    let first = ts.ask_order(w.rng());
    let mut differs = false;
    for _ in 0..30 {
        let o = ts.ask_order(w.rng());
        let mut s = o.clone();
        s.sort();
        assert_eq!(s, (0..12).collect::<Vec<usize>>());
        if o != first {
            differs = true;
        }
    }
    assert!(differs);
}

#[test]
fn n_of_draws_distinct_members() {
    let w: World<i64> = World::init(0, 3, 3, OriginLocation::Corner, true);
    let ps = w.patches();
    for k in 0..=16usize {
        let pick = ps.n_of(w.rng(), k);
        let mut v = pick.to_vec();
        assert_eq!(v.len(), k);
        v.sort();
        v.dedup();
        assert_eq!(v.len(), k);
        assert!(v.iter().all(|&p| p < 16));
    }
}

#[test]
fn setxy_wraps_on_periodic_world() {
    let mut w: World<i64> = World::init(1, 10, 10, OriginLocation::Corner, true);
    w.setxy(0, 11 * SCALE, 0);
    assert_eq!(w.turtle(0).xcor, 0);
    w.setxy(0, -SCALE, 5 * SCALE);
    assert_eq!(w.turtle(0).xcor, 10 * SCALE);
    assert_eq!(w.turtle(0).ycor, 5 * SCALE);
    let p = w.patch(10 * SCALE, 5 * SCALE);
    assert!(w.patch_at_index(p).turtles_on.contains(0));
}

#[test]
fn setxy_clamps_on_bounded_world() {
    let mut w: World<i64> = World::init(1, 10, 10, OriginLocation::Corner, false);
    w.setxy(0, 11 * SCALE, -3 * SCALE);
    assert_eq!(w.turtle(0).xcor, 10 * SCALE + SCALE / 2);
    assert_eq!(w.turtle(0).ycor, -SCALE / 2);
    let p = w.patch(w.turtle(0).xcor, w.turtle(0).ycor);
    assert_eq!(w.patch_at_index(p).pxcor, 10);
    assert_eq!(w.patch_at_index(p).pycor, 0);
}

#[test]
fn toroidal_formulas() {
    assert_eq!(toroidal_transform(11000, -500, 10500), 0);
    assert_eq!(toroidal_transform(-1500, -500, 10500), 9500);
    assert_eq!(toroidal_transform(3000, -500, 10500), 3000);
    assert_eq!(toroidal_transform(10500, -500, 10500), -500);
    assert_eq!(toroidal_distance(1000, 9000, 11000), 3000);
    assert_eq!(toroidal_distance(1000, 4000, 11000), 3000);
    assert_eq!(toroidal_distance(0, 5500, 11000), 5500);
}

#[test]
fn patch_rounds_half_away_from_zero() {
    let w: World<i64> = World::init(0, 5, 5, OriginLocation::Center, false);
    let p = w.patch(1500, -1500);
    assert_eq!((w.patch_at_index(p).pxcor, w.patch_at_index(p).pycor), (2, -2));
    let q = w.patch(1499, -1499);
    assert_eq!((w.patch_at_index(q).pxcor, w.patch_at_index(q).pycor), (1, -1));
    let r = w.patch(99_000, -99_000);
    assert_eq!((w.patch_at_index(r).pxcor, w.patch_at_index(r).pycor), (5, -5));
}

#[test]
fn extremes_and_ranking() {
    let s = set_of(&[4, 7, 1, 9, 2]);
    let key = |t: usize| -> i64 { [0, 5, 3, 0, 5, 0, 0, 1, 0, 3][t] };
    assert_eq!(s.min_one_of(key), 7);
    assert_eq!(s.max_one_of(key), 4);
    assert_eq!(s.min_n_of(3, key).to_vec(), vec![7, 9, 2]);
    assert_eq!(s.max_n_of(2, key).to_vec(), vec![1, 4]);
    assert_eq!(s.max_n_of(10, key).to_vec(), vec![1, 4, 2, 9, 7]);
    assert_eq!(s.min_n_of(0, key).count(), 0);
}

#[test]
fn filters_and_reports() {
    let s = set_of(&[3, 8, 5, 6]);
    assert_eq!(s.with(|t| t % 2 == 0).to_vec(), vec![8, 6]);
    assert!(s.any(|t| t == 5));
    assert!(!s.any(|t| t > 8));
    assert!(s.all(|t| t > 2));
    assert!(!s.all(|t| t > 3));
    assert_eq!(s.report(|t| t * 10), vec![(3, 30), (8, 80), (5, 50), (6, 60)]);
}

#[test]
fn set_algebra() {
    let mut a = set_of(&[1, 2, 3]);
    let b = set_of(&[3, 4]);
    assert_eq!(ruscape::common::concat(&a, &b).to_vec(), vec![1, 2, 3, 4]);
    assert_eq!(a.concat(2).to_vec(), vec![1, 2, 3]);
    assert_eq!(a.concat(7).to_vec(), vec![1, 2, 3, 7]);
    a.extends(&b);
    assert_eq!(a.to_vec(), vec![1, 2, 3, 4]);
    a.delete(1);
    assert_eq!(a.to_vec(), vec![4, 2, 3]);
    assert_eq!(a.other(2).to_vec(), vec![4, 3]);
    let from_dups: TurtleSet = AgentSet::from_ids(&vec![5, 5, 1, 5]);
    assert_eq!(from_dups.to_vec(), vec![5, 1]);
}

#[test]
fn weighted_draws() {
    let s = set_of(&[10, 11, 12]);
    let only_middle = |t: usize| -> u64 {
        if t == 11 {
            4
        } else {
            0
        }
    };
    for _ in 0..20 {
        assert_eq!(s.one_of_weighted_by(only_middle), Ok(11));
    }
    let picked = s.n_of_weighted_by(5, |t| if t == 10 { 0 } else { 1 }).unwrap();
    assert!(picked.count() >= 1 && picked.count() <= 2);
    assert!(!picked.contains(10));
    assert_eq!(s.one_of_weighted_by(|_| 0).err(), Some(SampleError::AllWeightsZero));
    let empty: TurtleSet = AgentSet::new();
    assert_eq!(empty.one_of_weighted_by(|_| 1).err(), Some(SampleError::NoItem));
    assert_eq!(s.one_of_weighted_by(|_| u64::MAX).err(), Some(SampleError::WeightOverflow));
}

#[test]
fn draws_with_repeats_stay_inside() {
    let w: World<i64> = World::init(0, 2, 2, OriginLocation::Corner, true);
    let ps: PatchSet = w.patches();
    let pick = ps.n_of_with_repeats(w.rng(), 6);
    assert!(pick.count() >= 1 && pick.count() <= 6);
    assert!(pick.to_vec().iter().all(|&p| p < 9));
    assert!(ps.contains(ps.one_of(w.rng())));
}

#[test]
fn links_and_their_neighbors() {
    let mut w: World<i64> = World::init(4, 3, 3, OriginLocation::Corner, true);
    w.create_link_with(0, 1);
    w.create_link_with(2, 0);
    w.create_link_to(0, 3);
    w.create_link_from(0, 2);
    let mut ln = w.link_neighbors(0).to_vec();
    ln.sort();
    assert_eq!(ln, vec![1, 2]);
    assert_eq!(w.out_link_neighbors(0).to_vec(), vec![3]);
    assert_eq!(w.in_link_neighbors(0).to_vec(), vec![2]);
    assert_eq!(w.my_links(0), vec![(0, 1), (2, 0)]);
    assert_eq!(w.my_out_links(0), vec![(0, 3)]);
    assert_eq!(w.my_in_links(0), vec![(2, 0)]);
    w.die(1);
    assert_eq!(w.link_neighbors(0).to_vec(), vec![2]);
    assert_eq!(w.out_link_neighbors(0).to_vec(), vec![1]);
    w.create_link_with(2, 1);
    w.clear_links();
    assert_eq!(w.link_neighbors(0).count(), 0);
    assert_eq!(w.my_out_links(0), vec![]);
    assert_eq!(w.count_turtles(), 3);
}

#[test]
fn hatch_and_sprout_place_new_turtles() {
    let mut w: World<i64> = World::init(1, 5, 5, OriginLocation::Corner, false);
    w.setxy(0, 2 * SCALE, 3 * SCALE);
    w.right(0, 90 * SCALE);
    let kids = w.hatch(0, 2);
    assert_eq!(kids.to_vec(), vec![1, 2]);
    assert_eq!((w.turtle(2).xcor, w.turtle(2).ycor), (2 * SCALE, 3 * SCALE));
    assert_eq!(w.turtle(2).heading, 90 * SCALE);
    let p = w.patch_xy(4, 1);
    let sprouts = w.sprout(p, 3);
    assert_eq!(sprouts.to_vec(), vec![3, 4, 5]);
    assert_eq!(w.patch_at_index(p).turtles_on.count(), 3);
    assert_eq!((w.turtle(5).xcor, w.turtle(5).ycor), (4 * SCALE, SCALE));
}

#[test]
fn turning_wraps_heading() {
    let mut w: World<i64> = World::init(1, 5, 5, OriginLocation::Corner, false);
    w.left(0, 30 * SCALE);
    assert_eq!(w.turtle(0).heading, FULL_TURN - 30 * SCALE);
    w.right(0, 400 * SCALE);
    assert_eq!(w.turtle(0).heading, 10 * SCALE);
}

#[test]
fn distances_use_the_short_way_on_a_torus() {
    let mut w: World<i64> = World::init(2, 10, 10, OriginLocation::Corner, true);
    w.setxy(0, 0, 0);
    w.setxy(1, 10 * SCALE, 0);
    assert_eq!(w.distance2(0, 1), (SCALE as i128) * (SCALE as i128));
    let near = w.turtles_in_radius(0, SCALE);
    assert_eq!(near.to_vec(), vec![0, 1]);
    let mut b: World<i64> = World::init(2, 10, 10, OriginLocation::Corner, false);
    b.setxy(1, 3 * SCALE, 4 * SCALE);
    assert_eq!(b.distance2(0, 1), 25 * (SCALE as i128) * (SCALE as i128));
    assert_eq!(b.offset_to(0, 3 * SCALE, -4 * SCALE), (3 * SCALE, -4 * SCALE));
    assert_eq!(b.turtles_in_radius(0, 4 * SCALE).to_vec(), vec![0]);
}

#[test]
fn variables_need_declaring() {
    let mut w: World<i64> = World::init(3, 2, 2, OriginLocation::Corner, true);
    w.turtles_own("energy", || 5);
    w.turtle_set(1, "energy", 9);
    assert_eq!(*w.turtle_get(0, "energy"), 5);
    assert_eq!(*w.turtle_get(1, "energy"), 9);
    w.patches_own("grass", || 1);
    w.patch_set(4, "grass", 0);
    assert_eq!(*w.patch_get(4, "grass"), 0);
    assert_eq!(*w.patch_get(3, "grass"), 1);
    let mut v: VarStore<i64> = VarStore::new();
    assert!(!v.has("a"));
    v.own("a", 2);
    v.own("b", 3);
    v.set("a", 7);
    assert_eq!(*v.get("a"), 7);
    assert_eq!(*v.get("b"), 3);
}

#[test]
fn clearing_patches_paints_black() {
    let mut w: World<i64> = World::init(0, 2, 2, OriginLocation::Corner, true);
    w.set_random_pcolor(3);
    w.clear_patches();
    for p in 0..w.count_patches() {
        assert_eq!(w.patch_at_index(p).pcolor, ruscape::Color::black());
    }
}

#[test]
fn n_values_calls_the_generator() {
    let v = n_values(4, || 7u8);
    assert_eq!(v, vec![7, 7, 7, 7]);
}

#[test]
fn ask_applies_the_action_to_every_member() {
    let w: World<i64> = World::init(6, 3, 3, OriginLocation::Corner, true);
    let ts = w.turtles();
    let rng = w.rng().clone();
    let visited = ts.ask(&rng, Vec::new(), |mut seen: Vec<usize>, t| {
        seen.push(t);
        seen
    });
    let mut sorted = visited.clone();
    sorted.sort();
    assert_eq!(sorted, (0..6).collect::<Vec<usize>>());
    let moved = ts.ask(&rng, w, |mut w: World<i64>, t| {
        w.setxy(t, 2 * SCALE, SCALE);
        w
    });
    let p = moved.patch_xy(2, 1);
    assert_eq!(moved.patch_at_index(p).turtles_on.count(), 6);
    let in_order = ts.ask_each(Vec::new(), |mut seen: Vec<usize>, t| {
        seen.push(t);
        seen
    });
    assert_eq!(in_order, (0..6).collect::<Vec<usize>>());
}

#[test]
fn offsets_keep_their_direction_on_a_torus() {
    let mut w: World<i64> = World::init(1, 10, 10, OriginLocation::Center, true);
    assert_eq!(w.offset_to(0, -2 * SCALE, 0), (-2 * SCALE, 0));
    assert_eq!(w.offset_to(0, 0, -3 * SCALE), (0, -3 * SCALE));
    w.setxy(0, 9 * SCALE, 0);
    // Going east past the edge is shorter than going west.
    assert_eq!(w.offset_to(0, -9 * SCALE, 0), (3 * SCALE, 0));
    assert_eq!(w.distance2_xy(0, -9 * SCALE, 0), 9 * (SCALE as i128) * (SCALE as i128));
}

#[test]
fn concat_appends_new_members_in_order() {
    let left = set_of(&[5]);
    let right = set_of(&[3, 5, 1]);
    assert_eq!(ruscape::common::concat(&left, &right).to_vec(), vec![5, 3, 1]);
}

#[test]
fn hatched_turtles_copy_variables() {
    let mut w: World<i64> = World::init(1, 5, 5, OriginLocation::Corner, false);
    w.turtles_own("energy", || 3);
    w.turtle_set(0, "energy", 8);
    w.hatch(0, 2);
    assert_eq!(*w.turtle_get(1, "energy"), 8);
    assert_eq!(*w.turtle_get(2, "energy"), 8);
    w.patch_own(2, "seed", 4);
    assert_eq!(*w.patch_get(2, "seed"), 4);
}

#[test]
fn links_carry_variables() {
    let mut w: World<i64> = World::init(4, 3, 3, OriginLocation::Corner, true);
    w.create_link_with(0, 3);
    w.create_link_to(1, 2);
    let u = LinkId { directed: false, from: 0, to: 3 };
    let d = LinkId { directed: true, from: 1, to: 2 };
    w.link_own(u, "weight", 5);
    w.link_own(d, "weight", 7);
    w.link_set(u, "weight", 6);
    assert_eq!(*w.link_get(u, "weight"), 6);
    assert_eq!(*w.link_get(d, "weight"), 7);
    // Turtle 1 dies: its link's store goes, and turtle 3 becomes turtle 1.
    w.die(1);
    assert!(!w.link_has_vars(d));
    assert!(!w.link_has_vars(u));
    let renamed = LinkId { directed: false, from: 0, to: 1 };
    assert_eq!(*w.link_get(renamed, "weight"), 6);
    assert_eq!(w.my_links(0), vec![(0, 1)]);
    w.clear_links();
    assert!(!w.link_has_vars(renamed));
}
