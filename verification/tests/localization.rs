use crowd::cloud::{cloud_step, forget_estimates, remove_expired};
use crowd::crowd::{report_sightings, spawn_members, Member};
use crowd::fluctuation::{FluctuationTimer, RANDOM_PERIOD};
use crowd::observation::Observation;

type Disc = ((f64, f64), f64);

const BLANK: Disc = ((0.0, 0.0), 0.0);

fn disc(x: f64, y: f64, r: f64) -> Disc {
    ((x, y), r)
}

#[test]
fn timer_fires_every_fourth_step() {
    let mut t = FluctuationTimer::new();
    assert_eq!(t.ticks(), 0);
    let mut fired = Vec::new();
    for _ in 0..13 {
        fired.push(t.tick());
    }
    let expected: Vec<bool> = (0..13).map(|k| k > 0 && k % (RANDOM_PERIOD + 1) == 0).collect();
    assert_eq!(fired, expected);
    assert_eq!(fired[4], true);
    assert_eq!(fired[8], true);
    assert_eq!(fired[3], false);
}

#[test]
fn timer_counter_stays_within_period() {
    let mut t = FluctuationTimer::new();
    for _ in 0..50 {
        t.tick();
        assert!(t.ticks() >= 1 && t.ticks() <= RANDOM_PERIOD + 1);
    }
    // after 4 steps the counter stands at 4, after the fifth at 1 again
    let mut t = FluctuationTimer::new();
    for _ in 0..4 {
        t.tick();
    }
    assert_eq!(t.ticks(), 4);
    assert!(t.tick());
    assert_eq!(t.ticks(), 1);
}

#[test]
fn new_and_empty_observations() {
    let o = Observation::new(disc(1.0, 2.0, 0.5), 7);
    assert!(o.is_valid());
    assert_eq!(o.id, 7);
    assert_eq!(o.area, disc(1.0, 2.0, 0.5));
    let e = Observation::empty(BLANK);
    assert!(!e.is_valid());
    assert_eq!(e.id, 0);
    assert_eq!(e.clone(), e);
}

#[test]
fn overlay_of_different_members_resets_to_member_zero() {
    let a = Observation::new(disc(1.0, 1.0, 1.0), 3);
    let b = Observation::new(disc(2.0, 1.0, 1.0), 4);
    let r = a.overlays(&b, false, false, false, BLANK, disc(9.0, 9.0, 9.0));
    assert_eq!(r, Observation { area: BLANK, id: 0, expired: false });
    // even when the areas do not meet
    let r = a.overlays(&b, true, false, false, BLANK, disc(9.0, 9.0, 9.0));
    assert!(r.is_valid());
    assert_eq!(r.id, 0);
}

#[test]
fn overlay_of_apart_areas_is_empty() {
    let a = Observation::new(disc(0.0, 0.0, 1.0), 3);
    let b = Observation::new(disc(5.0, 0.0, 1.0), 3);
    let r = a.overlays(&b, true, false, false, BLANK, disc(9.0, 9.0, 9.0));
    assert_eq!(r, Observation::empty(BLANK));
}

#[test]
fn overlay_of_nested_areas_keeps_the_smaller() {
    let big = Observation::new(disc(0.0, 0.0, 3.0), 2);
    let small = Observation::new(disc(0.5, 0.0, 1.0), 2);
    assert_eq!(big.overlays(&small, false, true, true, BLANK, BLANK), small);
    assert_eq!(small.overlays(&big, false, true, false, BLANK, BLANK), small);
}

#[test]
fn overlay_of_crossing_areas_takes_the_shared_area() {
    let a = Observation::new(disc(0.0, 0.0, 1.0), 5);
    let b = Observation::new(disc(1.5, 0.0, 1.0), 5);
    let shared = disc(0.75, 0.0, 0.66);
    let r = a.overlays(&b, false, false, false, BLANK, shared);
    assert_eq!(r, Observation::new(shared, 5));
}

#[test]
fn spawned_members() {
    let m = spawn_members(4, 2);
    assert_eq!(m.len(), 4);
    for (i, member) in m.iter().enumerate() {
        assert_eq!(member.id, i);
        assert_eq!(member.app, i < 2);
        assert!(member.discoverable);
    }
    assert!(spawn_members(0, 3).is_empty());
    assert!(spawn_members(2, 5).iter().all(|m| m.app));
}

#[test]
fn app_observer_reports_nearby_members_directly() {
    let members = spawn_members(4, 1);
    let mut cloud = Vec::new();
    let in_range = vec![true, true, false, true];
    let direct = vec![disc(0.0, 0.0, 1.5), disc(1.0, 0.0, 1.5), disc(2.0, 0.0, 1.5), disc(3.0, 0.0, 1.5)];
    report_sightings(&mut cloud, &members, 0, &Observation::empty(BLANK), &in_range, &direct, BLANK);
    assert_eq!(
        cloud,
        vec![Observation::new(disc(1.0, 0.0, 1.5), 1), Observation::new(disc(3.0, 0.0, 1.5), 3)]
    );
}

#[test]
fn members_with_the_app_are_never_reported() {
    let members = spawn_members(3, 2);
    let mut cloud = Vec::new();
    let in_range = vec![true, true, true];
    let direct = vec![BLANK, disc(1.0, 1.0, 1.5), disc(2.0, 2.0, 1.5)];
    report_sightings(&mut cloud, &members, 0, &Observation::empty(BLANK), &in_range, &direct, BLANK);
    assert_eq!(cloud, vec![Observation::new(disc(2.0, 2.0, 1.5), 2)]);
}

#[test]
fn undiscoverable_members_are_never_reported() {
    let mut members = spawn_members(3, 1);
    members[2] = Member { id: 2, app: false, discoverable: false };
    let mut cloud = Vec::new();
    report_sightings(&mut cloud, &members, 0, &Observation::empty(BLANK), &vec![true; 3], &vec![BLANK; 3], BLANK);
    assert_eq!(cloud, vec![Observation::new(BLANK, 1)]);
}

#[test]
fn observer_without_app_relays_its_estimate() {
    let members = spawn_members(3, 0);
    let estimate = Observation::new(disc(4.0, 4.0, 0.5), 1);
    let relayed = disc(4.0, 4.0, 2.0);
    let mut cloud = vec![Observation::new(BLANK, 9)];
    report_sightings(&mut cloud, &members, 1, &estimate, &vec![true, false, true], &vec![BLANK; 3], relayed);
    assert_eq!(
        cloud,
        vec![Observation::new(BLANK, 9), Observation::new(relayed, 0), Observation::new(relayed, 2)]
    );
    // a member out of range is not relayed
    let mut cloud = Vec::new();
    report_sightings(&mut cloud, &members, 1, &estimate, &vec![false, true, true], &vec![BLANK; 3], relayed);
    assert_eq!(cloud, vec![Observation::new(relayed, 2)]);
}

#[test]
fn observer_without_app_or_estimate_reports_nothing() {
    let members = spawn_members(3, 0);
    let mut cloud = Vec::new();
    report_sightings(&mut cloud, &members, 1, &Observation::empty(BLANK), &vec![true; 3], &vec![BLANK; 3], BLANK);
    assert!(cloud.is_empty());
    // an undiscoverable observer without the app relays nothing either
    let mut members = spawn_members(2, 0);
    members[0].discoverable = false;
    let estimate = Observation::new(disc(1.0, 1.0, 1.0), 0);
    report_sightings(&mut cloud, &members, 0, &estimate, &vec![true; 2], &vec![BLANK; 2], BLANK);
    assert!(cloud.is_empty());
}

#[test]
fn forgetting_clears_estimates_from_the_given_member() {
    let mut est = vec![
        Observation::new(disc(1.0, 0.0, 0.0), 0),
        Observation::new(disc(2.0, 0.0, 0.0), 1),
        Observation::new(disc(3.0, 0.0, 0.0), 2),
    ];
    forget_estimates(&mut est, 1, BLANK);
    assert_eq!(
        est,
        vec![Observation::new(disc(1.0, 0.0, 0.0), 0), Observation::empty(BLANK), Observation::empty(BLANK)]
    );
    let before = est.clone();
    forget_estimates(&mut est, 5, BLANK);
    assert_eq!(est, before);
}

#[test]
fn removing_expired_keeps_order_and_is_idempotent() {
    let mut cloud = vec![
        Observation::new(disc(1.0, 0.0, 0.0), 1),
        Observation::empty(BLANK),
        Observation::new(disc(2.0, 0.0, 0.0), 2),
        Observation { area: disc(3.0, 0.0, 0.0), id: 3, expired: true },
        Observation::new(disc(4.0, 0.0, 0.0), 4),
    ];
    remove_expired(&mut cloud);
    assert_eq!(cloud.iter().map(|o| o.id).collect::<Vec<_>>(), vec![1, 2, 4]);
    let once = cloud.clone();
    remove_expired(&mut cloud);
    assert_eq!(cloud, once);
}

fn keep_smaller(a: &Observation<Disc>, b: &Observation<Disc>) -> Observation<Disc> {
    if a.area.1 <= b.area.1 {
        *a
    } else {
        *b
    }
}

#[test]
fn cloud_step_adopts_merges_and_discards() {
    // members 0 and 1 carry the app; 2, 3 and 4 are tracked
    let members = spawn_members(5, 2);
    let mut est = vec![
        Observation::new(disc(0.0, 0.0, 0.1), 0),
        Observation::new(disc(1.0, 0.0, 0.1), 1),
        Observation::new(disc(9.0, 9.0, 9.0), 2),
        Observation::empty(BLANK),
        Observation::empty(BLANK),
    ];
    let mut cloud = vec![
        Observation::new(disc(3.0, 0.0, 1.0), 3), // taken last: overlaid onto the estimate made below
        Observation::new(disc(5.0, 0.0, 2.0), 4),
        Observation::new(disc(0.0, 0.0, 1.0), 1), // a member with the app: discarded
        Observation::empty(BLANK),                // out of use: skipped, then dropped
        Observation::new(disc(3.0, 0.0, 0.5), 3), // taken first: becomes the estimate of 3
    ];
    let overlay = |a: &Observation<Disc>, b: &Observation<Disc>| keep_smaller(a, b);
    cloud_step(&mut est, &members, &mut cloud, 2, BLANK, &overlay);
    assert_eq!(est[0], Observation::new(disc(0.0, 0.0, 0.1), 0));
    assert_eq!(est[1], Observation::new(disc(1.0, 0.0, 0.1), 1));
    // the stale estimate of member 2 was cleared and nobody reported it
    assert_eq!(est[2], Observation::empty(BLANK));
    assert_eq!(est[3], Observation::new(disc(3.0, 0.0, 0.5), 3));
    assert_eq!(est[4], Observation::new(disc(5.0, 0.0, 2.0), 4));
    assert_eq!(
        cloud,
        vec![
            Observation::new(disc(3.0, 0.0, 1.0), 3),
            Observation::new(disc(5.0, 0.0, 2.0), 4),
            Observation::new(disc(3.0, 0.0, 0.5), 3),
        ]
    );
}

#[test]
fn cloud_step_discards_reports_whose_overlay_is_out_of_use() {
    let members = spawn_members(2, 0);
    let mut est = vec![Observation::empty(BLANK), Observation::empty(BLANK)];
    let mut cloud = vec![
        Observation::new(disc(10.0, 0.0, 1.0), 1),
        Observation::new(disc(0.0, 0.0, 1.0), 1),
    ];
    let overlay = |a: &Observation<Disc>, b: &Observation<Disc>| {
        let apart = (a.area.0 .0 - b.area.0 .0).abs() > a.area.1 + b.area.1;
        a.overlays(b, apart, false, false, BLANK, a.area)
    };
    cloud_step(&mut est, &members, &mut cloud, 0, BLANK, &overlay);
    assert_eq!(est[1], Observation::new(disc(0.0, 0.0, 1.0), 1));
    assert_eq!(cloud, vec![Observation::new(disc(0.0, 0.0, 1.0), 1)]);
    // a second step: the surviving report is adopted again after the estimates are cleared
    cloud_step(&mut est, &members, &mut cloud, 0, BLANK, &overlay);
    assert_eq!(est[1], Observation::new(disc(0.0, 0.0, 1.0), 1));
    assert_eq!(cloud.len(), 1);
}

#[test]
fn cloud_step_on_an_empty_cloud_only_forgets() {
    let members = spawn_members(3, 1);
    let mut est = vec![Observation::new(BLANK, 0), Observation::new(BLANK, 1), Observation::new(BLANK, 2)];
    let mut cloud: Vec<Observation<Disc>> = Vec::new();
    cloud_step(&mut est, &members, &mut cloud, 1, BLANK, &|a: &Observation<Disc>, _b: &Observation<Disc>| *a);
    assert_eq!(est, vec![Observation::new(BLANK, 0), Observation::empty(BLANK), Observation::empty(BLANK)]);
    assert!(cloud.is_empty());
}
