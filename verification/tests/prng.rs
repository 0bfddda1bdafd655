use plotui_core::prng::next_draw;

#[test]
fn seeded_draws_follow_the_mixing_rounds() {
    let mut s: u32 = 0;
    let mut draws = Vec::new();
    for _ in 0..3 {
        let (next, d) = next_draw(s);
        s = next;
        draws.push((next, d));
    }
    assert_eq!(draws, vec![(0x6d2b79f5, 1144042594), (0xda56f3ea, 1416247), (0x47826ddf, 959208200)]);
}

#[test]
fn seed_forty_two_reproduces_its_draws() {
    let (s1, d1) = next_draw(42);
    let (s2, d2) = next_draw(s1);
    let (s3, d3) = next_draw(s2);
    assert_eq!((s1, d1), (0x6d2b7a1f, 2581720956));
    assert_eq!((s2, d2), (0xda56f414, 1925655434));
    assert_eq!((s3, d3), (0x47826e09, 3661574848));
}

#[test]
fn the_state_wraps_past_the_top() {
    let (s, d) = next_draw(u32::MAX);
    assert_eq!(s, 0x6d2b79f4);
    assert_eq!(d, 3850367955);
    let u = d as f64 / 4294967296.0;
    assert!((0.0..1.0).contains(&u));
}
