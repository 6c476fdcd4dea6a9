use rustcaster::march::{March, Phase};

#[test]
fn new_march() {
    let m = March::new(500);
    assert_eq!((m.steps, m.max_steps, m.phase), (0, 500, Phase::Marching));
    assert!(!m.is_done());
    assert_eq!(March::new(0).phase, Phase::Miss);
}

#[test]
fn beyond_limit_misses_on_first_check() {
    let mut m = March::new(500);
    m.observe(false, true);
    assert_eq!(m.phase, Phase::Miss);
    assert_eq!(m.steps, 0);
    assert!(m.is_done());
}

#[test]
fn hit_wins_over_limit() {
    let mut m = March::new(10);
    m.observe(false, false);
    m.observe(true, true);
    assert_eq!(m.phase, Phase::Hit);
    assert_eq!(m.steps, 1);
}

#[test]
fn steps_run_out() {
    let mut m = March::new(3);
    let mut calls = 0;
    while !m.is_done() {
        m.observe(false, false);
        calls += 1;
    }
    assert_eq!(calls, 3);
    assert_eq!(m.steps, 3);
    assert_eq!(m.phase, Phase::Miss);
}
