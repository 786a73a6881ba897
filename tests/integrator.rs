use pathtrace::integrator::{scatter, Action, PathState, SurfaceEvent};

#[test]
fn scatter_rules() {
    assert_eq!(scatter(SurfaceEvent::Miss), Action::SampleSky);
    assert_eq!(scatter(SurfaceEvent::Emissive), Action::Emit);
    assert_eq!(scatter(SurfaceEvent::Diffuse { reflective: false }), Action::Absorb);
    assert_eq!(scatter(SurfaceEvent::Diffuse { reflective: true }), Action::Reflect);
    assert_eq!(scatter(SurfaceEvent::Checker), Action::Absorb);
    let d = |t, r| SurfaceEvent::Dielectric { total_internal_reflection: t, refract: r };
    assert_eq!(scatter(d(true, true)), Action::Reflect);
    assert_eq!(scatter(d(true, false)), Action::Reflect);
    assert_eq!(scatter(d(false, true)), Action::Refract);
    assert_eq!(scatter(d(false, false)), Action::Reflect);
}

#[test]
fn combined_encoding_is_its_own_case() {
    let c = |e, rl, tr, t, r| SurfaceEvent::Combined {
        emissive: e,
        reflective: rl,
        transmissive: tr,
        total_internal_reflection: t,
        refract: r,
    };
    assert_eq!(scatter(c(true, true, true, false, true)), Action::Emit);
    assert_eq!(scatter(c(false, true, true, false, true)), Action::Refract);
    assert_eq!(scatter(c(false, false, true, true, true)), Action::Reflect);
    assert_eq!(scatter(c(false, true, false, false, true)), Action::Reflect);
    assert_eq!(scatter(c(false, false, false, false, true)), Action::Absorb);
}

#[test]
fn emissive_hit_with_depth_one_ends_at_once() {
    let mut s = PathState::new(1);
    assert!(!s.ended);
    assert_eq!(s.step(SurfaceEvent::Emissive), Action::Emit);
    assert!(s.ended);
    assert_eq!(s.vertices, 1);
}

#[test]
fn budget_ends_a_bouncing_path() {
    let mut s = PathState::new(3);
    assert_eq!(s.step(SurfaceEvent::Diffuse { reflective: true }), Action::Reflect);
    assert!(!s.ended);
    let ev = SurfaceEvent::Dielectric { total_internal_reflection: false, refract: true };
    assert_eq!(s.step(ev), Action::Refract);
    assert!(s.inside_medium);
    assert!(!s.ended);
    assert_eq!(s.step(ev), Action::Refract);
    assert!(!s.inside_medium);
    assert!(s.ended);
    assert_eq!(s.vertices, 3);
}

#[test]
fn zero_budget_is_ended_from_the_start() {
    let s = PathState::new(0);
    assert!(s.ended);
    assert_eq!(s.vertices, 0);
    assert_eq!(s.max_depth, 0);
}
