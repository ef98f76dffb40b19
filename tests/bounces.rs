use rayst::bounces::{secondary_budget, MAX_BOUNCES};

#[test]
fn a_reflective_surface_casts_a_ray_with_one_bounce_less() {
    assert_eq!(Some(4), secondary_budget(MAX_BOUNCES, true));
    assert_eq!(Some(0), secondary_budget(1, true));
}

#[test]
fn no_ray_is_cast_when_the_budget_is_spent() {
    assert_eq!(None, secondary_budget(0, true));
}

#[test]
fn no_ray_is_cast_from_a_surface_that_adds_nothing() {
    assert_eq!(None, secondary_budget(MAX_BOUNCES, false));
}

#[test]
fn mutually_reflective_surfaces_stop_after_the_budget() {
    let mut budget = Some(MAX_BOUNCES);
    let mut depth = 0;
    while let Some(b) = budget {
        budget = secondary_budget(b, true);
        depth += 1;
    }
    assert_eq!(MAX_BOUNCES + 1, depth);
}
