#[test]
fn materials_no_shadows_when_nothing_is_colinear_with_point_and_light() {}
