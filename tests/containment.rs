use rayst::containment::{refraction_sides, toggle};

fn index_of(object: Option<usize>, indices: &[f64]) -> f64 {
    object.map_or(1.0, |o| indices[o])
}

#[test]
fn correctly_calculates_n1_and_n2_at_different_iotersections() {
    // Objects 0, 1 and 2 are glass spheres of refractive index 1.5, 2.0 and 2.5;
    // the ray crosses them at t = 2, 2.75, 3.25, 4.75, 5.25 and 6.
    let indices = [1.5, 2.0, 2.5];
    let objects = vec![0, 1, 2, 1, 2, 0];
    let expected = [(1.0, 1.5), (1.5, 2.0), (2.0, 2.5), (2.5, 2.5), (2.5, 1.5), (1.5, 1.0)];
    for (hit, (n1, n2)) in expected.iter().enumerate() {
        let (before, after) = refraction_sides(&objects, hit);
        assert_eq!(*n1, index_of(before, &indices));
        assert_eq!(*n2, index_of(after, &indices));
    }
}

#[test]
fn a_single_sphere_is_entered_then_left() {
    let objects = vec![7, 7];
    assert_eq!((None, Some(7)), refraction_sides(&objects, 0));
    assert_eq!((Some(7), None), refraction_sides(&objects, 1));
}

#[test]
fn leaving_an_outer_object_keeps_the_inner_one_on_top() {
    // Overlapping solids: enter 1, enter 2, leave 1, leave 2.
    let objects = vec![1, 2, 1, 2];
    assert_eq!((Some(2), Some(2)), refraction_sides(&objects, 2));
    assert_eq!((Some(2), None), refraction_sides(&objects, 3));
}

#[test]
fn toggling_removes_only_the_crossed_object() {
    let mut stack = vec![3, 4, 5];
    toggle(&mut stack, 4);
    assert_eq!(vec![3, 5], stack);
    toggle(&mut stack, 4);
    assert_eq!(vec![3, 5, 4], stack);
}
