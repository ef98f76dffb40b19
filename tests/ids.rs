use rayst::ids::{get_id, IdCounter};

#[test]
fn identities_are_handed_out_in_increasing_order() {
    let mut counter = IdCounter::new();
    assert_eq!(0, get_id(&mut counter));
    assert_eq!(1, get_id(&mut counter));
    assert_eq!(2, get_id(&mut counter));
    assert_eq!(3, counter.next);
}

#[test]
fn two_spheres_are_not_the_same() {
    let mut counter = IdCounter::new();
    let s1 = get_id(&mut counter);
    let s2 = get_id(&mut counter);
    assert_ne!(s1, s2);
}
