use pvp::doors::{set_doors_open, SetDoorsOpen};

#[test]
fn single_door_is_set() {
    let mut open = vec![false, false, true];
    let interior = vec![true, false, true];
    set_doors_open(&mut open, &interior, SetDoorsOpen::Single { door: 1, open: true });
    assert_eq!(open, vec![false, true, true]);
    set_doors_open(&mut open, &interior, SetDoorsOpen::Single { door: 2, open: false });
    assert_eq!(open, vec![false, true, false]);
}

#[test]
fn open_all_opens_interior_doors_first() {
    let mut open = vec![false, false, false];
    let interior = vec![true, false, true];
    set_doors_open(&mut open, &interior, SetDoorsOpen::All { open: true });
    assert_eq!(open, vec![true, false, true]);
    set_doors_open(&mut open, &interior, SetDoorsOpen::All { open: true });
    assert_eq!(open, vec![true, true, true]);
}

#[test]
fn open_all_keeps_open_exterior_doors() {
    let mut open = vec![false, true, false];
    let interior = vec![true, false, true];
    set_doors_open(&mut open, &interior, SetDoorsOpen::All { open: true });
    assert_eq!(open, vec![true, true, true]);
}

#[test]
fn close_all_closes_every_door() {
    let mut open = vec![true, true, false];
    let interior = vec![true, false, false];
    set_doors_open(&mut open, &interior, SetDoorsOpen::All { open: false });
    assert_eq!(open, vec![false, false, false]);
}
