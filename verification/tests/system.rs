use collision2d::system::{Collisions, RECORD_LIMIT};

#[test]
fn new_record_is_empty() {
    assert!(Collisions::new().collisions().is_empty());
}

#[test]
fn record_holds_every_contact_in_order() {
    let outcomes = vec![Some(true), Some(true), None, Some(false), Some(true)];
    let record = Collisions::gather(1, &outcomes);
    assert_eq!(record.collisions(), &[(true, 0), (false, 3), (true, 4)]);
}

#[test]
fn record_without_contacts() {
    assert!(Collisions::gather(0, &vec![]).collisions().is_empty());
    assert!(Collisions::gather(0, &vec![Some(true)]).collisions().is_empty());
    assert!(Collisions::gather(2, &vec![None, None, Some(false)]).collisions().is_empty());
}

#[test]
fn record_of_a_shape_that_is_not_listed() {
    let outcomes = vec![Some(false), Some(true)];
    let record = Collisions::gather(9, &outcomes);
    assert_eq!(record.collisions(), &[(false, 0), (true, 1)]);
}

#[test]
fn record_grows_past_its_inline_room() {
    let outcomes: Vec<Option<bool>> = (0..1000).map(|i| Some(i % 3 == 0)).collect();
    let record = Collisions::gather(500, &outcomes);
    let items = record.collisions();
    assert_eq!(items.len(), 999);
    assert_eq!(items[0], (true, 0));
    assert_eq!(items[499], (false, 499));
    assert_eq!(items[500], (true, 501));
    assert_eq!(items[998], (true, 999));
    assert!(items.len() < RECORD_LIMIT);
}
