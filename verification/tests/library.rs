use aria::library::move_places;

fn ids(v: &[&str]) -> Vec<String> {
    v.iter().map(|s| s.to_string()).collect()
}

#[test]
fn moving_a_track_swaps_it_with_its_neighbour() {
    let list = ids(&["a", "b", "c"]);
    assert_eq!(move_places(&list, "c", -1), Some((2, 1)));
    assert_eq!(move_places(&list, "a", 1), Some((0, 1)));
    assert_eq!(move_places(&list, "b", 0), Some((1, 2)));
    // Past either end, or not there at all, nothing moves.
    assert_eq!(move_places(&list, "a", -1), None);
    assert_eq!(move_places(&list, "c", 1), None);
    assert_eq!(move_places(&list, "z", 1), None);
    assert_eq!(move_places(&ids(&[]), "a", -1), None);
}
