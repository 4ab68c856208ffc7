use pycycle::rotation::canonicalize_cycle;

fn names(list: &[&str]) -> Vec<String> {
    list.iter().map(|name| name.to_string()).collect()
}

#[test]
fn canonical_form_starts_at_least_name() {
    assert_eq!(canonicalize_cycle(&names(&["c", "a", "b"])), names(&["a", "b", "c"]));
    assert_eq!(canonicalize_cycle(&names(&["pkg.b", "pkg"])), names(&["pkg", "pkg.b"]));
}

#[test]
fn canonical_form_of_nothing_is_empty() {
    assert_eq!(canonicalize_cycle(&[]), Vec::<String>::new());
}

#[test]
fn canonical_form_ignores_rotation() {
    let cycle = names(&["m", "z", "b", "k"]);
    let expected = names(&["b", "k", "m", "z"]);
    for start in 0..cycle.len() {
        let mut turned = cycle[start..].to_vec();
        turned.extend_from_slice(&cycle[..start]);
        assert_eq!(canonicalize_cycle(&turned), expected);
    }
    assert_eq!(canonicalize_cycle(&expected), expected);
}

#[test]
fn canonical_form_takes_first_of_equal_names() {
    assert_eq!(
        canonicalize_cycle(&names(&["b", "a", "c", "a", "d"])),
        names(&["a", "c", "a", "d", "b"])
    );
}

#[test]
fn canonical_form_orders_as_strings_do() {
    let cycle = names(&["é", "Z", "a", "包", "\u{1f600}", "ab", ""]);
    let mut sorted = cycle.clone();
    sorted.sort();
    assert_eq!(canonicalize_cycle(&cycle)[0], sorted[0]);
    assert_eq!(canonicalize_cycle(&names(&["包", "é"])), names(&["é", "包"]));
    assert_eq!(canonicalize_cycle(&names(&["\u{1f600}", "\u{ffee}"])), names(&["\u{ffee}", "\u{1f600}"]));
}
