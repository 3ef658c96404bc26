use i18n_codegen::text::join;

fn parts(items: &[&str]) -> Vec<String> {
    items.iter().map(|s| s.to_string()).collect()
}

#[test]
fn join_puts_the_separator_between_the_parts() {
    assert_eq!(join(&parts(&["a", "b", "c"]), ", "), "a, b, c");
    assert_eq!(join(&parts(&["home", "title"]), "."), "home.title");
    assert_eq!(join(&parts(&["Site", "Info"]), ""), "SiteInfo");
}

#[test]
fn join_of_one_part_or_none() {
    assert_eq!(join(&parts(&["alone"]), "."), "alone");
    assert_eq!(join(&parts(&[]), "."), "");
    assert_eq!(join(&parts(&["", ""]), "-"), "-");
}
