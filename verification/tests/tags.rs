use echojournal::tags::get_tag_registry;

#[test]
fn registry_lists_six_tags() {
    let tags = get_tag_registry();
    let ids: Vec<&str> = tags.iter().map(|t| t.id.as_str()).collect();
    assert_eq!(ids, vec!["Career", "Coding", "Wellness", "Personal", "Growth", "Social"]);
    for t in &tags {
        assert_eq!(t.id, t.label);
    }
}
