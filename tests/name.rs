use snowmew::name::Name;

#[test]
fn name_reject() {
    assert!(Name::new("".to_string()).is_none());
    assert!(Name::new("foo".to_string()).is_some());
    assert!(Name::new("foo.bar".to_string()).is_none());
    assert!(Name::new("foo/bar".to_string()).is_none());
}

#[test]
fn name_keeps_its_text() {
    let n = Name::new("caf\u{e9}".to_string()).unwrap();
    assert_eq!(n.as_str(), "caf\u{e9}");
    assert!(Name::new("/".to_string()).is_none());
    assert!(Name::new("trailing.".to_string()).is_none());
}
