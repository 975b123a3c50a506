use my_linked_list::edit_template::SerializeMe;

#[test]
fn new_fills_both_fields() {
    let r = SerializeMe::new("Willis", "20221214");
    assert_eq!(r.name, Some(String::from("Willis")));
    assert_eq!(r.date_progression, Some(String::from("20221214")));
}

#[test]
fn default_is_blank() {
    let r = SerializeMe::default();
    assert!(r.name.is_none());
    assert!(r.date_progression.is_none());
}
