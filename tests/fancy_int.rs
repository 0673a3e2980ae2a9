use circular_list::FancyInt;

#[test]
fn fancy_int_holds_and_replaces() {
    let mut f = FancyInt::new(41);
    assert_eq!(f.get(), 41);
    f.set(-7);
    assert_eq!(f.get(), -7);
    assert_eq!(f.to_string(), "-7");
}
