use upodesh::utils::fix_string;

#[test]
fn test_fix_string() {
    assert_eq!(fix_string("o"), "O");
    assert_eq!(fix_string("o!"), "O");
    assert_eq!(fix_string("o!o"), "OO");
    assert_eq!(fix_string("osomapto"), "Osomapto");
}

#[test]
fn fix_string_drops_and_lowers() {
    assert_eq!(fix_string("  AmRa  "), "amra");
    assert_eq!(fix_string("x1y"), "xy");
    assert_eq!(fix_string("ko"), "ko");
    assert_eq!(fix_string("kO"), "ko");
    assert_eq!(fix_string("k o"), "kO");
    assert_eq!(fix_string("আমরা"), "");
    assert_eq!(fix_string(""), "");
}

#[test]
fn fix_string_twice_is_stable() {
    let once = fix_string("a!o");
    assert_eq!(once, "aO");
    let twice = fix_string(&once);
    assert_eq!(twice, "ao");
    assert_eq!(fix_string(&twice), twice);
}
