use monitor::names::{
    base_name_from_guest_name, base_name_from_registration_name, decimal_string,
    runner_id_from_guest_name, runner_id_from_registration_name, str_eq,
};

#[test]
fn registration_name_gives_runner_id() {
    assert_eq!(
        runner_id_from_registration_name("servo-ubuntu2204.42@ci0.servo.org"),
        Some(42)
    );
}

#[test]
fn registration_name_with_dots_in_base_and_host() {
    assert_eq!(runner_id_from_registration_name("a.b.c.7@x.y.z"), Some(7));
    assert_eq!(
        base_name_from_registration_name("a.b.c.7@x.y.z"),
        Some("a.b.c".to_owned())
    );
}

#[test]
fn registration_name_uses_last_at_sign() {
    assert_eq!(runner_id_from_registration_name("a@b.5@host"), Some(5));
    assert_eq!(
        base_name_from_registration_name("a@b.5@host"),
        Some("a@b".to_owned())
    );
}

#[test]
fn registration_id_accepts_plus_sign_as_from_str_does() {
    assert_eq!(runner_id_from_registration_name("base.+7@host"), Some(7));
    assert_eq!(runner_id_from_registration_name("base.007@host"), Some(7));
}

#[test]
fn registration_id_refuses_what_from_str_refuses() {
    assert_eq!(runner_id_from_registration_name("base.-7@host"), None);
    assert_eq!(runner_id_from_registration_name("base.+@host"), None);
    assert_eq!(runner_id_from_registration_name("base.@host"), None);
    assert_eq!(runner_id_from_registration_name("base.1x@host"), None);
    assert_eq!(runner_id_from_registration_name("base. 1@host"), None);
    assert_eq!(
        runner_id_from_registration_name("base.99999999999999999999999@host"),
        None
    );
}

#[test]
fn registration_name_without_at_or_dot() {
    assert_eq!(runner_id_from_registration_name("base.7"), None);
    assert_eq!(runner_id_from_registration_name("base7@host"), None);
    assert_eq!(base_name_from_registration_name("base.7"), None);
    assert_eq!(base_name_from_registration_name("base7@host"), None);
}

#[test]
fn registration_id_at_largest_value() {
    let name = format!("base.{}@host", usize::MAX);
    assert_eq!(runner_id_from_registration_name(&name), Some(usize::MAX));
    let name = format!("base.{}0@host", usize::MAX);
    assert_eq!(runner_id_from_registration_name(&name), None);
}

#[test]
fn guest_name_gives_runner_id_and_base() {
    assert_eq!(runner_id_from_guest_name("ci-servo-ubuntu2204.17"), Some(17));
    assert_eq!(
        base_name_from_guest_name("ci-servo-ubuntu2204.17", "ci-"),
        Some("servo-ubuntu2204".to_owned())
    );
}

#[test]
fn guest_name_without_prefix_or_id() {
    assert_eq!(base_name_from_guest_name("other-servo.17", "ci-"), None);
    assert_eq!(base_name_from_guest_name("ci-servo", "ci-"), None);
    assert_eq!(runner_id_from_guest_name("ci-servo"), None);
    assert_eq!(runner_id_from_guest_name("ci-servo.x"), None);
    // The dot of the prefix is not the one that splits the name.
    assert_eq!(base_name_from_guest_name("ci.servo", "ci."), None);
}

#[test]
fn guest_name_with_unicode() {
    assert_eq!(runner_id_from_guest_name("ci-é.ü.3"), Some(3));
    assert_eq!(
        base_name_from_guest_name("ci-é.ü.3", "ci-"),
        Some("é.ü".to_owned())
    );
}

#[test]
fn decimal_string_writes_numbers() {
    assert_eq!(decimal_string(0), "0");
    assert_eq!(decimal_string(9), "9");
    assert_eq!(decimal_string(10), "10");
    assert_eq!(decimal_string(1234), "1234");
    assert_eq!(decimal_string(usize::MAX), usize::MAX.to_string());
}

#[test]
fn decimal_string_reads_back() {
    for n in [0usize, 1, 10, 99, 100, 65535, usize::MAX] {
        let name = format!("base.{}@host", decimal_string(n));
        assert_eq!(runner_id_from_registration_name(&name), Some(n));
        let guest = format!("ci-base.{}", decimal_string(n));
        assert_eq!(runner_id_from_guest_name(&guest), Some(n));
        assert_eq!(base_name_from_guest_name(&guest, "ci-"), Some("base".to_owned()));
    }
}

#[test]
fn str_eq_compares_chars() {
    assert!(str_eq("abc", "abc"));
    assert!(!str_eq("abc", "abd"));
    assert!(!str_eq("abc", "ab"));
    assert!(str_eq("", ""));
}
