use monitor::github::{ApiRunner, ApiRunnerLabel};
use monitor::runner::{ReservedSinceError, Runner, RunnerDetails, Status, TimeError};
use monitor::runners::Runners;

fn registration(id: usize, name: &str, status: &str, busy: bool, labels: &[&str]) -> ApiRunner {
    ApiRunner {
        id,
        name: name.to_owned(),
        status: status.to_owned(),
        busy,
        labels: labels
            .iter()
            .map(|l| ApiRunnerLabel { name: (*l).to_owned() })
            .collect(),
    }
}

fn details() -> RunnerDetails {
    RunnerDetails { image_type: "Rust".to_owned() }
}

fn runner(id: usize, created: u128) -> Runner {
    Runner::new(id, created, Some(format!("config{id}")), details())
}

/// A collection with one runner `id`, with the given registration and guest.
fn single(id: usize, reg: Option<ApiRunner>, guest: Option<(&str, Option<u32>)>) -> Runners {
    let regs: Vec<ApiRunner> = reg.into_iter().collect();
    let (names, addrs): (Vec<String>, Vec<Option<u32>>) = guest
        .into_iter()
        .map(|(n, a)| (n.to_owned(), a))
        .unzip();
    Runners::new(regs, names, addrs, vec![runner(id, 0)])
}

#[test]
fn label_with_key_finds_first_value() {
    let reg = registration(1, "b.1@h", "online", false, &["self-hosted", "reserved-for:job1", "reserved-for:job2"]);
    assert_eq!(reg.label_with_key("reserved-for"), Some("job1".to_owned()));
    assert_eq!(reg.label_with_key("reserved"), None);
    assert_eq!(reg.label_with_key("self-hosted"), None);
}

#[test]
fn label_with_key_empty_value() {
    let reg = registration(1, "b.1@h", "online", false, &["reserved-for:"]);
    assert_eq!(reg.label_with_key("reserved-for"), Some(String::new()));
}

#[test]
fn status_invalid_without_guest() {
    let reg = registration(5, "b.1@h", "online", true, &[]);
    let runners = single(1, Some(reg), None);
    assert_eq!(runners.get(1).unwrap().status(), Status::Invalid);
}

#[test]
fn status_done_without_registration() {
    let runners = single(1, None, Some(("ci-b.1", None)));
    assert_eq!(runners.get(1).unwrap().status(), Status::DoneOrUnregistered);
}

#[test]
fn status_busy_reserved_idle_started() {
    let busy = single(1, Some(registration(5, "b.1@h", "online", true, &["reserved-for:x"])), Some(("ci-b.1", None)));
    assert_eq!(busy.get(1).unwrap().status(), Status::Busy);
    let reserved = single(1, Some(registration(5, "b.1@h", "online", false, &["reserved-for:x"])), Some(("ci-b.1", None)));
    assert_eq!(reserved.get(1).unwrap().status(), Status::Reserved);
    let idle = single(1, Some(registration(5, "b.1@h", "online", false, &[])), Some(("ci-b.1", None)));
    assert_eq!(idle.get(1).unwrap().status(), Status::Idle);
    let started = single(1, Some(registration(5, "b.1@h", "offline", false, &[])), Some(("ci-b.1", None)));
    assert_eq!(started.get(1).unwrap().status(), Status::StartedOrCrashed);
}

#[test]
fn age_is_time_since_creation() {
    let r = runner(1, 1_000);
    assert_eq!(r.age(1_500), Ok(500));
    assert_eq!(r.age(1_000), Ok(0));
    assert_eq!(r.age(999), Err(TimeError::InFuture));
}

#[test]
fn reserved_since_cases() {
    let none = single(1, Some(registration(5, "b.1@h", "online", false, &[])), None);
    assert_eq!(none.get(1).unwrap().reserved_since(0), Ok(None));
    let no_reg = single(1, None, None);
    assert_eq!(no_reg.get(1).unwrap().reserved_since(0), Ok(None));
    assert_eq!(no_reg.get(1).unwrap().reserved_since_secs(), None);

    let bad = single(1, Some(registration(5, "b.1@h", "online", false, &["reserved-since:soon"])), None);
    assert_eq!(bad.get(1).unwrap().reserved_since_secs(), Some(None));
    assert_eq!(bad.get(1).unwrap().reserved_since(0), Err(ReservedSinceError::BadLabel));

    let ok = single(1, Some(registration(5, "b.1@h", "online", false, &["reserved-since:100"])), None);
    assert_eq!(ok.get(1).unwrap().reserved_since_secs(), Some(Some(100)));
    assert_eq!(ok.get(1).unwrap().reserved_since(150_000_000_000), Ok(Some(50_000_000_000)));
    assert_eq!(ok.get(1).unwrap().reserved_since(99_000_000_000), Err(ReservedSinceError::InFuture));
}

#[test]
fn base_vm_name_prefers_registration() {
    let both = single(1, Some(registration(5, "from-reg.1@h", "online", false, &[])), Some(("ci-from-guest.1", None)));
    let r = both.get(1).unwrap();
    assert_eq!(r.base_vm_name("ci-"), "from-reg");
    assert_eq!(r.base_vm_name_from_guest_name("ci-"), Some("from-guest".to_owned()));

    let guest_only = single(1, None, Some(("ci-from-guest.1", None)));
    let r = guest_only.get(1).unwrap();
    assert_eq!(r.base_vm_name_from_registration(), None);
    assert_eq!(r.base_vm_name("ci-"), "from-guest");
}

#[test]
fn runner_new_has_no_resources() {
    let r = runner(3, 77);
    assert_eq!(r.id(), 3);
    assert_eq!(r.created_time(), 77);
    assert!(r.registration().is_none());
    assert!(r.guest_name().is_none());
    assert_eq!(r.ipv4_address(), None);
    assert_eq!(r.github_jitconfig().map(|s| s.as_str()), Some("config3"));
    assert_eq!(r.details().image_type, "Rust");
}
