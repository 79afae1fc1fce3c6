use monitor::github::ApiRunner;
use monitor::runner::{Runner, RunnerDetails};
use monitor::runners::{RunnerError, Runners};

fn registration(id: usize, name: &str) -> ApiRunner {
    ApiRunner {
        id,
        name: name.to_owned(),
        status: "online".to_owned(),
        busy: false,
        labels: vec![],
    }
}

fn runner(id: usize) -> Runner {
    Runner::new(id, 0, Some(format!("config{id}")), RunnerDetails { image_type: String::new() })
}

fn ids(runners: &Runners) -> Vec<usize> {
    runners.iter().iter().map(|r| r.id()).collect()
}

const A: u32 = 0x0a00_0001;
const B: u32 = 0x0a00_0002;

/// Runners 1, 2, 3: 1 and 3 have guests with address A, 2 a guest with B.
fn sample() -> Runners {
    let regs = vec![registration(101, "img-a.1@h"), registration(102, "img-b.2@h")];
    let names = vec!["ci-img-a.3".to_owned(), "ci-img-b.2".to_owned(), "ci-img-a.1".to_owned()];
    let addrs = vec![Some(A), Some(B), Some(A)];
    Runners::new(regs, names, addrs, vec![runner(3), runner(1), runner(2)])
}

#[test]
fn runner_ids_sorted_and_unique() {
    let regs = vec![registration(1, "x.5@h"), registration(2, "bad"), registration(3, "x.2@h")];
    let names = vec!["ci-x.5".to_owned(), "ci-x.9".to_owned(), "nodot".to_owned()];
    assert_eq!(Runners::runner_ids(&regs, &names), vec![2, 5, 9]);
    assert_eq!(Runners::runner_ids(&vec![], &vec![]), Vec::<usize>::new());
}

#[test]
fn new_keeps_runners_in_id_order() {
    let runners = sample();
    assert_eq!(ids(&runners), vec![1, 2, 3]);
    assert!(runners.get(4).is_none());
    assert_eq!(runners.get(2).unwrap().id(), 2);
}

#[test]
fn new_attaches_registrations_and_guests() {
    let runners = sample();
    let one = runners.get(1).unwrap();
    assert_eq!(one.registration().unwrap().id, 101);
    assert_eq!(one.guest_name().unwrap(), "ci-img-a.1");
    assert_eq!(one.ipv4_address(), Some(A));
    let three = runners.get(3).unwrap();
    assert!(three.registration().is_none());
    assert_eq!(three.guest_name().unwrap(), "ci-img-a.3");
}

#[test]
fn new_attaches_registration_by_its_own_name() {
    // An unparseable registration goes to no runner.
    let regs = vec![registration(100, "bad"), registration(200, "x.2@h")];
    let runners = Runners::new(regs, vec![], vec![], vec![runner(2)]);
    assert_eq!(runners.get(2).unwrap().registration().unwrap().id, 200);
}

#[test]
fn new_attaches_guest_by_its_own_name() {
    let names = vec![
        "servo-ubuntu2204.1".to_owned(),
        "bogus".to_owned(),
        "servo-ubuntu2204.2".to_owned(),
    ];
    let runners = Runners::new(vec![], names, vec![Some(A), Some(B), None], vec![runner(1), runner(2)]);
    assert_eq!(ids(&runners), vec![1, 2]);
    assert_eq!(runners.get(1).unwrap().guest_name().unwrap(), "servo-ubuntu2204.1");
    assert_eq!(runners.get(1).unwrap().ipv4_address(), Some(A));
    assert_eq!(runners.get(2).unwrap().guest_name().unwrap(), "servo-ubuntu2204.2");
    assert_eq!(runners.get(2).unwrap().ipv4_address(), None);
}

#[test]
fn new_drops_only_the_runner_not_created() {
    let regs = vec![registration(100, "x.1@h"), registration(200, "x.2@h"), registration(300, "x.3@h")];
    let names = vec!["ci-x.1".to_owned(), "ci-x.2".to_owned(), "ci-x.3".to_owned()];
    let all = Runners::new(regs, names, vec![Some(A), Some(B), Some(A)], vec![runner(1), runner(3)]);
    let regs2 = vec![registration(100, "x.1@h"), registration(300, "x.3@h")];
    let names2 = vec!["ci-x.1".to_owned(), "ci-x.3".to_owned()];
    let fewer = Runners::new(regs2, names2, vec![Some(A), Some(A)], vec![runner(1), runner(3)]);
    assert_eq!(ids(&all), ids(&fewer));
    for id in [1, 3] {
        let a = all.get(id).unwrap();
        let b = fewer.get(id).unwrap();
        assert_eq!(a.registration().unwrap().id, b.registration().unwrap().id);
        assert_eq!(a.guest_name(), b.guest_name());
        assert_eq!(a.ipv4_address(), b.ipv4_address());
    }
}

#[test]
fn new_skips_runners_not_created() {
    let regs = vec![registration(100, "x.1@h"), registration(200, "x.2@h")];
    let runners = Runners::new(regs, vec![], vec![], vec![runner(2)]);
    assert_eq!(ids(&runners), vec![2]);
    assert_eq!(runners.get(2).unwrap().registration().unwrap().id, 200);
}

#[test]
fn new_later_registration_wins() {
    let regs = vec![registration(100, "x.1@h"), registration(200, "y.1@h")];
    let runners = Runners::new(regs, vec![], vec![], vec![runner(1)]);
    assert_eq!(runners.get(1).unwrap().registration().unwrap().id, 200);
}

#[test]
fn new_later_created_runner_replaces_earlier() {
    let first = Runner::new(1, 5, None, RunnerDetails { image_type: String::new() });
    let second = Runner::new(1, 9, None, RunnerDetails { image_type: String::new() });
    let runners = Runners::new(vec![], vec![], vec![], vec![first, second]);
    assert_eq!(ids(&runners), vec![1]);
    assert_eq!(runners.get(1).unwrap().created_time(), 9);
}

#[test]
fn unregister_runner_cases() {
    let runners = sample();
    assert_eq!(runners.unregister_runner(2), Ok(102));
    assert_eq!(runners.unregister_runner(3), Err(RunnerError::NotRegistered));
    assert_eq!(runners.unregister_runner(7), Err(RunnerError::NotRegistered));
}

#[test]
fn reserve_runner_cases() {
    let runners = sample();
    assert_eq!(
        runners.reserve_runner(1, "uid", "servo/servo", "123"),
        Ok(vec!["101".to_owned(), "uid".to_owned(), "servo/servo/actions/runs/123".to_owned()])
    );
    assert_eq!(runners.reserve_runner(3, "uid", "servo/servo", "123"), Err(RunnerError::NotRegistered));
    assert_eq!(runners.reserve_runner(7, "uid", "servo/servo", "123"), Err(RunnerError::NoRunner(7)));
}

#[test]
fn screenshot_cases() {
    let runners = Runners::new(vec![], vec!["ci-x.1".to_owned()], vec![None], vec![runner(1), runner(2)]);
    assert_eq!(runners.screenshot_runner(1), Ok("ci-x.1".to_owned()));
    assert_eq!(runners.screenshot_runner(2), Err(RunnerError::NoGuest(2)));
    assert_eq!(runners.screenshot_runner(3), Err(RunnerError::NoRunner(3)));
    assert_eq!(runners.update_screenshot(1), Ok("ci-x.1".to_owned()));
    assert_eq!(runners.update_screenshot(2), Err(RunnerError::NoGuest(2)));
    assert_eq!(runners.update_screenshot(3), Err(RunnerError::NoRunner(3)));
}

#[test]
fn lookups_by_address_find_smallest_id() {
    let runners = sample();
    assert_eq!(runners.boot_script(A), Some(1));
    assert_eq!(runners.boot_script(B), Some(2));
    assert_eq!(runners.boot_script(7), None);
    assert_eq!(runners.github_jitconfig(A).map(|c| c.cloned()), Ok(Some("config1".to_owned())));
    assert_eq!(runners.github_jitconfig(7).map(|c| c.cloned()), Err(RunnerError::NoRunnerWithAddress(7)));
}

#[test]
fn github_jitconfig_may_be_absent() {
    let r = Runner::new(1, 0, None, RunnerDetails { image_type: String::new() });
    let runners = Runners::new(vec![], vec!["ci-x.1".to_owned()], vec![Some(A)], vec![r]);
    assert_eq!(runners.github_jitconfig(A).map(|c| c.cloned()), Ok(None));
}

#[test]
fn by_profile_filters_by_base_name() {
    let runners = sample();
    let a: Vec<usize> = runners.by_profile("img-a", "ci-").iter().map(|r| r.id()).collect();
    assert_eq!(a, vec![1, 3]);
    let b: Vec<usize> = runners.by_profile("img-b", "ci-").iter().map(|r| r.id()).collect();
    assert_eq!(b, vec![2]);
    assert!(runners.by_profile("img-c", "ci-").is_empty());
}

#[test]
fn update_ipv4_addresses_reports_changes() {
    let mut runners = Runners::new(
        vec![],
        vec!["ci-x.1".to_owned(), "ci-x.3".to_owned()],
        vec![Some(A), None],
        vec![runner(1), runner(2), runner(3)],
    );
    let changes = runners.update_ipv4_addresses(&vec![Some(A), Some(B), Some(B)]);
    assert_eq!(changes, vec![(3, None, Some(B))]);
    assert_eq!(runners.get(1).unwrap().ipv4_address(), Some(A));
    // Runner 2 has no guest: it keeps no address.
    assert_eq!(runners.get(2).unwrap().ipv4_address(), None);
    assert_eq!(runners.get(3).unwrap().ipv4_address(), Some(B));
    assert_eq!(ids(&runners), vec![1, 2, 3]);
    let changes = runners.update_ipv4_addresses(&vec![None, None, Some(B)]);
    assert_eq!(changes, vec![(1, Some(A), None)]);
}
