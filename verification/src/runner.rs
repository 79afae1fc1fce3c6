//! One runner: its live resources (GitHub registration, libvirt guest and
//! its IPv4 address) and what the monitor derives from them.

use vstd::prelude::*;
use crate::github::{label_with_key, ApiRunner, ApiRunnerView};
use crate::names::{
    base_name_from_guest_name, base_name_from_registration_name, guest_base_name, parse_u64,
    registration_base_name,
};

verus! {

/// How a runner was built, as its `runner.toml` records it.
pub struct RunnerDetails {
    /// The name of the kind of image the runner was built from.
    pub image_type: String,
}

/// What a runner is doing, as far as the monitor can tell.
#[derive(Clone, Copy, Debug, PartialEq, Eq, Structural)]
pub enum Status {
    Invalid,
    StartedOrCrashed,
    Idle,
    Reserved,
    Busy,
    DoneOrUnregistered,
}

/// Why the time since an instant could not be given.
#[derive(Clone, Copy, Debug, PartialEq, Eq, Structural)]
pub enum TimeError {
    /// The instant lies after the current time.
    InFuture,
}

/// Why `Runner::reserved_since` failed.
#[derive(Clone, Copy, Debug, PartialEq, Eq, Structural)]
pub enum ReservedSinceError {
    /// The `reserved-since` label holds no number of seconds.
    BadLabel,
    /// The reservation lies after the current time.
    InFuture,
}

/// State of a runner and its live resources. Times are nanoseconds since
/// the Unix epoch; an IPv4 address is its four octets, most significant
/// first, as one `u32`.
pub struct Runner {
    id: usize,
    created_time: u128,
    registration: Option<ApiRunner>,
    guest_name: Option<String>,
    ipv4_address: Option<u32>,
    github_jitconfig: Option<String>,
    details: RunnerDetails,
}

/// A runner as plain values.
pub struct RunnerView {
    pub id: usize,
    pub created_time: u128,
    pub registration: Option<ApiRunnerView>,
    pub guest_name: Option<Seq<char>>,
    pub ipv4_address: Option<u32>,
    pub github_jitconfig: Option<Seq<char>>,
    pub image_type: Seq<char>,
}

pub open spec fn opt_string_view(s: Option<String>) -> Option<Seq<char>> {
    match s {
        Some(s) => Some(s@),
        None => None,
    }
}

pub open spec fn opt_registration_view(r: Option<ApiRunner>) -> Option<ApiRunnerView> {
    match r {
        Some(r) => Some(r@),
        None => None,
    }
}

impl View for Runner {
    type V = RunnerView;

    closed spec fn view(&self) -> RunnerView {
        RunnerView {
            id: self.id,
            created_time: self.created_time,
            registration: opt_registration_view(self.registration),
            guest_name: opt_string_view(self.guest_name),
            ipv4_address: self.ipv4_address,
            github_jitconfig: opt_string_view(self.github_jitconfig),
            image_type: self.details.image_type@,
        }
    }
}

/// The status that a runner's resources tell.
pub open spec fn status_of(r: RunnerView) -> Status {
    if r.guest_name is None {
        Status::Invalid
    } else {
        match r.registration {
            None => Status::DoneOrUnregistered,
            Some(reg) => if reg.busy {
                Status::Busy
            } else if label_with_key(reg.labels, "reserved-for"@) is Some {
                Status::Reserved
            } else if reg.status == "online"@ {
                Status::Idle
            } else {
                Status::StartedOrCrashed
            },
        }
    }
}

/// The base image name that the registration's name gives, if any.
pub open spec fn base_vm_name_from_registration(r: RunnerView) -> Option<Seq<char>> {
    match r.registration {
        Some(reg) => registration_base_name(reg.name),
        None => None,
    }
}

/// The base image name that the guest's name gives, if any.
pub open spec fn base_vm_name_from_guest_name(r: RunnerView, prefix: Seq<char>) -> Option<
    Seq<char>,
> {
    match r.guest_name {
        Some(name) => guest_base_name(name, prefix),
        None => None,
    }
}

/// Whether the registration or the guest name gives a base image name.
pub open spec fn has_base_vm_name(r: RunnerView, prefix: Seq<char>) -> bool {
    base_vm_name_from_registration(r) is Some || base_vm_name_from_guest_name(r, prefix) is Some
}

/// The base image name of a runner: the registration's, else the guest's.
pub open spec fn base_vm_name(r: RunnerView, prefix: Seq<char>) -> Seq<char> {
    match base_vm_name_from_registration(r) {
        Some(base) => base,
        None => base_vm_name_from_guest_name(r, prefix)->0,
    }
}

/// The `reserved-since` label: none, a label that holds no `u64`, or its
/// number of seconds since the Unix epoch.
pub open spec fn reserved_since_secs(r: RunnerView) -> Option<Option<u64>> {
    match r.registration {
        Some(reg) => match label_with_key(reg.labels, "reserved-since"@) {
            Some(value) => Some(parse_u64(value)),
            None => None,
        },
        None => None,
    }
}

/// The time from `since` to `now`, or `InFuture` where `since` is later.
pub open spec fn elapsed(since: int, now: int) -> Result<u128, TimeError> {
    if since <= now {
        Ok((now - since) as u128)
    } else {
        Err(TimeError::InFuture)
    }
}

pub open spec fn nanos_per_sec() -> int {
    1_000_000_000
}

impl Runner {
    /// A runner with none of its live resources attached yet.
    pub fn new(
        id: usize,
        created_time: u128,
        github_jitconfig: Option<String>,
        details: RunnerDetails,
    ) -> (r: Runner)
        ensures
            r@.id == id,
            r@.created_time == created_time,
            r@.registration is None,
            r@.guest_name is None,
            r@.ipv4_address is None,
            r@.github_jitconfig == opt_string_view(github_jitconfig),
            r@.image_type == details.image_type@,
    {
        Runner {
            id,
            created_time,
            registration: None,
            guest_name: None,
            ipv4_address: None,
            github_jitconfig,
            details,
        }
    }

    pub fn id(&self) -> (r: usize)
        ensures
            r == self@.id,
    {
        self.id
    }

    pub fn created_time(&self) -> (r: u128)
        ensures
            r == self@.created_time,
    {
        self.created_time
    }

    pub fn registration(&self) -> (r: Option<&ApiRunner>)
        ensures
            match r {
                Some(reg) => self@.registration == Some(reg@),
                None => self@.registration is None,
            },
    {
        self.registration.as_ref()
    }

    pub fn guest_name(&self) -> (r: Option<&String>)
        ensures
            match r {
                Some(name) => self@.guest_name == Some(name@),
                None => self@.guest_name is None,
            },
    {
        self.guest_name.as_ref()
    }

    pub fn ipv4_address(&self) -> (r: Option<u32>)
        ensures
            r == self@.ipv4_address,
    {
        self.ipv4_address
    }

    pub fn github_jitconfig(&self) -> (r: Option<&String>)
        ensures
            match r {
                Some(config) => self@.github_jitconfig == Some(config@),
                None => self@.github_jitconfig is None,
            },
    {
        self.github_jitconfig.as_ref()
    }

    pub fn details(&self) -> (r: &RunnerDetails)
        ensures
            r.image_type@ == self@.image_type,
    {
        &self.details
    }

    /// Attaches the runner's GitHub registration.
    pub(crate) fn set_registration(&mut self, registration: ApiRunner)
        ensures
            final(self)@ == (RunnerView { registration: Some(registration@), ..old(self)@ }),
    {
        self.registration = Some(registration);
    }

    /// Attaches the runner's libvirt guest and that guest's IPv4 address.
    pub(crate) fn set_guest(&mut self, guest_name: String, ipv4_address: Option<u32>)
        ensures
            final(self)@ == (RunnerView {
                guest_name: Some(guest_name@),
                ipv4_address: ipv4_address,
                ..old(self)@
            }),
    {
        self.guest_name = Some(guest_name);
        self.ipv4_address = ipv4_address;
    }

    /// Records the IPv4 address of the runner's guest.
    pub(crate) fn set_ipv4_address(&mut self, ipv4_address: Option<u32>)
        ensures
            final(self)@ == (RunnerView { ipv4_address: ipv4_address, ..old(self)@ }),
    {
        self.ipv4_address = ipv4_address;
    }

    /// The time since the runner was created, as of `now`.
    pub fn age(&self, now: u128) -> (r: Result<u128, TimeError>)
        ensures
            r == elapsed(self@.created_time as int, now as int),
    {
        if self.created_time <= now {
            Ok(now - self.created_time)
        } else {
            Err(TimeError::InFuture)
        }
    }

    /// The `reserved-since` label of the registration: `None` without a
    /// registration or without such a label, `Some(None)` where the label
    /// holds no `u64`, else the seconds that it holds.
    pub fn reserved_since_secs(&self) -> (r: Option<Option<u64>>)
        ensures
            r == reserved_since_secs(self@),
    {
        match &self.registration {
            Some(registration) => match registration.label_with_key("reserved-since") {
                Some(value) => {
                    let v = crate::names::chars_of(value.as_str());
                    let secs = crate::names::parse_u64_range(&v, 0, v.len());
                    assert(v@.subrange(0, v@.len() as int) =~= value@);
                    Some(secs)
                },
                None => None,
            },
            None => None,
        }
    }

    /// The time since the runner was reserved, as of `now`: `Ok(None)` where
    /// the registration has no `reserved-since` label.
    pub fn reserved_since(&self, now: u128) -> (r: Result<Option<u128>, ReservedSinceError>)
        requires
            reserved_since_secs(self@) matches Some(Some(secs)) ==> secs <= i64::MAX,
        ensures
            match reserved_since_secs(self@) {
                None => r == Ok::<Option<u128>, ReservedSinceError>(None),
                Some(None) => r == Err::<Option<u128>, ReservedSinceError>(
                    ReservedSinceError::BadLabel,
                ),
                Some(Some(secs)) => match elapsed(secs * nanos_per_sec(), now as int) {
                    Ok(d) => r == Ok::<Option<u128>, ReservedSinceError>(Some(d)),
                    Err(_) => r == Err::<Option<u128>, ReservedSinceError>(
                        ReservedSinceError::InFuture,
                    ),
                },
            },
    {
        match self.reserved_since_secs() {
            None => Ok(None),
            Some(None) => Err(ReservedSinceError::BadLabel),
            Some(Some(secs)) => {
                let since: u128 = (secs as u128) * 1_000_000_000u128;
                if since <= now {
                    Ok(Some(now - since))
                } else {
                    Err(ReservedSinceError::InFuture)
                }
            },
        }
    }

    /// What the runner is doing.
    pub fn status(&self) -> (r: Status)
        ensures
            r == status_of(self@),
    {
        if self.guest_name.is_none() {
            return Status::Invalid;
        }
        let registration = match &self.registration {
            Some(registration) => registration,
            None => {
                return Status::DoneOrUnregistered;
            },
        };
        if registration.busy {
            return Status::Busy;
        }
        if registration.label_with_key("reserved-for").is_some() {
            return Status::Reserved;
        }
        if registration.status == String::from_str("online") {
            return Status::Idle;
        }
        return Status::StartedOrCrashed;
    }

    /// The base image name in the registration's name `<base>.<id>@<host>`.
    pub fn base_vm_name_from_registration(&self) -> (r: Option<String>)
        ensures
            opt_string_view(r) == base_vm_name_from_registration(self@),
    {
        match &self.registration {
            Some(registration) => base_name_from_registration_name(registration.name.as_str()),
            None => None,
        }
    }

    /// The base image name in the guest's name `<prefix><base>.<id>`.
    pub fn base_vm_name_from_guest_name(&self, prefix: &str) -> (r: Option<String>)
        ensures
            opt_string_view(r) == base_vm_name_from_guest_name(self@, prefix@),
    {
        match &self.guest_name {
            Some(name) => base_name_from_guest_name(name.as_str(), prefix),
            None => None,
        }
    }

    /// The base image name of the runner: the registration's, else the
    /// guest's. A runner with neither has no such name, so callers first
    /// make sure one of them gives it.
    pub fn base_vm_name(&self, prefix: &str) -> (r: String)
        requires
            has_base_vm_name(self@, prefix@),
        ensures
            r@ == base_vm_name(self@, prefix@),
    {
        match self.base_vm_name_from_registration() {
            Some(base) => base,
            None => match self.base_vm_name_from_guest_name(prefix) {
                Some(base) => base,
                None => {
                    assert(false);
                    String::new()
                },
            },
        }
    }
}

} // verus!
