# monitor

Verified core of the CI runner monitor: it reads runner ids and base image
names out of GitHub registration names (`<base>.<id>@<host>`) and libvirt
guest names (`<prefix><base>.<id>`), tracks one runner per id with the
resources attached to it, and answers the monitor's questions about them
(status, age, reservation, lookups by id, profile and IPv4 address).

- `src/names.rs`: splitting names and reading decimal ids, as `rsplit_once`,
  `strip_prefix` and `FromStr` for unsigned integers do.
- `src/github.rs`: the registration fields the monitor reads, and label lookup.
- `src/runner.rs`: one runner, its status, age, reservation time, base name.
- `src/runners.rs`: the runners, ordered and keyed by id.
- `src/laws.rs`: properties that span these functions.
- `src/utm.rs`: guest cloning, which needs macOS.
- `app/`: file, process, libvirt and GitHub access, logging, and the serde
  copies of the library's types.

Times are nanoseconds since the Unix epoch and IPv4 addresses are `u32`s;
`app/` converts to and from `SystemTime`, `Duration` and `Ipv4Addr`.
