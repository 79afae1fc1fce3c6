//! Runner names: GitHub registrations are named `<base>.<id>@<host>` and
//! libvirt guests `<prefix><base>.<id>`. This module splits such names and
//! parses their decimal ids.

use vstd::prelude::*;

verus! {

/// The position of the last `c` in `s`.
pub open spec fn last_index_of(s: Seq<char>, c: char) -> Option<int>
    decreases s.len(),
{
    if s.len() == 0 {
        None
    } else if s.last() == c {
        Some(s.len() - 1)
    } else {
        last_index_of(s.drop_last(), c)
    }
}

/// `str::rsplit_once` with a one-char delimiter: the text before and after
/// the last `c`.
pub open spec fn rsplit_once(s: Seq<char>, c: char) -> Option<(Seq<char>, Seq<char>)> {
    match last_index_of(s, c) {
        Some(i) => Some((s.take(i), s.skip(i + 1))),
        None => None,
    }
}

/// `str::strip_prefix`.
pub open spec fn strip_prefix(s: Seq<char>, prefix: Seq<char>) -> Option<Seq<char>> {
    if prefix.len() <= s.len() && s.take(prefix.len() as int) == prefix {
        Some(s.skip(prefix.len() as int))
    } else {
        None
    }
}

pub open spec fn is_digit(c: char) -> bool {
    '0' <= c && c <= '9'
}

pub open spec fn digit_value(c: char) -> nat {
    (c as int - '0' as int) as nat
}

pub open spec fn all_digits(s: Seq<char>) -> bool {
    forall|i: int| 0 <= i < s.len() ==> #[trigger] is_digit(s[i])
}

/// The number that the decimal digits `s` write.
pub open spec fn decimal_value(s: Seq<char>) -> nat
    decreases s.len(),
{
    if s.len() == 0 {
        0
    } else {
        decimal_value(s.drop_last()) * 10 + digit_value(s.last())
    }
}

/// What `FromStr` for an unsigned integer type whose largest value is `max`
/// gives: an optional `+`, then one or more decimal digits whose value does
/// not exceed `max`.
pub open spec fn parse_unsigned(s: Seq<char>, max: nat) -> Option<nat> {
    let digits = if s.len() > 0 && s[0] == '+' {
        s.skip(1)
    } else {
        s
    };
    if digits.len() > 0 && all_digits(digits) && decimal_value(digits) <= max {
        Some(decimal_value(digits))
    } else {
        None
    }
}

/// `s.parse::<usize>().ok()`
pub open spec fn parse_usize(s: Seq<char>) -> Option<usize> {
    match parse_unsigned(s, usize::MAX as nat) {
        Some(v) => Some(v as usize),
        None => None,
    }
}

/// `s.parse::<u64>().ok()`
pub open spec fn parse_u64(s: Seq<char>) -> Option<u64> {
    match parse_unsigned(s, u64::MAX as nat) {
        Some(v) => Some(v as u64),
        None => None,
    }
}

/// The runner id in a registration name `<base>.<id>@<host>`.
pub open spec fn registration_runner_id(name: Seq<char>) -> Option<usize> {
    match rsplit_once(name, '@') {
        Some((rest, _host)) => match rsplit_once(rest, '.') {
            Some((_base, id)) => parse_usize(id),
            None => None,
        },
        None => None,
    }
}

/// The base image name in a registration name `<base>.<id>@<host>`.
pub open spec fn registration_base_name(name: Seq<char>) -> Option<Seq<char>> {
    match rsplit_once(name, '@') {
        Some((rest, _host)) => match rsplit_once(rest, '.') {
            Some((base, _id)) => Some(base),
            None => None,
        },
        None => None,
    }
}

/// The runner id in a guest name `<anything>.<id>`.
pub open spec fn guest_runner_id(name: Seq<char>) -> Option<usize> {
    match rsplit_once(name, '.') {
        Some((_rest, id)) => parse_usize(id),
        None => None,
    }
}

/// The base image name in a guest name `<prefix><base>.<id>`.
pub open spec fn guest_base_name(name: Seq<char>, prefix: Seq<char>) -> Option<Seq<char>> {
    match strip_prefix(name, prefix) {
        Some(rest) => match rsplit_once(rest, '.') {
            Some((base, _id)) => Some(base),
            None => None,
        },
        None => None,
    }
}

/// The decimal digits of `n`, without leading zeros.
pub open spec fn decimal(n: nat) -> Seq<char>
    decreases n,
{
    if n < 10 {
        seq![digit_char(n)]
    } else {
        decimal(n / 10).push(digit_char(n % 10))
    }
}

/// The name under which runner `id`, built from image `base`, registers
/// with GitHub on `host`.
pub open spec fn registration_name(base: Seq<char>, id: usize, host: Seq<char>) -> Seq<char> {
    base + seq!['.'] + decimal(id as nat) + seq!['@'] + host
}

/// The name of the libvirt guest of runner `id`, built from image `base`.
pub open spec fn guest_name(prefix: Seq<char>, base: Seq<char>, id: usize) -> Seq<char> {
    prefix + base + seq!['.'] + decimal(id as nat)
}

pub open spec fn digit_char(d: nat) -> char {
    (d + '0' as nat) as char
}

// ---------------------------------------------------------------------------
// Lemmas

/// What `last_index_of` finds: the last position that holds `c`, or none.
pub proof fn lemma_last_index_of(s: Seq<char>, c: char)
    ensures
        match last_index_of(s, c) {
            Some(i) => 0 <= i < s.len() && s[i] == c && forall|j: int|
                i < j < s.len() ==> s[j] != c,
            None => forall|j: int| 0 <= j < s.len() ==> s[j] != c,
        },
    decreases s.len(),
{
    if s.len() > 0 && s.last() != c {
        let t = s.drop_last();
        lemma_last_index_of(t, c);
        assert forall|j: int| 0 <= j < t.len() implies t[j] == s[j] by {}
    }
}

/// A position that holds `c` with no `c` after it is the one `last_index_of` finds.
pub proof fn lemma_last_index_of_unique(s: Seq<char>, c: char, i: int)
    requires
        0 <= i < s.len(),
        s[i] == c,
        forall|j: int| i < j < s.len() ==> s[j] != c,
    ensures
        last_index_of(s, c) == Some(i),
{
    lemma_last_index_of(s, c);
    match last_index_of(s, c) {
        Some(k) => {
            if k < i {
                assert(s[i] != c);
            } else if k > i {
                assert(s[k] != c);
            }
        },
        None => {
            assert(s[i] != c);
        },
    }
}

/// A prefix of a digit string writes no larger a number than the whole.
pub proof fn lemma_decimal_value_prefix(s: Seq<char>, k: int)
    requires
        0 <= k <= s.len(),
    ensures
        decimal_value(s.take(k)) <= decimal_value(s),
    decreases s.len() - k,
{
    if k < s.len() {
        lemma_decimal_value_prefix(s.drop_last(), k);
        assert(s.drop_last().take(k) =~= s.take(k));
    } else {
        assert(s.take(k) =~= s);
    }
}

/// Extending a digit string by one char.
pub proof fn lemma_decimal_value_push(s: Seq<char>, k: int)
    requires
        0 <= k < s.len(),
    ensures
        decimal_value(s.take(k + 1)) == decimal_value(s.take(k)) * 10 + digit_value(s[k]),
{
    assert(s.take(k + 1).drop_last() =~= s.take(k));
}

// ---------------------------------------------------------------------------
// Executable functions

/// The chars of `s`, one element each.
pub fn chars_of(s: &str) -> (v: Vec<char>)
    ensures
        v@ == s@,
{
    let n = s.unicode_len();
    let mut v: Vec<char> = Vec::new();
    let mut i: usize = 0;
    while i < n
        invariant
            n == s@.len(),
            i <= n,
            v@ =~= s@.take(i as int),
        decreases n - i,
    {
        let c = s.get_char(i);
        v.push(c);
        i = i + 1;
    }
    assert(s@.take(n as int) =~= s@);
    v
}

/// The position of the last `c` among the first `hi` chars of `v`.
pub fn rfind(v: &Vec<char>, hi: usize, c: char) -> (r: Option<usize>)
    requires
        hi <= v.len(),
    ensures
        match r {
            Some(i) => last_index_of(v@.take(hi as int), c) == Some(i as int),
            None => last_index_of(v@.take(hi as int), c) is None,
        },
{
    let ghost s = v@.take(hi as int);
    let mut k: usize = hi;
    while k > 0
        invariant
            k <= hi <= v.len(),
            s == v@.take(hi as int),
            forall|j: int| k <= j < hi ==> s[j] != c,
        decreases k,
    {
        if v[k - 1] == c {
            proof {
                lemma_last_index_of_unique(s, c, k - 1);
            }
            return Some(k - 1);
        }
        k = k - 1;
    }
    proof {
        lemma_last_index_of(s, c);
        if last_index_of(s, c) is Some {
            let i = last_index_of(s, c)->0;
            assert(s[i] == c);
        }
    }
    None
}

/// The value of the digits `v[lo..hi]`, as `FromStr` for `u64` reads them.
pub fn parse_u64_range(v: &Vec<char>, lo: usize, hi: usize) -> (r: Option<u64>)
    requires
        lo <= hi <= v.len(),
    ensures
        r == parse_u64(v@.subrange(lo as int, hi as int)),
{
    let ghost s = v@.subrange(lo as int, hi as int);
    let mut start: usize = lo;
    if lo < hi && v[lo] == '+' {
        start = lo + 1;
    }
    let ghost d = v@.subrange(start as int, hi as int);
    assert(d =~= (if s.len() > 0 && s[0] == '+' { s.skip(1) } else { s }));
    if start >= hi {
        return None;
    }
    let mut acc: u64 = 0;
    let mut i: usize = start;
    assert(d.take(0) =~= Seq::<char>::empty());
    while i < hi
        invariant
            lo <= start <= i <= hi <= v.len(),
            start < hi,
            s == v@.subrange(lo as int, hi as int),
            d == v@.subrange(start as int, hi as int),
            d =~= (if s.len() > 0 && s[0] == '+' { s.skip(1) } else { s }),
            all_digits(d.take(i - start)),
            acc as nat == decimal_value(d.take(i - start)),
        decreases hi - i,
    {
        let c = v[i];
        let k: usize = i - start;
        assert(d[k as int] == c);
        if !(c >= '0' && c <= '9') {
            assert(!is_digit(d[k as int]));
            return None;
        }
        let dv: u64 = (c as u32 - '0' as u32) as u64;
        proof {
            lemma_decimal_value_push(d, k as int);
            lemma_decimal_value_prefix(d, k + 1);
        }
        let next = match acc.checked_mul(10) {
            Some(m) => m.checked_add(dv),
            None => None,
        };
        match next {
            Some(n) => {
                acc = n;
            },
            None => {
                return None;
            },
        }
        i = i + 1;
        assert forall|j: int| 0 <= j < d.take(i - start).len() implies #[trigger] is_digit(
            d.take(i - start)[j],
        ) by {
            if j < k {
                assert(d.take(k as int)[j] == d.take(i - start)[j]);
            }
        }
    }
    assert(d.take(hi - start) =~= d);
    Some(acc)
}

/// The value of the digits `v[lo..hi]`, as `FromStr` for `usize` reads them.
pub fn parse_usize_range(v: &Vec<char>, lo: usize, hi: usize) -> (r: Option<usize>)
    requires
        lo <= hi <= v.len(),
    ensures
        r == parse_usize(v@.subrange(lo as int, hi as int)),
{
    match parse_u64_range(v, lo, hi) {
        Some(x) => {
            if x as u128 <= usize::MAX as u128 {
                Some(x as usize)
            } else {
                None
            }
        },
        None => {
            proof {
                let s = v@.subrange(lo as int, hi as int);
                assert(parse_unsigned(s, usize::MAX as nat) is None);
            }
            None
        },
    }
}

/// `v[hi]` is `c` and no `c` follows it among the first `end` chars: the
/// split that `rsplit_once` makes of `v[..end]`.
proof fn lemma_rsplit_at(v: Seq<char>, end: int, at: int, c: char)
    requires
        0 <= at < end <= v.len(),
        last_index_of(v.take(end), c) == Some(at),
    ensures
        rsplit_once(v.take(end), c) == Some((v.take(at), v.subrange(at + 1, end))),
{
    assert(v.take(end).take(at) =~= v.take(at));
    assert(v.take(end).skip(at + 1) =~= v.subrange(at + 1, end));
}

/// Whether `v` starts with the chars of `prefix`.
pub fn starts_with_chars(v: &Vec<char>, prefix: &Vec<char>) -> (r: bool)
    ensures
        r == (prefix@.len() <= v@.len() && v@.take(prefix@.len() as int) == prefix@),
{
    if prefix.len() > v.len() {
        return false;
    }
    let mut i: usize = 0;
    while i < prefix.len()
        invariant
            prefix@.len() <= v@.len(),
            i <= prefix@.len(),
            forall|j: int| 0 <= j < i ==> v@[j] == prefix@[j],
        decreases prefix@.len() - i,
    {
        if v[i] != prefix[i] {
            assert(v@.take(prefix@.len() as int)[i as int] != prefix@[i as int]);
            return false;
        }
        i = i + 1;
    }
    assert(v@.take(prefix@.len() as int) =~= prefix@);
    true
}

/// Where a registration name `v` splits: at the last `.` before the last
/// `@`, and at that `@`.
fn registration_split(v: &Vec<char>) -> (r: Option<(usize, usize)>)
    ensures
        match r {
            Some((dot, at)) => {
                &&& dot < at < v@.len()
                &&& rsplit_once(v@, '@') == Some((v@.take(at as int), v@.skip(at + 1)))
                &&& rsplit_once(v@.take(at as int), '.') == Some(
                    (v@.take(dot as int), v@.subrange(dot + 1, at as int)),
                )
            },
            None => match rsplit_once(v@, '@') {
                Some((rest, _host)) => rsplit_once(rest, '.') is None,
                None => true,
            },
        },
{
    assert(v@.take(v@.len() as int) =~= v@);
    match rfind(v, v.len(), '@') {
        None => None,
        Some(at) => {
            proof {
                lemma_last_index_of(v@, '@');
                lemma_rsplit_at(v@, v@.len() as int, at as int, '@');
            }
            match rfind(v, at, '.') {
                None => None,
                Some(dot) => {
                    proof {
                        lemma_last_index_of(v@.take(at as int), '.');
                        lemma_rsplit_at(v@, at as int, dot as int, '.');
                    }
                    Some((dot, at))
                },
            }
        },
    }
}

/// The runner id in a registration name `<base>.<id>@<host>`, as
/// `name.rsplit_once('@')`, then `rsplit_once('.')`, then `parse::<usize>()`
/// find it.
pub fn runner_id_from_registration_name(name: &str) -> (r: Option<usize>)
    ensures
        r == registration_runner_id(name@),
{
    let v = chars_of(name);
    match registration_split(&v) {
        Some((dot, at)) => parse_usize_range(&v, dot + 1, at),
        None => None,
    }
}

/// The runner id in a guest name `<anything>.<id>`.
pub fn runner_id_from_guest_name(name: &str) -> (r: Option<usize>)
    ensures
        r == guest_runner_id(name@),
{
    let v = chars_of(name);
    assert(v@.take(v@.len() as int) =~= v@);
    match rfind(&v, v.len(), '.') {
        None => None,
        Some(dot) => {
            proof {
                lemma_last_index_of(v@, '.');
                lemma_rsplit_at(v@, v@.len() as int, dot as int, '.');
            }
            parse_usize_range(&v, dot + 1, v.len())
        },
    }
}

/// The base image name in a registration name `<base>.<id>@<host>`.
pub fn base_name_from_registration_name(name: &str) -> (r: Option<String>)
    ensures
        match r {
            Some(base) => registration_base_name(name@) == Some(base@),
            None => registration_base_name(name@) is None,
        },
{
    let v = chars_of(name);
    match registration_split(&v) {
        Some((dot, _at)) => {
            let base = name.substring_char(0, dot);
            assert(base@ =~= v@.take(dot as int));
            Some(String::from_str(base))
        },
        None => None,
    }
}

/// The base image name in a guest name `<prefix><base>.<id>`.
pub fn base_name_from_guest_name(name: &str, prefix: &str) -> (r: Option<String>)
    ensures
        match r {
            Some(base) => guest_base_name(name@, prefix@) == Some(base@),
            None => guest_base_name(name@, prefix@) is None,
        },
{
    let v = chars_of(name);
    let p = chars_of(prefix);
    if !starts_with_chars(&v, &p) {
        return None;
    }
    let plen = p.len();
    let ghost rest = v@.skip(plen as int);
    assert(strip_prefix(name@, prefix@) == Some(rest));
    match rfind(&v, v.len(), '.') {
        None => {
            proof {
                lemma_last_index_of(v@.take(v@.len() as int), '.');
                lemma_last_index_of(rest, '.');
                assert(v@.take(v@.len() as int) =~= v@);
                if last_index_of(rest, '.') is Some {
                    let i = last_index_of(rest, '.')->0;
                    assert(v@[plen + i] == rest[i]);
                }
            }
            None
        },
        Some(dot) => {
            proof {
                assert(v@.take(v@.len() as int) =~= v@);
                lemma_last_index_of(v@, '.');
            }
            if dot < plen {
                proof {
                    lemma_last_index_of(rest, '.');
                    if last_index_of(rest, '.') is Some {
                        let i = last_index_of(rest, '.')->0;
                        assert(v@[plen + i] == rest[i]);
                    }
                }
                None
            } else {
                proof {
                    let i = dot - plen;
                    assert(rest[i] == v@[dot as int]);
                    assert forall|j: int| i < j < rest.len() implies rest[j] != '.' by {
                        assert(rest[j] == v@[plen + j]);
                    }
                    lemma_last_index_of_unique(rest, '.', i);
                    assert(rest.take(i) =~= v@.subrange(plen as int, dot as int));
                }
                let base = name.substring_char(plen, dot);
                Some(String::from_str(base))
            }
        },
    }
}

/// Whether `a` and `b` hold the same chars.
pub fn str_eq(a: &str, b: &str) -> (r: bool)
    ensures
        r == (a@ == b@),
{
    let x = chars_of(a);
    let y = chars_of(b);
    if x.len() != y.len() {
        return false;
    }
    let mut i: usize = 0;
    while i < x.len()
        invariant
            x@ == a@,
            y@ == b@,
            x@.len() == y@.len(),
            i <= x@.len(),
            forall|j: int| 0 <= j < i ==> x@[j] == y@[j],
        decreases x@.len() - i,
    {
        if x[i] != y[i] {
            assert(x@[i as int] != y@[i as int]);
            return false;
        }
        i = i + 1;
    }
    assert(x@ =~= y@);
    true
}

/// The text of one decimal digit.
fn digit_str(d: usize) -> (r: &'static str)
    requires
        d < 10,
    ensures
        r@ == seq![digit_char(d as nat)],
{
    let digits = "0123456789";
    proof {
        reveal_strlit("0123456789");
    }
    let r = digits.substring_char(d, d + 1);
    assert(r@ =~= seq![digits@[d as int]]);
    r
}

/// `n.to_string()`: the decimal digits of `n`.
pub fn decimal_string(n: usize) -> (r: String)
    ensures
        r@ == decimal(n as nat),
    decreases n,
{
    if n < 10 {
        String::from_str(digit_str(n))
    } else {
        let mut r = decimal_string(n / 10);
        r.append(digit_str(n % 10));
        r
    }
}

} // verus!
