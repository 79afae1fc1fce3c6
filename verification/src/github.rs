//! The part of a GitHub Actions self-hosted runner registration that the
//! monitor reads: its id, name, status, whether it is busy, and its labels.

use vstd::prelude::*;
use crate::names::{chars_of, starts_with_chars, strip_prefix};

verus! {

/// One label of a registration, such as `reserved-for:<job>`.
pub struct ApiRunnerLabel {
    pub name: String,
}

/// A self-hosted runner as the GitHub API lists it.
pub struct ApiRunner {
    pub id: usize,
    pub name: String,
    pub status: String,
    pub busy: bool,
    pub labels: Vec<ApiRunnerLabel>,
}

/// The registration as plain values.
pub struct ApiRunnerView {
    pub id: usize,
    pub name: Seq<char>,
    pub status: Seq<char>,
    pub busy: bool,
    pub labels: Seq<Seq<char>>,
}

impl View for ApiRunner {
    type V = ApiRunnerView;

    open spec fn view(&self) -> ApiRunnerView {
        ApiRunnerView {
            id: self.id,
            name: self.name@,
            status: self.status@,
            busy: self.busy,
            labels: self.labels@.map_values(|l: ApiRunnerLabel| l.name@),
        }
    }
}

/// The value of the first label that reads `<key>:<value>`.
pub open spec fn label_with_key(labels: Seq<Seq<char>>, key: Seq<char>) -> Option<Seq<char>>
    decreases labels.len(),
{
    if labels.len() == 0 {
        None
    } else {
        match strip_prefix(labels[0], key.push(':')) {
            Some(value) => Some(value),
            None => label_with_key(labels.skip(1), key),
        }
    }
}

impl ApiRunner {
    /// The value of the first label of this registration that reads
    /// `<key>:<value>`.
    pub fn label_with_key(&self, key: &str) -> (r: Option<String>)
        ensures
            match r {
                Some(value) => label_with_key(self@.labels, key@) == Some(value@),
                None => label_with_key(self@.labels, key@) is None,
            },
    {
        let mut wanted = chars_of(key);
        wanted.push(':');
        let ghost labels = self@.labels;
        let n = self.labels.len();
        let mut i: usize = 0;
        assert(labels.skip(0) =~= labels);
        while i < n
            invariant
                n == self.labels@.len(),
                labels == self@.labels,
                wanted@ == key@.push(':'),
                i <= n,
                label_with_key(labels, key@) == label_with_key(labels.skip(i as int), key@),
            decreases n - i,
        {
            let name = self.labels[i].name.as_str();
            let v = chars_of(name);
            assert(labels.skip(i as int)[0] == v@);
            assert(labels.skip(i as int).skip(1) =~= labels.skip(i + 1));
            if starts_with_chars(&v, &wanted) {
                let value = name.substring_char(wanted.len(), v.len());
                assert(value@ =~= v@.skip(wanted@.len() as int));
                return Some(String::from_str(value));
            }
            i = i + 1;
        }
        assert(labels.skip(n as int) =~= Seq::<Seq<char>>::empty());
        None
    }
}

} // verus!
