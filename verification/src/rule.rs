//! The owner of the rule set: it answers queries and takes insertions, one
//! message at a time, and reduces the lines of the control pipe to host names.

use crate::rules::{contains, empty_trie, with_domain, Rules, Trie};
use crate::target::{just_hostname, Target, TargetView};
use crate::text::{before_first, chars_of};
use vstd::prelude::*;

verus! {

/// The rule set behind the message interface.
pub struct Filter {
    rules: Rules,
}

impl View for Filter {
    type V = Trie;

    closed spec fn view(&self) -> Trie {
        self.rules@
    }
}

/// A message to the owner of the rule set.
pub enum FilterControl {
    /// Is this host matched?
    Query(String),
    /// Add this host as a rule.
    Insert(String),
}

/// The name under which a target is looked up in the rules: a host name
/// without its port. An IP endpoint is not looked up.
pub open spec fn queried_host(target: TargetView) -> Option<Seq<char>> {
    match target {
        TargetView::Hostname(h) => Some(before_first(h, ':')),
        _ => None,
    }
}

/// Whether the rules match a target: a host name is asked for without its
/// port; an IP endpoint is never matched.
pub open spec fn target_matches(t: Trie, target: TargetView) -> bool {
    match queried_host(target) {
        Some(h) => contains(t, h),
        None => false,
    }
}

/// The rules after a message, and the reply that it gets: a query leaves the
/// rules alone and is answered; an insertion gets no reply.
pub open spec fn handled(t: Trie, msg: FilterControl) -> (Trie, Option<bool>) {
    match msg {
        FilterControl::Query(h) => (t, Some(contains(t, h@))),
        FilterControl::Insert(h) => (with_domain(t, h@), None),
    }
}

/// The name to ask the rules for, if `target` is to be looked up at all.
pub fn query_host(target: &Target) -> (out: Option<String>)
    ensures
        match out {
            Some(h) => queried_host(target@) == Some(h@),
            None => queried_host(target@) is None,
        },
{
    match target {
        Target::Hostname(h) => Some(just_hostname(h.clone())),
        _ => None,
    }
}

/// A filter without rules.
pub fn new_rules() -> (out: Filter)
    ensures
        out.wf(),
        out@ == empty_trie(),
{
    Filter { rules: Rules::new() }
}

impl Filter {
    /// The rule set is well formed.
    pub closed spec fn wf(self) -> bool {
        self.rules.wf()
    }

    /// A filter over the given rules.
    pub fn from_rules(rules: Rules) -> (out: Filter)
        requires
            rules.wf(),
        ensures
            out.wf(),
            out@ == rules@,
    {
        Filter { rules }
    }

    /// Offers `hostname` as a rule; an invalid one is ignored.
    pub fn insert(&mut self, hostname: &str)
        requires
            old(self).wf(),
        ensures
            final(self).wf(),
            final(self)@ == with_domain(old(self)@, hostname@),
    {
        self.rules.add(hostname);
    }

    /// Whether the rules match `hostname`.
    pub fn check_domain(&self, hostname: &str) -> (out: bool)
        requires
            self.wf(),
        ensures
            out == contains(self@, hostname@),
    {
        self.rules.contain(hostname)
    }

    /// Whether the rules match `target`.
    pub fn check_target(&self, target: &Target) -> (out: bool)
        requires
            self.wf(),
        ensures
            out == target_matches(self@, target@),
    {
        match query_host(target) {
            Some(host) => self.check_domain(host.as_str()),
            None => false,
        }
    }

    /// Serves one message.
    pub fn handle(&mut self, msg: FilterControl) -> (out: Option<bool>)
        requires
            old(self).wf(),
        ensures
            final(self).wf(),
            (final(self)@, out) == handled(old(self)@, msg),
    {
        match msg {
            FilterControl::Query(h) => Some(self.check_domain(h.as_str())),
            FilterControl::Insert(h) => {
                self.insert(h.as_str());
                None
            },
        }
    }
}

/// The domain of the URL that a text is, for a text that is a URL whose host
/// is a domain name.
pub uninterp spec fn url_domain(text: Seq<char>) -> Option<Seq<char>>;

/// Parses `text` with `url::Url::parse` and takes the `domain()` of the
/// result: `None` when the text is no absolute URL or its host is no domain
/// name.
#[verifier::external_body]
fn parse_url_domain(text: &str) -> (out: Option<String>)
    ensures
        match out {
            Some(d) => url_domain(text@) == Some(d@),
            None => url_domain(text@) is None,
        },
{
    match url::Url::parse(text) {
        Ok(u) => match u.domain() {
            Some(d) => Some(d.to_string()),
            None => None,
        },
        Err(_) => None,
    }
}

pub open spec fn https_scheme() -> Seq<char> {
    seq!['h', 't', 't', 'p', 's', ':', '/', '/']
}

pub open spec fn http_scheme() -> Seq<char> {
    seq!['h', 't', 't', 'p', ':', '/', '/']
}

/// Whether a line of the control pipe is written as a URL.
pub open spec fn has_url_scheme(line: Seq<char>) -> bool {
    https_scheme().is_prefix_of(line) || http_scheme().is_prefix_of(line)
}

/// The host that a line of the control pipe stands for: the domain of a
/// line written as a URL, given what parsing it gave; else, and where
/// parsing gave nothing, the line itself.
pub open spec fn host_of_line(line: Seq<char>, parsed: Option<Seq<char>>) -> Seq<char> {
    if has_url_scheme(line) {
        match parsed {
            Some(d) => d,
            None => line,
        }
    } else {
        line
    }
}

fn starts_with(text: &[char], prefix: &[char]) -> (out: bool)
    ensures
        out == prefix@.is_prefix_of(text@),
{
    if prefix.len() > text.len() {
        return false;
    }
    let mut i: usize = 0;
    while i < prefix.len()
        invariant
            i <= prefix@.len() <= text@.len(),
            forall|j: int| 0 <= j < i ==> text@[j] == prefix@[j],
        decreases prefix@.len() - i,
    {
        if text[i] != prefix[i] {
            assert(text@.subrange(0, prefix@.len() as int)[i as int] != prefix@[i as int]);
            return false;
        }
        i += 1;
    }
    assert(text@.subrange(0, prefix@.len() as int) =~= prefix@);
    true
}

fn written_as_url(line: &str) -> (out: bool)
    ensures
        out == has_url_scheme(line@),
{
    let chars = chars_of(line);
    let https: [char; 8] = ['h', 't', 't', 'p', 's', ':', '/', '/'];
    let http: [char; 7] = ['h', 't', 't', 'p', ':', '/', '/'];
    assert(https@ =~= https_scheme());
    assert(http@ =~= http_scheme());
    starts_with(chars.as_slice(), https.as_slice()) || starts_with(
        chars.as_slice(),
        http.as_slice(),
    )
}

/// The host that a line of the control pipe stands for, given the domain
/// that parsing the line as a URL gave.
pub fn pick_host(line: String, parsed: Option<String>) -> (out: String)
    ensures
        out@ == host_of_line(
            line@,
            match parsed {
                Some(d) => Some(d@),
                None => None,
            },
        ),
{
    if written_as_url(line.as_str()) {
        match parsed {
            Some(d) => d,
            None => line,
        }
    } else {
        line
    }
}

/// The host that a line of the control pipe stands for: a line that starts
/// with `http://` or `https://` is read as a URL and reduced to its domain;
/// any other line, and a URL without a domain, is taken as it is.
pub fn control_line_host(line: String) -> (out: String)
    ensures
        out@ == host_of_line(line@, url_domain(line@)),
{
    if written_as_url(line.as_str()) {
        let parsed = parse_url_domain(line.as_str());
        pick_host(line, parsed)
    } else {
        line
    }
}

} // verus!
