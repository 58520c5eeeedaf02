//! The rule set: a trie of domain labels, walked from the top-level domain
//! down, in which a terminal marker stands for a name and all names below it.

use crate::text::{
    chars_of, lemma_position_bounds, lemma_split_after_separator, lemma_split_ends,
    lemma_split_joined, same_text, split,
    split_at_char, strip_one, strip_one_char, text_of, views,
};
use vstd::prelude::*;

verus! {

/// One label of a domain name.
pub type Label = Seq<char>;

/// A rule set as a mathematical tree: each label leads to a terminal marker
/// (`None`) or to the rules below it.
pub struct Trie {
    pub children: Map<Label, Option<Trie>>,
}

/// The rule set without rules.
pub open spec fn empty_trie() -> Trie {
    Trie { children: Map::empty() }
}

/// Whether the labels of a name, written as in DNS with the top-level domain
/// last, run into a terminal marker when the tree is walked from the last
/// label to the first.
pub open spec fn matches(t: Trie, labels: Seq<Label>) -> bool
    decreases labels.len(),
{
    if labels.len() == 0 {
        false
    } else if !t.children.contains_key(labels.last()) {
        false
    } else {
        match t.children[labels.last()] {
            None => true,
            Some(sub) => matches(sub, labels.drop_last()),
        }
    }
}

/// The tree after the name with the given labels was added: the walk from
/// the last label creates what is missing, stops at a terminal marker that is
/// already there, and sets a terminal marker at the first label, in place of
/// whatever stood below it.
pub open spec fn inserted(t: Trie, labels: Seq<Label>) -> Trie
    decreases labels.len(),
{
    if labels.len() == 0 {
        t
    } else {
        let k = labels.last();
        let rest = labels.drop_last();
        if rest.len() == 0 {
            Trie { children: t.children.insert(k, None) }
        } else if t.children.contains_key(k) {
            match t.children[k] {
                None => t,
                Some(sub) => Trie { children: t.children.insert(k, Some(inserted(sub, rest))) },
            }
        } else {
            Trie { children: t.children.insert(k, Some(inserted(empty_trie(), rest))) }
        }
    }
}

/// Whether `tail` is what `whole` ends with.
pub open spec fn ends_with(whole: Seq<Label>, tail: Seq<Label>) -> bool {
    tail.len() <= whole.len() && whole.skip(whole.len() - tail.len()) == tail
}

/// An ASCII letter.
pub open spec fn is_alphabetic(c: char) -> bool {
    ('a' <= c && c <= 'z') || ('A' <= c && c <= 'Z')
}

/// An ASCII letter, a digit or a hyphen.
pub open spec fn is_label_char(c: char) -> bool {
    is_alphabetic(c) || ('0' <= c && c <= '9') || c == '-'
}

/// One to 63 letters, digits and hyphens, with no hyphen at either end.
pub open spec fn valid_label(l: Label) -> bool {
    &&& 1 <= l.len() <= 63
    &&& forall|i: int| 0 <= i < l.len() ==> is_label_char(#[trigger] l[i])
    &&& l[0] != '-'
    &&& l.last() != '-'
}

/// Two to 63 letters.
pub open spec fn valid_tld(l: Label) -> bool {
    &&& 2 <= l.len() <= 63
    &&& forall|i: int| 0 <= i < l.len() ==> is_alphabetic(#[trigger] l[i])
}

/// At least one label, every label valid, the last one a valid top-level domain.
pub open spec fn valid_labels(labels: Seq<Label>) -> bool {
    &&& labels.len() >= 1
    &&& forall|i: int| 0 <= i < labels.len() ==> valid_label(#[trigger] labels[i])
    &&& valid_tld(labels.last())
}

/// A domain as it is validated and stored: without the one dot that may
/// end it. Nothing else is dropped: a second dot at the end leaves an empty
/// label, and whitespace anywhere is a character that no label may hold.
pub open spec fn normalized(domain: Seq<char>) -> Seq<char> {
    strip_one(domain, '.')
}

/// Whether a domain is accepted as a rule: at most 255 characters once
/// normalized, and valid labels between its dots. The characters of valid
/// labels are ASCII, so the bound is one on octets as well.
pub open spec fn valid_domain(domain: Seq<char>) -> bool {
    normalized(domain).len() <= 255 && valid_labels(split(normalized(domain), '.'))
}

/// The rule set after `domain` was offered as a rule: an invalid domain
/// changes nothing.
pub open spec fn with_domain(t: Trie, domain: Seq<char>) -> Trie {
    if valid_domain(domain) {
        inserted(t, split(normalized(domain), '.'))
    } else {
        t
    }
}

/// The labels of a name that is looked up: one dot at its end does not
/// count.
pub open spec fn query_labels(target: Seq<char>) -> Seq<Label> {
    split(strip_one(target, '.'), '.')
}

/// The label of the top-level domain that is never matched.
pub open spec fn excluded_tld() -> Label {
    seq!['c', 'n']
}

/// Whether the rule set matches a name: never under the excluded top-level
/// domain, else by the walk from the last label.
pub open spec fn contains(t: Trie, target: Seq<char>) -> bool {
    query_labels(target).last() != excluded_tld() && matches(t, query_labels(target))
}

/// Adding a name changes the answer for exactly the names that end with its
/// labels: they match afterwards; every other answer stays.
pub proof fn lemma_inserted_matches(t: Trie, added: Seq<Label>, asked: Seq<Label>)
    requires
        added.len() >= 1,
    ensures
        matches(inserted(t, added), asked) == (matches(t, asked) || ends_with(asked, added)),
    decreases added.len(),
{
    let k = added.last();
    let rest = added.drop_last();
    if asked.len() > 0 {
        let above = asked.drop_last();
        lemma_ends_with_step(asked, added);
        if rest.len() == 0 {
            assert(above.skip(above.len() as int) =~= rest);
        } else if t.children.contains_key(k) {
            match t.children[k] {
                None => {},
                Some(sub) => {
                    lemma_inserted_matches(sub, rest, above);
                },
            }
        } else {
            lemma_inserted_matches(empty_trie(), rest, above);
            assert(!matches(empty_trie(), above));
        }
    }
}

/// A sequence ends with another when their last labels agree and what
/// stands before them does so too.
pub proof fn lemma_ends_with_step(whole: Seq<Label>, tail: Seq<Label>)
    requires
        whole.len() >= 1,
        tail.len() >= 1,
    ensures
        ends_with(whole, tail) == (whole.last() == tail.last() && ends_with(
            whole.drop_last(),
            tail.drop_last(),
        )),
{
    let w = whole.drop_last();
    let r = tail.drop_last();
    if tail.len() <= whole.len() {
        let d = whole.len() - tail.len();
        if ends_with(whole, tail) {
            assert(whole.last() == whole.skip(d)[tail.len() - 1]);
            assert(w.skip(d) =~= r) by {
                assert forall|i: int| 0 <= i < r.len() implies w.skip(d)[i] == r[i] by {
                    assert(whole.skip(d)[i] == tail[i]);
                }
            }
        }
        if whole.last() == tail.last() && ends_with(w, r) {
            assert(whole.skip(d) =~= tail) by {
                assert forall|i: int| 0 <= i < tail.len() implies whole.skip(d)[i] == tail[i] by {
                    if i < r.len() {
                        assert(w.skip(d)[i] == r[i]);
                    }
                }
            }
        }
    }
}

/// A valid domain, once normalized, starts with a letter, digit or hyphen
/// and ends with a letter.
pub proof fn lemma_valid_domain_ends(d: Seq<char>)
    requires
        valid_domain(d),
    ensures
        normalized(d).len() >= 2,
        is_label_char(normalized(d)[0]),
        is_alphabetic(normalized(d).last()),
{
    let n = normalized(d);
    let labels = split(n, '.');
    lemma_split_ends(n, '.');
    lemma_position_bounds(n, '.');
    let tld = labels.last();
    assert(valid_tld(tld));
    assert(is_alphabetic(tld[tld.len() - 1]));
    assert(n.last() == tld[tld.len() - 1]);
    let first = labels[0];
    assert(valid_label(first));
    assert(is_label_char(first[0]));
    assert(n[0] == first[0]);
}

/// Offering a domain changes the answer for exactly the names at or below
/// it, outside the excluded top-level domain: they are matched afterwards.
/// Every other answer stays as it was, and nothing that matched is lost.
pub proof fn law_add_changes_names_below(t: Trie, domain: Seq<char>, target: Seq<char>)
    ensures
        contains(with_domain(t, domain), target) == (contains(t, target) || (valid_domain(domain)
            && query_labels(target).last() != excluded_tld() && ends_with(
            query_labels(target),
            split(normalized(domain), '.'),
        ))),
{
    if valid_domain(domain) {
        lemma_inserted_matches(t, split(normalized(domain), '.'), query_labels(target));
    }
}

/// Once a valid domain outside the excluded top-level domain was offered,
/// every name made of anything, a dot, and that domain is matched; so is
/// the domain itself.
pub proof fn law_added_domain_covers_subdomains(t: Trie, domain: Seq<char>, prefix: Seq<char>)
    requires
        valid_domain(domain),
        split(normalized(domain), '.').last() != excluded_tld(),
    ensures
        contains(with_domain(t, domain), prefix + seq!['.'] + normalized(domain)),
        contains(with_domain(t, domain), normalized(domain)),
{
    let n = normalized(domain);
    let labels = split(n, '.');
    let whole = prefix + seq!['.'] + n;
    lemma_valid_domain_ends(domain);
    assert(whole.last() == n.last());
    lemma_split_joined(prefix, n, '.');
    let asked = split(prefix, '.') + labels;
    assert(asked.skip(asked.len() - labels.len()) == labels);
    assert(asked.last() == labels.last());
    assert(labels.skip(0) == labels);
    lemma_inserted_matches(t, labels, asked);
    lemma_inserted_matches(t, labels, labels);
}

/// What the rules match, they match after any further domain was offered.
pub proof fn law_matches_are_kept(t: Trie, domain: Seq<char>, target: Seq<char>)
    requires
        contains(t, target),
    ensures
        contains(with_domain(t, domain), target),
{
    law_add_changes_names_below(t, domain, target);
}

/// Offering a domain twice is the same as offering it once.
pub proof fn law_add_idempotent(t: Trie, domain: Seq<char>)
    ensures
        with_domain(with_domain(t, domain), domain) == with_domain(t, domain),
{
    if valid_domain(domain) {
        lemma_inserted_twice(t, split(normalized(domain), '.'));
    }
}

/// Adding the same labels a second time changes nothing.
pub proof fn lemma_inserted_twice(t: Trie, labels: Seq<Label>)
    ensures
        inserted(inserted(t, labels), labels) == inserted(t, labels),
    decreases labels.len(),
{
    if labels.len() > 0 {
        let k = labels.last();
        let rest = labels.drop_last();
        let once = inserted(t, labels);
        let twice = inserted(once, labels);
        if rest.len() == 0 {
            assert(twice.children =~= once.children);
        } else if t.children.contains_key(k) {
            match t.children[k] {
                None => {},
                Some(sub) => {
                    lemma_inserted_twice(sub, rest);
                    assert(twice.children =~= once.children);
                },
            }
        } else {
            lemma_inserted_twice(empty_trie(), rest);
            assert(twice.children =~= once.children);
        }
    }
}

/// A domain under the excluded top-level domain is not matched even after
/// it was offered as a rule.
pub proof fn law_excluded_domain_stays_unmatched(t: Trie, domain: Seq<char>)
    requires
        valid_domain(domain),
        split(normalized(domain), '.').last() == excluded_tld(),
    ensures
        !contains(with_domain(t, domain), normalized(domain)),
{
    lemma_valid_domain_ends(domain);
}

/// Whether the labels of `path`, from the last to the first, lead down the
/// tree from its top, without passing a terminal marker before the end.
pub open spec fn has_path(t: Trie, path: Seq<Label>) -> bool
    decreases path.len(),
{
    if path.len() == 0 {
        true
    } else if !t.children.contains_key(path.last()) {
        false
    } else {
        match t.children[path.last()] {
            None => path.len() == 1,
            Some(sub) => has_path(sub, path.drop_last()),
        }
    }
}

/// Whether every label that the tree holds is a valid one, and every label
/// at its top a valid top-level domain.
pub open spec fn holds_valid_labels(t: Trie) -> bool {
    forall|path: Seq<Label>| path.len() >= 1 && #[trigger] has_path(t, path) ==> valid_labels(path)
}

/// A path of the tree after a name was added was there before, or is what
/// the name ends with.
pub proof fn lemma_inserted_paths(t: Trie, added: Seq<Label>, path: Seq<Label>)
    requires
        added.len() >= 1,
        path.len() >= 1,
        has_path(inserted(t, added), path),
    ensures
        has_path(t, path) || ends_with(added, path),
    decreases added.len(),
{
    let k = added.last();
    let rest = added.drop_last();
    let below = path.drop_last();
    lemma_ends_with_step(added, path);
    if path.last() == k {
        if below.len() == 0 {
            assert(rest.skip(rest.len() as int) =~= below);
        } else if rest.len() == 0 {
        } else if t.children.contains_key(k) {
            match t.children[k] {
                None => {},
                Some(sub) => {
                    lemma_inserted_paths(sub, rest, below);
                },
            }
        } else {
            lemma_inserted_paths(empty_trie(), rest, below);
        }
    }
}

/// Rules that were built by offering domains hold valid labels only: the
/// empty rule set does, and offering a domain keeps it so.
pub proof fn law_labels_stay_valid(t: Trie, domain: Seq<char>)
    requires
        holds_valid_labels(t),
    ensures
        holds_valid_labels(empty_trie()),
        holds_valid_labels(with_domain(t, domain)),
{
    if valid_domain(domain) {
        let added = split(normalized(domain), '.');
        let after = inserted(t, added);
        assert forall|path: Seq<Label>| path.len() >= 1 && #[trigger] has_path(
            after,
            path,
        ) implies valid_labels(path) by {
            lemma_inserted_paths(t, added, path);
            if !has_path(t, path) {
                let d = added.len() - path.len();
                assert forall|i: int| 0 <= i < path.len() implies valid_label(
                    #[trigger] path[i],
                ) by {
                    assert(path[i] == added.skip(d)[i]);
                    assert(valid_label(added[d + i]));
                }
                assert(path.last() == added.skip(d)[path.len() - 1]);
            }
        }
    }
}

/// A name whose top-level domain is the excluded one is never matched,
/// whatever the rules hold.
pub proof fn law_excluded_tld_never_matches(t: Trie, target: Seq<char>)
    requires
        query_labels(target).last() == excluded_tld(),
    ensures
        !contains(t, target),
{
}

/// A domain that breaks a label rule, or is longer than 255 characters once
/// normalized, leaves the rules as they are.
pub proof fn law_invalid_domain_ignored(t: Trie, domain: Seq<char>)
    requires
        normalized(domain).len() > 255 || !valid_labels(split(normalized(domain), '.')),
    ensures
        with_domain(t, domain) == t,
{
}

/// A domain that ends with two dots is refused: one dot is dropped, the
/// other leaves an empty label.
pub proof fn law_second_trailing_dot_refused(t: Trie, domain: Seq<char>)
    requires
        domain.len() >= 2,
        domain[domain.len() - 1] == '.',
        domain[domain.len() - 2] == '.',
    ensures
        !valid_domain(domain),
        with_domain(t, domain) == t,
{
    let n = normalized(domain);
    assert(n.last() == domain[domain.len() - 2]);
    lemma_split_after_separator(n, '.');
}

/// A name that ends with two dots is not matched by rules that hold valid
/// labels only: its last label is empty.
pub proof fn law_second_trailing_dot_unmatched(t: Trie, target: Seq<char>)
    requires
        holds_valid_labels(t),
        target.len() >= 2,
        target[target.len() - 1] == '.',
        target[target.len() - 2] == '.',
    ensures
        !contains(t, target),
{
    let n = strip_one(target, '.');
    assert(n.last() == target[target.len() - 2]);
    lemma_split_after_separator(n, '.');
    let labels = query_labels(target);
    let top = seq![labels.last()];
    if t.children.contains_key(labels.last()) {
        assert(top.last() == labels.last());
        assert(top.drop_last().len() == 0);
        match t.children[labels.last()] {
            None => {},
            Some(sub) => {
                assert(has_path(sub, top.drop_last()));
            },
        }
        assert(has_path(t, top));
        assert(valid_tld(top.last()));
    }
}

/// A valid domain written with one dot at its end is the same rule as
/// without.
pub proof fn law_trailing_dot_ignored(t: Trie, domain: Seq<char>)
    requires
        valid_domain(domain),
    ensures
        normalized(normalized(domain) + seq!['.']) == normalized(domain),
        with_domain(t, normalized(domain) + seq!['.']) == with_domain(t, domain),
{
    let n = normalized(domain);
    let dotted = n + seq!['.'];
    lemma_valid_domain_ends(domain);
    assert(dotted.drop_last() == n);
}

/// One label of a node and what it leads to: a terminal marker (`None`) or
/// the rules below.
struct Entry {
    label: Vec<char>,
    child: Option<Rules>,
}

/// A rule set.
pub struct Rules {
    entries: Vec<Entry>,
}

impl Rules {
    /// No label stands twice in a node, here or below.
    pub closed spec fn wf(self) -> bool
        decreases self,
    {
        &&& forall|i: int, j: int|
            0 <= i < j < self.entries@.len() ==> self.entries@[i].label@ != self.entries@[j].label@
        &&& forall|i: int|
            0 <= i < self.entries@.len() ==> match (#[trigger] self.entries@[i]).child {
                Some(r) => r.wf(),
                None => true,
            }
    }

    spec fn has(self, l: Label) -> bool {
        exists|i: int| 0 <= i < self.entries@.len() && self.entries@[i].label@ == l
    }

    spec fn index_of(self, l: Label) -> int {
        choose|i: int| 0 <= i < self.entries@.len() && self.entries@[i].label@ == l
    }

    /// The tree that this rule set stands for.
    spec fn model(self) -> Trie
        decreases self,
    {
        Trie {
            children: Map::new(
                |l: Label| self.has(l),
                |l: Label|
                    match self.entries@[self.index_of(l)].child {
                        None => None,
                        Some(r) => if self.has(l) {
                            Some(r.model())
                        } else {
                            None
                        },
                    },
            ),
        }
    }

    spec fn child_model(e: Entry) -> Option<Trie> {
        match e.child {
            None => None,
            Some(r) => Some(r.model()),
        }
    }

    proof fn lemma_children(self)
        requires
            self.wf(),
        ensures
            forall|i: int|
                0 <= i < self.entries@.len() ==> self.model().children.contains_key(
                    #[trigger] self.entries@[i].label@,
                ) && self.model().children[self.entries@[i].label@] == Self::child_model(
                    self.entries@[i],
                ),
            forall|l: Label| #[trigger]
                self.model().children.contains_key(l) ==> 0 <= self.index_of(l)
                    < self.entries@.len() && self.entries@[self.index_of(l)].label@ == l,
    {
        assert forall|i: int| 0 <= i < self.entries@.len() implies self.model().children.contains_key(
            #[trigger] self.entries@[i].label@,
        ) && self.model().children[self.entries@[i].label@] == Self::child_model(
            self.entries@[i],
        ) by {
            let l = self.entries@[i].label@;
            assert(self.has(l));
            let j = self.index_of(l);
            assert(j == i) by {
                if j < i {
                    assert(self.entries@[j].label@ != self.entries@[i].label@);
                }
                if i < j {
                    assert(self.entries@[i].label@ != self.entries@[j].label@);
                }
            }
        }
    }

    /// A rule set without rules.
    pub fn new() -> (out: Rules)
        ensures
            out.wf(),
            out@ == empty_trie(),
    {
        let out = Rules { entries: Vec::new() };
        assert(out.model().children =~= Map::<Label, Option<Trie>>::empty());
        out
    }

    fn find(&self, label: &[char]) -> (out: Option<usize>)
        ensures
            match out {
                Some(i) => i < self.entries@.len() && self.entries@[i as int].label@ == label@,
                None => !self.has(label@),
            },
    {
        let mut i: usize = 0;
        while i < self.entries.len()
            invariant
                i <= self.entries@.len(),
                forall|j: int| 0 <= j < i ==> self.entries@[j].label@ != label@,
            decreases self.entries@.len() - i,
        {
            if same_text(self.entries[i].label.as_slice(), label) {
                return Some(i);
            }
            i += 1;
        }
        None
    }
}

impl Rules {
    /// Whether the rule set matches `target`. One dot at the end of the
    /// name does not count. A name under the top-level domain `cn` is never
    /// matched; any other is matched when the walk from its last label to
    /// its first meets a terminal marker.
    pub fn contain(&self, target: &str) -> (out: bool)
        requires
            self.wf(),
        ensures
            out == contains(self@, target@),
    {
        let chars = chars_of(target);
        let stripped = strip_one_char(chars.as_slice(), '.');
        let labels = split_at_char(stripped.as_slice(), '.');
        let n = labels.len();
        let ghost all = views(labels@);
        assert(all.last() == labels@[n - 1]@);
        if is_excluded(labels[n - 1].as_slice()) {
            return false;
        }
        let mut current: &Rules = self;
        let mut i: usize = n;
        assert(all.take(n as int) == all);
        while i > 0
            invariant
                i <= n,
                n == labels@.len(),
                all == views(labels@),
                all == query_labels(target@),
                all.last() != excluded_tld(),
                current.wf(),
                matches(self@, all) == matches(current@, all.take(i as int)),
            decreases i,
        {
            let ghost here = all.take(i as int);
            proof {
                current.lemma_children();
                assert(here.last() == labels@[i - 1]@);
                assert(here.drop_last() == all.take(i - 1));
            }
            match current.find(labels[i - 1].as_slice()) {
                None => {
                    return false;
                },
                Some(at) => {
                    match &current.entries[at].child {
                        None => {
                            return true;
                        },
                        Some(sub) => {
                            current = sub;
                        },
                    }
                },
            }
            i -= 1;
        }
        false
    }
}

impl Rules {
    /// Adds the name with the given labels, top-level domain last: walks
    /// from the last label, creates what is missing, and marks the first
    /// label as terminal. Nothing is added below a terminal marker. An
    /// empty list changes nothing.
    pub fn push(&mut self, list: Vec<Vec<char>>)
        requires
            old(self).wf(),
        ensures
            final(self).wf(),
            final(self)@ == inserted(old(self)@, views(list@)),
        decreases list@.len(),
    {
        let mut list = list;
        let ghost labels = views(list@);
        let k = match list.pop() {
            Some(k) => k,
            None => {
                return ;
            },
        };
        let ghost rest = views(list@);
        proof {
            assert(labels.last() == k@);
            assert(rest =~= labels.drop_last());
            self.lemma_children();
        }
        let ghost before = *self;
        match self.find(k.as_slice()) {
            Some(at) => {
                if list.len() == 0 {
                    self.entries[at].child = None;
                    proof {
                        self.lemma_replaced(before, at as int);
                    }
                } else {
                    match &mut self.entries[at].child {
                        Some(sub) => {
                            sub.push(list);
                        },
                        None => {},
                    }
                    proof {
                        if before.entries@[at as int].child is Some {
                            self.lemma_replaced(before, at as int);
                        } else {
                            assert(self.entries@ == before.entries@);
                            assert(self.model().children =~= before.model().children);
                        }
                    }
                }
            },
            None => {
                if list.len() > 0 {
                    let mut sub = Rules::new();
                    sub.push(list);
                    self.entries.push(Entry { label: k, child: Some(sub) });
                } else {
                    self.entries.push(Entry { label: k, child: None });
                }
                proof {
                    self.lemma_appended(before);
                }
            },
        }
    }

    /// Offers `domain` as a rule. One dot at its end is dropped first; a
    /// domain that is then longer than 255 characters or has an invalid
    /// label is ignored. The domain is taken as it is written: whitespace
    /// around it is not dropped and makes it invalid.
    pub fn add(&mut self, domain: &str)
        requires
            old(self).wf(),
        ensures
            final(self).wf(),
            final(self)@ == with_domain(old(self)@, domain@),
    {
        let chars = chars_of(domain);
        let name = strip_one_char(chars.as_slice(), '.');
        if name.len() > 255 {
            return ;
        }
        let list = split_at_char(name.as_slice(), '.');
        if !is_valid_domain(&list) {
            return ;
        }
        self.push(list);
    }

    /// The number of labels at the top of the rule set.
    pub closed spec fn size(self) -> nat {
        self.entries@.len()
    }

    /// The label at the top of the rule set that stands at place `i`.
    pub closed spec fn label_of(self, i: int) -> Label {
        self.entries@[i].label@
    }

    /// The labels at the top of a rule set are its places, one for one.
    pub proof fn lemma_places(self)
        requires
            self.wf(),
        ensures
            self@.children.dom().finite(),
            self@.children.dom().len() == self.size(),
            forall|i: int| 0 <= i < self.size() ==> self@.children.contains_key(#[trigger] self.label_of(i)),
            forall|i: int, j: int|
                0 <= i < j < self.size() ==> self.label_of(i) != self.label_of(j),
            forall|l: Label| #[trigger]
                self@.children.contains_key(l) ==> exists|i: int|
                    0 <= i < self.size() && self.label_of(i) == l,
    {
        let labels = Seq::new(self.entries@.len(), |i: int| self.entries@[i].label@);
        self.lemma_children();
        assert(labels.no_duplicates());
        assert(labels.to_set() =~= self.model().children.dom()) by {
            assert forall|l: Label| labels.to_set().contains(l) implies self.model().children.dom().contains(
                l,
            ) by {
                let i = choose|i: int| 0 <= i < labels.len() && labels[i] == l;
                assert(self.entries@[i].label@ == l);
            }
            assert forall|l: Label|
                self.model().children.dom().contains(l) implies labels.to_set().contains(l) by {
                let i = self.index_of(l);
                assert(labels[i] == l);
            }
        }
        labels.unique_seq_to_set();
        assert forall|l: Label| #[trigger] self@.children.contains_key(l) implies exists|i: int|
            0 <= i < self.size() && self.label_of(i) == l by {
            let i = self.index_of(l);
            assert(self.label_of(i) == l);
        }
    }

    /// The number of labels at the top of the rule set.
    pub fn len(&self) -> (out: usize)
        requires
            self.wf(),
        ensures
            out == self.size(),
            out == self@.children.dom().len(),
    {
        proof {
            self.lemma_places();
        }
        self.entries.len()
    }

    /// The label at place `i`.
    pub fn label_at(&self, i: usize) -> (out: String)
        requires
            self.wf(),
            i < self.size(),
        ensures
            out@ == self.label_of(i as int),
            self@.children.contains_key(out@),
    {
        proof {
            self.lemma_places();
        }
        text_of(self.entries[i].label.as_slice())
    }

    /// What the label at place `i` leads to: `None` for a terminal marker,
    /// else the rules below it.
    pub fn child_at(&self, i: usize) -> (out: Option<&Rules>)
        requires
            self.wf(),
            i < self.size(),
        ensures
            match out {
                Some(r) => r.wf() && self@.children[self.label_of(i as int)] == Some(r@),
                None => self@.children[self.label_of(i as int)] is None,
            },
    {
        proof {
            self.lemma_children();
        }
        match &self.entries[i].child {
            Some(r) => Some(r),
            None => None,
        }
    }

    /// Puts `child` under `label` at the top of the rule set, in place of
    /// what stood there: a terminal marker for `None`, else the rules below
    /// the label.
    pub fn set_child(&mut self, label: &str, child: Option<Rules>)
        requires
            old(self).wf(),
            child matches Some(r) ==> r.wf(),
        ensures
            final(self).wf(),
            final(self)@.children == old(self)@.children.insert(
                label@,
                match child {
                    Some(r) => Some(r@),
                    None => None,
                },
            ),
    {
        let k = chars_of(label);
        let ghost before = *self;
        match self.find(k.as_slice()) {
            Some(at) => {
                self.entries[at].child = child;
                proof {
                    self.lemma_replaced(before, at as int);
                }
            },
            None => {
                self.entries.push(Entry { label: k, child });
                proof {
                    self.lemma_appended(before);
                }
            },
        }
    }

    /// What replacing the child of one entry does to the model.
    proof fn lemma_replaced(self, before: Rules, at: int)
        requires
            before.wf(),
            0 <= at < before.entries@.len(),
            self.entries@.len() == before.entries@.len(),
            forall|i: int|
                0 <= i < before.entries@.len() ==> (#[trigger] self.entries@[i]).label
                    == before.entries@[i].label,
            forall|i: int|
                0 <= i < before.entries@.len() && i != at ==> (#[trigger] self.entries@[i])
                    == before.entries@[i],
            match self.entries@[at].child {
                Some(r) => r.wf(),
                None => true,
            },
        ensures
            self.wf(),
            self.model().children == before.model().children.insert(
                before.entries@[at].label@,
                Self::child_model(self.entries@[at]),
            ),
    {
        assert(self.wf()) by {
            assert forall|i: int| 0 <= i < self.entries@.len() implies match (
            #[trigger] self.entries@[i]).child {
                Some(r) => r.wf(),
                None => true,
            } by {
                if i != at {
                    assert(self.entries@[i] == before.entries@[i]);
                }
            }
        }
        self.lemma_children();
        before.lemma_children();
        let k = before.entries@[at].label@;
        let expected = before.model().children.insert(k, Self::child_model(self.entries@[at]));
        assert forall|l: Label| self.model().children.contains_key(l) == expected.contains_key(
            l,
        ) by {
            if self.model().children.contains_key(l) {
                let i = self.index_of(l);
                assert(before.entries@[i].label@ == l);
            }
            if expected.contains_key(l) && l != k {
                let i = before.index_of(l);
                assert(self.entries@[i].label@ == l);
            }
            if l == k {
                assert(self.entries@[at].label@ == l);
            }
        }
        assert forall|l: Label| self.model().children.contains_key(l) implies self.model().children[l]
            == expected[l] by {
            let i = self.index_of(l);
            assert(self.entries@[i].label@ == l);
            assert(before.entries@[i].label@ == l);
            if i != at {
                assert(self.entries@[i] == before.entries@[i]);
            }
        }
        assert(self.model().children =~= expected);
    }

    /// What appending an entry under a new label does to the model.
    proof fn lemma_appended(self, before: Rules)
        requires
            before.wf(),
            self.entries@.len() == before.entries@.len() + 1,
            forall|i: int|
                0 <= i < before.entries@.len() ==> (#[trigger] self.entries@[i])
                    == before.entries@[i],
            !before.has(self.entries@.last().label@),
            match self.entries@.last().child {
                Some(r) => r.wf(),
                None => true,
            },
        ensures
            self.wf(),
            self.model().children == before.model().children.insert(
                self.entries@.last().label@,
                Self::child_model(self.entries@.last()),
            ),
    {
        let n = before.entries@.len() as int;
        let k = self.entries@[n].label@;
        assert(self.wf()) by {
            assert forall|i: int, j: int| 0 <= i < j < self.entries@.len() implies self.entries@[i].label@
                != self.entries@[j].label@ by {
                assert(self.entries@[i] == before.entries@[i]);
                if j < n {
                    assert(self.entries@[j] == before.entries@[j]);
                }
            }
            assert forall|i: int| 0 <= i < self.entries@.len() implies match (
            #[trigger] self.entries@[i]).child {
                Some(r) => r.wf(),
                None => true,
            } by {
                if i < n {
                    assert(self.entries@[i] == before.entries@[i]);
                }
            }
        }
        self.lemma_children();
        before.lemma_children();
        let expected = before.model().children.insert(k, Self::child_model(self.entries@[n]));
        assert forall|l: Label| self.model().children.contains_key(l) == expected.contains_key(
            l,
        ) by {
            if self.model().children.contains_key(l) {
                let i = self.index_of(l);
                if i < n {
                    assert(self.entries@[i] == before.entries@[i]);
                }
            }
            if expected.contains_key(l) && l != k {
                let i = before.index_of(l);
                assert(self.entries@[i] == before.entries@[i]);
            }
            if l == k {
                assert(self.entries@[n].label@ == l);
            }
        }
        assert forall|l: Label| self.model().children.contains_key(l) implies self.model().children[l]
            == expected[l] by {
            let i = self.index_of(l);
            assert(self.entries@[i].label@ == l);
            if i < n {
                assert(self.entries@[i] == before.entries@[i]);
            }
        }
        assert(self.model().children =~= expected);
    }
}

/// Whether `label` is the top-level domain that is never matched.
fn is_excluded(label: &[char]) -> (out: bool)
    ensures
        out == (label@ == excluded_tld()),
{
    let out = label.len() == 2 && label[0] == 'c' && label[1] == 'n';
    proof {
        if out {
            assert(label@ =~= excluded_tld());
        }
    }
    out
}

fn alphabetic(c: char) -> (out: bool)
    ensures
        out == is_alphabetic(c),
{
    ('a' <= c && c <= 'z') || ('A' <= c && c <= 'Z')
}

fn label_char(c: char) -> (out: bool)
    ensures
        out == is_label_char(c),
{
    alphabetic(c) || ('0' <= c && c <= '9') || c == '-'
}

fn label_is_valid(l: &[char]) -> (out: bool)
    ensures
        out == valid_label(l@),
{
    if l.len() < 1 || l.len() > 63 {
        return false;
    }
    let mut i: usize = 0;
    while i < l.len()
        invariant
            i <= l@.len(),
            forall|j: int| 0 <= j < i ==> is_label_char(#[trigger] l@[j]),
        decreases l@.len() - i,
    {
        if !label_char(l[i]) {
            return false;
        }
        i += 1;
    }
    l[0] != '-' && l[l.len() - 1] != '-'
}

fn tld_is_valid(l: &[char]) -> (out: bool)
    ensures
        out == valid_tld(l@),
{
    if l.len() < 2 || l.len() > 63 {
        return false;
    }
    let mut i: usize = 0;
    while i < l.len()
        invariant
            i <= l@.len(),
            forall|j: int| 0 <= j < i ==> is_alphabetic(#[trigger] l@[j]),
        decreases l@.len() - i,
    {
        if !alphabetic(l[i]) {
            return false;
        }
        i += 1;
    }
    true
}

/// Whether the labels of a domain, top-level domain last, are all valid.
pub fn is_valid_domain(parts: &Vec<Vec<char>>) -> (out: bool)
    ensures
        out == valid_labels(views(parts@)),
{
    let n = parts.len();
    if n == 0 {
        return false;
    }
    let mut i: usize = 0;
    while i < n
        invariant
            i <= n,
            n == parts@.len(),
            forall|j: int| 0 <= j < i ==> valid_label(#[trigger] views(parts@)[j]),
        decreases n - i,
    {
        if !label_is_valid(parts[i].as_slice()) {
            assert(!valid_label(views(parts@)[i as int]));
            return false;
        }
        i += 1;
    }
    assert(views(parts@).last() == parts@[n - 1]@);
    tld_is_valid(parts[n - 1].as_slice())
}

impl View for Rules {
    type V = Trie;

    closed spec fn view(&self) -> Trie {
        self.model()
    }
}

} // verus!
