//! The Public Suffix List, as far as it takes to find the registrable domain
//! (eTLD+1) of a host name.
use crate::text::{self, CharClass};
use vstd::hash_set::StringHashSet;
use vstd::prelude::*;

verus! {

/// The rules of a list.
pub struct Psl {
    /// Normal rules: `com`, `co.uk`, `*.kawasaki.jp`.
    rules: StringHashSet,
    /// Exception rules: `city.kawasaki.jp` for `!city.kawasaki.jp`.
    exceptions: StringHashSet,
    /// The parents of the wildcard rules: `kawasaki.jp` for `*.kawasaki.jp`.
    wildcard_parents: StringHashSet,
}

/// What a `Psl` holds.
pub struct Rules {
    pub rules: Set<Seq<char>>,
    pub exceptions: Set<Seq<char>>,
    pub wildcard_parents: Set<Seq<char>>,
}

impl View for Psl {
    type V = Rules;

    closed spec fn view(&self) -> Rules {
        Rules {
            rules: self.rules@,
            exceptions: self.exceptions@,
            wildcard_parents: self.wildcard_parents@,
        }
    }
}

/// The rule on a line of the list: its first word, in small letters. A blank
/// line and a comment hold none.
pub open spec fn rule_on(line: Seq<char>) -> Option<Seq<char>> {
    let l = text::trimmed(line);
    if l.len() == 0 || text::begins(l, "//"@) {
        None
    } else {
        match text::first_word(l, CharClass::White) {
            Some(word) => Some(text::lower(word)),
            None => None,
        }
    }
}

/// The rules with one more.
pub open spec fn with_rule(r: Rules, rule: Seq<char>) -> Rules {
    if text::begins(rule, "!"@) {
        Rules { exceptions: r.exceptions.insert(rule.skip(1)), ..r }
    } else if text::begins(rule, "*."@) {
        Rules {
            wildcard_parents: r.wildcard_parents.insert(rule.skip(2)),
            rules: r.rules.insert(rule),
            ..r
        }
    } else {
        Rules { rules: r.rules.insert(rule), ..r }
    }
}

/// The rules on the lines.
pub open spec fn rules_on(lines: Seq<Seq<char>>) -> Rules
    decreases lines.len(),
{
    if lines.len() == 0 {
        Rules { rules: Set::empty(), exceptions: Set::empty(), wildcard_parents: Set::empty() }
    } else {
        let before = rules_on(lines.drop_last());
        match rule_on(lines.last()) {
            Some(rule) => with_rule(before, rule),
            None => before,
        }
    }
}

/// The last `n` labels, joined by dots.
pub open spec fn suffix(labels: Seq<Seq<char>>, n: int) -> Seq<char> {
    text::join(labels.skip(labels.len() - n), '.')
}

/// The largest number in `1..=n` that satisfies `p`, or 0.
pub open spec fn largest(p: spec_fn(int) -> bool, n: nat) -> nat
    decreases n,
{
    if n == 0 || p(n as int) {
        n
    } else {
        largest(p, (n - 1) as nat)
    }
}

impl Rules {
    /// Whether an exception names the last `n` labels.
    pub open spec fn excepts(self, labels: Seq<Seq<char>>, n: int) -> bool {
        self.exceptions.contains(suffix(labels, n))
    }

    /// Whether a rule names the last `n` labels, or a wildcard rule covers them.
    pub open spec fn matches(self, labels: Seq<Seq<char>>, n: int) -> bool {
        ||| self.rules.contains(suffix(labels, n))
        ||| n >= 2 && self.wildcard_parents.contains(suffix(labels, n - 1))
    }

    /// The number of labels in the public suffix: one less than those of the
    /// longest exception, or else those of the longest match, or else 1. Without
    /// labels there is none.
    pub open spec fn suffix_len(self, labels: Seq<Seq<char>>) -> Option<nat> {
        let excepted = largest(|n: int| self.excepts(labels, n), labels.len());
        let matched = largest(|n: int| self.matches(labels, n), labels.len());
        if labels.len() == 0 {
            None
        } else if excepted > 0 {
            Some((excepted - 1) as nat)
        } else if matched > 0 {
            Some(matched)
        } else {
            Some(1)
        }
    }
}

/// A host name as it is looked up: without the whitespace around it and
/// without trailing dots, in small letters.
pub open spec fn normal_host(host: Seq<char>) -> Seq<char> {
    text::lower(text::strip_end(text::trimmed(host), CharClass::Only('.')))
}

/// The registrable domain of `host`: its public suffix and one label more.
/// There is none if `host` is empty, has an empty label, or is itself a public
/// suffix.
pub open spec fn registrable(r: Rules, host: Seq<char>) -> Option<Seq<char>> {
    let labels = text::split(normal_host(host), '.');
    if exists|i: int| 0 <= i < labels.len() && (#[trigger] labels[i]).len() == 0 {
        None
    } else {
        match r.suffix_len(labels) {
            Some(n) => if n >= labels.len() {
                None
            } else {
                Some(suffix(labels, n as int + 1))
            },
            None => None,
        }
    }
}

impl Psl {
    /// Reads a list.
    pub fn parse(list: &str) -> (psl: Self)
        ensures
            psl@ == rules_on(text::split(list@, '\n')),
    {
        let mut psl = Psl {
            rules: StringHashSet::new(),
            exceptions: StringHashSet::new(),
            wildcard_parents: StringHashSet::new(),
        };
        let chars = text::chars_of(list);
        let lines = text::split_at_char(&chars, '\n');
        let ghost all = text::texts(lines@);
        let mut i: usize = 0;
        while i < lines.len()
            invariant
                i <= lines.len(),
                all == text::texts(lines@),
                psl@ == rules_on(all.take(i as int)),
            decreases lines.len() - i,
        {
            proof {
                assert(all.take(i + 1).drop_last() =~= all.take(i as int));
                assert(all.take(i + 1).last() == lines@[i as int]@);
            }
            if let Some(rule) = Self::parse_line(&lines[i]) {
                psl.add_rule(rule);
            }
            i += 1;
        }
        proof {
            assert(all.take(all.len() as int) =~= all);
        }
        psl
    }

    fn parse_line(line: &[char]) -> (r: Option<Vec<char>>)
        ensures
            match r {
                Some(rule) => rule_on(line@) == Some(rule@),
                None => rule_on(line@) is None,
            },
    {
        let line = text::trim(line);
        let slashes = text::chars_of("//");
        if line.len() == 0 || text::begins_with(line, &slashes) {
            return None;
        }
        match text::first_word_of(line, &CharClass::White) {
            Some(word) => Some(text::lower_of(word)),
            None => None,
        }
    }

    fn add_rule(&mut self, rule: Vec<char>)
        ensures
            final(self)@ == with_rule(old(self)@, rule@),
    {
        let bang = text::chars_of("!");
        let star = text::chars_of("*.");
        proof {
            reveal_strlit("!");
            reveal_strlit("*.");
            assert(rule@.len() >= 1 ==> rule@.subrange(1, rule@.len() as int) =~= rule@.skip(1));
            assert(rule@.len() >= 2 ==> rule@.subrange(2, rule@.len() as int) =~= rule@.skip(2));
        }
        if text::begins_with(&rule, &bang) {
            self.exceptions.insert(text::string_of(&rule[1..rule.len()]));
        } else if text::begins_with(&rule, &star) {
            self.wildcard_parents.insert(text::string_of(&rule[2..rule.len()]));
            self.rules.insert(text::string_of(&rule));
        } else {
            self.rules.insert(text::string_of(&rule));
        }
    }

    fn suffix_of(labels: &[Vec<char>], n: usize) -> (r: String)
        requires
            n <= labels@.len(),
        ensures
            r@ == suffix(text::texts(labels@), n as int),
    {
        let from: usize = labels.len() - n;
        let part = &labels[from..labels.len()];
        proof {
            assert(text::texts(part@) =~= text::texts(labels@).skip(from as int));
        }
        text::string_of(&text::join_with(part, '.'))
    }

    /// The number of labels in the public suffix, or `None` if there are no
    /// labels.
    pub fn longest_matching_suffix(&self, labels: &[Vec<char>]) -> (len: Option<usize>)
        ensures
            len is None <==> labels@.len() == 0,
            match len {
                Some(n) => self@.suffix_len(text::texts(labels@)) == Some(n as nat),
                None => self@.suffix_len(text::texts(labels@)) is None,
            },
    {
        if labels.len() == 0 {
            return None;
        }
        let ghost all = text::texts(labels@);
        let ghost excepted = |n: int| self@.excepts(all, n);
        let ghost matched = |n: int| self@.matches(all, n);
        // An exception trumps every other rule: "!city.kawasaki.jp" makes
        // city.kawasaki.jp registrable, so that kawasaki.jp is the suffix.
        let mut n: usize = labels.len();
        while n > 0
            invariant
                n <= labels.len(),
                labels@.len() > 0,
                all == text::texts(labels@),
                excepted == (|n: int| self@.excepts(all, n)),
                largest(excepted, all.len()) == largest(excepted, n as nat),
            decreases n,
        {
            if self.exceptions.contains(Self::suffix_of(labels, n).as_str()) {
                assert(excepted(n as int));
                return Some(n - 1);
            }
            assert(!excepted(n as int));
            n -= 1;
        }
        let mut n: usize = labels.len();
        while n > 0
            invariant
                n <= labels.len(),
                labels@.len() > 0,
                all == text::texts(labels@),
                excepted == (|n: int| self@.excepts(all, n)),
                matched == (|n: int| self@.matches(all, n)),
                largest(excepted, all.len()) == 0,
                largest(matched, all.len()) == largest(matched, n as nat),
            decreases n,
        {
            if self.rules.contains(Self::suffix_of(labels, n).as_str()) || (n >= 2
                && self.wildcard_parents.contains(Self::suffix_of(labels, n - 1).as_str())) {
                assert(matched(n as int));
                return Some(n);
            }
            assert(!matched(n as int));
            n -= 1;
        }
        // Every top-level domain is a public suffix.
        Some(1)
    }

    /// The registrable domain (eTLD+1) of `host`, or `None` if `host` is itself
    /// a public suffix or has no registrable parent.
    pub fn registrable_domain(&self, host: &str) -> (domain: Option<String>)
        ensures
            match domain {
                Some(d) => registrable(self@, host@) == Some(d@),
                None => registrable(self@, host@) is None,
            },
    {
        let chars = text::chars_of(host);
        let name = text::lower_of(text::strip_end_of(text::trim(&chars), &CharClass::Only('.')));
        let labels = text::split_at_char(&name, '.');
        let ghost all = text::texts(labels@);
        let mut i: usize = 0;
        while i < labels.len()
            invariant
                i <= labels.len(),
                all == text::texts(labels@),
                all == text::split(normal_host(host@), '.'),
                forall|j: int| 0 <= j < i ==> (#[trigger] all[j]).len() > 0,
            decreases labels.len() - i,
        {
            assert(all[i as int] == labels@[i as int]@);
            if labels[i].len() == 0 {
                return None;
            }
            i += 1;
        }
        match self.longest_matching_suffix(&labels) {
            Some(n) => if n >= labels.len() {
                None
            } else {
                Some(Self::suffix_of(&labels, n + 1))
            },
            None => None,
        }
    }
}

/// What `largest` gives: the bound below which it looked, and no larger number
/// that would do.
proof fn lemma_largest(p: spec_fn(int) -> bool, n: nat)
    ensures
        largest(p, n) <= n,
        largest(p, n) > 0 ==> p(largest(p, n) as int),
        forall|k: int| largest(p, n) < k <= n ==> !#[trigger] p(k),
    decreases n,
{
    if n > 0 && !p(n as int) {
        lemma_largest(p, (n - 1) as nat);
    }
}

/// The labels of a host name hold no dot, and together they are the name.
proof fn lemma_labels(name: Seq<char>)
    ensures
        text::split(name, '.').len() > 0,
        suffix(text::split(name, '.'), text::split(name, '.').len() as int) == name,
        forall|i: int|
            0 <= i < text::split(name, '.').len() ==> !(#[trigger] text::split(name, '.')[i]).contains(
                '.',
            ),
{
    let labels = text::split(name, '.');
    text::split_pieces_are_free_of_the_separator(name, '.');
    text::join_undoes_split(name, '.');
    assert(labels.skip(0) =~= labels);
}

/// A rule is in force exactly if some line of the list holds it.
pub proof fn rules_are_those_on_some_line(lines: Seq<Seq<char>>, rule: Seq<char>)
    ensures
        rules_on(lines).rules.contains(rule) <==> !text::begins(rule, "!"@) && exists|i: int|
            0 <= i < lines.len() && rule_on(#[trigger] lines[i]) == Some(rule),
        rules_on(lines).exceptions.contains(rule) <==> exists|i: int|
            0 <= i < lines.len() && rule_on(#[trigger] lines[i]) == Some("!"@ + rule),
        rules_on(lines).wildcard_parents.contains(rule) <==> exists|i: int|
            0 <= i < lines.len() && rule_on(#[trigger] lines[i]) == Some("*."@ + rule),
    decreases lines.len(),
{
    reveal_strlit("!");
    reveal_strlit("*.");
    if lines.len() > 0 {
        let init = lines.drop_last();
        let n = lines.len() - 1;
        rules_are_those_on_some_line(init, rule);
        assert(forall|i: int| 0 <= i < init.len() ==> init[i] == lines[i]);
        if let Some(last) = rule_on(lines[n]) {
            assert(text::begins(last, "!"@) <==> last.len() > 0 && last[0] == '!') by {
                if last.len() > 0 && last[0] == '!' {
                    assert(last.take(1) =~= "!"@);
                }
                if text::begins(last, "!"@) {
                    assert(last.take(1)[0] == '!');
                }
            }
            assert(text::begins(last, "*."@) <==> last.len() > 1 && last[0] == '*' && last[1]
                == '.') by {
                if last.len() > 1 && last[0] == '*' && last[1] == '.' {
                    assert(last.take(2) =~= "*."@);
                }
                if text::begins(last, "*."@) {
                    assert(last.take(2)[0] == '*');
                    assert(last.take(2)[1] == '.');
                }
            }
            if text::begins(last, "!"@) {
                assert(last =~= "!"@ + last.skip(1));
            }
            if text::begins(last, "*."@) {
                assert(last =~= "*."@ + last.skip(2));
            }
            assert(("!"@ + rule).skip(1) =~= rule);
            assert(("*."@ + rule).skip(2) =~= rule);
        }
    }
}

/// The registrable domain is the end of the host name, cut at a dot, and has
/// one label more than the public suffix.
pub proof fn registrable_domain_is_suffix_and_one_label(r: Rules, host: Seq<char>)
    requires
        registrable(r, host) is Some,
    ensures
        ({
            let name = normal_host(host);
            let labels = text::split(name, '.');
            let d = registrable(r, host)->0;
            &&& d == name || text::ends(name, seq!['.'] + d)
            &&& text::split(d, '.') == labels.skip(labels.len() - (r.suffix_len(labels)->0 + 1))
        }),
{
    let name = normal_host(host);
    let labels = text::split(name, '.');
    let n = r.suffix_len(labels)->0;
    let from = labels.len() - (n + 1);
    let tail = labels.skip(from);
    let d = registrable(r, host)->0;
    lemma_labels(name);
    assert forall|i: int| 0 <= i < tail.len() implies !(#[trigger] tail[i]).contains('.') by {
        assert(tail[i] == labels[from + i]);
    }
    text::split_undoes_join(tail, '.');
    text::join_undoes_split(name, '.');
    if from == 0 {
        assert(tail =~= labels);
    } else {
        let head = labels.take(from);
        assert(labels =~= head + tail);
        text::join_of_two_lists(head, tail, '.');
        let dotted = seq!['.'] + d;
        assert(name.skip(name.len() - dotted.len()) =~= dotted);
    }
}

/// A registrable domain is its own registrable domain. (Whitespace inside the
/// host name can end up at an end of the domain; such a domain is left out.)
pub proof fn registrable_domain_is_a_fixed_point(r: Rules, host: Seq<char>)
    requires
        registrable(r, host) is Some,
        text::trimmed(registrable(r, host)->0) == registrable(r, host)->0,
    ensures
        registrable(r, registrable(r, host)->0) == registrable(r, host),
{
    let name = normal_host(host);
    let labels = text::split(name, '.');
    let n = r.suffix_len(labels)->0;
    let from = labels.len() - (n + 1);
    let tail = labels.skip(from);
    let d = registrable(r, host)->0;
    registrable_domain_is_suffix_and_one_label(r, host);
    lemma_labels(name);
    // The domain is already as it is looked up.
    assert(labels[labels.len() - 1].len() > 0);
    assert(d.len() > 0 && d.last() != '.') by {
        let last = tail.last();
        assert(last == labels[labels.len() - 1]);
        assert(!last.contains('.'));
        assert(last[last.len() - 1] != '.');
        if tail.len() == 1 {
            assert(d == last);
        } else {
            assert(d == text::join(tail.drop_last(), '.').push('.') + last);
        }
        assert(d.last() == last.last());
    }
    assert(text::strip_end(d, CharClass::Only('.')) == d);
    assert(text::lower(d) =~= d) by {
        text::lower_is_idempotent(
            text::strip_end(text::trimmed(host), CharClass::Only('.')),
        );
        assert(text::lower(name) == name);
        let start = name.len() - d.len();
        if d != name {
            let dotted = seq!['.'] + d;
            assert(name.skip(name.len() - dotted.len()) == dotted);
            assert forall|i: int| 0 <= i < d.len() implies d[i] == name[start + i] by {
                assert(dotted[i + 1] == d[i]);
            }
        }
        assert forall|i: int| 0 <= i < d.len() implies text::lower(d)[i] == d[i] by {
            assert(text::lower(name)[start + i] == name[start + i]);
        }
    }
    assert(normal_host(d) == d);
    assert(text::split(normal_host(d), '.') == tail);
    // No label of it is empty.
    assert forall|i: int| 0 <= i < tail.len() implies (#[trigger] tail[i]).len() > 0 by {
        assert(tail[i] == labels[from + i]);
    }
    // It has the same public suffix.
    assert forall|k: int| 0 <= k <= n + 1 implies #[trigger] suffix(tail, k) == suffix(
        labels,
        k,
    ) by {
        assert(tail.skip(tail.len() - k) =~= labels.skip(labels.len() - k));
    }
    let excepted = |k: int| r.excepts(labels, k);
    let matched = |k: int| r.matches(labels, k);
    let tail_excepted = |k: int| r.excepts(tail, k);
    let tail_matched = |k: int| r.matches(tail, k);
    lemma_largest(excepted, labels.len());
    lemma_largest(matched, labels.len());
    lemma_largest(tail_excepted, tail.len());
    lemma_largest(tail_matched, tail.len());
    assert forall|k: int|
        #![trigger r.excepts(tail, k)]
        #![trigger r.matches(tail, k)]
        #![trigger r.excepts(labels, k)]
        #![trigger r.matches(labels, k)]
        0 < k <= n + 1 implies r.excepts(labels, k) == r.excepts(tail, k) && r.matches(labels, k)
        == r.matches(tail, k) by {
        assert(suffix(tail, k) == suffix(labels, k));
        assert(suffix(tail, k - 1) == suffix(labels, k - 1));
    }
    let e = largest(excepted, labels.len());
    let m = largest(matched, labels.len());
    let tail_e = largest(tail_excepted, tail.len());
    let tail_m = largest(tail_matched, tail.len());
    if e > 0 {
        assert(tail.len() == e);
        assert(excepted(e as int) && tail_excepted(e as int));
        assert(tail_e == e);
    } else {
        if tail_e > 0 {
            assert(tail_excepted(tail_e as int) && excepted(tail_e as int));
        }
        if m > 0 {
            assert(matched(m as int) && tail_matched(m as int));
            assert(m == n);
            let k = m as int + 1;
            assert(!matched(k));
            assert(!r.matches(labels, k));
            assert(!r.matches(tail, k));
            assert(!tail_matched(k));
            assert(tail_m == m);
        } else if tail_m > 0 {
            assert(tail_matched(tail_m as int) && matched(tail_m as int));
        }
    }
    assert(r.suffix_len(tail) == Some(n));
    assert(tail.skip(0) =~= tail);
}

/// Capitals in the host name make no difference.
pub proof fn registrable_domain_ignores_case(r: Rules, host: Seq<char>)
    ensures
        registrable(r, text::lower(host)) == registrable(r, host),
{
    let low = text::lower(host);
    let dot = CharClass::Only('.');
    text::lower_commutes_with_strip(host, CharClass::White);
    text::lower_commutes_with_strip(
        text::strip_start(host, CharClass::White),
        CharClass::White,
    );
    text::lower_commutes_with_strip(text::trimmed(host), dot);
    text::lower_is_idempotent(text::strip_end(text::trimmed(host), dot));
    assert(normal_host(low) == normal_host(host));
}

/// A dot at the end of the host name makes no difference. (After a space it
/// would: the space is then no longer at the end.)
pub proof fn registrable_domain_ignores_a_trailing_dot(r: Rules, host: Seq<char>)
    requires
        host.len() > 0 ==> !text::is_white(host.last()),
    ensures
        registrable(r, host.push('.')) == registrable(r, host),
{
    let white = CharClass::White;
    let dot = CharClass::Only('.');
    let started = text::strip_start(host, white);
    text::strip_start_of_pushed(host, '.', white);
    text::strip_start_leaves_a_suffix(host, white);
    assert(started.len() > 0 ==> started.last() == host.last());
    assert(text::strip_end(started, white) == started);
    assert(started.push('.').drop_last() =~= started);
    assert(text::trimmed(host.push('.')) == started.push('.'));
    assert(text::strip_end(started.push('.'), dot) == text::strip_end(started, dot));
    assert(normal_host(host.push('.')) == normal_host(host));
}

/// What decides the length of a public suffix. The longest exception that names
/// the end of a host leaves one label less than it has. Without an exception, no
/// rule that names the end of the host is longer than the suffix, and no wildcard
/// rule covers more labels; if the suffix has more than one label, a rule names it
/// or a wildcard rule covers it.
pub proof fn longest_rule_decides(r: Rules, labels: Seq<Seq<char>>)
    requires
        labels.len() > 0,
    ensures
        ({
            let n = r.suffix_len(labels)->0 as int;
            let len = labels.len() as int;
            let excepted = |k: int| r.exceptions.contains(text::join(labels.skip(len - k), '.'));
            let named = |k: int| r.rules.contains(text::join(labels.skip(len - k), '.'));
            let covered = |k: int|
                r.wildcard_parents.contains(text::join(labels.skip(len - k + 1), '.'));
            &&& r.suffix_len(labels) is Some
            &&& (exists|k: int| 1 <= k <= len && #[trigger] excepted(k)) ==> {
                &&& 1 <= n + 1 <= len
                &&& excepted(n + 1)
                &&& forall|k: int| n + 1 < k <= len ==> !#[trigger] excepted(k)
            }
            &&& (forall|k: int| 1 <= k <= len ==> !#[trigger] excepted(k)) ==> {
                &&& 1 <= n <= len
                &&& forall|k: int| n < k <= len ==> !#[trigger] named(k)
                &&& forall|k: int| n < k <= len && 2 <= k ==> !#[trigger] covered(k)
                &&& n == 1 || named(n) || covered(n)
            }
        }),
{
    let len = labels.len() as int;
    let e = |k: int| r.excepts(labels, k);
    let m = |k: int| r.matches(labels, k);
    lemma_largest(e, labels.len());
    lemma_largest(m, labels.len());
    let excepted = |k: int| r.exceptions.contains(text::join(labels.skip(len - k), '.'));
    let named = |k: int| r.rules.contains(text::join(labels.skip(len - k), '.'));
    let covered = |k: int|
        r.wildcard_parents.contains(text::join(labels.skip(len - k + 1), '.'));
    assert(forall|k: int| #[trigger] excepted(k) == e(k));
    assert forall|k: int| 1 <= k <= len implies #[trigger] m(k) == (named(k) || (k >= 2 && covered(
        k,
    ))) by {
        assert(len - (k - 1) == len - k + 1);
    }
    let n = r.suffix_len(labels)->0 as int;
    if exists|k: int| 1 <= k <= len && #[trigger] excepted(k) {
        let k = choose|k: int| 1 <= k <= len && #[trigger] excepted(k);
        assert(e(k));
        assert forall|j: int| n + 1 < j <= len implies !#[trigger] excepted(j) by {
            assert(!e(j));
        }
    } else {
        let top = largest(e, labels.len()) as int;
        if top > 0 {
            assert(e(top));
            assert(excepted(top));
        }
        assert forall|k: int| n < k <= len implies !#[trigger] named(k) by {
            assert(!m(k));
        }
        assert forall|k: int| n < k <= len && 2 <= k implies !#[trigger] covered(k) by {
            assert(!m(k));
        }
        if n > 1 {
            assert(m(n));
        }
    }
}

/// Whether these are the labels of a host name in small letters.
pub open spec fn host_labels(labels: Seq<Seq<char>>) -> bool {
    &&& labels.len() > 0
    &&& forall|i: int| 0 <= i < labels.len() ==> is_label(#[trigger] labels[i])
}

/// Whether this is a label in small letters.
pub open spec fn is_label(label: Seq<char>) -> bool {
    &&& label.len() > 0
    &&& forall|k: int|
        0 <= k < label.len() ==> {
            let c = #[trigger] label[k];
            c != '.' && !text::is_white(c) && !('A' <= c && c <= 'Z')
        }
}

/// A host name made of labels is read as these labels.
proof fn lemma_host(labels: Seq<Seq<char>>)
    requires
        host_labels(labels),
    ensures
        normal_host(text::join(labels, '.')) == text::join(labels, '.'),
        text::split(text::join(labels, '.'), '.') == labels,
{
    let name = text::join(labels, '.');
    assert forall|i: int| 0 <= i < labels.len() implies !(#[trigger] labels[i]).contains('.') by {
        assert(is_label(labels[i]));
    }
    text::split_undoes_join(labels, '.');
    lemma_joined(labels);
    text::bare_text_is_not_stripped(name, CharClass::White);
    assert(text::strip_end(name, CharClass::Only('.')) == name);
    text::small_letters_stand_for_capitals(name);
    assert(text::lower(name) =~= name);
}

/// The characters of a host name made of labels.
proof fn lemma_joined(labels: Seq<Seq<char>>)
    requires
        host_labels(labels),
    ensures
        ({
            let name = text::join(labels, '.');
            &&& name.len() > 0
            &&& name.last() != '.'
            &&& forall|k: int|
                0 <= k < name.len() ==> !text::is_white(#[trigger] name[k]) && !('A' <= name[k]
                    && name[k] <= 'Z')
        }),
    decreases labels.len(),
{
    assert(is_label(labels[labels.len() - 1]));
    let last = labels.last();
    assert(last[last.len() - 1] != '.');
    assert(!text::is_white('.'));
    if labels.len() > 1 {
        let init = labels.drop_last();
        assert forall|i: int| 0 <= i < init.len() implies is_label(#[trigger] init[i]) by {
            assert(init[i] == labels[i]);
        }
        lemma_joined(init);
        let head = text::join(init, '.').push('.');
        let name = head + last;
        assert forall|k: int| 0 <= k < name.len() implies !text::is_white(#[trigger] name[k]) && !(
        'A' <= name[k] && name[k] <= 'Z') by {
            if k < head.len() - 1 {
                assert(name[k] == text::join(init, '.')[k]);
            } else if k >= head.len() {
                assert(name[k] == last[k - head.len()]);
            }
        }
    } else {
        assert(labels[0] == last);
    }
}

/// The registrable domain of a host name made of labels: as many labels from its
/// end as the public suffix has, and one more; none if that is more than there are.
pub proof fn registrable_domain_in_labels(r: Rules, labels: Seq<Seq<char>>)
    requires
        host_labels(labels),
    ensures
        ({
            let n = r.suffix_len(labels)->0 as int;
            registrable(r, text::join(labels, '.')) == if n < labels.len() {
                Some(text::join(labels.skip(labels.len() - n - 1), '.'))
            } else {
                None
            }
        }),
{
    lemma_host(labels);
    assert forall|i: int| 0 <= i < labels.len() implies (#[trigger] labels[i]).len() > 0 by {
        assert(is_label(labels[i]));
    }
    let n = r.suffix_len(labels)->0 as int;
    assert(labels.len() - (n + 1) == labels.len() - n - 1);
}

/// A rule on some line of the list makes the name that it gives a public suffix:
/// with one label before it, that is the registrable domain, unless an exception
/// or a longer rule applies.
pub proof fn rule_makes_a_public_suffix(
    lines: Seq<Seq<char>>,
    i: int,
    x: Seq<char>,
    p: Seq<Seq<char>>,
)
    requires
        0 <= i < lines.len(),
        host_labels(seq![x] + p),
        p.len() > 0,
        p[0][0] != '!' && p[0][0] != '/',
        lines[i] == text::join(p, '.'),
        ({
            let r = rules_on(lines);
            let labels = seq![x] + p;
            &&& forall|k: int|
                0 <= k < labels.len() ==> !r.exceptions.contains(
                    #[trigger] text::join(labels.skip(k), '.'),
                )
            &&& !r.rules.contains(text::join(labels, '.'))
            &&& !r.wildcard_parents.contains(text::join(p, '.'))
        }),
    ensures
        registrable(rules_on(lines), text::join(seq![x] + p, '.')) == Some(
            text::join(seq![x] + p, '.'),
        ),
{
    let r = rules_on(lines);
    let labels = seq![x] + p;
    let len = labels.len() as int;
    assert(host_labels(p)) by {
        assert forall|k: int| 0 <= k < p.len() implies is_label(#[trigger] p[k]) by {
            assert(labels[k + 1] == p[k]);
        }
    }
    lemma_rule_of_a_name(p);
    rules_are_those_on_some_line(lines, text::join(p, '.'));
    reveal_strlit("!");
    text::beginning_is_followed_by_the_rest(text::join(p, '.'), "!"@);
    lemma_first_char(p);
    assert(r.rules.contains(text::join(p, '.')));
    longest_rule_decides(r, labels);
    let n = r.suffix_len(labels)->0 as int;
    assert(labels.skip(0) =~= labels);
    assert(labels.skip(1) =~= p);
    lemma_no_exception(r, labels);
    let named = |k: int| r.rules.contains(text::join(labels.skip(len - k), '.'));
    let covered = |k: int|
        r.wildcard_parents.contains(text::join(labels.skip(len - k + 1), '.'));
    assert(named(len - 1));
    assert(!named(len));
    assert(!covered(len));
    assert(n == len - 1);
    registrable_domain_in_labels(r, labels);
}

/// A wildcard rule `*.P` on some line of the list makes every name with one label
/// before `P` a public suffix, however many labels `P` has: with one label more,
/// that is the registrable domain, unless an exception or a longer rule applies.
pub proof fn wildcard_rule_makes_public_suffixes(
    lines: Seq<Seq<char>>,
    i: int,
    x: Seq<char>,
    y: Seq<char>,
    p: Seq<Seq<char>>,
)
    requires
        0 <= i < lines.len(),
        host_labels(seq![x, y] + p),
        p.len() > 0,
        lines[i] == seq!['*', '.'] + text::join(p, '.'),
        ({
            let r = rules_on(lines);
            let labels = seq![x, y] + p;
            &&& forall|k: int|
                0 <= k < labels.len() ==> !r.exceptions.contains(
                    #[trigger] text::join(labels.skip(k), '.'),
                )
            &&& !r.rules.contains(text::join(labels, '.'))
            &&& !r.wildcard_parents.contains(text::join(seq![y] + p, '.'))
        }),
    ensures
        registrable(rules_on(lines), text::join(seq![x, y] + p, '.')) == Some(
            text::join(seq![x, y] + p, '.'),
        ),
        registrable(rules_on(lines), text::join(seq![y] + p, '.')) is None,
{
    let r = rules_on(lines);
    let labels = seq![x, y] + p;
    let len = labels.len() as int;
    let short = seq![y] + p;
    assert(labels.skip(0) =~= labels);
    assert(labels.skip(1) =~= short);
    assert(labels.skip(2) =~= p);
    assert(host_labels(p)) by {
        assert forall|k: int| 0 <= k < p.len() implies is_label(#[trigger] p[k]) by {
            assert(labels[k + 2] == p[k]);
        }
    }
    assert(host_labels(short)) by {
        assert forall|k: int| 0 <= k < short.len() implies is_label(#[trigger] short[k]) by {
            assert(labels[k + 1] == short[k]);
        }
    }
    lemma_wildcard_of_a_name(p);
    rules_are_those_on_some_line(lines, text::join(p, '.'));
    reveal_strlit("*.");
    assert("*."@ + text::join(p, '.') =~= seq!['*', '.'] + text::join(p, '.'));
    assert(r.wildcard_parents.contains(text::join(p, '.')));
    longest_rule_decides(r, labels);
    let n = r.suffix_len(labels)->0 as int;
    lemma_no_exception(r, labels);
    let named = |k: int| r.rules.contains(text::join(labels.skip(len - k), '.'));
    let covered = |k: int|
        r.wildcard_parents.contains(text::join(labels.skip(len - k + 1), '.'));
    assert(covered(len - 1));
    assert(!named(len));
    assert(!covered(len));
    assert(n == len - 1);
    registrable_domain_in_labels(r, labels);
    // Without the first label nothing is left before the public suffix.
    longest_rule_decides(r, short);
    assert forall|k: int| 0 <= k < short.len() implies !r.exceptions.contains(
        #[trigger] text::join(short.skip(k), '.'),
    ) by {
        assert(short.skip(k) =~= labels.skip(k + 1));
    }
    lemma_no_exception(r, short);
    let m = short.len() as int;
    let short_covered = |k: int|
        r.wildcard_parents.contains(text::join(short.skip(m - k + 1), '.'));
    assert(short.skip(1) =~= p);
    assert(short_covered(m));
    assert(r.suffix_len(short)->0 as int == m);
    registrable_domain_in_labels(r, short);
}

/// An exception `!E` on some line of the list makes `E` a registrable domain, for
/// itself and for every name below it, unless a longer exception applies.
pub proof fn exception_makes_a_registrable_domain(
    lines: Seq<Seq<char>>,
    i: int,
    x: Seq<Seq<char>>,
    e: Seq<Seq<char>>,
)
    requires
        0 <= i < lines.len(),
        host_labels(x + e),
        e.len() > 0,
        lines[i] == seq!['!'] + text::join(e, '.'),
        forall|k: int|
            0 <= k < x.len() ==> !rules_on(lines).exceptions.contains(
                #[trigger] text::join((x + e).skip(k), '.'),
            ),
    ensures
        registrable(rules_on(lines), text::join(x + e, '.')) == Some(text::join(e, '.')),
{
    let r = rules_on(lines);
    let labels = x + e;
    let len = labels.len() as int;
    assert(labels.skip(x.len() as int) =~= e);
    assert(host_labels(e)) by {
        assert forall|k: int| 0 <= k < e.len() implies is_label(#[trigger] e[k]) by {
            assert(labels[k + x.len()] == e[k]);
        }
    }
    lemma_exception_of_a_name(e);
    rules_are_those_on_some_line(lines, text::join(e, '.'));
    reveal_strlit("!");
    assert("!"@ + text::join(e, '.') =~= seq!['!'] + text::join(e, '.'));
    assert(r.exceptions.contains(text::join(e, '.')));
    longest_rule_decides(r, labels);
    let n = r.suffix_len(labels)->0 as int;
    let excepted = |k: int| r.exceptions.contains(text::join(labels.skip(len - k), '.'));
    assert(excepted(e.len() as int));
    assert forall|k: int| e.len() < k <= len implies !#[trigger] excepted(k) by {
        assert(!r.exceptions.contains(text::join((x + e).skip(len - k), '.')));
    }
    assert(n + 1 == e.len());
    registrable_domain_in_labels(r, labels);
    assert(labels.len() - n - 1 == x.len());
}

/// If no rule applies to a host, its last two labels are the registrable domain.
pub proof fn last_label_is_a_public_suffix(r: Rules, labels: Seq<Seq<char>>)
    requires
        host_labels(labels),
        labels.len() >= 2,
        forall|k: int|
            0 <= k < labels.len() ==> {
                let name = #[trigger] text::join(labels.skip(k), '.');
                &&& !r.exceptions.contains(name)
                &&& !r.rules.contains(name)
                &&& k > 0 ==> !r.wildcard_parents.contains(name)
            },
    ensures
        registrable(r, text::join(labels, '.')) == Some(
            text::join(labels.skip(labels.len() - 2), '.'),
        ),
{
    longest_rule_decides(r, labels);
    lemma_no_exception(r, labels);
    let len = labels.len() as int;
    let n = r.suffix_len(labels)->0 as int;
    if n > 1 {
        assert(!r.rules.contains(text::join(labels.skip(len - n), '.')));
        assert(!r.wildcard_parents.contains(text::join(labels.skip(len - n + 1), '.')));
    }
    registrable_domain_in_labels(r, labels);
}

proof fn lemma_no_exception(r: Rules, labels: Seq<Seq<char>>)
    requires
        forall|k: int|
            0 <= k < labels.len() ==> !r.exceptions.contains(
                #[trigger] text::join(labels.skip(k), '.'),
            ),
    ensures
        ({
            let len = labels.len() as int;
            let excepted = |k: int| r.exceptions.contains(text::join(labels.skip(len - k), '.'));
            forall|k: int| 1 <= k <= len ==> !#[trigger] excepted(k)
        }),
{
    let len = labels.len() as int;
    let excepted = |k: int| r.exceptions.contains(text::join(labels.skip(len - k), '.'));
    assert forall|k: int| 1 <= k <= len implies !#[trigger] excepted(k) by {
        assert(!r.exceptions.contains(text::join(labels.skip(len - k), '.')));
    }
}

/// The first character of a name.
proof fn lemma_first_char(labels: Seq<Seq<char>>)
    requires
        host_labels(labels),
    ensures
        text::join(labels, '.').len() > 0,
        text::join(labels, '.')[0] == labels[0][0],
    decreases labels.len(),
{
    assert(is_label(labels[0]));
    if labels.len() > 1 {
        let init = labels.drop_last();
        assert forall|i: int| 0 <= i < init.len() implies is_label(#[trigger] init[i]) by {
            assert(init[i] == labels[i]);
        }
        lemma_first_char(init);
    }
}

proof fn lemma_rule_of_a_name(p: Seq<Seq<char>>)
    requires
        host_labels(p),
        p[0][0] != '/',
    ensures
        rule_on(text::join(p, '.')) == Some(text::join(p, '.')),
{
    let name = text::join(p, '.');
    lemma_joined(p);
    lemma_first_char(p);
    lemma_small(name);
    rule_is_the_first_word_of_its_line(Seq::empty(), name, Seq::empty());
    assert(Seq::<char>::empty() + name + Seq::<char>::empty() =~= name);
    reveal_strlit("//");
    if text::begins(name, "//"@) {
        assert(name.take(2)[0] == '/');
    }
}

proof fn lemma_wildcard_of_a_name(p: Seq<Seq<char>>)
    requires
        host_labels(p),
    ensures
        rule_on(seq!['*', '.'] + text::join(p, '.')) == Some(seq!['*', '.'] + text::join(p, '.')),
{
    let name = seq!['*', '.'] + text::join(p, '.');
    lemma_joined(p);
    assert(!text::is_white('*') && !text::is_white('.'));
    lemma_small(name);
    rule_is_the_first_word_of_its_line(Seq::empty(), name, Seq::empty());
    assert(Seq::<char>::empty() + name + Seq::<char>::empty() =~= name);
    reveal_strlit("//");
    if text::begins(name, "//"@) {
        assert(name.take(2)[0] == '/');
    }
}

proof fn lemma_exception_of_a_name(p: Seq<Seq<char>>)
    requires
        host_labels(p),
    ensures
        rule_on(seq!['!'] + text::join(p, '.')) == Some(seq!['!'] + text::join(p, '.')),
{
    let name = seq!['!'] + text::join(p, '.');
    lemma_joined(p);
    assert(!text::is_white('!'));
    lemma_small(name);
    rule_is_the_first_word_of_its_line(Seq::empty(), name, Seq::empty());
    assert(Seq::<char>::empty() + name + Seq::<char>::empty() =~= name);
    reveal_strlit("//");
    if text::begins(name, "//"@) {
        assert(name.take(2)[0] == '/');
    }
}

proof fn lemma_small(name: Seq<char>)
    requires
        forall|k: int| 0 <= k < name.len() ==> !('A' <= #[trigger] name[k] && name[k] <= 'Z'),
    ensures
        text::lower(name) == name,
{
    text::small_letters_stand_for_capitals(name);
    assert(text::lower(name) =~= name);
}

/// The rule on a line is its first word, in small letters, wherever whitespace
/// stands around it; a line whose first word begins with two slashes is a comment,
/// and a line of whitespace holds no rule.
pub proof fn rule_is_the_first_word_of_its_line(
    before: Seq<char>,
    word: Seq<char>,
    after: Seq<char>,
)
    requires
        forall|k: int| 0 <= k < before.len() ==> text::is_white(#[trigger] before[k]),
        word.len() > 0,
        forall|k: int| 0 <= k < word.len() ==> !text::is_white(#[trigger] word[k]),
        after.len() > 0 ==> text::is_white(after[0]),
    ensures
        rule_on(before + word + after) == if text::begins(word, "//"@) {
            None
        } else {
            Some(text::lower(word))
        },
        rule_on(before) is None,
{
    let white = CharClass::White;
    let none = Seq::<char>::empty();
    assert forall|k: int| 0 <= k < before.len() implies white.has(#[trigger] before[k]) by {}
    assert forall|k: int| 0 <= k < word.len() implies !white.has(#[trigger] word[k]) by {}
    text::surroundings_are_stripped(before, none, none, white);
    assert(before + none + none =~= before);
    assert(text::trimmed(none) =~= none);
    let end = text::trimmed_text_begins_with_its_first_word(before, word, after);
    let rest = after.take(end);
    let l = text::trimmed(before + word + after);
    text::first_word_ends_before_the_class(none, word, rest, white);
    assert(none + word + rest =~= l);
    lemma_slashes(word, rest);
}

/// Whether a line begins with two slashes is up to its first word.
proof fn lemma_slashes(word: Seq<char>, rest: Seq<char>)
    requires
        word.len() > 0,
        rest.len() > 0 ==> text::is_white(rest[0]),
    ensures
        text::begins(word + rest, "//"@) == text::begins(word, "//"@),
{
    reveal_strlit("//");
    let l = word + rest;
    assert(!text::is_white('/'));
    if text::begins(l, "//"@) {
        assert(l.take(2)[1] == '/' && l.take(2)[0] == '/');
        if word.len() == 1 {
            assert(l[1] == rest[0]);
        }
        assert(word.take(2) =~= l.take(2));
    }
    if text::begins(word, "//"@) {
        assert(l.take(2) =~= word.take(2));
    }
}

/// Whitespace around a host name makes no difference.
pub proof fn registrable_domain_ignores_whitespace_around(
    r: Rules,
    before: Seq<char>,
    host: Seq<char>,
    after: Seq<char>,
)
    requires
        forall|k: int| 0 <= k < before.len() ==> text::is_white(#[trigger] before[k]),
        forall|k: int| 0 <= k < after.len() ==> text::is_white(#[trigger] after[k]),
    ensures
        registrable(r, before + host + after) == registrable(r, host),
{
    let white = CharClass::White;
    assert forall|k: int| 0 <= k < before.len() implies white.has(#[trigger] before[k]) by {}
    assert forall|k: int| 0 <= k < after.len() implies white.has(#[trigger] after[k]) by {}
    text::surroundings_are_stripped(before, host, after, white);
}

/// A host name with an empty label has no registrable domain: one that begins with a
/// dot, one with two dots in a row before something else, and one of nothing but
/// dots.
pub proof fn empty_label_has_no_registrable_domain(
    r: Rules,
    a: Seq<char>,
    b: Seq<char>,
    dots: Seq<char>,
)
    requires
        a.len() > 0 ==> !text::is_white(a[0]),
        b.len() > 0,
        !text::is_white(b.last()) && b.last() != '.',
        forall|k: int| 0 <= k < dots.len() ==> #[trigger] dots[k] == '.',
    ensures
        registrable(r, seq!['.'] + b) is None,
        registrable(r, a + seq!['.', '.'] + b) is None,
        registrable(r, dots) is None,
{
    assert(!text::is_white('.'));
    lemma_empty_piece(a, b);
    lemma_host_with_empty_piece(r, seq!['.'] + b);
    lemma_host_with_empty_piece(r, a + seq!['.', '.'] + b);
    lemma_dots(r, dots);
}

proof fn lemma_host_with_empty_piece(r: Rules, host: Seq<char>)
    requires
        host.len() > 0,
        !text::is_white(host[0]) && !text::is_white(host.last()) && host.last() != '.',
        ({
            let labels = text::split(text::lower(host), '.');
            exists|i: int| 0 <= i < labels.len() && (#[trigger] labels[i]).len() == 0
        }),
    ensures
        registrable(r, host) is None,
{
    text::bare_text_is_not_stripped(host, CharClass::White);
    assert(text::strip_end(host, CharClass::Only('.')) == host);
}

/// A dot at the beginning and two dots in a row leave an empty piece.
#[verifier::spinoff_prover]
proof fn lemma_empty_piece(a: Seq<char>, b: Seq<char>)
    ensures
        ({
            let labels = text::split(text::lower(seq!['.'] + b), '.');
            exists|i: int| 0 <= i < labels.len() && (#[trigger] labels[i]).len() == 0
        }),
        ({
            let labels = text::split(text::lower(a + seq!['.', '.'] + b), '.');
            exists|i: int| 0 <= i < labels.len() && (#[trigger] labels[i]).len() == 0
        }),
{
    let none = Seq::<char>::empty();
    let small = text::lower(b);
    assert(text::lower_char('.') == '.');
    assert(text::lower(seq!['.'] + b) =~= seq!['.'] + small);
    assert(seq!['.'].drop_last() =~= none);
    assert(text::split(none, '.') =~= seq![none]);
    assert(text::split(seq!['.'], '.') =~= seq![none, none]);
    text::earlier_pieces_stay(seq!['.'], small, '.');
    assert(text::split(seq!['.'] + small, '.')[0] == seq![none, none][0]);

    let before = text::lower(a);
    let head = before.push('.').push('.');
    assert(text::lower(a + seq!['.', '.'] + b) =~= head + small);
    assert(head.drop_last() =~= before.push('.'));
    assert(before.push('.').drop_last() =~= before);
    let pieces = text::split(before, '.');
    assert(text::split(before.push('.'), '.') =~= pieces.push(none));
    assert(text::split(head, '.') =~= pieces.push(none).push(none));
    text::earlier_pieces_stay(head, small, '.');
    assert(text::split(head, '.')[pieces.len() as int] == none);
    assert(text::split(head + small, '.')[pieces.len() as int] == none);
}

proof fn lemma_dots(r: Rules, dots: Seq<char>)
    requires
        forall|k: int| 0 <= k < dots.len() ==> #[trigger] dots[k] == '.',
    ensures
        registrable(r, dots) is None,
{
    let dot = CharClass::Only('.');
    let none = Seq::<char>::empty();
    assert(!text::is_white('.'));
    if dots.len() > 0 {
        assert(dots[0] == '.' && dots[dots.len() - 1] == '.');
    }
    text::bare_text_is_not_stripped(dots, CharClass::White);
    assert forall|k: int| 0 <= k < dots.len() implies dot.has(#[trigger] dots[k]) by {}
    text::surroundings_are_stripped(none, none, dots, dot);
    assert(none + dots =~= dots);
    assert(text::strip_end(none, dot) == none);
    assert(text::lower(none) =~= none);
    assert(text::split(none, '.')[0].len() == 0);
}

} // verus!
