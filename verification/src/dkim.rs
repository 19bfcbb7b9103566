//! Finds the DKIM signing domain (`header.d=`) of a passing verdict in the
//! `Authentication-Results` headers (RFC 8601) of a message.
//!
//! Only a header whose `authserv-id` is trusted is believed: what a sender
//! wrote into the message does not count. Among several passing verdicts, one
//! whose domain aligns with the registrable domain of `From:` is preferred.
pub mod folding;
pub mod property;
pub mod reading;
pub mod scan;

use crate::dkim::property::Property;
use crate::text::{self, CharClass};
use vstd::prelude::*;

verus! {

/// The signing domain that was chosen.
pub struct Verdict {
    pub signing_domain: String,
    /// Whether it has the same registrable domain as the `From:` address.
    pub aligned: bool,
}

/// One entry of a header: a method, its result, and the `header.d` property.
pub struct MethodResult {
    pub method: Vec<char>,
    pub result: Vec<char>,
    pub header_d: Option<Vec<char>>,
}

/// What a `MethodResult` holds.
pub struct MethodText {
    pub method: Seq<char>,
    pub result: Seq<char>,
    pub header_d: Option<Seq<char>>,
}

impl View for MethodResult {
    type V = MethodText;

    open spec fn view(&self) -> MethodText {
        MethodText {
            method: self.method@,
            result: self.result@,
            header_d: match self.header_d {
                Some(d) => Some(d@),
                None => None,
            },
        }
    }
}

/// What the list of entries holds.
pub open spec fn method_texts(v: Seq<MethodResult>) -> Seq<MethodText> {
    v.map_values(|m: MethodResult| m@)
}

/// The header on one line: each tab becomes a space, and so does each run of
/// line breaks, unless a space stands before it already.
pub open spec fn unfolded(s: Seq<char>) -> Seq<char>
    decreases s.len(),
{
    if s.len() == 0 {
        Seq::empty()
    } else {
        let out = unfolded(s.drop_last());
        let c = s.last();
        if c == '\r' || c == '\n' {
            if out.len() > 0 && out.last() == ' ' {
                out
            } else {
                out.push(' ')
            }
        } else if c == '\t' {
            out.push(' ')
        } else {
            out.push(c)
        }
    }
}

/// Puts a folded header on one line.
pub fn unfold(s: &[char]) -> (r: Vec<char>)
    ensures
        r@ == unfolded(s@),
{
    let mut out: Vec<char> = Vec::new();
    let mut i: usize = 0;
    while i < s.len()
        invariant
            i <= s.len(),
            out@ == unfolded(s@.take(i as int)),
        decreases s.len() - i,
    {
        let c = s[i];
        proof {
            assert(s@.take(i + 1).drop_last() =~= s@.take(i as int));
        }
        if c == '\r' || c == '\n' {
            if out.len() == 0 || out[out.len() - 1] != ' ' {
                out.push(' ');
            }
        } else if c == '\t' {
            out.push(' ');
        } else {
            out.push(c);
        }
        i += 1;
    }
    proof {
        assert(s@.take(s@.len() as int) =~= s@);
    }
    out
}

/// `s` without the whitespace around it, and without the pair of double quotes
/// that encloses the rest, if there is one.
pub open spec fn unquoted(s: Seq<char>) -> Seq<char> {
    let t = text::trimmed(s);
    if t.len() >= 2 && t[0] == '"' && t.last() == '"' {
        t.subrange(1, t.len() - 1)
    } else {
        t
    }
}

/// Takes the enclosing double quotes off.
pub fn strip_quotes(s: &[char]) -> (r: &[char])
    ensures
        r@ == unquoted(s@),
{
    let t = text::trim(s);
    if t.len() >= 2 && t[0] == '"' && t[t.len() - 1] == '"' {
        &t[1..t.len() - 1]
    } else {
        t
    }
}

/// The method, the result and the signing domain that an entry states. An
/// empty entry, the entry `none`, and an entry that does not begin with
/// `method=result` state nothing.
///
/// Whitespace and comments may stand around the `=` of a property, and within
/// its name, as long as the whole entry is made of properties; in any other entry
/// each token stands for itself.
pub open spec fn entry_result(entry: Seq<char>, escapes: bool) -> Option<MethodText> {
    let e = text::trimmed(entry);
    let toks = scan::tokens(e, escapes);
    if e.len() == 0 || text::eq_ignore_case(e, "none"@) || toks.len() == 0 {
        None
    } else {
        match property::properties(toks) {
            Some(list) => Some(
                MethodText {
                    method: property::method_name(list[0].0),
                    result: text::trimmed(list[0].1),
                    header_d: header_d(list.drop_first()),
                },
            ),
            None => match text::split_first(toks[0], '=') {
                Some((m, r)) => Some(
                    MethodText {
                        method: text::trimmed(m),
                        result: text::trimmed(r),
                        header_d: header_d(property::single(toks.drop_first())),
                    },
                ),
                None => None,
            },
        }
    }
}

/// The value of the last `header.d` property in the list.
pub open spec fn header_d(list: Seq<(Seq<char>, Seq<char>)>) -> Option<Seq<char>>
    decreases list.len(),
{
    if list.len() == 0 {
        None
    } else if text::eq_ignore_case(text::trimmed(list.last().0), "header.d"@) {
        Some(unquoted(text::trimmed(list.last().1)))
    } else {
        header_d(list.drop_last())
    }
}

/// What the entries state, in order.
pub open spec fn entry_results(entries: Seq<Seq<char>>, escapes: bool) -> Seq<MethodText>
    decreases entries.len(),
{
    if entries.len() == 0 {
        Seq::empty()
    } else {
        let before = entry_results(entries.drop_last(), escapes);
        match entry_result(entries.last(), escapes) {
            Some(m) => before.push(m),
            None => before,
        }
    }
}

/// The `authserv-id` of a header: the first word before its first semicolon.
pub open spec fn authserv_id(raw: Seq<char>) -> Option<Seq<char>> {
    text::first_word(
        text::trimmed(text::before(unfolded(raw), CharClass::Only(';'))),
        CharClass::AsciiWhite,
    )
}

/// What the entries of a header on one line state. A semicolon inside a quoted
/// string or a comment ends no entry, unless one of these is left open.
pub open spec fn line_results(line: Seq<char>) -> Seq<MethodText> {
    if scan::balanced(line) {
        entry_results(scan::pieces(line).drop_first(), true)
    } else {
        entry_results(text::split(line, ';').drop_first(), false)
    }
}

/// The `authserv-id` of a header and what its entries state; nothing if the
/// header does not begin with an `authserv-id`.
pub open spec fn authres(raw: Seq<char>) -> Option<(Seq<char>, Seq<MethodText>)> {
    match authserv_id(raw) {
        Some(authserv) => Some((authserv, line_results(unfolded(raw)))),
        None => None,
    }
}

/// Finds the last `header.d` property in the list, from number `start` on.
fn find_header_d(list: &[Property], start: usize) -> (r: Option<Vec<char>>)
    requires
        start <= list@.len(),
    ensures
        match r {
            Some(d) => header_d(property::listed(list@).skip(start as int)) == Some(d@),
            None => header_d(property::listed(list@).skip(start as int)) is None,
        },
{
    let name = text::chars_of("header.d");
    let ghost all = property::listed(list@).skip(start as int);
    let mut n: usize = list.len();
    proof {
        assert(all.take(n - start) =~= all);
    }
    while n > start
        invariant
            start <= n <= list@.len(),
            all == property::listed(list@).skip(start as int),
            name@ == "header.d"@,
            header_d(all) == header_d(all.take(n - start)),
        decreases n,
    {
        proof {
            assert(all.take(n - start).last() == (list@[n - 1].key@, list@[n - 1].value@));
            assert(all.take(n - start).drop_last() =~= all.take(n - 1 - start));
        }
        if text::same_ignore_case(text::trim(&list[n - 1].key), &name) {
            return Some(text::copy_of(strip_quotes(text::trim(&list[n - 1].value))));
        }
        n -= 1;
    }
    None
}

/// Reads one entry.
fn parse_entry(entry: &[char], escapes: bool) -> (r: Option<MethodResult>)
    ensures
        match r {
            Some(m) => entry_result(entry@, escapes) == Some(m@),
            None => entry_result(entry@, escapes) is None,
        },
{
    let entry = text::trim(entry);
    let none = text::chars_of("none");
    if entry.len() == 0 || text::same_ignore_case(entry, &none) {
        return None;
    }
    let toks = scan::tokenize(entry, escapes);
    if toks.len() == 0 {
        return None;
    }
    if let Some(list) = property::read_properties(&toks) {
        proof {
            assert(property::listed(list@).skip(1) =~= property::listed(list@).drop_first());
        }
        return Some(
            MethodResult {
                method: property::method_of(&list[0].key),
                result: text::copy_of(text::trim(&list[0].value)),
                header_d: find_header_d(&list, 1),
            },
        );
    }
    match text::split_at_first(&toks[0], '=') {
        Some((m, r)) => {
            let list = property::read_single(&toks, 1);
            proof {
                assert(text::texts(toks@).skip(1) =~= text::texts(toks@).drop_first());
                assert(property::listed(list@).skip(0) =~= property::listed(list@));
            }
            Some(
                MethodResult {
                    method: text::copy_of(text::trim(m)),
                    result: text::copy_of(text::trim(r)),
                    header_d: find_header_d(&list, 0),
                },
            )
        },
        None => None,
    }
}

/// Parses an `Authentication-Results` header (RFC 8601, section 2.2) into the
/// `authserv-id` and the entries.
pub fn parse_authres(raw: &[char]) -> (r: Option<(Vec<char>, Vec<MethodResult>)>)
    ensures
        match r {
            Some((authserv, methods)) => authres(raw@) == Some(
                (authserv@, method_texts(methods@)),
            ),
            None => authres(raw@) is None,
        },
{
    let line = unfold(raw);
    let head = text::before_of(&line, &CharClass::Only(';'));
    let authserv = match text::first_word_of(text::trim(head), &CharClass::AsciiWhite) {
        Some(word) => text::copy_of(word),
        None => {
            return None;
        },
    };
    let escapes = scan::is_balanced(&line);
    let parts = if escapes {
        scan::split_entries(&line)
    } else {
        text::split_at_char(&line, ';')
    };
    let ghost entries = text::texts(parts@).drop_first();
    let mut methods: Vec<MethodResult> = Vec::new();
    let mut i: usize = 1;
    proof {
        assert(method_texts(methods@) =~= entry_results(entries.take(0), escapes));
    }
    while i < parts.len()
        invariant
            1 <= i <= parts.len(),
            entries == text::texts(parts@).drop_first(),
            method_texts(methods@) == entry_results(entries.take(i - 1), escapes),
        decreases parts.len() - i,
    {
        proof {
            assert(entries.take(i as int).drop_last() =~= entries.take(i - 1));
            assert(entries.take(i as int).last() == parts@[i as int]@);
        }
        if let Some(m) = parse_entry(&parts[i], escapes) {
            let ghost before = methods@;
            methods.push(m);
            proof {
                assert(method_texts(methods@) =~= method_texts(before).push(m@));
            }
        }
        i += 1;
    }
    proof {
        assert(entries.take(parts@.len() - 1) =~= entries);
    }
    Some((authserv, methods))
}

/// Whether the `authserv-id` is the trusted name or a subdomain of it.
pub open spec fn authserv_trusted(trusted: Seq<char>, observed: Seq<char>) -> bool {
    let t = text::lower(trusted);
    let o = text::lower(observed);
    o == t || text::ends(o, seq!['.'] + t)
}

/// Tells whether the `authserv-id` is the trusted name or a subdomain of it.
pub fn authserv_matches(trusted: &[char], observed: &[char]) -> (r: bool)
    ensures
        r == authserv_trusted(trusted@, observed@),
{
    let t = text::lower_of(trusted);
    let o = text::lower_of(observed);
    let mut dotted: Vec<char> = Vec::new();
    dotted.push('.');
    let mut i: usize = 0;
    proof {
        assert(dotted@ =~= seq!['.'] + t@.take(0));
    }
    while i < t.len()
        invariant
            i <= t.len(),
            dotted@ == seq!['.'] + t@.take(i as int),
        decreases t.len() - i,
    {
        dotted.push(t[i]);
        proof {
            assert(dotted@ =~= seq!['.'] + t@.take(i + 1));
        }
        i += 1;
    }
    proof {
        assert(t@.take(t@.len() as int) =~= t@);
    }
    text::same(&o, &t) || text::ends_with(&o, &dotted)
}

/// The signing domain that an entry vouches for: that of a passing DKIM
/// verdict, bare of whitespace and quotes and in small letters.
pub open spec fn passing_domain(m: MethodText) -> Option<Seq<char>> {
    match m.header_d {
        Some(d) => {
            let bare = text::lower(text::strip(text::trimmed(d), CharClass::Only('"')));
            if text::eq_ignore_case(m.method, "dkim"@) && text::eq_ignore_case(m.result, "pass"@)
                && bare.len() > 0 {
                Some(bare)
            } else {
                None
            }
        },
        None => None,
    }
}

/// The signing domains that the entries vouch for, in order.
pub open spec fn passing_domains(methods: Seq<MethodText>) -> Seq<Seq<char>>
    decreases methods.len(),
{
    if methods.len() == 0 {
        Seq::empty()
    } else {
        let before = passing_domains(methods.drop_last());
        match passing_domain(methods.last()) {
            Some(d) => before.push(d),
            None => before,
        }
    }
}

/// Whether one of the trusted names covers the `authserv-id`.
pub open spec fn trusted_by_any(trusted: Seq<String>, authserv: Seq<char>) -> bool {
    exists|i: int| 0 <= i < trusted.len() && authserv_trusted(#[trigger] trusted[i]@, authserv)
}

/// The signing domains that a header vouches for: none, unless it parses and
/// its `authserv-id` is trusted.
pub open spec fn header_domains(raw: Seq<char>, trusted: Seq<String>) -> Seq<Seq<char>> {
    match authres(raw) {
        Some((authserv, methods)) => if trusted_by_any(trusted, authserv) {
            passing_domains(methods)
        } else {
            Seq::empty()
        },
        None => Seq::empty(),
    }
}

/// The verified signing domains of a message: those of all its headers, in
/// order.
pub open spec fn verified_domains(headers: Seq<String>, trusted: Seq<String>) -> Seq<Seq<char>>
    decreases headers.len(),
{
    if headers.len() == 0 {
        Seq::empty()
    } else {
        verified_domains(headers.drop_last(), trusted) + header_domains(headers.last()@, trusted)
    }
}

/// Whether `reg`, the registrable domain of a signing domain, is that of
/// `From:`.
pub open spec fn same_registrable(reg: Option<Seq<char>>, from: Option<Seq<char>>) -> bool {
    match (reg, from) {
        (Some(r), Some(f)) => text::eq_ignore_case(r, f),
        _ => false,
    }
}

/// Of the domains with the flags `aligned`, number `k` is preferred: the first
/// that is aligned, or else the first of all.
pub open spec fn preferred(aligned: Seq<bool>, k: int) -> bool {
    &&& 0 <= k < aligned.len()
    &&& aligned[k] ==> forall|j: int| 0 <= j < k ==> !#[trigger] aligned[j]
    &&& !aligned[k] ==> k == 0 && forall|j: int|
        0 <= j < aligned.len() ==> !#[trigger] aligned[j]
}

/// Whether `eltd1` can have answered for `domain` in such a way that it counts
/// as aligned (`flag`) or not.
pub open spec fn answered<F: Fn(&str) -> Option<String>>(
    eltd1: F,
    domain: Seq<char>,
    from: Option<Seq<char>>,
    flag: bool,
) -> bool {
    match from {
        None => !flag,
        Some(_) => exists|arg: &str, reg: Option<String>|
            arg@ == domain && #[trigger] call_ensures(eltd1, (arg,), reg) && flag
                == same_registrable(
                match reg {
                    Some(r) => Some(r@),
                    None => None,
                },
                from,
            ),
    }
}

/// Whether `best` is the choice among `domains`, given which are aligned.
pub open spec fn chosen(
    best: Option<Verdict>,
    domains: Seq<Seq<char>>,
    aligned: Seq<bool>,
) -> bool {
    &&& aligned.len() == domains.len()
    &&& match best {
        None => domains.len() == 0,
        Some(v) => exists|k: int| #[trigger]
            preferred(aligned, k) && v.signing_domain@ == domains[k] && v.aligned == aligned[k],
    }
}

/// Whether `eltd1` can have given these flags to the domains.
pub open spec fn all_answered<F: Fn(&str) -> Option<String>>(
    eltd1: F,
    domains: Seq<Seq<char>>,
    from: Option<Seq<char>>,
    aligned: Seq<bool>,
) -> bool {
    &&& aligned.len() == domains.len()
    &&& forall|i: int|
        0 <= i < domains.len() ==> answered(eltd1, #[trigger] domains[i], from, aligned[i])
}

/// The text of an optional string.
pub open spec fn text_of(s: Option<&str>) -> Option<Seq<char>> {
    match s {
        Some(t) => Some(t@),
        None => None,
    }
}

/// Tells whether one of the trusted names covers the `authserv-id`.
fn is_trusted(trusted: &[String], authserv: &[char]) -> (r: bool)
    ensures
        r == trusted_by_any(trusted@, authserv@),
{
    let mut i: usize = 0;
    while i < trusted.len()
        invariant
            i <= trusted.len(),
            forall|j: int| 0 <= j < i ==> !authserv_trusted(#[trigger] trusted@[j]@, authserv@),
        decreases trusted.len() - i,
    {
        let t = text::chars_of(trusted[i].as_str());
        if authserv_matches(&t, authserv) {
            return true;
        }
        i += 1;
    }
    false
}

/// Reads the signing domain off an entry.
fn domain_of(m: &MethodResult) -> (r: Option<Vec<char>>)
    ensures
        match r {
            Some(d) => passing_domain(m@) == Some(d@),
            None => passing_domain(m@) is None,
        },
{
    let dkim = text::chars_of("dkim");
    let pass = text::chars_of("pass");
    if !text::same_ignore_case(&m.method, &dkim) || !text::same_ignore_case(&m.result, &pass) {
        return None;
    }
    match &m.header_d {
        Some(d) => {
            let bare = text::lower_of(text::strip_of(text::trim(d), &CharClass::Only('"')));
            if bare.len() == 0 {
                None
            } else {
                Some(bare)
            }
        },
        None => None,
    }
}

/// One more domain: it is taken if it is the first, or the first that is
/// aligned.
proof fn lemma_chosen_grows(
    best: Option<Verdict>,
    domains: Seq<Seq<char>>,
    aligned: Seq<bool>,
    candidate: Verdict,
)
    requires
        chosen(best, domains, aligned),
    ensures
        ({
            let next = match best {
                None => Some(candidate),
                Some(b) => if !b.aligned && candidate.aligned {
                    Some(candidate)
                } else {
                    best
                },
            };
            chosen(
                next,
                domains.push(candidate.signing_domain@),
                aligned.push(candidate.aligned),
            )
        }),
{
    let flags = aligned.push(candidate.aligned);
    match best {
        None => {
            assert(preferred(flags, 0));
        },
        Some(b) => {
            let k = choose|k: int| #[trigger]
                preferred(aligned, k) && b.signing_domain@ == domains[k] && b.aligned
                    == aligned[k];
            if !b.aligned && candidate.aligned {
                assert(forall|j: int| 0 <= j < aligned.len() ==> flags[j] == aligned[j]);
                assert(preferred(flags, domains.len() as int));
            } else {
                assert(forall|j: int| 0 <= j < aligned.len() ==> flags[j] == aligned[j]);
                assert(preferred(flags, k));
            }
        },
    }
}

/// What an entry of a trusted header vouches for is a verified domain.
proof fn lemma_domain_is_verified(
    headers: Seq<String>,
    i: int,
    trusted: Seq<String>,
    methods: Seq<MethodText>,
    j: int,
    d: Seq<char>,
)
    requires
        0 <= i < headers.len(),
        0 <= j < methods.len(),
        header_domains(headers[i]@, trusted) == passing_domains(methods),
        passing_domain(methods[j]) == Some(d),
    ensures
        verified_domains(headers, trusted).contains(d),
    decreases headers.len(),
{
    let init = verified_domains(headers.drop_last(), trusted);
    let last = header_domains(headers.last()@, trusted);
    if i == headers.len() - 1 {
        lemma_passing_domain_is_listed(methods, j);
        let k = choose|k: int| 0 <= k < last.len() && last[k] == d;
        assert(verified_domains(headers, trusted)[init.len() + k] == d);
    } else {
        lemma_domain_is_verified(headers.drop_last(), i, trusted, methods, j, d);
        let k = choose|k: int| 0 <= k < init.len() && init[k] == d;
        assert(verified_domains(headers, trusted)[k] == d);
    }
}

/// What an entry vouches for is among the domains of the list.
proof fn lemma_passing_domain_is_listed(methods: Seq<MethodText>, j: int)
    requires
        0 <= j < methods.len(),
        passing_domain(methods[j]) is Some,
    ensures
        passing_domains(methods).contains(passing_domain(methods[j])->0),
    decreases methods.len(),
{
    let d = passing_domain(methods[j])->0;
    let before = passing_domains(methods.drop_last());
    if j == methods.len() - 1 {
        assert(passing_domains(methods)[before.len() as int] == d);
    } else {
        lemma_passing_domain_is_listed(methods.drop_last(), j);
        let k = choose|k: int| 0 <= k < before.len() && before[k] == d;
        assert(passing_domains(methods)[k] == d);
    }
}

/// Finds the verified signing domain of a message in its
/// `Authentication-Results` headers.
///
/// `eltd1` gives the registrable domain of a name. It is asked about verified
/// domains only, and only if the registrable domain of `From:` is known.
pub fn extract_verified_domain<F: Fn(&str) -> Option<String>>(
    headers: &[String],
    trusted_authserv_ids: &[String],
    from_registrable: Option<&str>,
    eltd1: F,
) -> (verdict: Option<Verdict>)
    requires
        forall|d: &str|
            from_registrable is Some && verified_domains(
                headers@,
                trusted_authserv_ids@,
            ).contains(d@) ==> #[trigger] call_requires(eltd1, (d,)),
    ensures
        verdict is None <==> verified_domains(headers@, trusted_authserv_ids@).len() == 0,
        exists|aligned: Seq<bool>|
            chosen(verdict, verified_domains(headers@, trusted_authserv_ids@), aligned)
                && #[trigger] all_answered(
                eltd1,
                verified_domains(headers@, trusted_authserv_ids@),
                text_of(from_registrable),
                aligned,
            ),
{
    let ghost trusted = trusted_authserv_ids@;
    let ghost from = text_of(from_registrable);
    let ghost mut domains: Seq<Seq<char>> = Seq::empty();
    let ghost mut aligned: Seq<bool> = Seq::empty();
    let mut best: Option<Verdict> = None;
    let mut i: usize = 0;
    proof {
        assert(domains =~= verified_domains(headers@.take(0), trusted));
    }
    while i < headers.len()
        invariant
            i <= headers.len(),
            trusted == trusted_authserv_ids@,
            from == text_of(from_registrable),
            forall|d: &str|
                from_registrable is Some && verified_domains(headers@, trusted).contains(d@)
                    ==> #[trigger] call_requires(eltd1, (d,)),
            domains == verified_domains(headers@.take(i as int), trusted),
            chosen(best, domains, aligned),
            all_answered(eltd1, domains, from, aligned),
        decreases headers.len() - i,
    {
        let raw = text::chars_of(headers[i].as_str());
        proof {
            assert(headers@.take(i + 1).drop_last() =~= headers@.take(i as int));
            assert(domains + Seq::<Seq<char>>::empty() =~= domains);
        }
        if let Some((authserv, methods)) = parse_authres(&raw) {
            if is_trusted(trusted_authserv_ids, &authserv) {
                let ghost before = domains;
                let ghost all = method_texts(methods@);
                let mut j: usize = 0;
                proof {
                    assert(before + passing_domains(all.take(0)) =~= before);
                }
                while j < methods.len()
                    invariant
                        j <= methods.len(),
                        from == text_of(from_registrable),
                        forall|d: &str|
                            from_registrable is Some && verified_domains(
                                headers@,
                                trusted,
                            ).contains(d@) ==> #[trigger] call_requires(eltd1, (d,)),
                        i < headers.len(),
                        before == verified_domains(headers@.take(i as int), trusted),
                        header_domains(headers@[i as int]@, trusted) == passing_domains(all),
                        all == method_texts(methods@),
                        domains == before + passing_domains(all.take(j as int)),
                        chosen(best, domains, aligned),
                        all_answered(eltd1, domains, from, aligned),
                    decreases methods.len() - j,
                {
                    proof {
                        assert(all.take(j + 1).drop_last() =~= all.take(j as int));
                        assert(all.take(j + 1).last() == methods@[j as int]@);
                    }
                    if let Some(d) = domain_of(&methods[j]) {
                        let domain = text::string_of(&d);
                        proof {
                            lemma_domain_is_verified(
                                headers@,
                                i as int,
                                trusted,
                                all,
                                j as int,
                                d@,
                            );
                        }
                        let flag = match from_registrable {
                            Some(from_reg) => match eltd1(domain.as_str()) {
                                Some(d_reg) => {
                                    let a = text::chars_of(d_reg.as_str());
                                    let b = text::chars_of(from_reg);
                                    text::same_ignore_case(&a, &b)
                                },
                                None => false,
                            },
                            None => false,
                        };
                        assert(answered(eltd1, d@, from, flag));
                        let candidate = Verdict { signing_domain: domain, aligned: flag };
                        proof {
                            lemma_chosen_grows(best, domains, aligned, candidate);
                            assert(domains.push(d@) =~= before + passing_domains(all.take(j + 1)));
                            domains = domains.push(d@);
                            aligned = aligned.push(flag);
                        }
                        best = match best {
                            None => Some(candidate),
                            Some(b) => if !b.aligned && candidate.aligned {
                                Some(candidate)
                            } else {
                                Some(b)
                            },
                        };
                    }
                    j += 1;
                }
                proof {
                    assert(all.take(all.len() as int) =~= all);
                }
            }
        }
        i += 1;
    }
    proof {
        assert(headers@.take(headers@.len() as int) =~= headers@);
    }
    best
}

/// The domains of two lists of headers are those of the first, then those of
/// the second.
proof fn lemma_domains_of_two_lists(a: Seq<String>, b: Seq<String>, trusted: Seq<String>)
    ensures
        verified_domains(a + b, trusted) == verified_domains(a, trusted) + verified_domains(
            b,
            trusted,
        ),
    decreases b.len(),
{
    if b.len() == 0 {
        assert(a + b =~= a);
        assert(verified_domains(a, trusted) + Seq::<Seq<char>>::empty() =~= verified_domains(
            a,
            trusted,
        ));
    } else {
        assert((a + b).drop_last() =~= a + b.drop_last());
        lemma_domains_of_two_lists(a, b.drop_last(), trusted);
        assert(verified_domains(a + b, trusted) =~= verified_domains(a, trusted)
            + verified_domains(b, trusted));
    }
}

/// A header whose `authserv-id`, the first word before the first semicolon, is
/// missing or not trusted changes nothing, wherever it stands: what a sender adds
/// to the message is ignored.
pub proof fn untrusted_header_is_ignored(
    before: Seq<String>,
    forged: String,
    after: Seq<String>,
    trusted: Seq<String>,
)
    requires
        match authserv_id(forged@) {
            Some(authserv) => !trusted_by_any(trusted, authserv),
            None => true,
        },
    ensures
        verified_domains(before.push(forged) + after, trusted) == verified_domains(
            before + after,
            trusted,
        ),
{
    lemma_domains_of_two_lists(before, after, trusted);
    lemma_domains_of_two_lists(before.push(forged), after, trusted);
    assert(before.push(forged).drop_last() =~= before);
    assert(verified_domains(before, trusted) + Seq::<Seq<char>>::empty() =~= verified_domains(
        before,
        trusted,
    ));
}

/// The choice is aligned if any verified domain is, and it is the first of the
/// verified domains if none is.
pub proof fn aligned_domain_is_preferred(
    best: Option<Verdict>,
    domains: Seq<Seq<char>>,
    aligned: Seq<bool>,
)
    requires
        chosen(best, domains, aligned),
    ensures
        domains.len() > 0 ==> best is Some,
        best is Some ==> domains.contains((best->0).signing_domain@),
        best is Some ==> ((best->0).aligned <==> exists|i: int|
            0 <= i < aligned.len() && #[trigger] aligned[i]),
        best is Some && !(best->0).aligned ==> (best->0).signing_domain@ == domains[0],
{
    if let Some(v) = best {
        let k = choose|k: int| #[trigger]
            preferred(aligned, k) && v.signing_domain@ == domains[k] && v.aligned == aligned[k];
        assert(domains[k] == v.signing_domain@);
        assert(v.aligned == aligned[k]);
    }
}

/// Two choices among the same domains with the same flags agree.
pub proof fn choice_is_unique(
    a: Option<Verdict>,
    b: Option<Verdict>,
    domains: Seq<Seq<char>>,
    aligned: Seq<bool>,
)
    requires
        chosen(a, domains, aligned),
        chosen(b, domains, aligned),
    ensures
        a is Some <==> b is Some,
        a is Some ==> (a->0).signing_domain@ == (b->0).signing_domain@ && (a->0).aligned
            == (b->0).aligned,
{
    if let (Some(v), Some(w)) = (a, b) {
        let k = choose|k: int| #[trigger]
            preferred(aligned, k) && v.signing_domain@ == domains[k] && v.aligned == aligned[k];
        let l = choose|l: int| #[trigger]
            preferred(aligned, l) && w.signing_domain@ == domains[l] && w.aligned == aligned[l];
        if k < l {
            assert(aligned[k] == v.aligned);
        } else if l < k {
            assert(aligned[l] == w.aligned);
        }
    }
}

/// Every verified domain is a non-empty text in small letters.
pub proof fn verified_domains_are_normal(headers: Seq<String>, trusted: Seq<String>)
    ensures
        forall|i: int|
            0 <= i < verified_domains(headers, trusted).len() ==> {
                let d = #[trigger] verified_domains(headers, trusted)[i];
                d.len() > 0 && text::lower(d) == d
            },
    decreases headers.len(),
{
    if headers.len() > 0 {
        verified_domains_are_normal(headers.drop_last(), trusted);
        let before = verified_domains(headers.drop_last(), trusted);
        let last = header_domains(headers.last()@, trusted);
        if let Some((_, methods)) = authres(headers.last()@) {
            lemma_passing_domains_are_normal(methods);
        }
        assert forall|i: int| 0 <= i < verified_domains(headers, trusted).len() implies {
            let d = #[trigger] verified_domains(headers, trusted)[i];
            d.len() > 0 && text::lower(d) == d
        } by {
            if i < before.len() {
                assert(verified_domains(headers, trusted)[i] == before[i]);
            } else {
                assert(verified_domains(headers, trusted)[i] == last[i - before.len()]);
            }
        }
    }
}

proof fn lemma_passing_domains_are_normal(methods: Seq<MethodText>)
    ensures
        forall|i: int|
            0 <= i < passing_domains(methods).len() ==> {
                let d = #[trigger] passing_domains(methods)[i];
                d.len() > 0 && text::lower(d) == d
            },
    decreases methods.len(),
{
    if methods.len() > 0 {
        lemma_passing_domains_are_normal(methods.drop_last());
        let before = passing_domains(methods.drop_last());
        if let Some(d) = methods.last().header_d {
            text::lower_is_idempotent(text::strip(text::trimmed(d), CharClass::Only('"')));
        }
        assert forall|i: int| 0 <= i < passing_domains(methods).len() implies {
            let d = #[trigger] passing_domains(methods)[i];
            d.len() > 0 && text::lower(d) == d
        } by {
            if i < before.len() {
                assert(passing_domains(methods)[i] == before[i]);
            }
        }
    }
}

/// An `authserv-id` is trusted exactly if it is one of the trusted names, or one of
/// them with a dot and something before it, the case of letters aside.
pub proof fn trusted_id_is_a_trusted_name_or_below_one(trusted: Seq<String>, id: Seq<char>)
    ensures
        trusted_by_any(trusted, id) <==> exists|t: int|
            {
                &&& 0 <= t < trusted.len()
                &&& text::lower(id) == text::lower((#[trigger] trusted[t])@) || exists|
                    rest: Seq<char>,
                | text::lower(id) == #[trigger] (rest + (seq!['.'] + text::lower(trusted[t]@)))
            },
{
    assert forall|t: int| 0 <= t < trusted.len() implies authserv_trusted(
        (#[trigger] trusted[t])@,
        id,
    ) == (text::lower(id) == text::lower(trusted[t]@) || exists|rest: Seq<char>|
        text::lower(id) == #[trigger] (rest + (seq!['.'] + text::lower(trusted[t]@)))) by {
        text::ending_follows_the_rest(
            text::lower(id),
            seq!['.'] + text::lower(trusted[t]@),
        );
    }
    if trusted_by_any(trusted, id) {
        let t = choose|t: int|
            0 <= t < trusted.len() && authserv_trusted(#[trigger] trusted[t]@, id);
        assert(authserv_trusted((trusted[t])@, id));
    }
}

/// Every verified domain is what an entry of a trusted header vouches for: an entry
/// with the method `dkim` and the result `pass`, the case of letters aside, whose
/// `header.d` is the domain once whitespace and quotes around it are off and its
/// letters are small. Gives the number of the header and that of the entry.
pub proof fn verified_domain_passed_dkim(
    headers: Seq<String>,
    trusted: Seq<String>,
    n: int,
) -> (at: (int, int))
    requires
        0 <= n < verified_domains(headers, trusted).len(),
    ensures
        ({
            let d = verified_domains(headers, trusted)[n];
            let header = authres(headers[at.0]@);
            let m = (header->0).1[at.1];
            &&& 0 <= at.0 < headers.len()
            &&& header is Some
            &&& trusted_by_any(trusted, (header->0).0)
            &&& 0 <= at.1 < (header->0).1.len()
            &&& text::lower(m.method) == "dkim"@
            &&& text::lower(m.result) == "pass"@
            &&& m.header_d is Some
            &&& d == text::lower(
                text::strip(text::trimmed(m.header_d->0), CharClass::Only('"')),
            )
            &&& d.len() > 0
        }),
    decreases headers.len(),
{
    lemma_literals_are_small();
    let before = verified_domains(headers.drop_last(), trusted);
    let last = header_domains(headers.last()@, trusted);
    if headers.len() == 0 {
        (0, 0)
    } else if n < before.len() {
        let at = verified_domain_passed_dkim(headers.drop_last(), trusted, n);
        at
    } else {
        let methods = (authres(headers.last()@)->0).1;
        let j = lemma_passing_domain_has_an_entry(methods, n - before.len());
        assert(verified_domains(headers, trusted)[n] == last[n - before.len()]);
        (headers.len() - 1, j)
    }
}

proof fn lemma_literals_are_small()
    ensures
        text::lower("dkim"@) == "dkim"@,
        text::lower("pass"@) == "pass"@,
{
    reveal_strlit("dkim");
    reveal_strlit("pass");
    assert(text::lower("dkim"@) =~= "dkim"@);
    assert(text::lower("pass"@) =~= "pass"@);
}

proof fn lemma_passing_domain_has_an_entry(methods: Seq<MethodText>, n: int) -> (j: int)
    requires
        0 <= n < passing_domains(methods).len(),
    ensures
        0 <= j < methods.len(),
        passing_domain(methods[j]) == Some(passing_domains(methods)[n]),
    decreases methods.len(),
{
    let before = passing_domains(methods.drop_last());
    if methods.len() == 0 {
        0
    } else if n < before.len() {
        let j = lemma_passing_domain_has_an_entry(methods.drop_last(), n);
        j
    } else {
        methods.len() - 1
    }
}

/// What an entry with the method `dkim` and the result `pass` names as the signing
/// domain is verified, if a trusted header holds the entry.
pub proof fn passing_entry_of_a_trusted_header_is_verified(
    headers: Seq<String>,
    trusted: Seq<String>,
    i: int,
    j: int,
)
    requires
        0 <= i < headers.len(),
        authres(headers[i]@) is Some,
        trusted_by_any(trusted, (authres(headers[i]@)->0).0),
        0 <= j < (authres(headers[i]@)->0).1.len(),
        ({
            let m = (authres(headers[i]@)->0).1[j];
            &&& text::lower(m.method) == "dkim"@
            &&& text::lower(m.result) == "pass"@
            &&& m.header_d is Some
            &&& text::strip(text::trimmed(m.header_d->0), CharClass::Only('"')).len() > 0
        }),
    ensures
        verified_domains(headers, trusted).contains(
            text::lower(
                text::strip(
                    text::trimmed((authres(headers[i]@)->0).1[j].header_d->0),
                    CharClass::Only('"'),
                ),
            ),
        ),
{
    lemma_literals_are_small();
    let methods = (authres(headers[i]@)->0).1;
    lemma_domain_is_verified(
        headers,
        i,
        trusted,
        methods,
        j,
        text::lower(
            text::strip(text::trimmed(methods[j].header_d->0), CharClass::Only('"')),
        ),
    );
}

/// An entry with any other method or result adds no domain, and neither does one
/// without a signing domain.
pub proof fn other_entries_add_no_domain(a: Seq<MethodText>, m: MethodText, b: Seq<MethodText>)
    requires
        text::lower(m.method) != "dkim"@ || text::lower(m.result) != "pass"@ || m.header_d is None,
    ensures
        passing_domains(a.push(m) + b) == passing_domains(a + b),
    decreases b.len(),
{
    lemma_literals_are_small();
    if b.len() == 0 {
        assert(a.push(m) + b =~= a.push(m));
        assert(a.push(m).drop_last() =~= a);
        assert(a + b =~= a);
    } else {
        other_entries_add_no_domain(a, m, b.drop_last());
        assert((a.push(m) + b).drop_last() =~= a.push(m) + b.drop_last());
        assert((a + b).drop_last() =~= a + b.drop_last());
    }
}

/// The verified domains stand in the order of the headers, and within a header in
/// the order of its entries.
pub proof fn verified_domains_stand_in_order(
    a: Seq<String>,
    b: Seq<String>,
    h: String,
    ms: Seq<MethodText>,
    ns: Seq<MethodText>,
    trusted: Seq<String>,
)
    ensures
        verified_domains(a + b, trusted) == verified_domains(a, trusted) + verified_domains(
            b,
            trusted,
        ),
        passing_domains(ms + ns) == passing_domains(ms) + passing_domains(ns),
        authres(h@) is Some && trusted_by_any(trusted, (authres(h@)->0).0) ==> verified_domains(
            seq![h],
            trusted,
        ) == passing_domains((authres(h@)->0).1),
    decreases ns.len(),
{
    lemma_domains_of_two_lists(a, b, trusted);
    assert(seq![h].drop_last() =~= Seq::<String>::empty());
    assert(verified_domains(Seq::<String>::empty(), trusted) =~= Seq::<Seq<char>>::empty());
    assert(seq![h].last() == h);
    assert(Seq::<Seq<char>>::empty() + header_domains(h@, trusted) =~= header_domains(
        h@,
        trusted,
    ));
    if ns.len() == 0 {
        assert(ms + ns =~= ms);
        assert(passing_domains(ms) + Seq::<Seq<char>>::empty() =~= passing_domains(ms));
    } else {
        verified_domains_stand_in_order(a, b, h, ms, ns.drop_last(), trusted);
        assert((ms + ns).drop_last() =~= ms + ns.drop_last());
        assert(passing_domains(ms + ns) =~= passing_domains(ms) + passing_domains(ns));
    }
}

/// The choice is the first aligned domain, or the first of all if none is aligned.
pub proof fn first_aligned_domain_is_chosen(
    best: Option<Verdict>,
    domains: Seq<Seq<char>>,
    aligned: Seq<bool>,
    k: int,
)
    requires
        chosen(best, domains, aligned),
        0 <= k < domains.len(),
        aligned[k],
        forall|j: int| 0 <= j < k ==> !#[trigger] aligned[j],
    ensures
        best is Some,
        (best->0).signing_domain@ == domains[k],
        (best->0).aligned,
{
    let v = best->0;
    let l = choose|l: int| #[trigger]
        preferred(aligned, l) && v.signing_domain@ == domains[l] && v.aligned == aligned[l];
    assert(aligned[l] || !aligned[l]);
    if l < k {
        assert(!aligned[l]);
    }
}

/// Two registrable domains are the same if both are known and agree, the case of
/// letters aside.
pub proof fn registrable_domains_agree_in_small_letters(
    a: Option<Seq<char>>,
    b: Option<Seq<char>>,
)
    ensures
        same_registrable(a, b) <==> a is Some && b is Some && text::lower(a->0) == text::lower(
            b->0,
        ),
{
}

/// A pair of quotes around a value is taken off, and nothing else.
pub proof fn quotes_around_a_value_are_taken_off(v: Seq<char>)
    ensures
        unquoted(seq!['"'] + v + seq!['"']) == v,
        v.len() > 0 && v[0] != '"' && !text::is_white(v[0]) && !text::is_white(v.last())
            ==> unquoted(v) == v,
{
    let q = seq!['"'] + v + seq!['"'];
    assert(!text::is_white('"'));
    assert(q[0] == '"' && q.last() == '"');
    text::bare_text_is_not_stripped(q, CharClass::White);
    assert(q.subrange(1, q.len() - 1) =~= v);
    if v.len() > 0 && !text::is_white(v[0]) && !text::is_white(v.last()) {
        text::bare_text_is_not_stripped(v, CharClass::White);
    }
}

/// If no domain is aligned, the first of all is chosen; if there is no domain,
/// there is no choice.
pub proof fn first_domain_is_chosen_if_none_is_aligned(
    best: Option<Verdict>,
    domains: Seq<Seq<char>>,
    aligned: Seq<bool>,
)
    requires
        chosen(best, domains, aligned),
        forall|j: int| 0 <= j < domains.len() ==> !#[trigger] aligned[j],
    ensures
        domains.len() == 0 <==> best is None,
        domains.len() > 0 ==> (best->0).signing_domain@ == domains[0] && !(best->0).aligned,
{
    if let Some(v) = best {
        let l = choose|l: int| #[trigger]
            preferred(aligned, l) && v.signing_domain@ == domains[l] && v.aligned == aligned[l];
        assert(!aligned[l]);
    }
}

/// Where the registrable domain of a name is `reg` of it, exactly those domains are
/// aligned whose registrable domain is that of `From:`, the case of letters aside.
pub proof fn alignment_follows_the_registrable_domains<F: Fn(&str) -> Option<String>>(
    eltd1: F,
    reg: spec_fn(Seq<char>) -> Option<Seq<char>>,
    domains: Seq<Seq<char>>,
    from: Option<Seq<char>>,
    aligned: Seq<bool>,
)
    requires
        all_answered(eltd1, domains, from, aligned),
        forall|arg: &str, r: Option<String>| #[trigger]
            call_ensures(eltd1, (arg,), r) ==> match r {
                Some(s) => reg(arg@) == Some(s@),
                None => reg(arg@) is None,
            },
    ensures
        aligned.len() == domains.len(),
        forall|i: int|
            0 <= i < domains.len() ==> (#[trigger] aligned[i] <==> from is Some && reg(domains[i])
                is Some && text::lower(reg(domains[i])->0) == text::lower(from->0)),
{
    assert forall|i: int| 0 <= i < domains.len() implies (#[trigger] aligned[i] <==> from is Some
        && reg(domains[i]) is Some && text::lower(reg(domains[i])->0) == text::lower(from->0)) by {
        assert(answered(eltd1, domains[i], from, aligned[i]));
    }
}

/// What the entries state stands in their order, and an entry that states nothing
/// adds nothing.
pub proof fn entries_are_read_in_order(
    a: Seq<Seq<char>>,
    b: Seq<Seq<char>>,
    entry: Seq<char>,
    escapes: bool,
)
    ensures
        entry_results(a + b, escapes) == entry_results(a, escapes) + entry_results(b, escapes),
        entry_results(seq![entry], escapes) == match entry_result(entry, escapes) {
            Some(m) => seq![m],
            None => Seq::<MethodText>::empty(),
        },
    decreases b.len(),
{
    let none = Seq::<MethodText>::empty();
    assert(seq![entry].drop_last() =~= Seq::<Seq<char>>::empty());
    assert(entry_results(Seq::<Seq<char>>::empty(), escapes) =~= none);
    assert(seq![entry].last() == entry);
    if let Some(m) = entry_result(entry, escapes) {
        assert(none.push(m) =~= seq![m]);
    }
    if b.len() == 0 {
        assert(a + b =~= a);
        assert(entry_results(a, escapes) + none =~= entry_results(a, escapes));
    } else {
        entries_are_read_in_order(a, b.drop_last(), entry, escapes);
        assert((a + b).drop_last() =~= a + b.drop_last());
        assert(entry_results(a + b, escapes) =~= entry_results(a, escapes) + entry_results(
            b,
            escapes,
        ));
    }
}

/// A blank entry states nothing, nor does the entry `none`, nor one in whose tokens
/// there is no `=`.
pub proof fn entry_without_a_verdict_states_nothing(entry: Seq<char>, escapes: bool)
    requires
        ({
            let toks = scan::tokens(text::trimmed(entry), escapes);
            ||| text::trimmed(entry).len() == 0
            ||| text::lower(text::trimmed(entry)) == "none"@
            ||| forall|i: int| 0 <= i < toks.len() ==> !(#[trigger] toks[i]).contains('=')
        }),
    ensures
        entry_result(entry, escapes) is None,
{
    reveal_strlit("none");
    assert(text::lower("none"@) =~= "none"@);
    let toks = scan::tokens(text::trimmed(entry), escapes);
    if toks.len() > 0 && (forall|i: int|
        0 <= i < toks.len() ==> !(#[trigger] toks[i]).contains('=')) {
        property::words_are_no_properties(toks);
        text::cut_at_the_first(toks[0], '=');
        if let Some((x, y)) = text::split_first(toks[0], '=') {
            assert(toks[0][x.len() as int] == '=');
        }
    }
}

/// In a header whose quoted strings and comments are all closed, the entries end at
/// the semicolons outside these; in any other, at every semicolon. What stands before
/// the first of them is no entry.
pub proof fn entries_end_at_semicolons(line: Seq<char>)
    ensures
        scan::balanced(line) ==> line_results(line) == entry_results(
            scan::pieces(line).skip(1),
            true,
        ),
        !scan::balanced(line) ==> line_results(line) == entry_results(
            text::split(line, ';').skip(1),
            false,
        ),
{
    assert(scan::pieces(line).skip(1) =~= scan::pieces(line).drop_first());
    assert(text::split(line, ';').skip(1) =~= text::split(line, ';').drop_first());
}

/// The `authserv-id` of a header on one line is its first word, if that stands
/// before the first semicolon; without it, the header says nothing.
pub proof fn id_is_the_first_word_of_the_header(
    blank: Seq<char>,
    id: Seq<char>,
    rest: Seq<char>,
)
    requires
        forall|k: int| 0 <= k < blank.len() ==> #[trigger] blank[k] == ' ',
        id.len() > 0,
        forall|k: int| 0 <= k < id.len() ==> !text::is_white(#[trigger] id[k]) && id[k] != ';',
        rest.len() > 0 ==> rest[0] == ' ' || rest[0] == ';',
        forall|k: int|
            0 <= k < rest.len() ==> #[trigger] rest[k] != '\r' && rest[k] != '\n' && rest[k] != '\t',
    ensures
        authserv_id(blank + id + rest) == Some(id),
        authres(blank + id + rest) == Some((id, line_results(blank + id + rest))),
        authres(blank + seq![';'] + rest) is None,
        authres(blank) is None,
{
    let ascii = CharClass::AsciiWhite;
    let white = CharClass::White;
    let semi = CharClass::Only(';');
    let none = Seq::<char>::empty();
    let s = blank + id + rest;
    assert forall|k: int| 0 <= k < s.len() implies #[trigger] s[k] != '\r' && s[k] != '\n' && s[k]
        != '\t' by {
        if k < blank.len() {
            assert(s[k] == blank[k]);
        } else if k < blank.len() + id.len() {
            assert(s[k] == id[k - blank.len()]);
            assert(!text::is_white(id[k - blank.len()]));
        } else {
            assert(s[k] == rest[k - blank.len() - id.len()]);
        }
    }
    reading::line_without_breaks_is_not_unfolded(s);
    let head = text::before(s, semi);
    text::part_before_holds_none_of_the_class(s, semi);
    let n = head.len() as int;
    let m = (blank.len() + id.len()) as int;
    if n < blank.len() {
        assert(s[n] == blank[n]);
    } else if n < m {
        assert(s[n] == id[n - blank.len()]);
    }
    let tail = rest.take(n - m);
    assert(head =~= blank + id + tail);
    if tail.len() > 0 && rest[0] == ';' {
        assert(s[m] == ';');
    }
    assert forall|k: int| 0 <= k < blank.len() implies white.has(#[trigger] blank[k])
        && ascii.has(blank[k]) by {}
    let end = text::trimmed_text_begins_with_its_first_word(blank, id, tail);
    let t = text::trimmed(head);
    let y = tail.take(end);
    if y.len() > 0 {
        assert(y[0] == tail[0]);
        assert(tail[0] == rest[0]);
    }
    assert forall|k: int| 0 <= k < id.len() implies !ascii.has(#[trigger] id[k]) by {
        assert(!text::is_white(id[k]));
    }
    text::first_word_ends_before_the_class(none, id, y, ascii);
    assert(none + id + y =~= t);

    let b = blank + seq![';'] + rest;
    assert forall|k: int| 0 <= k < b.len() implies #[trigger] b[k] != '\r' && b[k] != '\n' && b[k]
        != '\t' by {
        if k < blank.len() {
            assert(b[k] == blank[k]);
        } else if k > blank.len() {
            assert(b[k] == rest[k - blank.len() - 1]);
        }
    }
    reading::line_without_breaks_is_not_unfolded(b);
    text::part_before_holds_none_of_the_class(b, semi);
    let c = text::before(b, semi).len() as int;
    if c < blank.len() {
        assert(b[c] == blank[c]);
    }
    if c > blank.len() {
        assert(b[blank.len() as int] == ';');
    }
    assert(text::before(b, semi) =~= blank);
    text::surroundings_are_stripped(blank, none, none, white);
    assert(blank + none + none =~= blank);
    reading::line_without_breaks_is_not_unfolded(blank);
    text::part_before_holds_none_of_the_class(blank, semi);
    let e = text::before(blank, semi).len() as int;
    if e < blank.len() {
        assert(blank[e] == ' ');
    }
    assert(text::before(blank, semi) =~= blank);
    assert(text::trimmed(blank) == text::trimmed(none));
    assert(text::trimmed(none) =~= none);
    assert(text::first_word(none, ascii) is None);
}

} // verus!
