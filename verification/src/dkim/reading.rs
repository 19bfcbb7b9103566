//! A header that is written out plainly is read as it was written.
use crate::dkim;
use crate::dkim::property;
use crate::dkim::scan::{self, Mode};
use crate::text::{self, CharClass};
use vstd::prelude::*;

verus! {

/// Whether a character can stand in a word without quotes.
pub open spec fn is_word_char(c: char) -> bool {
    !text::is_white(c) && c != '"' && c != '(' && c != ';' && c != '='
}

/// Whether this is a word without quotes.
pub open spec fn is_word(w: Seq<char>) -> bool {
    w.len() > 0 && forall|k: int| 0 <= k < w.len() ==> is_word_char(#[trigger] w[k])
}

/// Whether this is a word without dots and slashes.
pub open spec fn is_keyword(w: Seq<char>) -> bool {
    is_word(w) && !w.contains('.') && !w.contains('/')
}

/// A property: `kind.name=value`.
pub struct Stated {
    pub kind: Seq<char>,
    pub name: Seq<char>,
    pub value: Seq<char>,
}

/// An entry: `method=result`, and properties after it.
pub struct Entry {
    pub method: Seq<char>,
    pub result: Seq<char>,
    pub properties: Seq<Stated>,
}

/// Whether the parts of a property are words.
pub open spec fn is_stated(p: Stated) -> bool {
    is_keyword(p.kind) && is_keyword(p.name) && is_word(p.value)
}

/// Whether the parts of an entry are words.
pub open spec fn is_entry(e: Entry) -> bool {
    &&& is_keyword(e.method)
    &&& is_word(e.result)
    &&& forall|i: int| 0 <= i < e.properties.len() ==> is_stated(#[trigger] e.properties[i])
}

/// A property as it is written.
pub open spec fn written_property(p: Stated) -> Seq<char> {
    (p.kind + seq!['.'] + p.name) + seq!['='] + p.value
}

/// The words of an entry as it is written.
pub open spec fn written_words(e: Entry) -> Seq<Seq<char>> {
    seq![e.method + seq!['='] + e.result] + e.properties.map_values(
        |p: Stated| written_property(p),
    )
}

/// An entry as it is written: a space, and its words with spaces between them.
pub open spec fn written_entry(e: Entry) -> Seq<char> {
    seq![' '] + text::join(written_words(e), ' ')
}

/// A header as it is written: the `authserv-id` and the entries, with semicolons
/// between them.
pub open spec fn written_header(id: Seq<char>, entries: Seq<Entry>) -> Seq<char> {
    text::join(seq![id] + entries.map_values(|e: Entry| written_entry(e)), ';')
}

/// Whether `d` is what the entry states as the signing domain: the value of the
/// last property `header.d`, the case of letters aside.
pub open spec fn states_domain(e: Entry, d: Option<Seq<char>>) -> bool {
    match d {
        Some(value) => exists|k: int|
            {
                &&& 0 <= k < e.properties.len()
                &&& text::lower((#[trigger] e.properties[k]).kind) == "header"@
                &&& text::lower(e.properties[k].name) == "d"@
                &&& e.properties[k].value == value
                &&& forall|j: int|
                    k < j < e.properties.len() ==> !(text::lower((#[trigger] e.properties[j]).kind)
                        == "header"@ && text::lower(e.properties[j].name) == "d"@)
            },
        None => forall|j: int|
            0 <= j < e.properties.len() ==> !(text::lower((#[trigger] e.properties[j]).kind)
                == "header"@ && text::lower(e.properties[j].name) == "d"@),
    }
}

/// A word takes the words of a text one further.
proof fn lemma_add_word(s: Seq<char>, w: Seq<char>, escapes: bool)
    requires
        scan::mode_after(s, escapes) == Mode::Plain,
        forall|k: int|
            0 <= k < w.len() ==> !text::is_white(#[trigger] w[k]) && w[k] != '"' && w[k] != '(',
    ensures
        scan::mode_after(s + w, escapes) == Mode::Plain,
        scan::ended_words(scan::marks(s + w, escapes)) == scan::ended_words(
            scan::marks(s, escapes),
        ),
        scan::last_run(scan::marks(s + w, escapes)) == scan::last_run(scan::marks(s, escapes)) + w,
    decreases w.len(),
{
    if w.len() == 0 {
        assert(s + w =~= s);
        assert(scan::last_run(scan::marks(s, escapes)) + w =~= scan::last_run(
            scan::marks(s, escapes),
        ));
    } else {
        let init = w.drop_last();
        let c = w.last();
        assert(w[w.len() - 1] == c);
        lemma_add_word(s, init, escapes);
        assert((s + w).drop_last() =~= s + init);
        let m = scan::marks(s + init, escapes);
        assert((m + seq![Some(c)]).drop_last() =~= m);
        assert(scan::last_run(scan::marks(s, escapes)) + w =~= (scan::last_run(
            scan::marks(s, escapes),
        ) + init).push(c));
    }
}

/// Words with spaces between them are read as these words.
proof fn lemma_words(ws: Seq<Seq<char>>, escapes: bool)
    requires
        ws.len() > 0,
        forall|i: int| 0 <= i < ws.len() ==> is_token(#[trigger] ws[i]),
    ensures
        ({
            let s = text::join(ws, ' ');
            &&& scan::mode_after(s, escapes) == Mode::Plain
            &&& scan::ended_words(scan::marks(s, escapes)) == ws.drop_last()
            &&& scan::last_run(scan::marks(s, escapes)) == ws.last()
        }),
    decreases ws.len(),
{
    let w = ws.last();
    assert(is_token(ws[ws.len() - 1]));
    let empty = Seq::<char>::empty();
    if ws.len() == 1 {
        lemma_add_word(empty, w, escapes);
        assert(empty + w =~= ws[0]);
        assert(scan::marks(empty, escapes) =~= Seq::<Option<char>>::empty());
        assert(empty + w =~= w);
        assert(ws.drop_last() =~= Seq::<Seq<char>>::empty());
    } else {
        let init = ws.drop_last();
        assert forall|i: int| 0 <= i < init.len() implies is_token(#[trigger] init[i]) by {
            assert(init[i] == ws[i]);
        }
        lemma_words(init, escapes);
        let before = text::join(init, ' ');
        let head = before.push(' ');
        assert(head.drop_last() =~= before);
        assert(text::is_white(' '));
        let m = scan::marks(before, escapes);
        assert((m + seq![None::<char>]).drop_last() =~= m);
        assert(is_token(init[init.len() - 1]));
        assert(init.drop_last().push(init.last()) =~= init);
        lemma_add_word(head, w, escapes);
        assert(empty + w =~= w);
    }
}

/// Whether a text is read as one word.
pub open spec fn is_token(w: Seq<char>) -> bool {
    w.len() > 0 && forall|k: int|
        0 <= k < w.len() ==> !text::is_white(#[trigger] w[k]) && w[k] != '"' && w[k] != '('
            && w[k] != ';'
}

/// The words of an entry, and the pairs that they are.
proof fn lemma_written_words(e: Entry)
    requires
        is_entry(e),
    ensures
        forall|i: int|
            0 <= i < written_words(e).len() ==> is_token(#[trigger] written_words(e)[i]),
        property::properties(written_words(e)) == Some(pairs_of(e)),
{
    let ws = written_words(e);
    let list = pairs_of(e);
    assert forall|i: int| 0 <= i < ws.len() implies is_token(#[trigger] ws[i]) && ws[i]
        == list[i].0 + seq!['='] + list[i].1 && !list[i].0.contains('=') && list[i].1.len()
        > 0 by {
        if i == 0 {
            lemma_no_equals(e.method);
        } else {
            let p = e.properties[i - 1];
            assert(is_stated(p));
            assert(ws[i] == written_property(p));
            assert(list[i] == (p.kind + seq!['.'] + p.name, p.value));
            lemma_no_equals(p.kind);
            lemma_no_equals(p.name);
            let key = p.kind + seq!['.'] + p.name;
            if key.contains('=') {
                let k = choose|k: int| 0 <= k < key.len() && key[k] == '=';
                if k < p.kind.len() {
                    assert(p.kind[k] == '=');
                } else if k > p.kind.len() {
                    assert(p.name[k - p.kind.len() - 1] == '=');
                }
            }
            assert(!text::is_white('.') && !text::is_white('='));
            let w = ws[i];
            assert forall|k: int| 0 <= k < w.len() implies !text::is_white(#[trigger] w[k]) && w[k]
                != '"' && w[k] != '(' && w[k] != ';' by {
                if k < p.kind.len() {
                    assert(w[k] == p.kind[k]);
                } else if p.kind.len() < k < key.len() {
                    assert(w[k] == p.name[k - p.kind.len() - 1]);
                } else if k > key.len() {
                    assert(w[k] == p.value[k - key.len() - 1]);
                }
            }
        }
        if i == 0 {
            let w = ws[0];
            assert(!text::is_white('='));
            assert forall|k: int| 0 <= k < w.len() implies !text::is_white(#[trigger] w[k]) && w[k]
                != '"' && w[k] != '(' && w[k] != ';' by {
                if k < e.method.len() {
                    assert(w[k] == e.method[k]);
                } else if k > e.method.len() {
                    assert(w[k] == e.result[k - e.method.len() - 1]);
                }
            }
        }
    }
    lemma_pairs(ws, list);
    lemma_method_key(e.method);
    assert(list[0] == (e.method, e.result));
    assert forall|i: int| 1 <= i < list.len() implies property::is_property_key(
        (#[trigger] list[i]).0,
    ) by {
        let p = e.properties[i - 1];
        assert(is_stated(p));
        lemma_property_key(p.kind, p.name);
    }
}

/// The pairs that an entry is written as.
spec fn pairs_of(e: Entry) -> Seq<(Seq<char>, Seq<char>)> {
    seq![(e.method, e.result)] + e.properties.map_values(
        |p: Stated| (p.kind + seq!['.'] + p.name, p.value),
    )
}

proof fn lemma_no_equals(w: Seq<char>)
    requires
        is_word(w),
    ensures
        !w.contains('='),
        !w.contains('"'),
{
}

proof fn lemma_method_key(m: Seq<char>)
    requires
        is_keyword(m),
    ensures
        property::is_method_key(m),
        property::method_name(m) == m,
{
    lemma_no_equals(m);
    text::cut_at_the_first(m, '/');
    if let Some((a, b)) = text::split_first(m, '/') {
        assert(m[a.len() as int] == '/');
    }
}

proof fn lemma_property_key(kind: Seq<char>, name: Seq<char>)
    requires
        is_keyword(kind),
        is_keyword(name),
    ensures
        property::is_property_key(kind + seq!['.'] + name),
{
    let key = kind + seq!['.'] + name;
    lemma_no_equals(kind);
    lemma_no_equals(name);
    text::first_cut_is_where_the_head_is_free(kind, name, '.');
    assert forall|c: char| c == '/' || c == '"' implies !#[trigger] key.contains(c) by {
        if key.contains(c) {
            let k = choose|k: int| 0 <= k < key.len() && key[k] == c;
            if k < kind.len() {
                assert(kind[k] == c);
                assert(kind.contains(c));
            } else if k > kind.len() {
                assert(name[k - kind.len() - 1] == c);
                assert(name.contains(c));
            }
        }
    }
}

/// Words that are a key, `=` and a value each are read as these pairs.
proof fn lemma_pairs(ws: Seq<Seq<char>>, list: Seq<(Seq<char>, Seq<char>)>)
    requires
        ws.len() == list.len(),
        forall|i: int|
            0 <= i < ws.len() ==> {
                &&& #[trigger] ws[i] == list[i].0 + seq!['='] + list[i].1
                &&& !list[i].0.contains('=')
                &&& list[i].1.len() > 0
            },
    ensures
        property::pairs(ws) == Some(list),
    decreases ws.len(),
{
    if ws.len() == 0 {
        assert(list =~= Seq::<(Seq<char>, Seq<char>)>::empty());
    } else {
        let rest = ws.skip(1);
        let tail = list.skip(1);
        assert(ws[0] == list[0].0 + seq!['='] + list[0].1);
        text::first_cut_is_where_the_head_is_free(list[0].0, list[0].1, '=');
        assert forall|i: int| 0 <= i < rest.len() implies {
            &&& #[trigger] rest[i] == tail[i].0 + seq!['='] + tail[i].1
            &&& !tail[i].0.contains('=')
            &&& tail[i].1.len() > 0
        } by {
            assert(rest[i] == ws[i + 1]);
            assert(tail[i] == list[i + 1]);
        }
        lemma_pairs(rest, tail);
        assert(seq![list[0]] + tail =~= list);
    }
}

/// The last `header.d` among the pairs is what the entry states.
proof fn lemma_header_d(e: Entry, n: nat)
    requires
        is_entry(e),
        n <= e.properties.len(),
    ensures
        ({
            let list = pairs_of(e).drop_first().take(n as int);
            let cut = Entry { properties: e.properties.take(n as int), ..e };
            states_domain(cut, dkim::header_d(list))
        }),
    decreases n,
{
    let all = pairs_of(e).drop_first();
    let list = all.take(n as int);
    let cut = Entry { properties: e.properties.take(n as int), ..e };
    if n > 0 {
        let m = (n - 1) as nat;
        lemma_header_d(e, m);
        let p = e.properties[m as int];
        assert(is_stated(p));
        assert(list.drop_last() =~= all.take(m as int));
        assert(list.last() == (p.kind + seq!['.'] + p.name, p.value));
        let shorter = Entry { properties: e.properties.take(m as int), ..e };
        lemma_key_is_header_d(p.kind, p.name);
        lemma_bare(p.value);
        assert(cut.properties[m as int] == p);
        if text::lower(p.kind) == "header"@ && text::lower(p.name) == "d"@ {
            assert(dkim::header_d(list) == Some(p.value));
        } else {
            match dkim::header_d(list) {
                Some(value) => {
                    let k = choose|k: int|
                        {
                            &&& 0 <= k < shorter.properties.len()
                            &&& text::lower((#[trigger] shorter.properties[k]).kind) == "header"@
                            &&& text::lower(shorter.properties[k].name) == "d"@
                            &&& shorter.properties[k].value == value
                            &&& forall|j: int|
                                k < j < shorter.properties.len() ==> !(text::lower(
                                    (#[trigger] shorter.properties[j]).kind,
                                ) == "header"@ && text::lower(shorter.properties[j].name) == "d"@)
                        };
                    assert(cut.properties[k] == shorter.properties[k]);
                    assert forall|j: int| k < j < cut.properties.len() implies !(text::lower(
                        (#[trigger] cut.properties[j]).kind,
                    ) == "header"@ && text::lower(cut.properties[j].name) == "d"@) by {
                        if j < m {
                            assert(cut.properties[j] == shorter.properties[j]);
                        }
                    }
                },
                None => {
                    assert forall|j: int| 0 <= j < cut.properties.len() implies !(text::lower(
                        (#[trigger] cut.properties[j]).kind,
                    ) == "header"@ && text::lower(cut.properties[j].name) == "d"@) by {
                        if j < m {
                            assert(cut.properties[j] == shorter.properties[j]);
                        }
                    }
                },
            }
        }
    }
}

/// A value without whitespace and quotes is taken as it is.
proof fn lemma_bare(v: Seq<char>)
    requires
        is_word(v),
    ensures
        text::trimmed(v) == v,
        dkim::unquoted(v) == v,
{
    assert(is_word_char(v[0]) && is_word_char(v[v.len() - 1]));
    text::bare_text_is_not_stripped(v, CharClass::White);
}

/// When the key of a property is that of the signing domain.
proof fn lemma_key_is_header_d(kind: Seq<char>, name: Seq<char>)
    requires
        is_keyword(kind),
        is_keyword(name),
    ensures
        text::eq_ignore_case(text::trimmed(kind + seq!['.'] + name), "header.d"@) <==> text::lower(
            kind,
        ) == "header"@ && text::lower(name) == "d"@,
{
    let key = kind + seq!['.'] + name;
    assert(is_word_char(kind[0]) && is_word_char(name[name.len() - 1]));
    assert(key[0] == kind[0] && key.last() == name.last());
    text::bare_text_is_not_stripped(key, CharClass::White);
    reveal_strlit("header.d");
    reveal_strlit("header");
    reveal_strlit("d");
    assert(text::lower("header.d"@) =~= "header.d"@);
    assert("header.d"@ =~= "header"@ + seq!['.'] + "d"@);
    text::small_letters_stand_for_capitals(kind);
    text::small_letters_stand_for_capitals(name);
    text::small_letters_stand_for_capitals(key);
    let a = text::lower(kind);
    let b = text::lower(name);
    assert(text::lower(key) =~= a + seq!['.'] + b);
    assert(!a.contains('.')) by {
        if a.contains('.') {
            let k = choose|k: int| 0 <= k < a.len() && a[k] == '.';
            assert(kind[k] == '.');
        }
    }
    assert(!"header"@.contains('.'));
    text::first_cut_is_where_the_head_is_free(a, b, '.');
    text::first_cut_is_where_the_head_is_free("header"@, "d"@, '.');
}

/// A written entry is read as it was written.
proof fn lemma_entry(e: Entry)
    requires
        is_entry(e),
    ensures
        ({
            let r = dkim::entry_result(written_entry(e), true);
            &&& r is Some
            &&& (r->0).method == e.method
            &&& (r->0).result == e.result
            &&& states_domain(e, (r->0).header_d)
        }),
{
    let ws = written_words(e);
    let body = text::join(ws, ' ');
    let s = written_entry(e);
    lemma_written_words(e);
    lemma_words(ws, true);
    lemma_body(ws);
    assert(is_token(ws[0]) && is_token(ws[ws.len() - 1]));
    assert(text::is_white(' '));
    assert(s.drop_first() =~= body);
    assert(text::strip_start(s, CharClass::White) == text::strip_start(body, CharClass::White));
    text::bare_text_is_not_stripped(body, CharClass::White);
    assert(text::strip_start(body, CharClass::White) == body);
    assert(text::trimmed(s) == body);
    assert(ws.drop_last().push(ws.last()) =~= ws);
    assert(scan::tokens(body, true) == ws);
    // It is not the word `none`.
    let at = e.method.len() as int;
    assert(ws[0][at] == '=');
    assert(body[at] == '=');
    reveal_strlit("none");
    text::small_letters_stand_for_capitals(body);
    text::small_letters_stand_for_capitals("none"@);
    assert(text::lower(body)[at] == '=');
    if text::eq_ignore_case(body, "none"@) {
        assert(text::lower("none"@)[at] == '=');
        assert("none"@[at] == '=');
    }
    lemma_method_key(e.method);
    lemma_bare(e.result);
    let all = pairs_of(e).drop_first();
    lemma_header_d(e, e.properties.len());
    assert(all.take(e.properties.len() as int) =~= all);
    assert(e.properties.take(e.properties.len() as int) =~= e.properties);
    assert(pairs_of(e)[0] == (e.method, e.result));
}

/// How words with spaces between them begin and end.
proof fn lemma_body(ws: Seq<Seq<char>>)
    requires
        ws.len() > 0,
        forall|i: int| 0 <= i < ws.len() ==> is_token(#[trigger] ws[i]),
    ensures
        ({
            let s = text::join(ws, ' ');
            &&& s.len() >= ws[0].len()
            &&& forall|k: int| 0 <= k < ws[0].len() ==> #[trigger] s[k] == ws[0][k]
            &&& s.last() == ws.last().last()
            &&& forall|k: int|
                0 <= k < s.len() ==> #[trigger] s[k] != ';' && s[k] != '"' && s[k] != '(' && s[k]
                    != '\r' && s[k] != '\n' && s[k] != '\t'
        }),
    decreases ws.len(),
{
    let w = ws.last();
    assert(is_token(ws[ws.len() - 1]));
    assert(text::is_white('\r') && text::is_white('\n') && text::is_white('\t'));
    if ws.len() > 1 {
        let init = ws.drop_last();
        assert forall|i: int| 0 <= i < init.len() implies is_token(#[trigger] init[i]) by {
            assert(init[i] == ws[i]);
        }
        lemma_body(init);
        let head = text::join(init, ' ').push(' ');
        let s = head + w;
        assert forall|k: int| 0 <= k < s.len() implies #[trigger] s[k] != ';' && s[k] != '"' && s[k]
            != '(' && s[k] != '\r' && s[k] != '\n' && s[k] != '\t' by {
            if k < head.len() - 1 {
                assert(s[k] == text::join(init, ' ')[k]);
            } else if k >= head.len() {
                assert(s[k] == w[k - head.len()]);
            }
        }
        assert forall|k: int| 0 <= k < ws[0].len() implies #[trigger] s[k] == ws[0][k] by {
            assert(s[k] == text::join(init, ' ')[k]);
        }
    }
}

/// The characters of a written header.
proof fn lemma_header_chars(ps: Seq<Seq<char>>)
    requires
        ps.len() > 0,
        forall|i: int, k: int|
            #![trigger ps[i][k]]
            0 <= i < ps.len() && 0 <= k < ps[i].len() ==> ps[i][k] != '"' && ps[i][k] != '('
                && ps[i][k] != '\r' && ps[i][k] != '\n' && ps[i][k] != '\t',
    ensures
        ({
            let s = text::join(ps, ';');
            forall|k: int|
                0 <= k < s.len() ==> #[trigger] s[k] != '"' && s[k] != '(' && s[k] != '\r' && s[k]
                    != '\n' && s[k] != '\t'
        }),
    decreases ps.len(),
{
    let p = ps.last();
    let s = text::join(ps, ';');
    if ps.len() > 1 {
        let init = ps.drop_last();
        assert forall|i: int, k: int|
            #![trigger init[i][k]]
            0 <= i < init.len() && 0 <= k < init[i].len() implies init[i][k] != '"' && init[i][k]
            != '(' && init[i][k] != '\r' && init[i][k] != '\n' && init[i][k] != '\t' by {
            assert(init[i][k] == ps[i][k]);
        }
        lemma_header_chars(init);
        let head = text::join(init, ';').push(';');
        assert forall|k: int| 0 <= k < s.len() implies #[trigger] s[k] != '"' && s[k] != '(' && s[k]
            != '\r' && s[k] != '\n' && s[k] != '\t' by {
            if k < head.len() - 1 {
                assert(s[k] == text::join(init, ';')[k]);
            } else if k >= head.len() {
                assert(s[k] == ps[ps.len() - 1][k - head.len()]);
            }
        }
    } else {
        assert forall|k: int| 0 <= k < s.len() implies #[trigger] s[k] != '"' && s[k] != '(' && s[k]
            != '\r' && s[k] != '\n' && s[k] != '\t' by {
            assert(s[k] == ps[0][k]);
        }
    }
}

/// A header on one line stays as it is.
pub proof fn line_without_breaks_is_not_unfolded(s: Seq<char>)
    requires
        forall|k: int|
            0 <= k < s.len() ==> #[trigger] s[k] != '\r' && s[k] != '\n' && s[k] != '\t',
    ensures
        dkim::unfolded(s) == s,
    decreases s.len(),
{
    if s.len() > 0 {
        let init = s.drop_last();
        assert forall|k: int| 0 <= k < init.len() implies #[trigger] init[k] != '\r' && init[k]
            != '\n' && init[k] != '\t' by {
            assert(init[k] == s[k]);
        }
        line_without_breaks_is_not_unfolded(init);
        assert(s[s.len() - 1] == s.last());
        assert(init.push(s.last()) =~= s);
    }
}

/// The entries of a list of written ones.
proof fn lemma_entries(entries: Seq<Entry>)
    requires
        forall|i: int| 0 <= i < entries.len() ==> is_entry(#[trigger] entries[i]),
    ensures
        ({
            let list = dkim::entry_results(
                entries.map_values(|e: Entry| written_entry(e)),
                true,
            );
            &&& list.len() == entries.len()
            &&& forall|i: int|
                0 <= i < entries.len() ==> {
                    &&& (#[trigger] list[i]).method == entries[i].method
                    &&& list[i].result == entries[i].result
                    &&& states_domain(entries[i], list[i].header_d)
                }
        }),
    decreases entries.len(),
{
    if entries.len() > 0 {
        let init = entries.drop_last();
        assert forall|i: int| 0 <= i < init.len() implies is_entry(#[trigger] init[i]) by {
            assert(init[i] == entries[i]);
        }
        lemma_entries(init);
        assert(is_entry(entries[entries.len() - 1]));
        lemma_entry(entries.last());
        let texts = entries.map_values(|e: Entry| written_entry(e));
        assert(texts.drop_last() =~= init.map_values(|e: Entry| written_entry(e)));
        assert(texts.last() == written_entry(entries.last()));
        let list = dkim::entry_results(texts, true);
        let before = dkim::entry_results(texts.drop_last(), true);
        assert forall|i: int| 0 <= i < entries.len() implies {
            &&& (#[trigger] list[i]).method == entries[i].method
            &&& list[i].result == entries[i].result
            &&& states_domain(entries[i], list[i].header_d)
        } by {
            if i < init.len() {
                assert(list[i] == before[i]);
                assert(init[i] == entries[i]);
            }
        }
    }
}

/// A header that is written out plainly is read as it was written: its
/// `authserv-id`, and for each entry the method, the result, and the value of the
/// last property `header.d`.
pub proof fn written_header_is_read_back(id: Seq<char>, entries: Seq<Entry>)
    requires
        is_word(id),
        forall|i: int| 0 <= i < entries.len() ==> is_entry(#[trigger] entries[i]),
    ensures
        ({
            let r = dkim::authres(written_header(id, entries));
            &&& r is Some
            &&& (r->0).0 == id
            &&& (r->0).1.len() == entries.len()
            &&& forall|i: int|
                0 <= i < entries.len() ==> {
                    &&& (#[trigger] (r->0).1[i]).method == entries[i].method
                    &&& (r->0).1[i].result == entries[i].result
                    &&& states_domain(entries[i], (r->0).1[i].header_d)
                }
        }),
{
    let texts = entries.map_values(|e: Entry| written_entry(e));
    let ps = seq![id] + texts;
    let line = written_header(id, entries);
    assert(text::is_white('\r') && text::is_white('\n') && text::is_white('\t'));
    assert forall|i: int, k: int|
        #![trigger ps[i][k]]
        0 <= i < ps.len() && 0 <= k < ps[i].len() implies ps[i][k] != '"' && ps[i][k] != '('
        && ps[i][k] != '\r' && ps[i][k] != '\n' && ps[i][k] != '\t' && ps[i][k] != ';' by {
        if i == 0 {
            assert(is_word_char(id[k]));
        } else {
            let e = entries[i - 1];
            assert(is_entry(e));
            lemma_written_words(e);
            lemma_body(written_words(e));
            let body = text::join(written_words(e), ' ');
            assert(ps[i] == seq![' '] + body);
            if k > 0 {
                assert(ps[i][k] == body[k - 1]);
            }
        }
    }
    assert forall|i: int| 0 <= i < ps.len() implies !(#[trigger] ps[i]).contains(';') by {
        if ps[i].contains(';') {
            let k = choose|k: int| 0 <= k < ps[i].len() && ps[i][k] == ';';
            assert(ps[i][k] == ';');
        }
    }
    lemma_header_chars(ps);
    line_without_breaks_is_not_unfolded(line);
    text::split_undoes_join(ps, ';');
    assert(!line.contains('"') && !line.contains('('));
    scan::plain_header_is_cut_at_every_semicolon(line);
    assert(ps.drop_first() =~= texts);
    lemma_entries(entries);
    // The id.
    let semi = CharClass::Only(';');
    let n = id.len() as int;
    if texts.len() > 0 {
        text::join_of_two_lists(seq![id], texts, ';');
    } else {
        assert(ps =~= seq![id]);
    }
    assert(line.take(n) =~= id);
    text::part_before_holds_none_of_the_class(line, semi);
    let c = text::before(line, semi).len() as int;
    if c < n {
        assert(id[c] == line[c]);
        assert(is_word_char(id[c]));
    }
    if c > n {
        assert(semi.has(line[n]));
    }
    assert(text::before(line, semi) =~= id);
    lemma_bare(id);
    let white = CharClass::AsciiWhite;
    assert forall|k: int| 0 <= k < id.len() implies !white.has(#[trigger] id[k]) by {
        assert(is_word_char(id[k]));
        assert(text::is_white(' '));
    }
    assert(text::strip_start(id, white) == id);
    text::part_before_holds_none_of_the_class(id, white);
    assert(text::before(id, white) =~= id);
}

/// A stretch of line breaks becomes one space, unless a space stands before it, and
/// a tab becomes a space; anything else stays.
pub proof fn line_breaks_and_tabs_become_spaces(a: Seq<char>, breaks: Seq<char>, b: Seq<char>)
    requires
        breaks.len() > 0,
        forall|k: int| 0 <= k < breaks.len() ==> #[trigger] breaks[k] == '\r' || breaks[k] == '\n',
        forall|k: int|
            0 <= k < b.len() ==> #[trigger] b[k] != '\r' && b[k] != '\n' && b[k] != '\t',
    ensures
        ({
            let u = dkim::unfolded(a);
            let spaced = if u.len() > 0 && u.last() == ' ' {
                u
            } else {
                u.push(' ')
            };
            &&& dkim::unfolded(a + breaks + b) == spaced + b
            &&& dkim::unfolded(a + seq!['\t'] + b) == u.push(' ') + b
            &&& dkim::unfolded(a + b) == u + b
        }),
{
    let u = dkim::unfolded(a);
    lemma_breaks(a, breaks);
    lemma_unbroken(a + breaks, b);
    assert((a + seq!['\t']).drop_last() =~= a);
    lemma_unbroken(a + seq!['\t'], b);
    lemma_unbroken(a, b);
}

proof fn lemma_breaks(a: Seq<char>, breaks: Seq<char>)
    requires
        breaks.len() > 0,
        forall|k: int| 0 <= k < breaks.len() ==> #[trigger] breaks[k] == '\r' || breaks[k] == '\n',
    ensures
        ({
            let u = dkim::unfolded(a);
            dkim::unfolded(a + breaks) == if u.len() > 0 && u.last() == ' ' {
                u
            } else {
                u.push(' ')
            }
        }),
    decreases breaks.len(),
{
    let init = breaks.drop_last();
    assert((a + breaks).drop_last() =~= a + init);
    assert(breaks[breaks.len() - 1] == breaks.last());
    if init.len() > 0 {
        assert forall|k: int| 0 <= k < init.len() implies #[trigger] init[k] == '\r' || init[k]
            == '\n' by {
            assert(init[k] == breaks[k]);
        }
        lemma_breaks(a, init);
    } else {
        assert(a + init =~= a);
    }
}

proof fn lemma_unbroken(a: Seq<char>, b: Seq<char>)
    requires
        forall|k: int|
            0 <= k < b.len() ==> #[trigger] b[k] != '\r' && b[k] != '\n' && b[k] != '\t',
    ensures
        dkim::unfolded(a + b) == dkim::unfolded(a) + b,
    decreases b.len(),
{
    let u = dkim::unfolded(a);
    if b.len() == 0 {
        assert(a + b =~= a);
        assert(u + b =~= u);
    } else {
        let init = b.drop_last();
        assert forall|k: int| 0 <= k < init.len() implies #[trigger] init[k] != '\r' && init[k]
            != '\n' && init[k] != '\t' by {
            assert(init[k] == b[k]);
        }
        lemma_unbroken(a, init);
        assert((a + b).drop_last() =~= a + init);
        assert(b[b.len() - 1] == b.last());
        assert(u + b =~= (u + init).push(b.last()));
    }
}

/// Of the signing domain, an entry states one at most.
proof fn lemma_one_domain(e: Entry, a: Option<Seq<char>>, b: Option<Seq<char>>)
    requires
        states_domain(e, a),
        states_domain(e, b),
    ensures
        a == b,
{
}

/// What a plainly written entry with the method `dkim` and the result `pass` states
/// as the signing domain is verified, if the header that holds it bears a trusted
/// name.
pub proof fn written_signature_is_verified(
    headers: Seq<String>,
    i: int,
    trusted: Seq<String>,
    t: int,
    id: Seq<char>,
    entries: Seq<Entry>,
    k: int,
    d: Seq<char>,
)
    requires
        0 <= i < headers.len(),
        headers[i]@ == written_header(id, entries),
        is_word(id),
        forall|j: int| 0 <= j < entries.len() ==> is_entry(#[trigger] entries[j]),
        0 <= t < trusted.len(),
        text::lower(id) == text::lower(trusted[t]@),
        0 <= k < entries.len(),
        text::lower(entries[k].method) == "dkim"@,
        text::lower(entries[k].result) == "pass"@,
        states_domain(entries[k], Some(d)),
    ensures
        dkim::verified_domains(headers, trusted).contains(text::lower(d)),
{
    written_header_is_read_back(id, entries);
    let methods = (dkim::authres(headers[i]@)->0).1;
    let m = methods[k];
    lemma_one_domain(entries[k], Some(d), m.header_d);
    dkim::trusted_id_is_a_trusted_name_or_below_one(trusted, id);
    let p = choose|p: int|
        {
            &&& 0 <= p < entries[k].properties.len()
            &&& text::lower((#[trigger] entries[k].properties[p]).kind) == "header"@
            &&& text::lower(entries[k].properties[p].name) == "d"@
            &&& entries[k].properties[p].value == d
            &&& forall|j: int|
                p < j < entries[k].properties.len() ==> !(text::lower(
                    (#[trigger] entries[k].properties[j]).kind,
                ) == "header"@ && text::lower(entries[k].properties[j].name) == "d"@)
        };
    assert(is_entry(entries[k]));
    assert(is_stated(entries[k].properties[p]));
    assert(is_word_char(d[0]) && is_word_char(d[d.len() - 1]));
    text::bare_text_is_not_stripped(d, CharClass::White);
    text::bare_text_is_not_stripped(d, CharClass::Only('"'));
    dkim::passing_entry_of_a_trusted_header_is_verified(headers, trusted, i, k);
}

/// A plainly written header without an entry that has the method `dkim` and the
/// result `pass` adds no verified domain, whoever wrote it.
pub proof fn header_without_a_passing_signature_adds_nothing(
    a: Seq<String>,
    h: String,
    b: Seq<String>,
    trusted: Seq<String>,
    id: Seq<char>,
    entries: Seq<Entry>,
)
    requires
        h@ == written_header(id, entries),
        is_word(id),
        forall|j: int| 0 <= j < entries.len() ==> is_entry(#[trigger] entries[j]),
        forall|j: int|
            0 <= j < entries.len() ==> !(text::lower((#[trigger] entries[j]).method) == "dkim"@
                && text::lower(entries[j].result) == "pass"@),
    ensures
        dkim::verified_domains(a.push(h) + b, trusted) == dkim::verified_domains(a + b, trusted),
{
    written_header_is_read_back(id, entries);
    let methods = (dkim::authres(h@)->0).1;
    assert forall|j: int| 0 <= j < methods.len() implies !(text::lower(
        (#[trigger] methods[j]).method,
    ) == "dkim"@ && text::lower(methods[j].result) == "pass"@) by {
        assert(methods[j].method == entries[j].method);
    }
    lemma_nothing_passes(methods);
    let none = Seq::<dkim::MethodText>::empty();
    dkim::verified_domains_stand_in_order(a.push(h), b, h, none, none, trusted);
    dkim::verified_domains_stand_in_order(a, seq![h], h, none, none, trusted);
    dkim::verified_domains_stand_in_order(a, b, h, none, none, trusted);
    assert(a + seq![h] =~= a.push(h));
    let domains = dkim::verified_domains(seq![h], trusted);
    if !dkim::trusted_by_any(trusted, id) {
        dkim::untrusted_header_is_ignored(Seq::empty(), h, Seq::empty(), trusted);
        assert(Seq::<String>::empty().push(h) + Seq::<String>::empty() =~= seq![h]);
        assert(Seq::<String>::empty() + Seq::<String>::empty() =~= Seq::<String>::empty());
    }
    assert(domains =~= Seq::<Seq<char>>::empty());
    assert(dkim::verified_domains(a, trusted) + domains =~= dkim::verified_domains(a, trusted));
}

proof fn lemma_nothing_passes(methods: Seq<dkim::MethodText>)
    requires
        forall|j: int|
            0 <= j < methods.len() ==> !(text::lower((#[trigger] methods[j]).method) == "dkim"@
                && text::lower(methods[j].result) == "pass"@),
    ensures
        dkim::passing_domains(methods) == Seq::<Seq<char>>::empty(),
    decreases methods.len(),
{
    if methods.len() > 0 {
        let init = methods.drop_last();
        let last = methods[methods.len() - 1];
        assert forall|j: int| 0 <= j < init.len() implies !(text::lower(
            (#[trigger] init[j]).method,
        ) == "dkim"@ && text::lower(init[j].result) == "pass"@) by {
            assert(init[j] == methods[j]);
        }
        lemma_nothing_passes(init);
        let none = Seq::<dkim::MethodText>::empty();
        dkim::other_entries_add_no_domain(init, last, none);
        assert(init.push(last) + none =~= methods);
        assert(init + none =~= init);
    }
}

/// In an entry with a word that belongs to no property, the method, the result and
/// the properties are still read.
pub proof fn stray_word_is_passed_over(
    method: Seq<char>,
    result: Seq<char>,
    stray: Seq<char>,
    p: Stated,
    escapes: bool,
)
    requires
        is_keyword(method),
        is_word(result),
        is_keyword(stray),
        is_stated(p),
    ensures
        ({
            let ws = seq![method + seq!['='] + result, stray, written_property(p)];
            let r = dkim::entry_result(text::join(ws, ' '), escapes);
            &&& r is Some
            &&& (r->0).method == method
            &&& (r->0).result == result
            &&& (r->0).header_d == if text::lower(p.kind) == "header"@ && text::lower(p.name)
                == "d"@ {
                Some(p.value)
            } else {
                None
            }
        }),
{
    let e = Entry { method, result, properties: seq![p] };
    assert(is_entry(e));
    lemma_written_words(e);
    let first = method + seq!['='] + result;
    let third = written_property(p);
    assert(written_words(e)[0] == first && written_words(e)[1] == third);
    let ws = seq![first, stray, third];
    assert(is_token(stray)) by {
        assert forall|k: int| 0 <= k < stray.len() implies is_word_char(#[trigger] stray[k]) by {}
    }
    assert forall|i: int| 0 <= i < ws.len() implies is_token(#[trigger] ws[i]) by {
        assert(is_token(written_words(e)[0]) && is_token(written_words(e)[1]));
    }
    let body = text::join(ws, ' ');
    lemma_words(ws, escapes);
    lemma_body(ws);
    text::bare_text_is_not_stripped(body, CharClass::White);
    assert(ws.drop_last().push(ws.last()) =~= ws);
    assert(scan::tokens(body, escapes) == ws);
    let at = method.len() as int;
    assert(ws[0][at] == '=');
    assert(body[at] == '=');
    reveal_strlit("none");
    text::small_letters_stand_for_capitals(body);
    text::small_letters_stand_for_capitals("none"@);
    assert(text::lower(body)[at] == '=');
    if text::eq_ignore_case(body, "none"@) {
        assert(text::lower("none"@)[at] == '=');
        assert("none"@[at] == '=');
    }
    lemma_no_equals(method);
    lemma_no_equals(stray);
    assert(is_word_char(p.kind[0]));
    assert(!p.kind.contains('.') && !p.kind.contains('/'));
    assert(p.kind.contains(p.kind[0]));
    assert(third[0] == p.kind[0]);
    assert(!stray.contains('.') && !stray.contains('/'));
    assert(stray.contains(stray.last()));
    property::stray_word_is_no_property(method, result, stray, third, Seq::empty());
    assert(ws + Seq::<Seq<char>>::empty() =~= ws);
    text::first_cut_is_where_the_head_is_free(method, result, '=');
    lemma_bare(method);
    lemma_bare(result);
    lemma_bare(p.value);
    let key = p.kind + seq!['.'] + p.name;
    assert(!key.contains('=')) by {
        lemma_no_equals(p.kind);
        lemma_no_equals(p.name);
        if key.contains('=') {
            let k = choose|k: int| 0 <= k < key.len() && key[k] == '=';
            if k < p.kind.len() {
                assert(p.kind[k] == '=');
            } else {
                assert(p.name[k - p.kind.len() - 1] == '=');
            }
        }
    }
    property::single_properties_stand_in_order(seq![stray], seq![third], key, p.value, stray);
    assert(ws.drop_first() =~= seq![stray] + seq![third]);
    let list = property::single(ws.drop_first());
    assert(list =~= seq![(key, p.value)]);
    lemma_key_is_header_d(p.kind, p.name);
    assert(list.drop_last().len() == 0);
    assert(dkim::header_d(list.drop_last()) is None);
}

} // verus!
