//! Folding a header does not change what it says.
use crate::dkim::scan::{self, Mode};
use crate::dkim;
use crate::text::{self, CharClass};
use vstd::prelude::*;

verus! {

/// What folding makes of a space.
pub enum Fold {
    /// It stays.
    Keep,
    /// The line is broken there, and the next one begins with a space.
    Space,
    /// The line is broken there, and the next one begins with a tab.
    Tab,
}

/// The header `raw`, folded at some of its spaces: `how` says for each character
/// what becomes of it if it is a space.
pub open spec fn folded(raw: Seq<char>, how: Seq<Fold>) -> Seq<char>
    decreases raw.len(),
{
    if raw.len() == 0 {
        Seq::empty()
    } else {
        let before = folded(raw.drop_last(), how.drop_last());
        if raw.last() == ' ' {
            match how.last() {
                Fold::Keep => before.push(' '),
                Fold::Space => before.push('\r').push('\n').push(' '),
                Fold::Tab => before.push('\r').push('\n').push('\t'),
            }
        } else {
            before.push(raw.last())
        }
    }
}

/// `s` with each run of spaces made into one space.
spec fn squeezed(s: Seq<char>) -> Seq<char>
    decreases s.len(),
{
    if s.len() == 0 {
        s
    } else {
        let before = squeezed(s.drop_last());
        if s.last() == ' ' && before.len() > 0 && before.last() == ' ' {
            before
        } else {
            before.push(s.last())
        }
    }
}

/// Squeezing keeps both ends.
proof fn lemma_ends(s: Seq<char>)
    ensures
        squeezed(s).len() == 0 <==> s.len() == 0,
        s.len() > 0 ==> squeezed(s)[0] == s[0] && squeezed(s).last() == s.last(),
    decreases s.len(),
{
    if s.len() > 0 {
        lemma_ends(s.drop_last());
    }
}

/// What one more character does to the squeezed text.
proof fn lemma_pushed(s: Seq<char>, c: char)
    ensures
        squeezed(s.push(c)) == if c == ' ' && s.len() > 0 && s.last() == ' ' {
            squeezed(s)
        } else {
            squeezed(s).push(c)
        },
{
    lemma_ends(s);
    assert(s.push(c).drop_last() =~= s);
}

/// What the first character does to the squeezed text.
proof fn lemma_first(s: Seq<char>)
    requires
        s.len() > 0,
    ensures
        ({
            let rest = s.drop_first();
            squeezed(s) == if s[0] == ' ' && rest.len() > 0 && rest[0] == ' ' {
                squeezed(rest)
            } else {
                seq![s[0]] + squeezed(rest)
            }
        }),
    decreases s.len(),
{
    let rest = s.drop_first();
    if rest.len() == 0 {
        assert(s.drop_last() =~= Seq::<char>::empty());
        assert(squeezed(s.drop_last()) =~= Seq::<char>::empty());
        assert(squeezed(s) =~= seq![s[0]] + squeezed(rest));
    } else {
        let init = s.drop_last();
        lemma_first(init);
        assert(init.drop_first() =~= rest.drop_last());
        assert(init.push(s.last()) =~= s);
        assert(rest.drop_last().push(s.last()) =~= rest);
        lemma_pushed(init, s.last());
        lemma_pushed(rest.drop_last(), s.last());
        if rest.len() == 1 {
            assert(squeezed(rest.drop_last()) =~= Seq::<char>::empty());
            assert(init =~= seq![s[0]]);
            assert(squeezed(init) =~= seq![s[0]]);
            assert(squeezed(rest) =~= seq![rest[0]]);
            if s[0] == ' ' && rest[0] == ' ' {
                assert(squeezed(s) =~= squeezed(rest));
            } else {
                assert(squeezed(s) =~= seq![s[0]] + squeezed(rest));
            }
        } else {
            assert(init.drop_first()[0] == rest[0]);
            if !(s[0] == ' ' && rest[0] == ' ') {
                assert(squeezed(s) =~= seq![s[0]] + squeezed(rest));
            }
        }
    }
}

/// Folding only lengthens runs of spaces.
proof fn lemma_unfolded(raw: Seq<char>, how: Seq<Fold>)
    requires
        how.len() == raw.len(),
    ensures
        squeezed(dkim::unfolded(folded(raw, how))) == squeezed(dkim::unfolded(raw)),
    decreases raw.len(),
{
    if raw.len() > 0 {
        let before = folded(raw.drop_last(), how.drop_last());
        lemma_unfolded(raw.drop_last(), how.drop_last());
        let a = dkim::unfolded(before);
        let b = dkim::unfolded(raw.drop_last());
        lemma_ends(a);
        lemma_ends(b);
        let c = raw.last();
        lemma_pushed(a, c);
        lemma_pushed(b, c);
        lemma_pushed(a, ' ');
        lemma_pushed(b, ' ');
        assert(before.push(c).drop_last() =~= before);
        let one = before.push('\r');
        let two = one.push('\n');
        assert(one.drop_last() =~= before);
        assert(two.drop_last() =~= one);
        let spaced = if a.len() > 0 && a.last() == ' ' {
            a
        } else {
            a.push(' ')
        };
        assert(dkim::unfolded(one) == spaced);
        assert(dkim::unfolded(two) == spaced);
        lemma_pushed(spaced, ' ');
        assert(two.push(' ').drop_last() =~= two);
        assert(two.push('\t').drop_last() =~= two);
    }
}

/// Spaces after a space do not change the mode.
proof fn lemma_mode(s: Seq<char>, escapes: bool)
    ensures
        scan::mode_after(squeezed(s), escapes) == scan::mode_after(s, escapes),
        s.len() > 0 && s.last() == ' ' ==> !(scan::mode_after(s, escapes) is QuotedPair)
            && !(scan::mode_after(s, escapes) is CommentPair),
    decreases s.len(),
{
    if s.len() > 0 {
        let init = s.drop_last();
        lemma_mode(init, escapes);
        lemma_ends(init);
        assert(squeezed(init).push(s.last()).drop_last() =~= squeezed(init));
    }
}

/// The end of the last piece.
proof fn lemma_last_piece(s: Seq<char>)
    ensures
        scan::pieces(s).len() > 0,
        s.len() == 0 ==> scan::pieces(s).last().len() == 0,
        s.len() > 0 ==> (scan::pieces(s).last().len() == 0 && s.last() == ';') || (scan::pieces(
            s,
        ).last().len() > 0 && scan::pieces(s).last().last() == s.last()),
    decreases s.len(),
{
    if s.len() > 0 {
        lemma_last_piece(s.drop_last());
    }
}

/// The texts of a list, squeezed.
spec fn all_squeezed(list: Seq<Seq<char>>) -> Seq<Seq<char>> {
    list.map_values(|p: Seq<char>| squeezed(p))
}

/// The pieces of the squeezed text are the squeezed pieces.
proof fn lemma_pieces(s: Seq<char>)
    ensures
        scan::pieces(squeezed(s)) == all_squeezed(scan::pieces(s)),
    decreases s.len(),
{
    if s.len() == 0 {
        assert(squeezed(s) =~= s);
        assert(squeezed(Seq::<char>::empty()) =~= Seq::<char>::empty());
        assert(scan::pieces(s) =~= seq![Seq::<char>::empty()]);
        assert(scan::pieces(squeezed(s)) =~= all_squeezed(scan::pieces(s)));
    } else {
        let init = s.drop_last();
        let c = s.last();
        lemma_pieces(init);
        lemma_mode(init, true);
        lemma_ends(init);
        lemma_last_piece(init);
        let ps = scan::pieces(init);
        let last = ps.last();
        lemma_pushed(last, c);
        assert(squeezed(init).push(c).drop_last() =~= squeezed(init));
        assert(all_squeezed(ps).last() == squeezed(last));
        assert(squeezed(Seq::<char>::empty()) =~= Seq::<char>::empty());
        if c == ';' && scan::mode_after(init, true) == Mode::Plain {
            assert(all_squeezed(ps.push(Seq::empty())) =~= all_squeezed(ps).push(Seq::empty()));
        } else {
            assert(all_squeezed(ps.drop_last().push(last.push(c))) =~= all_squeezed(
                ps,
            ).drop_last().push(squeezed(last.push(c))));
            if c == ' ' && init.len() > 0 && init.last() == ' ' {
                assert(all_squeezed(ps).drop_last().push(squeezed(last)) =~= all_squeezed(ps));
            }
        }
    }
}

/// The end of the last piece, if every semicolon ends one.
proof fn lemma_last_of_split(s: Seq<char>)
    ensures
        text::split(s, ';').len() > 0,
        s.len() == 0 ==> text::split(s, ';').last().len() == 0,
        s.len() > 0 ==> (text::split(s, ';').last().len() == 0 && s.last() == ';') || (
        text::split(s, ';').last().len() > 0 && text::split(s, ';').last().last() == s.last()),
    decreases s.len(),
{
    if s.len() > 0 {
        lemma_last_of_split(s.drop_last());
    }
}

/// The same holds if every semicolon ends a piece.
proof fn lemma_split(s: Seq<char>)
    ensures
        text::split(squeezed(s), ';') == all_squeezed(text::split(s, ';')),
    decreases s.len(),
{
    if s.len() == 0 {
        assert(squeezed(s) =~= s);
        assert(squeezed(Seq::<char>::empty()) =~= Seq::<char>::empty());
        assert(text::split(s, ';') =~= seq![Seq::<char>::empty()]);
        assert(text::split(squeezed(s), ';') =~= all_squeezed(text::split(s, ';')));
    } else {
        let init = s.drop_last();
        let c = s.last();
        lemma_split(init);
        lemma_ends(init);
        lemma_last_of_split(init);
        let ps = text::split(init, ';');
        let last = ps.last();
        lemma_pushed(last, c);
        assert(squeezed(init).push(c).drop_last() =~= squeezed(init));
        assert(all_squeezed(ps).last() == squeezed(last));
        assert(squeezed(Seq::<char>::empty()) =~= Seq::<char>::empty());
        if c == ';' {
            assert(all_squeezed(ps.push(Seq::empty())) =~= all_squeezed(ps).push(Seq::empty()));
        } else {
            assert(all_squeezed(ps.drop_last().push(last.push(c))) =~= all_squeezed(
                ps,
            ).drop_last().push(squeezed(last.push(c))));
            if c == ' ' && init.len() > 0 && init.last() == ' ' {
                assert(all_squeezed(ps).drop_last().push(squeezed(last)) =~= all_squeezed(ps));
            }
        }
    }
}

/// Stripping does not care about how many spaces there are.
proof fn lemma_strip_start(s: Seq<char>, class: CharClass)
    requires
        class.has(' '),
    ensures
        text::strip_start(squeezed(s), class) == squeezed(text::strip_start(s, class)),
    decreases s.len(),
{
    lemma_ends(s);
    if s.len() > 0 && class.has(s[0]) {
        let rest = s.drop_first();
        lemma_first(s);
        lemma_strip_start(rest, class);
        assert((seq![s[0]] + squeezed(rest)).drop_first() =~= squeezed(rest));
    }
}

/// Stripping does not care about how many spaces there are.
proof fn lemma_strip_end(s: Seq<char>, class: CharClass)
    requires
        class.has(' '),
    ensures
        text::strip_end(squeezed(s), class) == squeezed(text::strip_end(s, class)),
    decreases s.len(),
{
    lemma_ends(s);
    if s.len() > 0 && class.has(s.last()) {
        let init = s.drop_last();
        lemma_strip_end(init, class);
        assert(squeezed(init).push(s.last()).drop_last() =~= squeezed(init));
    }
}

/// Trimming does not care about how many spaces there are.
proof fn lemma_trimmed(s: Seq<char>)
    ensures
        text::trimmed(squeezed(s)) == squeezed(text::trimmed(s)),
{
    assert(text::is_white(' '));
    lemma_strip_start(s, CharClass::White);
    lemma_strip_end(text::strip_start(s, CharClass::White), CharClass::White);
}

/// Nor does the stretch before the first whitespace.
proof fn lemma_before(s: Seq<char>, class: CharClass)
    requires
        class.has(' '),
    ensures
        text::before(squeezed(s), class) == text::before(s, class),
    decreases s.len(),
{
    lemma_ends(s);
    if s.len() > 0 && !class.has(s[0]) {
        let rest = s.drop_first();
        lemma_first(s);
        lemma_before(rest, class);
        assert((seq![s[0]] + squeezed(rest)).drop_first() =~= squeezed(rest));
    }
}

/// Nor does the first word.
proof fn lemma_first_word(s: Seq<char>, class: CharClass)
    requires
        class.has(' '),
    ensures
        text::first_word(squeezed(s), class) == text::first_word(s, class),
{
    lemma_strip_start(s, class);
    let rest = text::strip_start(s, class);
    lemma_ends(rest);
    lemma_before(rest, class);
}

/// What stands before the first semicolon of the squeezed text is squeezed.
proof fn lemma_head(s: Seq<char>)
    ensures
        text::before(squeezed(s), CharClass::Only(';')) == squeezed(
            text::before(s, CharClass::Only(';')),
        ),
    decreases s.len(),
{
    let semi = CharClass::Only(';');
    lemma_ends(s);
    if s.len() > 0 && s[0] != ';' {
        let rest = s.drop_first();
        let head = text::before(rest, semi);
        lemma_first(s);
        lemma_head(rest);
        lemma_ends(rest);
        lemma_ends(head);
        lemma_first(seq![s[0]] + head);
        assert((seq![s[0]] + head).drop_first() =~= head);
        assert((seq![s[0]] + squeezed(rest)).drop_first() =~= squeezed(rest));
        if rest.len() > 0 && rest[0] == ' ' {
            assert(head[0] == ' ');
        }
    } else {
        assert(squeezed(Seq::<char>::empty()) =~= Seq::<char>::empty());
    }
}

/// Outside quoted strings the words do not change either.
proof fn lemma_words(s: Seq<char>, escapes: bool)
    requires
        !s.contains('"'),
    ensures
        scan::mode_after(s, escapes) is Plain || scan::in_comment(scan::mode_after(s, escapes)),
        scan::last_run(scan::marks(squeezed(s), escapes)) == scan::last_run(
            scan::marks(s, escapes),
        ),
        scan::ended_words(scan::marks(squeezed(s), escapes)) == scan::ended_words(
            scan::marks(s, escapes),
        ),
        s.len() > 0 && s.last() == ' ' && scan::mode_after(s, escapes) == Mode::Plain
            ==> scan::last_run(scan::marks(s, escapes)).len() == 0,
    decreases s.len(),
{
    if s.len() > 0 {
        let init = s.drop_last();
        let c = s.last();
        assert(!init.contains('"')) by {
            if init.contains('"') {
                let k = choose|k: int| 0 <= k < init.len() && init[k] == '"';
                assert(s[k] == '"');
            }
        }
        assert(s[s.len() - 1] != '"');
        assert(text::is_white(' '));
        lemma_words(init, escapes);
        lemma_mode(init, escapes);
        lemma_ends(init);
        let mode = scan::mode_after(init, escapes);
        let a = scan::marks(squeezed(init), escapes);
        let b = scan::marks(init, escapes);
        let m = scan::mark(mode, c);
        assert(squeezed(init).push(c).drop_last() =~= squeezed(init));
        lemma_marked(a, m);
        lemma_marked(b, m);
    }
}

/// What one more mark does to the words.
proof fn lemma_marked(a: Seq<Option<char>>, m: Seq<Option<char>>)
    requires
        m.len() <= 1,
    ensures
        m.len() == 0 ==> a + m == a,
        m.len() == 1 ==> (a + m).drop_last() == a && (a + m).last() == m[0],
{
    if m.len() == 0 {
        assert(a + m =~= a);
    } else {
        assert((a + m).drop_last() =~= a);
    }
}

/// A text without spaces is not squeezed.
proof fn lemma_no_space(s: Seq<char>)
    ensures
        !s.contains(' ') ==> squeezed(s) == s,
        s.contains(' ') <==> squeezed(s).contains(' '),
    decreases s.len(),
{
    if s.len() > 0 {
        let init = s.drop_last();
        lemma_no_space(init);
        lemma_ends(init);
        assert(init.push(s.last()) =~= s);
        if s.contains(' ') {
            let k = choose|k: int| 0 <= k < s.len() && s[k] == ' ';
            if k < init.len() {
                assert(init[k] == ' ');
            }
            if init.contains(' ') {
                let l = choose|l: int| 0 <= l < squeezed(init).len() && squeezed(init)[l] == ' ';
                assert(squeezed(s)[l] == ' ');
            } else {
                assert(squeezed(s)[squeezed(s).len() - 1] == ' ');
            }
        } else {
            assert(s[s.len() - 1] != ' ');
            if init.contains(' ') {
                let k = choose|k: int| 0 <= k < init.len() && init[k] == ' ';
                assert(s[k] == ' ');
            }
            if squeezed(s).contains(' ') {
                assert(squeezed(s) == s);
            }
        }
    } else {
        assert(squeezed(s) =~= s);
    }
}

/// Squeezing does not make a text `none`.
proof fn lemma_none(s: Seq<char>)
    ensures
        text::eq_ignore_case(squeezed(s), "none"@) <==> text::eq_ignore_case(s, "none"@),
{
    reveal_strlit("none");
    lemma_no_space(s);
    if s.contains(' ') {
        assert forall|t: Seq<char>| #[trigger] t.contains(' ') implies !text::eq_ignore_case(
            t,
            "none"@,
        ) by {
            let k = choose|k: int| 0 <= k < t.len() && t[k] == ' ';
            assert(text::lower(t)[k] == ' ');
            if text::eq_ignore_case(t, "none"@) {
                assert(text::lower(t).len() == t.len());
                assert(text::lower("none"@).len() == 4);
                assert(text::lower_char("none"@[k]) == ' ');
            }
        }
        assert(squeezed(s).contains(' '));
    }
}

/// What is left after trimming holds no quote that was not there.
proof fn lemma_trimmed_keeps_out(s: Seq<char>, c: char)
    requires
        !s.contains(c),
    ensures
        !text::trimmed(s).contains(c),
{
    let rest = text::strip_start(s, CharClass::White);
    text::strip_start_leaves_a_suffix(s, CharClass::White);
    text::strip_end_leaves_no_end(rest, CharClass::White);
    let t = text::trimmed(s);
    if t.contains(c) {
        let k = choose|k: int| 0 <= k < t.len() && t[k] == c;
        assert(rest[k] == c);
        assert(s[s.len() - rest.len() + k] == c);
    }
}

/// An entry without quotes says the same, however many spaces it has.
proof fn lemma_entry(p: Seq<char>, escapes: bool)
    requires
        !p.contains('"'),
    ensures
        dkim::entry_result(squeezed(p), escapes) == dkim::entry_result(p, escapes),
{
    let e = text::trimmed(p);
    lemma_trimmed(p);
    lemma_trimmed_keeps_out(p, '"');
    lemma_ends(e);
    lemma_none(e);
    lemma_words(e, escapes);
}

/// Entries without quotes say the same, however many spaces they have.
proof fn lemma_entries(list: Seq<Seq<char>>, escapes: bool)
    requires
        forall|i: int| 0 <= i < list.len() ==> !(#[trigger] list[i]).contains('"'),
    ensures
        dkim::entry_results(all_squeezed(list), escapes) == dkim::entry_results(list, escapes),
    decreases list.len(),
{
    if list.len() > 0 {
        let init = list.drop_last();
        assert forall|i: int| 0 <= i < init.len() implies !(#[trigger] init[i]).contains('"') by {
            assert(init[i] == list[i]);
        }
        lemma_entries(init, escapes);
        assert(!list[list.len() - 1].contains('"'));
        lemma_entry(list.last(), escapes);
        assert(all_squeezed(list).drop_last() =~= all_squeezed(init));
    }
}

/// The pieces hold no character that the text does not hold.
proof fn lemma_pieces_keep_out(s: Seq<char>, c: char)
    requires
        !s.contains(c),
    ensures
        forall|i: int|
            0 <= i < scan::pieces(s).len() ==> !(#[trigger] scan::pieces(s)[i]).contains(c),
    decreases s.len(),
{
    if s.len() > 0 {
        let init = s.drop_last();
        assert(!init.contains(c)) by {
            if init.contains(c) {
                let k = choose|k: int| 0 <= k < init.len() && init[k] == c;
                assert(s[k] == c);
            }
        }
        assert(s[s.len() - 1] != c);
        lemma_pieces_keep_out(init, c);
        lemma_last_piece(init);
        let ps = scan::pieces(init);
        assert forall|i: int| 0 <= i < scan::pieces(s).len() implies !(#[trigger] scan::pieces(
            s,
        )[i]).contains(c) by {
            let piece = scan::pieces(s)[i];
            if i < ps.len() - 1 || (i < ps.len() && piece == ps[i]) {
                assert(piece == ps[i]);
            } else if i == ps.len() - 1 {
                assert(!ps[i].contains(c));
                assert(piece == ps.last().push(s.last()));
                if piece.contains(c) {
                    let k = choose|k: int| 0 <= k < piece.len() && piece[k] == c;
                    assert(ps[i][k] == c);
                }
            }
        }
    } else {
        assert(scan::pieces(s)[0] =~= Seq::<char>::empty());
    }
}

/// The pieces hold no character that the text does not hold.
proof fn lemma_split_keeps_out(s: Seq<char>, c: char)
    requires
        !s.contains(c),
    ensures
        forall|i: int|
            0 <= i < text::split(s, ';').len() ==> !(#[trigger] text::split(s, ';')[i]).contains(c),
    decreases s.len(),
{
    if s.len() > 0 {
        let init = s.drop_last();
        assert(!init.contains(c)) by {
            if init.contains(c) {
                let k = choose|k: int| 0 <= k < init.len() && init[k] == c;
                assert(s[k] == c);
            }
        }
        assert(s[s.len() - 1] != c);
        lemma_split_keeps_out(init, c);
        lemma_last_of_split(init);
        let ps = text::split(init, ';');
        assert forall|i: int| 0 <= i < text::split(s, ';').len() implies !(#[trigger] text::split(s, ';')[i]).contains(c) by {
            let piece = text::split(s, ';')[i];
            if i < ps.len() - 1 || (i < ps.len() && piece == ps[i]) {
                assert(piece == ps[i]);
            } else if i == ps.len() - 1 {
                assert(!ps[i].contains(c));
                assert(piece == ps.last().push(s.last()));
                if piece.contains(c) {
                    let k = choose|k: int| 0 <= k < piece.len() && piece[k] == c;
                    assert(ps[i][k] == c);
                }
            }
        }
    } else {
        assert(text::split(s, ';')[0] =~= Seq::<char>::empty());
    }
}

/// Putting a header on one line adds no character but spaces.
proof fn lemma_unfolded_keeps_out(s: Seq<char>, c: char)
    requires
        !s.contains(c),
        c != ' ',
    ensures
        !dkim::unfolded(s).contains(c),
    decreases s.len(),
{
    if s.len() > 0 {
        let init = s.drop_last();
        assert(!init.contains(c)) by {
            if init.contains(c) {
                let k = choose|k: int| 0 <= k < init.len() && init[k] == c;
                assert(s[k] == c);
            }
        }
        assert(s[s.len() - 1] != c);
        lemma_unfolded_keeps_out(init, c);
        let out = dkim::unfolded(init);
        if dkim::unfolded(s).contains(c) {
            let k = choose|k: int|
                0 <= k < dkim::unfolded(s).len() && dkim::unfolded(s)[k] == c;
            assert(out[k] == c);
        }
    }
}

/// Folding adds no quote.
proof fn lemma_folded_keeps_out(raw: Seq<char>, how: Seq<Fold>)
    requires
        !raw.contains('"'),
        how.len() == raw.len(),
    ensures
        !folded(raw, how).contains('"'),
    decreases raw.len(),
{
    if raw.len() > 0 {
        let init = raw.drop_last();
        assert(!init.contains('"')) by {
            if init.contains('"') {
                let k = choose|k: int| 0 <= k < init.len() && init[k] == '"';
                assert(raw[k] == '"');
            }
        }
        assert(raw[raw.len() - 1] != '"');
        lemma_folded_keeps_out(init, how.drop_last());
        let before = folded(init, how.drop_last());
        let all = folded(raw, how);
        if all.contains('"') {
            let k = choose|k: int| 0 <= k < all.len() && all[k] == '"';
            assert(before[k] == '"');
        }
    }
}

/// The entries of two lists with the same squeezed texts say the same.
proof fn lemma_lists(ps: Seq<Seq<char>>, qs: Seq<Seq<char>>, escapes: bool)
    requires
        all_squeezed(ps) == all_squeezed(qs),
        ps.len() > 0,
        forall|i: int| 0 <= i < ps.len() ==> !(#[trigger] ps[i]).contains('"'),
        forall|i: int| 0 <= i < qs.len() ==> !(#[trigger] qs[i]).contains('"'),
    ensures
        dkim::entry_results(ps.drop_first(), escapes) == dkim::entry_results(
            qs.drop_first(),
            escapes,
        ),
{
    assert(all_squeezed(ps).len() == ps.len() && all_squeezed(qs).len() == qs.len());
    let p_rest = ps.drop_first();
    let q_rest = qs.drop_first();
    assert forall|i: int| 0 <= i < p_rest.len() implies !(#[trigger] p_rest[i]).contains('"') by {
        assert(p_rest[i] == ps[i + 1]);
    }
    assert forall|i: int| 0 <= i < q_rest.len() implies !(#[trigger] q_rest[i]).contains('"') by {
        assert(q_rest[i] == qs[i + 1]);
    }
    lemma_entries(p_rest, escapes);
    lemma_entries(q_rest, escapes);
    assert(all_squeezed(p_rest) =~= all_squeezed(ps).drop_first());
    assert(all_squeezed(q_rest) =~= all_squeezed(qs).drop_first());
}

/// A header on one line, without quotes, says the same however many spaces stand
/// where there is one.
proof fn lemma_line(s: Seq<char>, t: Seq<char>)
    requires
        squeezed(s) == squeezed(t),
        !s.contains('"'),
        !t.contains('"'),
    ensures
        dkim::line_results(s) == dkim::line_results(t),
{
    lemma_mode(s, true);
    lemma_mode(t, true);
    if scan::balanced(s) {
        lemma_pieces(s);
        lemma_pieces(t);
        lemma_last_piece(s);
        lemma_pieces_keep_out(s, '"');
        lemma_pieces_keep_out(t, '"');
        lemma_lists(scan::pieces(s), scan::pieces(t), true);
    } else {
        lemma_split(s);
        lemma_split(t);
        lemma_last_of_split(s);
        lemma_split_keeps_out(s, '"');
        lemma_split_keeps_out(t, '"');
        lemma_lists(text::split(s, ';'), text::split(t, ';'), false);
    }
}

/// Two lines with the same squeezed text have the same `authserv-id`.
proof fn lemma_same_id(s: Seq<char>, t: Seq<char>)
    requires
        squeezed(s) == squeezed(t),
    ensures
        ({
            let semi = CharClass::Only(';');
            let white = CharClass::AsciiWhite;
            text::first_word(text::trimmed(text::before(s, semi)), white) == text::first_word(
                text::trimmed(text::before(t, semi)),
                white,
            )
        }),
{
    let a = text::before(s, CharClass::Only(';'));
    let b = text::before(t, CharClass::Only(';'));
    lemma_head(s);
    lemma_head(t);
    lemma_trimmed(a);
    lemma_trimmed(b);
    lemma_first_word(text::trimmed(a), CharClass::AsciiWhite);
    lemma_first_word(text::trimmed(b), CharClass::AsciiWhite);
}

/// A header without quotes says the same if it is folded at any of its spaces.
pub proof fn folding_changes_nothing(raw: Seq<char>, how: Seq<Fold>)
    requires
        !raw.contains('"'),
        how.len() == raw.len(),
    ensures
        dkim::authres(folded(raw, how)) == dkim::authres(raw),
{
    lemma_unfolded(raw, how);
    lemma_folded_keeps_out(raw, how);
    lemma_unfolded_keeps_out(raw, '"');
    lemma_unfolded_keeps_out(folded(raw, how), '"');
    lemma_line(dkim::unfolded(folded(raw, how)), dkim::unfolded(raw));
    lemma_same_id(dkim::unfolded(folded(raw, how)), dkim::unfolded(raw));
}

} // verus!
