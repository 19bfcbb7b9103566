//! Quoted strings and comments: which characters of a header stand in one, and
//! how the text is cut up with regard to them.
use crate::text::{self, CharClass};
use vstd::prelude::*;

verus! {

/// Where a character stands.
pub enum Mode {
    Plain,
    /// Inside a quoted string.
    Quoted,
    /// After a backslash inside a quoted string.
    QuotedPair,
    /// Inside this many nested comments.
    Comment(nat),
    /// After a backslash inside this many nested comments.
    CommentPair(nat),
}

/// The mode after the character `c` was met in mode `m`. With `escapes`, a
/// backslash inside a quoted string or a comment takes its meaning from the next
/// character.
pub open spec fn mode_next(m: Mode, c: char, escapes: bool) -> Mode {
    match m {
        Mode::Plain => if c == '"' {
            Mode::Quoted
        } else if c == '(' {
            Mode::Comment(1)
        } else {
            Mode::Plain
        },
        Mode::Quoted => if c == '"' {
            Mode::Plain
        } else if escapes && c == '\\' {
            Mode::QuotedPair
        } else {
            Mode::Quoted
        },
        Mode::QuotedPair => Mode::Quoted,
        Mode::Comment(depth) => if c == '(' {
            Mode::Comment(depth + 1)
        } else if c == ')' {
            if depth <= 1 {
                Mode::Plain
            } else {
                Mode::Comment((depth - 1) as nat)
            }
        } else if escapes && c == '\\' {
            Mode::CommentPair(depth)
        } else {
            m
        },
        Mode::CommentPair(depth) => Mode::Comment(depth),
    }
}

/// The mode at the end of `s`.
pub open spec fn mode_after(s: Seq<char>, escapes: bool) -> Mode
    decreases s.len(),
{
    if s.len() == 0 {
        Mode::Plain
    } else {
        mode_next(mode_after(s.drop_last(), escapes), s.last(), escapes)
    }
}

/// What the character `c` adds to the words when it is met in mode `m`: itself,
/// a break between words (`None`), or nothing, if it is part of a comment.
pub open spec fn mark(m: Mode, c: char) -> Seq<Option<char>> {
    match m {
        Mode::Plain => if c == '(' {
            Seq::empty()
        } else if text::is_white(c) {
            seq![None]
        } else {
            seq![Some(c)]
        },
        Mode::Quoted => seq![Some(c)],
        Mode::QuotedPair => seq![Some(c)],
        Mode::Comment(_) => Seq::empty(),
        Mode::CommentPair(_) => Seq::empty(),
    }
}

/// What all the characters of `s` add.
pub open spec fn marks(s: Seq<char>, escapes: bool) -> Seq<Option<char>>
    decreases s.len(),
{
    if s.len() == 0 {
        Seq::empty()
    } else {
        marks(s.drop_last(), escapes) + mark(mode_after(s.drop_last(), escapes), s.last())
    }
}

/// The word that `m` ends with: empty after a break.
pub open spec fn last_run(m: Seq<Option<char>>) -> Seq<char>
    decreases m.len(),
{
    if m.len() == 0 {
        Seq::empty()
    } else {
        match m.last() {
            Some(c) => last_run(m.drop_last()).push(c),
            None => Seq::empty(),
        }
    }
}

/// The words and the word after them, if it is not empty.
pub open spec fn with_word(ws: Seq<Seq<char>>, w: Seq<char>) -> Seq<Seq<char>> {
    if w.len() == 0 {
        ws
    } else {
        ws.push(w)
    }
}

/// The words of `m` that a break has ended.
pub open spec fn ended_words(m: Seq<Option<char>>) -> Seq<Seq<char>>
    decreases m.len(),
{
    if m.len() == 0 {
        Seq::empty()
    } else {
        let init = m.drop_last();
        match m.last() {
            Some(_) => ended_words(init),
            None => with_word(ended_words(init), last_run(init)),
        }
    }
}

/// The words of `m`: its stretches without a break, the empty ones left out.
pub open spec fn words(m: Seq<Option<char>>) -> Seq<Seq<char>> {
    with_word(ended_words(m), last_run(m))
}

/// The tokens of an entry: its words, where whitespace inside a quoted string
/// breaks no word and a parenthesised comment is left out.
pub open spec fn tokens(s: Seq<char>, escapes: bool) -> Seq<Seq<char>> {
    words(marks(s, escapes))
}

/// The mode, while a text is gone through.
struct Scanner {
    in_quotes: bool,
    depth: usize,
    escaped: bool,
}

impl Scanner {
    spec fn valid(self) -> bool {
        &&& self.in_quotes ==> self.depth == 0
        &&& self.escaped ==> self.in_quotes || self.depth > 0
    }

    spec fn mode(self) -> Mode {
        if self.in_quotes {
            if self.escaped {
                Mode::QuotedPair
            } else {
                Mode::Quoted
            }
        } else if self.depth > 0 {
            if self.escaped {
                Mode::CommentPair(self.depth as nat)
            } else {
                Mode::Comment(self.depth as nat)
            }
        } else {
            Mode::Plain
        }
    }

    fn new() -> (r: Self)
        ensures
            r.valid(),
            r.mode() == Mode::Plain,
            r.depth == 0,
    {
        Scanner { in_quotes: false, depth: 0, escaped: false }
    }

    fn step(&mut self, c: char, escapes: bool)
        requires
            old(self).valid(),
            old(self).depth < usize::MAX,
        ensures
            final(self).valid(),
            final(self).mode() == mode_next(old(self).mode(), c, escapes),
            final(self).depth <= old(self).depth + 1,
    {
        if self.escaped {
            self.escaped = false;
        } else if self.in_quotes {
            if c == '"' {
                self.in_quotes = false;
            } else if escapes && c == '\\' {
                self.escaped = true;
            }
        } else if self.depth > 0 {
            if c == '(' {
                self.depth = self.depth + 1;
            } else if c == ')' {
                self.depth = self.depth - 1;
            } else if escapes && c == '\\' {
                self.escaped = true;
            }
        } else if c == '"' {
            self.in_quotes = true;
        } else if c == '(' {
            self.depth = 1;
        }
    }

    fn is_plain(&self) -> (r: bool)
        requires
            self.valid(),
        ensures
            r == (self.mode() == Mode::Plain),
    {
        !self.in_quotes && self.depth == 0
    }
}

/// Splits an entry into its tokens.
pub fn tokenize(entry: &[char], escapes: bool) -> (r: Vec<Vec<char>>)
    ensures
        text::texts(r@) == tokens(entry@, escapes),
{
    let mut out: Vec<Vec<char>> = Vec::new();
    let mut cur: Vec<char> = Vec::new();
    let mut scanner = Scanner::new();
    let mut i: usize = 0;
    proof {
        assert(text::texts(out@) =~= ended_words(marks(entry@.take(0), escapes)));
    }
    while i < entry.len()
        invariant
            i <= entry.len(),
            scanner.valid(),
            scanner.depth <= i,
            scanner.mode() == mode_after(entry@.take(i as int), escapes),
            cur@ == last_run(marks(entry@.take(i as int), escapes)),
            text::texts(out@) == ended_words(marks(entry@.take(i as int), escapes)),
        decreases entry.len() - i,
    {
        let c = entry[i];
        let ghost so_far = marks(entry@.take(i as int), escapes);
        let ghost words_before = out@;
        let ghost cur_before = cur@;
        proof {
            assert(entry@.take(i + 1).drop_last() =~= entry@.take(i as int));
            assert(marks(entry@.take(i + 1), escapes) == so_far + mark(scanner.mode(), c));
            assert(so_far + Seq::<Option<char>>::empty() =~= so_far);
            assert((so_far + seq![Some(c)]).drop_last() =~= so_far);
            assert((so_far + seq![None::<char>]).drop_last() =~= so_far);
        }
        if scanner.in_quotes {
            cur.push(c);
        } else if scanner.depth == 0 && c != '(' {
            if CharClass::White.contains(c) {
                if cur.len() > 0 {
                    out.push(cur);
                    cur = Vec::new();
                    proof {
                        assert(text::texts(out@) =~= text::texts(words_before).push(cur_before));
                    }
                } else {
                    proof {
                        assert(cur@ =~= Seq::<char>::empty());
                    }
                }
            } else {
                cur.push(c);
            }
        }
        scanner.step(c, escapes);
        i += 1;
    }
    proof {
        assert(entry@.take(entry@.len() as int) =~= entry@);
    }
    if cur.len() > 0 {
        let ghost words_before = out@;
        let ghost last = cur@;
        out.push(cur);
        proof {
            assert(text::texts(out@) =~= text::texts(words_before).push(last));
        }
    }
    out
}

/// The pieces of `s` between its semicolons. One inside a quoted string or a
/// comment ends no piece.
pub open spec fn pieces(s: Seq<char>) -> Seq<Seq<char>>
    decreases s.len(),
{
    if s.len() == 0 {
        seq![Seq::empty()]
    } else {
        let before = pieces(s.drop_last());
        if s.last() == ';' && mode_after(s.drop_last(), true) == Mode::Plain {
            before.push(Seq::empty())
        } else {
            before.drop_last().push(before.last().push(s.last()))
        }
    }
}

/// Whether every quoted string and every comment in `s` is closed.
pub open spec fn balanced(s: Seq<char>) -> bool {
    mode_after(s, true) == Mode::Plain
}

/// Tells whether every quoted string and every comment is closed.
pub fn is_balanced(s: &[char]) -> (r: bool)
    ensures
        r == balanced(s@),
{
    let mut scanner = Scanner::new();
    let mut i: usize = 0;
    while i < s.len()
        invariant
            i <= s.len(),
            scanner.valid(),
            scanner.depth <= i,
            scanner.mode() == mode_after(s@.take(i as int), true),
        decreases s.len() - i,
    {
        proof {
            assert(s@.take(i + 1).drop_last() =~= s@.take(i as int));
        }
        scanner.step(s[i], true);
        i += 1;
    }
    proof {
        assert(s@.take(s@.len() as int) =~= s@);
    }
    scanner.is_plain()
}

/// Splits a header at its semicolons.
pub fn split_entries(s: &[char]) -> (r: Vec<Vec<char>>)
    ensures
        text::texts(r@) == pieces(s@),
        r@.len() > 0,
{
    let mut r: Vec<Vec<char>> = Vec::new();
    let mut piece: Vec<char> = Vec::new();
    let mut scanner = Scanner::new();
    let mut i: usize = 0;
    proof {
        assert(s@.take(0) =~= Seq::<char>::empty());
        assert(text::texts(r@).push(piece@) =~= seq![Seq::<char>::empty()]);
    }
    while i < s.len()
        invariant
            i <= s.len(),
            scanner.valid(),
            scanner.depth <= i,
            scanner.mode() == mode_after(s@.take(i as int), true),
            text::texts(r@).push(piece@) == pieces(s@.take(i as int)),
        decreases s.len() - i,
    {
        let c = s[i];
        proof {
            assert(s@.take(i + 1).drop_last() =~= s@.take(i as int));
            assert(pieces(s@.take(i as int)).drop_last() =~= text::texts(r@));
        }
        if c == ';' && scanner.is_plain() {
            let ghost before_push = r@;
            r.push(piece);
            proof {
                assert(text::texts(r@) =~= text::texts(before_push).push(piece@));
            }
            piece = Vec::new();
        } else {
            piece.push(c);
        }
        scanner.step(c, true);
        i += 1;
    }
    let ghost before_push = r@;
    r.push(piece);
    proof {
        assert(s@.take(s@.len() as int) =~= s@);
        assert(text::texts(r@) =~= text::texts(before_push).push(piece@));
    }
    r
}

/// A semicolon begins a new piece exactly if it stands outside quoted strings
/// and comments; elsewhere it is part of the piece that it stands in.
pub proof fn semicolon_ends_a_piece_in_plain_text_only(a: Seq<char>)
    ensures
        pieces(a).len() > 0,
        pieces(a.push(';')) == if mode_after(a, true) == Mode::Plain {
            pieces(a).push(Seq::empty())
        } else {
            pieces(a).drop_last().push(pieces(a).last().push(';'))
        },
    decreases a.len(),
{
    assert(a.push(';').drop_last() =~= a);
    if a.len() > 0 {
        semicolon_ends_a_piece_in_plain_text_only(a.drop_last());
    }
}

/// A header without quotes and comments is cut at every semicolon.
pub proof fn plain_header_is_cut_at_every_semicolon(s: Seq<char>)
    requires
        !s.contains('"'),
        !s.contains('('),
    ensures
        balanced(s),
        pieces(s) == text::split(s, ';'),
    decreases s.len(),
{
    if s.len() > 0 {
        let init = s.drop_last();
        assert forall|c: char| !s.contains(c) implies !#[trigger] init.contains(c) by {
            if init.contains(c) {
                let k = choose|k: int| 0 <= k < init.len() && init[k] == c;
                assert(s[k] == c);
            }
        }
        assert(s[s.len() - 1] == s.last());
        plain_header_is_cut_at_every_semicolon(init);
    }
}

/// The mode at the end of `s`, if it began in mode `m`.
pub open spec fn mode_from(m: Mode, s: Seq<char>, escapes: bool) -> Mode
    decreases s.len(),
{
    if s.len() == 0 {
        m
    } else {
        mode_next(mode_from(m, s.drop_last(), escapes), s.last(), escapes)
    }
}

/// What the characters of `s` add, if it began in mode `m`.
pub open spec fn marks_from(m: Mode, s: Seq<char>, escapes: bool) -> Seq<Option<char>>
    decreases s.len(),
{
    if s.len() == 0 {
        Seq::empty()
    } else {
        marks_from(m, s.drop_last(), escapes) + mark(
            mode_from(m, s.drop_last(), escapes),
            s.last(),
        )
    }
}

/// Reading `a` and then `b` is reading the two together.
proof fn lemma_marks_of_two(a: Seq<char>, b: Seq<char>, escapes: bool)
    ensures
        mode_after(a + b, escapes) == mode_from(mode_after(a, escapes), b, escapes),
        marks(a + b, escapes) == marks(a, escapes) + marks_from(
            mode_after(a, escapes),
            b,
            escapes,
        ),
    decreases b.len(),
{
    if b.len() == 0 {
        assert(a + b =~= a);
        assert(marks(a, escapes) + Seq::<Option<char>>::empty() =~= marks(a, escapes));
    } else {
        assert((a + b).drop_last() =~= a + b.drop_last());
        lemma_marks_of_two(a, b.drop_last(), escapes);
        assert(marks(a + b, escapes) =~= marks(a, escapes) + marks_from(
            mode_after(a, escapes),
            b,
            escapes,
        ));
    }
}

/// Whether a mode is that of a comment.
pub open spec fn in_comment(m: Mode) -> bool {
    m is Comment || m is CommentPair
}

/// The text between the parentheses of a comment: as many close as open, and
/// none closes the comment itself.
pub open spec fn comment_text(s: Seq<char>, escapes: bool) -> bool {
    &&& mode_from(Mode::Comment(1), s, escapes) == Mode::Comment(1)
    &&& forall|n: int|
        0 <= n <= s.len() ==> in_comment(
            mode_from(Mode::Comment(1), #[trigger] s.take(n), escapes),
        )
}

proof fn lemma_comment_adds_nothing(s: Seq<char>, escapes: bool)
    requires
        forall|n: int|
            0 <= n <= s.len() ==> in_comment(
                mode_from(Mode::Comment(1), #[trigger] s.take(n), escapes),
            ),
    ensures
        marks_from(Mode::Comment(1), s, escapes) == Seq::<Option<char>>::empty(),
    decreases s.len(),
{
    if s.len() > 0 {
        let init = s.drop_last();
        assert(s.take(s.len() - 1) =~= init);
        assert forall|n: int| 0 <= n <= init.len() implies in_comment(
            mode_from(Mode::Comment(1), #[trigger] init.take(n), escapes),
        ) by {
            assert(init.take(n) =~= s.take(n));
        }
        lemma_comment_adds_nothing(init, escapes);
        assert(marks_from(Mode::Comment(1), s, escapes) =~= Seq::<Option<char>>::empty());
    }
}

/// A comment outside quotes is dropped: the tokens are those of the entry
/// without it.
pub proof fn comment_is_dropped(a: Seq<char>, comment: Seq<char>, b: Seq<char>, escapes: bool)
    requires
        mode_after(a, escapes) == Mode::Plain,
        comment_text(comment, escapes),
    ensures
        tokens(a + seq!['('] + comment + seq![')'] + b, escapes) == tokens(a + b, escapes),
{
    let open = a + seq!['('];
    assert(open.drop_last() =~= a);
    assert(mode_after(open, escapes) == Mode::Comment(1));
    assert(marks(open, escapes) =~= marks(a, escapes));
    lemma_marks_of_two(open, comment, escapes);
    lemma_comment_adds_nothing(comment, escapes);
    let inside = open + comment;
    let closed = inside + seq![')'];
    assert(closed.drop_last() =~= inside);
    assert(mode_after(inside, escapes) == Mode::Comment(1));
    assert(marks(closed, escapes) =~= marks(a, escapes));
    assert(mode_after(closed, escapes) == Mode::Plain);
    lemma_marks_of_two(closed, b, escapes);
    lemma_marks_of_two(a, b, escapes);
}

/// A quoted string stays in one token: every character of it is kept, quotes
/// and whitespace among them.
pub proof fn quoted_string_is_kept(a: Seq<char>, quoted: Seq<char>, escapes: bool)
    requires
        mode_after(a, escapes) == Mode::Plain,
        quoted_text(quoted, escapes),
    ensures
        ({
            let s = seq!['"'] + quoted + seq!['"'];
            &&& mode_after(a + s, escapes) == Mode::Plain
            &&& marks(a + s, escapes) == marks(a, escapes) + s.map_values(|c: char| Some(c))
        }),
{
    let s = seq!['"'] + quoted + seq!['"'];
    let head = a + seq!['"'];
    assert(head.drop_last() =~= a);
    assert(mode_after(head, escapes) == Mode::Quoted);
    assert(!text::is_white('"'));
    lemma_quoted_text(quoted, escapes);
    lemma_marks_of_two(head, quoted, escapes);
    let inside = head + quoted;
    let whole = inside + seq!['"'];
    assert(whole.drop_last() =~= inside);
    assert(a + s =~= whole);
    assert(marks(whole, escapes) =~= marks(a, escapes) + s.map_values(|c: char| Some(c)));
}

/// Whether a mode is that of a quoted string.
pub open spec fn in_quotes(m: Mode) -> bool {
    m is Quoted || m is QuotedPair
}

/// The text between the quotes of a quoted string: nothing in it closes the
/// string.
pub open spec fn quoted_text(s: Seq<char>, escapes: bool) -> bool {
    &&& mode_from(Mode::Quoted, s, escapes) == Mode::Quoted
    &&& forall|n: int|
        0 <= n <= s.len() ==> in_quotes(mode_from(Mode::Quoted, #[trigger] s.take(n), escapes))
}

proof fn lemma_quoted_text(s: Seq<char>, escapes: bool)
    requires
        forall|n: int|
            0 <= n <= s.len() ==> in_quotes(
                mode_from(Mode::Quoted, #[trigger] s.take(n), escapes),
            ),
    ensures
        marks_from(Mode::Quoted, s, escapes) == s.map_values(|c: char| Some(c)),
    decreases s.len(),
{
    if s.len() > 0 {
        let init = s.drop_last();
        assert(s.take(s.len() - 1) =~= init);
        assert forall|n: int| 0 <= n <= init.len() implies in_quotes(
            mode_from(Mode::Quoted, #[trigger] init.take(n), escapes),
        ) by {
            assert(init.take(n) =~= s.take(n));
        }
        lemma_quoted_text(init, escapes);
    }
    assert(marks_from(Mode::Quoted, s, escapes) =~= s.map_values(|c: char| Some(c)));
}

/// `n` opening parentheses.
pub open spec fn opening(n: nat) -> Seq<char> {
    Seq::new(n, |i: int| '(')
}

/// `n` closing parentheses.
pub open spec fn closing(n: nat) -> Seq<char> {
    Seq::new(n, |i: int| ')')
}

/// Whether a text has none of these characters.
pub open spec fn free_of(s: Seq<char>, cs: Seq<char>) -> bool {
    forall|k: int| 0 <= k < s.len() ==> !cs.contains(#[trigger] s[k])
}

proof fn lemma_from_two(m: Mode, a: Seq<char>, b: Seq<char>, escapes: bool)
    ensures
        mode_from(m, a + b, escapes) == mode_from(mode_from(m, a, escapes), b, escapes),
        marks_from(m, a + b, escapes) == marks_from(m, a, escapes) + marks_from(
            mode_from(m, a, escapes),
            b,
            escapes,
        ),
    decreases b.len(),
{
    if b.len() == 0 {
        assert(a + b =~= a);
        assert(marks_from(m, a, escapes) + Seq::<Option<char>>::empty() =~= marks_from(
            m,
            a,
            escapes,
        ));
    } else {
        assert((a + b).drop_last() =~= a + b.drop_last());
        lemma_from_two(m, a, b.drop_last(), escapes);
        assert(marks_from(m, a + b, escapes) =~= marks_from(m, a, escapes) + marks_from(
            mode_from(m, a, escapes),
            b,
            escapes,
        ));
    }
}

proof fn lemma_one(m: Mode, c: char, escapes: bool)
    ensures
        mode_from(m, seq![c], escapes) == mode_next(m, c, escapes),
        marks_from(m, seq![c], escapes) == mark(m, c),
{
    let none = Seq::<char>::empty();
    assert(seq![c].drop_last() =~= none);
    assert(mode_from(m, none, escapes) == m);
    assert(marks_from(m, none, escapes) + mark(m, c) =~= mark(m, c));
}

proof fn lemma_plain(s: Seq<char>, escapes: bool)
    requires
        free_of(s, seq!['"', '(']),
    ensures
        mode_after(s, escapes) == Mode::Plain,
    decreases s.len(),
{
    if s.len() > 0 {
        let init = s.drop_last();
        assert forall|k: int| 0 <= k < init.len() implies !seq!['"', '('].contains(
            #[trigger] init[k],
        ) by {
            assert(init[k] == s[k]);
        }
        lemma_plain(init, escapes);
        assert(!seq!['"', '('].contains(s[s.len() - 1]));
        assert(seq!['"', '('][0] == '"' && seq!['"', '('][1] == '(');
    }
}

/// Inside a comment, ordinary text changes nothing.
proof fn lemma_inside_comment(depth: nat, s: Seq<char>, escapes: bool)
    requires
        depth > 0,
        free_of(s, seq!['(', ')']),
        escapes ==> free_of(s, seq!['\\']),
    ensures
        mode_from(Mode::Comment(depth), s, escapes) == Mode::Comment(depth),
        marks_from(Mode::Comment(depth), s, escapes) == Seq::<Option<char>>::empty(),
    decreases s.len(),
{
    if s.len() > 0 {
        let init = s.drop_last();
        assert forall|k: int| 0 <= k < init.len() implies !seq!['(', ')'].contains(
            #[trigger] init[k],
        ) && (escapes ==> !seq!['\\'].contains(init[k])) by {
            assert(init[k] == s[k]);
        }
        lemma_inside_comment(depth, init, escapes);
        assert(!seq!['(', ')'].contains(s[s.len() - 1]));
        assert(seq!['(', ')'][0] == '(' && seq!['(', ')'][1] == ')');
        if escapes {
            assert(!seq!['\\'].contains(s[s.len() - 1]));
            assert(seq!['\\'][0] == '\\');
        }
        assert(marks_from(Mode::Comment(depth), s, escapes) =~= Seq::<Option<char>>::empty());
    }
}

/// Inside a quoted string, ordinary text changes nothing.
proof fn lemma_inside_quotes(s: Seq<char>, escapes: bool)
    requires
        free_of(s, seq!['"']),
        escapes ==> free_of(s, seq!['\\']),
    ensures
        mode_from(Mode::Quoted, s, escapes) == Mode::Quoted,
        marks_from(Mode::Quoted, s, escapes) == s.map_values(|c: char| Some(c)),
    decreases s.len(),
{
    if s.len() > 0 {
        let init = s.drop_last();
        assert forall|k: int| 0 <= k < init.len() implies !seq!['"'].contains(#[trigger] init[k])
            && (escapes ==> !seq!['\\'].contains(init[k])) by {
            assert(init[k] == s[k]);
        }
        lemma_inside_quotes(init, escapes);
        assert(!seq!['"'].contains(s[s.len() - 1]));
        assert(seq!['"'][0] == '"');
        if escapes {
            assert(!seq!['\\'].contains(s[s.len() - 1]));
            assert(seq!['\\'][0] == '\\');
        }
    }
    assert(marks_from(Mode::Quoted, s, escapes) =~= s.map_values(|c: char| Some(c)));
}

proof fn lemma_opening(n: nat, escapes: bool)
    ensures
        mode_from(Mode::Plain, opening(n), escapes) == if n == 0 {
            Mode::Plain
        } else {
            Mode::Comment(n)
        },
        marks_from(Mode::Plain, opening(n), escapes) == Seq::<Option<char>>::empty(),
    decreases n,
{
    if n > 0 {
        lemma_opening((n - 1) as nat, escapes);
        assert(opening(n).drop_last() =~= opening((n - 1) as nat));
        assert(marks_from(Mode::Plain, opening(n), escapes) =~= Seq::<Option<char>>::empty());
    }
}

proof fn lemma_closing(depth: nat, n: nat, escapes: bool)
    requires
        n <= depth,
        depth > 0,
    ensures
        mode_from(Mode::Comment(depth), closing(n), escapes) == if n == depth {
            Mode::Plain
        } else {
            Mode::Comment((depth - n) as nat)
        },
        marks_from(Mode::Comment(depth), closing(n), escapes) == Seq::<Option<char>>::empty(),
    decreases n,
{
    if n > 0 {
        lemma_closing(depth, (n - 1) as nat, escapes);
        assert(closing(n).drop_last() =~= closing((n - 1) as nat));
        assert(marks_from(Mode::Comment(depth), closing(n), escapes) =~= Seq::<
            Option<char>,
        >::empty());
    }
}

/// What adds nothing to the words and ends as it began makes no difference.
proof fn lemma_silent(a: Seq<char>, x: Seq<char>, b: Seq<char>, escapes: bool)
    requires
        mode_after(a, escapes) == Mode::Plain,
        mode_from(Mode::Plain, x, escapes) == Mode::Plain,
        marks_from(Mode::Plain, x, escapes) == Seq::<Option<char>>::empty(),
    ensures
        tokens(a + x + b, escapes) == tokens(a + b, escapes),
{
    lemma_marks_of_two(a, x, escapes);
    assert(marks(a + x, escapes) =~= marks(a, escapes));
    lemma_marks_of_two(a + x, b, escapes);
    lemma_marks_of_two(a, b, escapes);
}

/// A comment ends with as many closing parentheses as it began with, and is left out
/// of the tokens.
pub proof fn comments_nest(
    a: Seq<char>,
    n: nat,
    comment: Seq<char>,
    b: Seq<char>,
    escapes: bool,
)
    requires
        free_of(a, seq!['"', '(']),
        free_of(comment, seq!['(', ')']),
        escapes ==> free_of(comment, seq!['\\']),
        n > 0,
    ensures
        tokens(a + (opening(n) + comment + closing(n)) + b, escapes) == tokens(a + b, escapes),
{
    let x = opening(n) + comment + closing(n);
    lemma_plain(a, escapes);
    lemma_opening(n, escapes);
    lemma_inside_comment(n, comment, escapes);
    lemma_closing(n, n, escapes);
    lemma_from_two(Mode::Plain, opening(n), comment, escapes);
    lemma_from_two(Mode::Plain, opening(n) + comment, closing(n), escapes);
    assert(marks_from(Mode::Plain, x, escapes) =~= Seq::<Option<char>>::empty());
    lemma_silent(a, x, b, escapes);
}

/// A character after a backslash neither opens nor closes a comment.
pub proof fn escaped_character_closes_no_comment(
    a: Seq<char>,
    c: Seq<char>,
    x: char,
    d: Seq<char>,
    b: Seq<char>,
)
    requires
        free_of(a, seq!['"', '(']),
        free_of(c, seq!['(', ')']),
        free_of(c, seq!['\\']),
        free_of(d, seq!['(', ')']),
        free_of(d, seq!['\\']),
    ensures
        tokens(a + (seq!['('] + c + seq!['\\', x] + d + seq![')']) + b, true) == tokens(
            a + b,
            true,
        ),
{
    let whole = seq!['('] + c + seq!['\\', x] + d + seq![')'];
    lemma_plain(a, true);
    lemma_one(Mode::Plain, '(', true);
    lemma_inside_comment(1, c, true);
    lemma_one(Mode::Comment(1), '\\', true);
    lemma_one(Mode::CommentPair(1), x, true);
    lemma_from_two(Mode::Comment(1), seq!['\\'], seq![x], true);
    assert(seq!['\\', x] =~= seq!['\\'] + seq![x]);
    lemma_inside_comment(1, d, true);
    lemma_one(Mode::Comment(1), ')', true);
    lemma_from_two(Mode::Plain, seq!['('], c, true);
    lemma_from_two(Mode::Plain, seq!['('] + c, seq!['\\', x], true);
    lemma_from_two(Mode::Plain, seq!['('] + c + seq!['\\', x], d, true);
    lemma_from_two(Mode::Plain, seq!['('] + c + seq!['\\', x] + d, seq![')'], true);
    assert(marks_from(Mode::Plain, whole, true) =~= Seq::<Option<char>>::empty());
    lemma_silent(a, whole, b, true);
}

/// Text without breaks is one word.
proof fn lemma_one_word(s: Seq<char>)
    ensures
        last_run(s.map_values(|c: char| Some(c))) == s,
        ended_words(s.map_values(|c: char| Some(c))) == Seq::<Seq<char>>::empty(),
    decreases s.len(),
{
    let m = s.map_values(|c: char| Some(c));
    if s.len() > 0 {
        lemma_one_word(s.drop_last());
        assert(m.drop_last() =~= s.drop_last().map_values(|c: char| Some(c)));
        assert(m.last() == Some(s.last()));
        assert(s.drop_last().push(s.last()) =~= s);
    } else {
        assert(last_run(m) =~= s);
    }
}

proof fn lemma_plain_marks(w: Seq<char>, escapes: bool)
    requires
        free_of(w, seq!['"', '(']),
        forall|k: int| 0 <= k < w.len() ==> !text::is_white(#[trigger] w[k]),
    ensures
        marks(w, escapes) == w.map_values(|c: char| Some(c)),
    decreases w.len(),
{
    if w.len() > 0 {
        let init = w.drop_last();
        assert forall|k: int| 0 <= k < init.len() implies !seq!['"', '('].contains(
            #[trigger] init[k],
        ) && !text::is_white(init[k]) by {
            assert(init[k] == w[k]);
        }
        lemma_plain_marks(init, escapes);
        lemma_plain(init, escapes);
        assert(!seq!['"', '('].contains(w[w.len() - 1]));
        assert(seq!['"', '('][0] == '"' && seq!['"', '('][1] == '(');
    }
    assert(marks(w, escapes) =~= w.map_values(|c: char| Some(c)));
}

/// A quoted string is part of the word before it, with its quotes and with all that
/// stands between them; a quote after a backslash does not end it.
pub proof fn quoted_string_ends_a_word(
    w: Seq<char>,
    q: Seq<char>,
    x: char,
    r: Seq<char>,
    escapes: bool,
)
    requires
        free_of(w, seq!['"', '(']),
        forall|k: int| 0 <= k < w.len() ==> !text::is_white(#[trigger] w[k]),
        free_of(q, seq!['"']),
        free_of(r, seq!['"']),
        escapes ==> free_of(q, seq!['\\']) && free_of(r, seq!['\\']),
    ensures
        tokens(w + (seq!['"'] + q + seq!['"']), escapes) == seq![w + (seq!['"'] + q + seq!['"'])],
        escapes ==> tokens(w + (seq!['"'] + q + seq!['\\', x] + r + seq!['"']), escapes) == seq![
            w + (seq!['"'] + q + seq!['\\', x] + r + seq!['"']),
        ],
{
    let f = |c: char| Some(c);
    lemma_plain(w, escapes);
    lemma_plain_marks(w, escapes);
    assert(!text::is_white('"'));
    lemma_one(Mode::Plain, '"', escapes);
    lemma_inside_quotes(q, escapes);
    lemma_one(Mode::Quoted, '"', escapes);
    let s = seq!['"'] + q + seq!['"'];
    lemma_from_two(Mode::Plain, seq!['"'], q, escapes);
    lemma_from_two(Mode::Plain, seq!['"'] + q, seq!['"'], escapes);
    lemma_marks_of_two(w, s, escapes);
    assert(marks(w + s, escapes) =~= (w + s).map_values(f));
    lemma_one_word(w + s);
    assert(Seq::<Seq<char>>::empty().push(w + s) =~= seq![w + s]);
    if escapes {
        lemma_one(Mode::Quoted, '\\', true);
        lemma_one(Mode::QuotedPair, x, true);
        lemma_from_two(Mode::Quoted, seq!['\\'], seq![x], true);
        assert(seq!['\\', x] =~= seq!['\\'] + seq![x]);
        lemma_inside_quotes(r, true);
        let head = seq!['"'] + q;
        let t = head + seq!['\\', x] + r + seq!['"'];
        lemma_from_two(Mode::Plain, head, seq!['\\', x], true);
        lemma_from_two(Mode::Plain, head + seq!['\\', x], r, true);
        lemma_from_two(Mode::Plain, head + seq!['\\', x] + r, seq!['"'], true);
        lemma_marks_of_two(w, t, true);
        assert(marks(w + t, true) =~= (w + t).map_values(f));
        lemma_one_word(w + t);
        assert(Seq::<Seq<char>>::empty().push(w + t) =~= seq![w + t]);
    }
}

/// A quoted string that is not closed, and a comment that is not closed as often as
/// it was opened, leave a header unbalanced; otherwise it is balanced.
pub proof fn open_quote_or_comment_is_not_balanced(
    a: Seq<char>,
    q: Seq<char>,
    comment: Seq<char>,
    n: nat,
    k: nat,
)
    requires
        free_of(a, seq!['"', '(']),
        free_of(q, seq!['"']),
        free_of(q, seq!['\\']),
        free_of(comment, seq!['(', ')']),
        free_of(comment, seq!['\\']),
        k <= n,
    ensures
        balanced(a),
        !balanced(a + (seq!['"'] + q)),
        balanced(a + (seq!['"'] + q + seq!['"'])),
        n > 0 ==> (balanced(a + (opening(n) + comment + closing(k))) <==> k == n),
{
    lemma_plain(a, true);
    lemma_one(Mode::Plain, '"', true);
    lemma_inside_quotes(q, true);
    lemma_one(Mode::Quoted, '"', true);
    lemma_from_two(Mode::Plain, seq!['"'], q, true);
    lemma_from_two(Mode::Plain, seq!['"'] + q, seq!['"'], true);
    lemma_marks_of_two(a, seq!['"'] + q, true);
    lemma_marks_of_two(a, seq!['"'] + q + seq!['"'], true);
    if n > 0 {
        lemma_opening(n, true);
        lemma_inside_comment(n, comment, true);
        lemma_closing(n, k, true);
        lemma_from_two(Mode::Plain, opening(n), comment, true);
        lemma_from_two(Mode::Plain, opening(n) + comment, closing(k), true);
        lemma_marks_of_two(a, opening(n) + comment + closing(k), true);
    }
}

/// Text that stands in quotes or in a comment lengthens the last piece.
proof fn lemma_no_new_piece(s: Seq<char>, t: Seq<char>)
    requires
        forall|k: int|
            0 <= k < t.len() && #[trigger] t[k] == ';' ==> mode_after(s + t.take(k), true)
                != Mode::Plain,
    ensures
        pieces(s + t) == pieces(s).drop_last().push(pieces(s).last() + t),
        pieces(s).len() > 0,
    decreases t.len(),
{
    semicolon_ends_a_piece_in_plain_text_only(s);
    if t.len() == 0 {
        assert(s + t =~= s);
        assert(pieces(s).last() + t =~= pieces(s).last());
        assert(pieces(s).drop_last().push(pieces(s).last()) =~= pieces(s));
    } else {
        let init = t.drop_last();
        assert forall|k: int| 0 <= k < init.len() && #[trigger] init[k] == ';' implies mode_after(
            s + init.take(k),
            true,
        ) != Mode::Plain by {
            assert(t[k] == ';');
            assert(init.take(k) =~= t.take(k));
        }
        lemma_no_new_piece(s, init);
        assert((s + t).drop_last() =~= s + init);
        assert(t[t.len() - 1] == t.last());
        assert(t.take(t.len() - 1) =~= init);
        let before = pieces(s + init);
        assert(before.drop_last() =~= pieces(s).drop_last());
        assert(before.last().push(t.last()) =~= pieces(s).last() + t);
    }
}

/// A semicolon inside a quoted string or a comment ends no piece.
pub proof fn quoted_semicolon_ends_no_piece(a: Seq<char>, q: Seq<char>, comment: Seq<char>)
    requires
        free_of(a, seq!['"', '(']),
        free_of(q, seq!['"']),
        free_of(q, seq!['\\']),
        free_of(comment, seq!['(', ')']),
        free_of(comment, seq!['\\']),
    ensures
        pieces(a).len() > 0,
        pieces(a + (seq!['"'] + q + seq!['"'])) == pieces(a).drop_last().push(
            pieces(a).last() + (seq!['"'] + q + seq!['"']),
        ),
        pieces(a + (seq!['('] + comment + seq![')'])) == pieces(a).drop_last().push(
            pieces(a).last() + (seq!['('] + comment + seq![')']),
        ),
{
    lemma_plain(a, true);
    lemma_one(Mode::Plain, '"', true);
    lemma_one(Mode::Plain, '(', true);
    let s = seq!['"'] + q + seq!['"'];
    assert forall|k: int| 0 <= k < s.len() && #[trigger] s[k] == ';' implies mode_after(
        a + s.take(k),
        true,
    ) != Mode::Plain by {
        let part = q.take(k - 1);
        assert(s.take(k) =~= seq!['"'] + part);
        assert forall|i: int| 0 <= i < part.len() implies !seq!['"'].contains(#[trigger] part[i])
            && !seq!['\\'].contains(part[i]) by {
            assert(part[i] == q[i]);
        }
        lemma_inside_quotes(part, true);
        lemma_from_two(Mode::Plain, seq!['"'], part, true);
        lemma_marks_of_two(a, s.take(k), true);
    }
    lemma_no_new_piece(a, s);
    let t = seq!['('] + comment + seq![')'];
    assert forall|k: int| 0 <= k < t.len() && #[trigger] t[k] == ';' implies mode_after(
        a + t.take(k),
        true,
    ) != Mode::Plain by {
        let part = comment.take(k - 1);
        assert(t.take(k) =~= seq!['('] + part);
        assert forall|i: int| 0 <= i < part.len() implies !seq!['(', ')'].contains(
            #[trigger] part[i],
        ) && !seq!['\\'].contains(part[i]) by {
            assert(part[i] == comment[i]);
        }
        lemma_inside_comment(1, part, true);
        lemma_from_two(Mode::Plain, seq!['('], part, true);
        lemma_marks_of_two(a, t.take(k), true);
    }
    lemma_no_new_piece(a, t);
}

} // verus!
