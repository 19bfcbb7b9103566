//! Text as sequences of characters: the handful of string operations that the
//! parsers are made of, each with a model over `Seq<char>`.
//!
//! Parsing works on `&[char]`; `chars_of` and `string_of` convert at the edges.
use vstd::prelude::*;

verus! {

/// `String::push`: the character goes to the end of the text.
pub assume_specification[ String::push ](s: &mut String, c: char)
    ensures
        final(s)@ == old(s)@.push(c),
;

/// A set of characters to trim or to split at.
pub enum CharClass {
    /// Unicode `White_Space`.
    White,
    /// The whitespace of ASCII: space, tab, line feed, form feed, carriage return.
    AsciiWhite,
    /// One character.
    Only(char),
}

/// The characters with the Unicode property `White_Space`.
pub open spec fn is_white(c: char) -> bool {
    ||| 0x9 <= c as u32 <= 0xd
    ||| c as u32 == 0x20
    ||| c as u32 == 0x85
    ||| c as u32 == 0xa0
    ||| c as u32 == 0x1680
    ||| 0x2000 <= c as u32 <= 0x200a
    ||| c as u32 == 0x2028
    ||| c as u32 == 0x2029
    ||| c as u32 == 0x202f
    ||| c as u32 == 0x205f
    ||| c as u32 == 0x3000
}

impl CharClass {
    /// Whether `c` belongs to the class.
    pub open spec fn has(self, c: char) -> bool {
        match self {
            CharClass::White => is_white(c),
            CharClass::AsciiWhite => c == ' ' || c == '\t' || c == '\n' || c as u32 == 0xc || c
                == '\r',
            CharClass::Only(only) => c == only,
        }
    }

    /// Tells whether `c` belongs to the class.
    pub fn contains(&self, c: char) -> (r: bool)
        ensures
            r == self.has(c),
    {
        let n: u32 = c as u32;
        match self {
            CharClass::White => {
                (0x9 <= n && n <= 0xd) || n == 0x20 || n == 0x85 || n == 0xa0 || n == 0x1680 || (
                0x2000 <= n && n <= 0x200a) || n == 0x2028 || n == 0x2029 || n == 0x202f || n
                    == 0x205f || n == 0x3000
            },
            CharClass::AsciiWhite => {
                c == ' ' || c == '\t' || c == '\n' || n == 0xc || c == '\r'
            },
            CharClass::Only(only) => c == *only,
        }
    }
}

/// `s` without the characters of `class` at its start.
pub open spec fn strip_start(s: Seq<char>, class: CharClass) -> Seq<char>
    decreases s.len(),
{
    if s.len() > 0 && class.has(s[0]) {
        strip_start(s.drop_first(), class)
    } else {
        s
    }
}

/// `s` without the characters of `class` at its end.
pub open spec fn strip_end(s: Seq<char>, class: CharClass) -> Seq<char>
    decreases s.len(),
{
    if s.len() > 0 && class.has(s.last()) {
        strip_end(s.drop_last(), class)
    } else {
        s
    }
}

/// `s` without the characters of `class` at either end.
pub open spec fn strip(s: Seq<char>, class: CharClass) -> Seq<char> {
    strip_end(strip_start(s, class), class)
}

/// `s` without the whitespace around it.
pub open spec fn trimmed(s: Seq<char>) -> Seq<char> {
    strip(s, CharClass::White)
}

/// `s` up to the first character of `class`.
pub open spec fn before(s: Seq<char>, class: CharClass) -> Seq<char>
    decreases s.len(),
{
    if s.len() == 0 || class.has(s[0]) {
        Seq::empty()
    } else {
        seq![s[0]] + before(s.drop_first(), class)
    }
}

/// The first stretch of `s` that is free of the characters of `class`, if
/// there is one.
pub open spec fn first_word(s: Seq<char>, class: CharClass) -> Option<Seq<char>> {
    let rest = strip_start(s, class);
    if rest.len() == 0 {
        None
    } else {
        Some(before(rest, class))
    }
}

/// The small letter for an ASCII capital; any other character itself.
pub open spec fn lower_char(c: char) -> char {
    if 'A' <= c && c <= 'Z' {
        (c as u8 + 32) as u8 as char
    } else {
        c
    }
}

/// `s` with its ASCII capitals made small.
pub open spec fn lower(s: Seq<char>) -> Seq<char> {
    s.map_values(|c: char| lower_char(c))
}

/// Whether two texts agree but for the case of ASCII letters.
pub open spec fn eq_ignore_case(a: Seq<char>, b: Seq<char>) -> bool {
    lower(a) == lower(b)
}

/// Whether `s` begins with `prefix`.
pub open spec fn begins(s: Seq<char>, prefix: Seq<char>) -> bool {
    prefix.len() <= s.len() && s.take(prefix.len() as int) == prefix
}

/// Whether `s` ends with `suffix`.
pub open spec fn ends(s: Seq<char>, suffix: Seq<char>) -> bool {
    suffix.len() <= s.len() && s.skip(s.len() - suffix.len()) == suffix
}

/// The pieces of `s` between the occurrences of `sep`: one more than there are
/// occurrences.
pub open spec fn split(s: Seq<char>, sep: char) -> Seq<Seq<char>>
    decreases s.len(),
{
    if s.len() == 0 {
        seq![Seq::empty()]
    } else {
        let pieces = split(s.drop_last(), sep);
        if s.last() == sep {
            pieces.push(Seq::empty())
        } else {
            pieces.drop_last().push(pieces.last().push(s.last()))
        }
    }
}

/// The pieces one after another, with `sep` between them.
pub open spec fn join(pieces: Seq<Seq<char>>, sep: char) -> Seq<char>
    decreases pieces.len(),
{
    if pieces.len() == 0 {
        Seq::empty()
    } else if pieces.len() == 1 {
        pieces[0]
    } else {
        join(pieces.drop_last(), sep).push(sep) + pieces.last()
    }
}

/// What stands before and after the first `sep` in `s`, if there is one.
pub open spec fn split_first(s: Seq<char>, sep: char) -> Option<(Seq<char>, Seq<char>)>
    decreases s.len(),
{
    if s.len() == 0 {
        None
    } else if s[0] == sep {
        Some((Seq::empty(), s.drop_first()))
    } else {
        match split_first(s.drop_first(), sep) {
            Some((a, b)) => Some((seq![s[0]] + a, b)),
            None => None,
        }
    }
}

/// What stands before and after the last `sep` in `s`, if there is one.
pub open spec fn split_last(s: Seq<char>, sep: char) -> Option<(Seq<char>, Seq<char>)>
    decreases s.len(),
{
    if s.len() == 0 {
        None
    } else if s.last() == sep {
        Some((s.drop_last(), Seq::empty()))
    } else {
        match split_last(s.drop_last(), sep) {
            Some((a, b)) => Some((a, b.push(s.last()))),
            None => None,
        }
    }
}

/// The texts that a list of vectors holds.
pub open spec fn texts(v: Seq<Vec<char>>) -> Seq<Seq<char>> {
    v.map_values(|t: Vec<char>| t@)
}

/// The texts that a list of strings holds.
pub open spec fn strings(v: Seq<String>) -> Seq<Seq<char>> {
    v.map_values(|s: String| s@)
}

/// The characters of `s`.
pub fn chars_of(s: &str) -> (r: Vec<char>)
    ensures
        r@ == s@,
{
    let mut r: Vec<char> = Vec::new();
    for c in it: s.chars()
        invariant
            it.seq() == s@,
            r@ == s@.take(it.index() as int),
    {
        proof {
            assert(s@.take(it.index() as int + 1) =~= s@.take(it.index() as int).push(c));
        }
        r.push(c);
    }
    proof {
        assert(s@.take(s@.len() as int) =~= s@);
    }
    r
}

/// The text made of the characters `s`.
pub fn string_of(s: &[char]) -> (r: String)
    ensures
        r@ == s@,
{
    let mut r: String = String::new();
    let mut i: usize = 0;
    while i < s.len()
        invariant
            i <= s.len(),
            r@ == s@.take(i as int),
        decreases s.len() - i,
    {
        proof {
            assert(s@.take(i + 1) =~= s@.take(i as int).push(s@[i as int]));
        }
        r.push(s[i]);
        i += 1;
    }
    proof {
        assert(s@.take(s@.len() as int) =~= s@);
    }
    r
}

/// A copy of the characters `s`.
pub fn copy_of(s: &[char]) -> (r: Vec<char>)
    ensures
        r@ == s@,
{
    let mut r: Vec<char> = Vec::new();
    let mut i: usize = 0;
    while i < s.len()
        invariant
            i <= s.len(),
            r@ == s@.take(i as int),
        decreases s.len() - i,
    {
        proof {
            assert(s@.take(i + 1) =~= s@.take(i as int).push(s@[i as int]));
        }
        r.push(s[i]);
        i += 1;
    }
    proof {
        assert(s@.take(s@.len() as int) =~= s@);
    }
    r
}

/// Takes the characters of `class` off the start of `s`.
pub fn strip_start_of<'a>(s: &'a [char], class: &CharClass) -> (r: &'a [char])
    ensures
        r@ == strip_start(s@, *class),
{
    let mut i: usize = 0;
    proof {
        assert(s@.skip(0) =~= s@);
    }
    while i < s.len() && class.contains(s[i])
        invariant
            i <= s.len(),
            strip_start(s@, *class) == strip_start(s@.skip(i as int), *class),
        decreases s.len() - i,
    {
        proof {
            assert(s@.skip(i as int).drop_first() =~= s@.skip(i + 1));
        }
        i += 1;
    }
    proof {
        assert(s@.subrange(i as int, s@.len() as int) =~= s@.skip(i as int));
    }
    &s[i..s.len()]
}

/// Takes the characters of `class` off the end of `s`.
pub fn strip_end_of<'a>(s: &'a [char], class: &CharClass) -> (r: &'a [char])
    ensures
        r@ == strip_end(s@, *class),
{
    let mut n: usize = s.len();
    proof {
        assert(s@.take(n as int) =~= s@);
    }
    while n > 0 && class.contains(s[n - 1])
        invariant
            n <= s.len(),
            strip_end(s@, *class) == strip_end(s@.take(n as int), *class),
        decreases n,
    {
        proof {
            assert(s@.take(n as int).drop_last() =~= s@.take(n - 1));
        }
        n -= 1;
    }
    proof {
        assert(s@.subrange(0, n as int) =~= s@.take(n as int));
    }
    &s[0..n]
}

/// Takes the characters of `class` off both ends of `s`.
pub fn strip_of<'a>(s: &'a [char], class: &CharClass) -> (r: &'a [char])
    ensures
        r@ == strip(s@, *class),
{
    strip_end_of(strip_start_of(s, class), class)
}

/// Takes the whitespace off both ends of `s`.
pub fn trim(s: &[char]) -> (r: &[char])
    ensures
        r@ == trimmed(s@),
{
    strip_of(s, &CharClass::White)
}

/// The part of `s` before the first character of `class`.
pub fn before_of<'a>(s: &'a [char], class: &CharClass) -> (r: &'a [char])
    ensures
        r@ == before(s@, *class),
{
    let mut i: usize = 0;
    proof {
        assert(s@.skip(0) =~= s@);
        assert(s@.take(0) + before(s@.skip(0), *class) =~= before(s@, *class));
    }
    while i < s.len() && !class.contains(s[i])
        invariant
            i <= s.len(),
            before(s@, *class) == s@.take(i as int) + before(s@.skip(i as int), *class),
        decreases s.len() - i,
    {
        proof {
            assert(s@.skip(i as int).drop_first() =~= s@.skip(i + 1));
            assert(s@.take(i + 1) + before(s@.skip(i + 1), *class) =~= s@.take(i as int) + before(
                s@.skip(i as int),
                *class,
            ));
        }
        i += 1;
    }
    proof {
        assert(before(s@.skip(i as int), *class) =~= Seq::<char>::empty());
        assert(s@.subrange(0, i as int) =~= s@.take(i as int) + Seq::<char>::empty());
    }
    &s[0..i]
}

/// The first word of `s`, with the characters of `class` between words.
pub fn first_word_of<'a>(s: &'a [char], class: &CharClass) -> (r: Option<&'a [char]>)
    ensures
        match r {
            Some(w) => first_word(s@, *class) == Some(w@),
            None => first_word(s@, *class) is None,
        },
{
    let rest = strip_start_of(s, class);
    if rest.len() == 0 {
        None
    } else {
        Some(before_of(rest, class))
    }
}

fn lower_char_of(c: char) -> (r: char)
    ensures
        r == lower_char(c),
{
    if 'A' <= c && c <= 'Z' {
        (c as u8 + 32) as char
    } else {
        c
    }
}

/// `s` with its ASCII capitals made small.
pub fn lower_of(s: &[char]) -> (r: Vec<char>)
    ensures
        r@ == lower(s@),
{
    let mut r: Vec<char> = Vec::new();
    let mut i: usize = 0;
    while i < s.len()
        invariant
            i <= s.len(),
            r@ == lower(s@).take(i as int),
        decreases s.len() - i,
    {
        proof {
            assert(lower(s@).take(i + 1) =~= lower(s@).take(i as int).push(lower(s@)[i as int]));
        }
        r.push(lower_char_of(s[i]));
        i += 1;
    }
    proof {
        assert(lower(s@).take(s@.len() as int) =~= lower(s@));
    }
    r
}

/// Tells whether two texts are the same.
pub fn same(a: &[char], b: &[char]) -> (r: bool)
    ensures
        r == (a@ == b@),
{
    if a.len() != b.len() {
        return false;
    }
    let mut i: usize = 0;
    while i < a.len()
        invariant
            i <= a.len(),
            a.len() == b.len(),
            a@.take(i as int) == b@.take(i as int),
        decreases a.len() - i,
    {
        if a[i] != b[i] {
            return false;
        }
        proof {
            assert(a@.take(i + 1) =~= a@.take(i as int).push(a@[i as int]));
            assert(b@.take(i + 1) =~= b@.take(i as int).push(b@[i as int]));
        }
        i += 1;
    }
    proof {
        assert(a@.take(a@.len() as int) =~= a@);
        assert(b@.take(b@.len() as int) =~= b@);
    }
    true
}

/// Tells whether `s` holds the character `c`.
pub fn has_char(s: &[char], c: char) -> (r: bool)
    ensures
        r == s@.contains(c),
{
    let mut i: usize = 0;
    while i < s.len()
        invariant
            i <= s.len(),
            forall|j: int| 0 <= j < i ==> s@[j] != c,
        decreases s.len() - i,
    {
        if s[i] == c {
            assert(s@[i as int] == c);
            return true;
        }
        i += 1;
    }
    false
}

/// Tells whether two texts agree but for the case of ASCII letters.
pub fn same_ignore_case(a: &[char], b: &[char]) -> (r: bool)
    ensures
        r == eq_ignore_case(a@, b@),
{
    let x = lower_of(a);
    let y = lower_of(b);
    same(&x, &y)
}

/// Tells whether `s` begins with `prefix`.
pub fn begins_with(s: &[char], prefix: &[char]) -> (r: bool)
    ensures
        r == begins(s@, prefix@),
{
    if prefix.len() <= s.len() {
        proof {
            assert(s@.subrange(0, prefix@.len() as int) =~= s@.take(prefix@.len() as int));
        }
        same(&s[0..prefix.len()], prefix)
    } else {
        false
    }
}

/// Tells whether `s` ends with `suffix`.
pub fn ends_with(s: &[char], suffix: &[char]) -> (r: bool)
    ensures
        r == ends(s@, suffix@),
{
    if suffix.len() <= s.len() {
        let from: usize = s.len() - suffix.len();
        proof {
            assert(s@.subrange(from as int, s@.len() as int) =~= s@.skip(from as int));
        }
        same(&s[from..s.len()], suffix)
    } else {
        false
    }
}

/// The pieces of `s` between the occurrences of `sep`.
pub fn split_at_char(s: &[char], sep: char) -> (r: Vec<Vec<char>>)
    ensures
        texts(r@) == split(s@, sep),
        r@.len() > 0,
{
    let mut r: Vec<Vec<char>> = Vec::new();
    let mut piece: Vec<char> = Vec::new();
    let mut i: usize = 0;
    proof {
        assert(s@.take(0) =~= Seq::<char>::empty());
        assert(texts(r@).push(piece@) =~= seq![Seq::<char>::empty()]);
    }
    while i < s.len()
        invariant
            i <= s.len(),
            texts(r@).push(piece@) == split(s@.take(i as int), sep),
        decreases s.len() - i,
    {
        let c = s[i];
        proof {
            assert(s@.take(i + 1).drop_last() =~= s@.take(i as int));
            assert(split(s@.take(i as int), sep).drop_last() =~= texts(r@));
        }
        if c == sep {
            let ghost before_push = r@;
            r.push(piece);
            proof {
                assert(texts(r@) =~= texts(before_push).push(piece@));
            }
            piece = Vec::new();
        } else {
            piece.push(c);
        }
        i += 1;
    }
    let ghost before_push = r@;
    r.push(piece);
    proof {
        assert(s@.take(s@.len() as int) =~= s@);
        assert(texts(r@) =~= texts(before_push).push(piece@));
    }
    r
}

/// Joins the pieces with `sep` between them.
pub fn join_with(pieces: &[Vec<char>], sep: char) -> (r: Vec<char>)
    ensures
        r@ == join(texts(pieces@), sep),
{
    let mut r: Vec<char> = Vec::new();
    let mut i: usize = 0;
    while i < pieces.len()
        invariant
            i <= pieces.len(),
            r@ == join(texts(pieces@).take(i as int), sep),
        decreases pieces.len() - i,
    {
        if i > 0 {
            r.push(sep);
        }
        let ghost start = r@;
        let mut j: usize = 0;
        proof {
            assert(start + pieces@[i as int]@.take(0) =~= start);
        }
        while j < pieces[i].len()
            invariant
                i < pieces.len(),
                j <= pieces@[i as int]@.len(),
                r@ == start + pieces@[i as int]@.take(j as int),
            decreases pieces@[i as int]@.len() - j,
        {
            r.push(pieces[i][j]);
            proof {
                assert(start + pieces@[i as int]@.take(j + 1) =~= r@);
            }
            j += 1;
        }
        proof {
            let all = texts(pieces@);
            assert(pieces@[i as int]@.take(j as int) =~= pieces@[i as int]@);
            assert(all.take(i + 1).drop_last() =~= all.take(i as int));
            assert(all.take(i + 1).last() == pieces@[i as int]@);
            assert(r@ =~= join(all.take(i + 1), sep));
        }
        i += 1;
    }
    proof {
        assert(texts(pieces@).take(pieces@.len() as int) =~= texts(pieces@));
    }
    r
}

/// Cuts `s` at the first `sep`.
pub fn split_at_first<'a>(s: &'a [char], sep: char) -> (r: Option<(&'a [char], &'a [char])>)
    ensures
        match r {
            Some((a, b)) => split_first(s@, sep) == Some((a@, b@)),
            None => split_first(s@, sep) is None,
        },
{
    let mut i: usize = 0;
    proof {
        assert(s@.skip(0) =~= s@);
    }
    while i < s.len()
        invariant
            i <= s.len(),
            split_first(s@, sep) == match split_first(s@.skip(i as int), sep) {
                Some((a, b)) => Some((s@.take(i as int) + a, b)),
                None => None,
            },
        decreases s.len() - i,
    {
        proof {
            assert(s@.skip(i as int).drop_first() =~= s@.skip(i + 1));
        }
        if s[i] == sep {
            proof {
                assert(s@.take(i as int) + Seq::<char>::empty() =~= s@.subrange(0, i as int));
                assert(s@.skip(i + 1) =~= s@.subrange(i + 1, s@.len() as int));
            }
            return Some((&s[0..i], &s[i + 1..s.len()]));
        }
        proof {
            if let Some((a, b)) = split_first(s@.skip(i + 1), sep) {
                assert(s@.take(i as int) + (seq![s@[i as int]] + a) =~= s@.take(i + 1) + a);
            }
        }
        i += 1;
    }
    None
}

/// Cuts `s` at the last `sep`.
pub fn split_at_last<'a>(s: &'a [char], sep: char) -> (r: Option<(&'a [char], &'a [char])>)
    ensures
        match r {
            Some((a, b)) => split_last(s@, sep) == Some((a@, b@)),
            None => split_last(s@, sep) is None,
        },
{
    let mut n: usize = s.len();
    proof {
        assert(s@.take(n as int) =~= s@);
        if let Some((a, b)) = split_last(s@, sep) {
            assert(b + s@.skip(n as int) =~= b);
        }
    }
    while n > 0
        invariant
            n <= s.len(),
            split_last(s@, sep) == match split_last(s@.take(n as int), sep) {
                Some((a, b)) => Some((a, b + s@.skip(n as int))),
                None => None,
            },
        decreases n,
    {
        proof {
            assert(s@.take(n as int).drop_last() =~= s@.take(n - 1));
        }
        if s[n - 1] == sep {
            proof {
                assert(Seq::<char>::empty() + s@.skip(n as int) =~= s@.subrange(
                    n as int,
                    s@.len() as int,
                ));
                assert(s@.take(n - 1) =~= s@.subrange(0, n - 1));
            }
            return Some((&s[0..n - 1], &s[n..s.len()]));
        }
        proof {
            if let Some((a, b)) = split_last(s@.take(n - 1), sep) {
                assert(b.push(s@[n - 1]) + s@.skip(n as int) =~= b + s@.skip(n - 1));
            }
        }
        n -= 1;
    }
    None
}

/// A split has at least one piece, and no piece holds the separator.
pub proof fn split_pieces_are_free_of_the_separator(s: Seq<char>, sep: char)
    ensures
        split(s, sep).len() > 0,
        forall|i: int| 0 <= i < split(s, sep).len() ==> !(#[trigger] split(s, sep)[i]).contains(sep),
    decreases s.len(),
{
    if s.len() > 0 {
        split_pieces_are_free_of_the_separator(s.drop_last(), sep);
        let pieces = split(s.drop_last(), sep);
        assert forall|i: int| 0 <= i < split(s, sep).len() implies !(#[trigger] split(
            s,
            sep,
        )[i]).contains(sep) by {
            if s.last() != sep && i == pieces.len() - 1 {
                let piece = split(s, sep)[i];
                assert(piece == pieces.last().push(s.last()));
                assert(!pieces[i].contains(sep));
                if piece.contains(sep) {
                    let k = choose|k: int| 0 <= k < piece.len() && piece[k] == sep;
                    assert(pieces.last()[k] == sep);
                }
            } else if i < pieces.len() {
                assert(split(s, sep)[i] == pieces[i]);
            }
        }
    }
}

/// Joining the pieces of a split gives the text back.
pub proof fn join_undoes_split(s: Seq<char>, sep: char)
    ensures
        join(split(s, sep), sep) == s,
    decreases s.len(),
{
    reveal_with_fuel(join, 3);
    split_pieces_are_free_of_the_separator(s, sep);
    if s.len() == 0 {
        assert(join(split(s, sep), sep) =~= s);
    } else {
        let init = s.drop_last();
        join_undoes_split(init, sep);
        split_pieces_are_free_of_the_separator(init, sep);
        let pieces = split(init, sep);
        if s.last() == sep {
            assert(split(s, sep).drop_last() =~= pieces);
            assert(join(split(s, sep), sep) =~= init.push(sep));
        } else {
            assert(split(s, sep).drop_last() =~= pieces.drop_last());
            if pieces.len() == 1 {
                assert(join(split(s, sep), sep) =~= pieces[0].push(s.last()));
            } else {
                assert(join(split(s, sep), sep) =~= join(pieces, sep).push(s.last()));
            }
        }
        assert(init.push(s.last()) =~= s);
    }
}

/// Splitting what was joined gives the pieces back, if none of them holds the
/// separator.
pub proof fn split_undoes_join(pieces: Seq<Seq<char>>, sep: char)
    requires
        pieces.len() > 0,
        forall|i: int| 0 <= i < pieces.len() ==> !(#[trigger] pieces[i]).contains(sep),
    ensures
        split(join(pieces, sep), sep) == pieces,
    decreases pieces.len(),
{
    if pieces.len() == 1 {
        split_of_extended(Seq::empty(), pieces[0], sep);
        assert(Seq::<char>::empty() + pieces[0] =~= pieces[0]);
        assert(split(pieces[0], sep) =~= pieces);
    } else {
        let init = pieces.drop_last();
        assert forall|i: int| 0 <= i < init.len() implies !(#[trigger] init[i]).contains(sep) by {
            assert(init[i] == pieces[i]);
        }
        split_undoes_join(init, sep);
        let head = join(init, sep).push(sep);
        assert(head.drop_last() =~= join(init, sep));
        assert(split(head, sep) == init.push(Seq::empty()));
        assert(!pieces[pieces.len() - 1].contains(sep));
        split_of_extended(head, pieces.last(), sep);
        assert(init.push(Seq::empty()).drop_last() =~= init);
        assert(init.push(Seq::<char>::empty() + pieces.last()) =~= pieces);
    }
}

/// Text without the separator only lengthens the last piece.
pub proof fn split_of_extended(s: Seq<char>, tail: Seq<char>, sep: char)
    requires
        !tail.contains(sep),
    ensures
        split(s + tail, sep) == split(s, sep).drop_last().push(split(s, sep).last() + tail),
    decreases tail.len(),
{
    split_pieces_are_free_of_the_separator(s, sep);
    let pieces = split(s, sep);
    if tail.len() == 0 {
        assert(s + tail =~= s);
        assert(pieces.last() + tail =~= pieces.last());
        assert(pieces.drop_last().push(pieces.last()) =~= pieces);
    } else {
        let init = tail.drop_last();
        assert(!init.contains(sep)) by {
            if init.contains(sep) {
                let k = choose|k: int| 0 <= k < init.len() && init[k] == sep;
                assert(tail[k] == sep);
            }
        }
        assert(tail[tail.len() - 1] != sep);
        split_of_extended(s, init, sep);
        assert((s + tail).drop_last() =~= s + init);
        let before = split(s + init, sep);
        assert(before.drop_last() =~= pieces.drop_last());
        assert(before.last().push(tail.last()) =~= pieces.last() + tail);
    }
}

/// Joining two lists of pieces puts the separator between what each gives.
pub proof fn join_of_two_lists(a: Seq<Seq<char>>, b: Seq<Seq<char>>, sep: char)
    requires
        a.len() > 0,
        b.len() > 0,
    ensures
        join(a + b, sep) == join(a, sep).push(sep) + join(b, sep),
    decreases b.len(),
{
    assert((a + b).drop_last() =~= a + b.drop_last());
    assert((a + b).last() == b.last());
    if b.len() == 1 {
        assert(a + b.drop_last() =~= a);
    } else {
        join_of_two_lists(a, b.drop_last(), sep);
        assert(join(a + b, sep) =~= join(a, sep).push(sep) + join(b, sep));
    }
}

/// Making letters small twice is making them small once.
pub proof fn lower_is_idempotent(s: Seq<char>)
    ensures
        lower(lower(s)) == lower(s),
{
    assert(lower(lower(s)) =~= lower(s));
}

/// Trimming does not care about the case of letters.
pub proof fn lower_commutes_with_strip(s: Seq<char>, class: CharClass)
    requires
        forall|c: char| class.has(c) == class.has(lower_char(c)),
    ensures
        strip_start(lower(s), class) == lower(strip_start(s, class)),
        strip_end(lower(s), class) == lower(strip_end(s, class)),
    decreases s.len(),
{
    if s.len() > 0 {
        assert(lower(s).drop_first() =~= lower(s.drop_first()));
        assert(lower(s).drop_last() =~= lower(s.drop_last()));
        lower_commutes_with_strip(s.drop_first(), class);
        lower_commutes_with_strip(s.drop_last(), class);
        assert(class.has(s[0]) == class.has(lower_char(s[0])));
        assert(class.has(s.last()) == class.has(lower_char(s.last())));
    }
}

/// What is left after stripping the end does not end in the class.
pub proof fn strip_end_leaves_no_end(s: Seq<char>, class: CharClass)
    ensures
        strip_end(s, class).len() > 0 ==> !class.has(strip_end(s, class).last()),
        strip_end(s, class).len() <= s.len(),
        strip_end(s, class) == s.take(strip_end(s, class).len() as int),
    decreases s.len(),
{
    if s.len() > 0 && class.has(s.last()) {
        strip_end_leaves_no_end(s.drop_last(), class);
        assert(s.drop_last().take(strip_end(s, class).len() as int) =~= s.take(
            strip_end(s, class).len() as int,
        ));
    } else {
        assert(s.take(s.len() as int) =~= s);
    }
}

/// Stripping the start leaves the end of the text.
pub proof fn strip_start_leaves_a_suffix(s: Seq<char>, class: CharClass)
    ensures
        strip_start(s, class).len() > 0 ==> !class.has(strip_start(s, class)[0]),
        strip_start(s, class).len() <= s.len(),
        strip_start(s, class) == s.skip(s.len() - strip_start(s, class).len()),
    decreases s.len(),
{
    if s.len() > 0 && class.has(s[0]) {
        let rest = s.drop_first();
        strip_start_leaves_a_suffix(rest, class);
        let n = strip_start(s, class).len();
        assert(rest.skip(rest.len() - n) =~= s.skip(s.len() - n));
    } else {
        assert(s.skip(0) =~= s);
    }
}

/// A character outside the class stops the stripping of the start.
pub proof fn strip_start_of_pushed(s: Seq<char>, c: char, class: CharClass)
    requires
        !class.has(c),
    ensures
        strip_start(s.push(c), class) == strip_start(s, class).push(c),
    decreases s.len(),
{
    if s.len() > 0 {
        assert(s.push(c).drop_first() =~= s.drop_first().push(c));
        strip_start_of_pushed(s.drop_first(), c, class);
    } else {
        assert(s.push(c)[0] == c);
    }
}

/// A text is cut at the first separator: nothing before it holds the separator,
/// and both parts with the separator between them are the text.
pub proof fn cut_at_the_first(s: Seq<char>, sep: char)
    ensures
        match split_first(s, sep) {
            Some((a, b)) => s == a + seq![sep] + b && !a.contains(sep),
            None => !s.contains(sep),
        },
    decreases s.len(),
{
    if s.len() > 0 {
        let rest = s.drop_first();
        cut_at_the_first(rest, sep);
        assert(s =~= seq![s[0]] + rest);
        if s[0] == sep {
            assert(s =~= Seq::<char>::empty() + seq![sep] + rest);
        } else {
            match split_first(rest, sep) {
                Some((a, b)) => {
                    let longer = seq![s[0]] + a;
                    assert(s =~= longer + seq![sep] + b);
                    if longer.contains(sep) {
                        let k = choose|k: int| 0 <= k < longer.len() && longer[k] == sep;
                        assert(a[k - 1] == sep);
                    }
                },
                None => {
                    if s.contains(sep) {
                        let k = choose|k: int| 0 <= k < s.len() && s[k] == sep;
                        assert(rest[k - 1] == sep);
                    }
                },
            }
        }
    }
}

/// A text is cut at the last separator: nothing after it holds the separator, and
/// both parts with the separator between them are the text.
pub proof fn cut_at_the_last(s: Seq<char>, sep: char)
    ensures
        match split_last(s, sep) {
            Some((a, b)) => s == a + seq![sep] + b && !b.contains(sep),
            None => !s.contains(sep),
        },
    decreases s.len(),
{
    if s.len() > 0 {
        let init = s.drop_last();
        cut_at_the_last(init, sep);
        if s.last() == sep {
            assert(s =~= init + seq![sep] + Seq::<char>::empty());
        } else {
            match split_last(init, sep) {
                Some((a, b)) => {
                    let longer = b.push(s.last());
                    assert(s =~= init.push(s.last()));
                    assert(s =~= a + seq![sep] + longer);
                    if longer.contains(sep) {
                        let k = choose|k: int| 0 <= k < longer.len() && longer[k] == sep;
                        assert(b[k] == sep);
                    }
                },
                None => {
                    if s.contains(sep) {
                        let k = choose|k: int| 0 <= k < s.len() && s[k] == sep;
                        assert(init[k] == sep);
                    }
                },
            }
        }
    }
}

/// If nothing before a separator holds it, the text is cut there.
pub proof fn first_cut_is_where_the_head_is_free(a: Seq<char>, b: Seq<char>, sep: char)
    requires
        !a.contains(sep),
    ensures
        split_first(a + seq![sep] + b, sep) == Some((a, b)),
    decreases a.len(),
{
    let s = a + seq![sep] + b;
    if a.len() == 0 {
        assert(s.drop_first() =~= b);
        assert(a =~= Seq::<char>::empty());
    } else {
        let rest = a.drop_first();
        assert(a[0] != sep);
        assert(!rest.contains(sep)) by {
            if rest.contains(sep) {
                let k = choose|k: int| 0 <= k < rest.len() && rest[k] == sep;
                assert(a[k + 1] == sep);
            }
        }
        first_cut_is_where_the_head_is_free(rest, b, sep);
        assert(s.drop_first() =~= rest + seq![sep] + b);
        assert(seq![s[0]] + rest =~= a);
    }
}

/// If nothing after a separator holds it, the text is cut there.
pub proof fn last_cut_is_where_the_tail_is_free(a: Seq<char>, b: Seq<char>, sep: char)
    requires
        !b.contains(sep),
    ensures
        split_last(a + seq![sep] + b, sep) == Some((a, b)),
    decreases b.len(),
{
    let s = a + seq![sep] + b;
    if b.len() == 0 {
        assert(s.drop_last() =~= a);
        assert(b =~= Seq::<char>::empty());
    } else {
        let init = b.drop_last();
        assert(b[b.len() - 1] != sep);
        assert(!init.contains(sep)) by {
            if init.contains(sep) {
                let k = choose|k: int| 0 <= k < init.len() && init[k] == sep;
                assert(b[k] == sep);
            }
        }
        last_cut_is_where_the_tail_is_free(a, init, sep);
        assert(s.drop_last() =~= a + seq![sep] + init);
        assert(init.push(s.last()) =~= b);
    }
}

/// Making letters small keeps the length and every character but the capitals `A`
/// to `Z`, which lie 32 places before their small letters.
pub proof fn small_letters_stand_for_capitals(s: Seq<char>)
    ensures
        lower(s).len() == s.len(),
        forall|i: int|
            #![trigger s[i]]
            #![trigger lower(s)[i]]
            0 <= i < s.len() ==> if 'A' <= s[i] && s[i] <= 'Z' {
                lower(s)[i] as int == s[i] as int + 32
            } else {
                lower(s)[i] == s[i]
            },
{
}

/// A text begins with another exactly if it is that text and something after it.
pub proof fn beginning_is_followed_by_the_rest(s: Seq<char>, prefix: Seq<char>)
    ensures
        begins(s, prefix) <==> exists|rest: Seq<char>| s == #[trigger] (prefix + rest),
{
    if begins(s, prefix) {
        assert(s =~= prefix + s.skip(prefix.len() as int));
    }
    if exists|rest: Seq<char>| s == #[trigger] (prefix + rest) {
        assert(s.take(prefix.len() as int) =~= prefix);
    }
}

/// A text ends with another exactly if it is something and that text after it.
pub proof fn ending_follows_the_rest(s: Seq<char>, suffix: Seq<char>)
    ensures
        ends(s, suffix) <==> exists|rest: Seq<char>| s == #[trigger] (rest + suffix),
{
    if ends(s, suffix) {
        assert(s =~= s.take(s.len() - suffix.len()) + suffix);
    }
    if exists|rest: Seq<char>| s == #[trigger] (rest + suffix) {
        assert(s.skip(s.len() - suffix.len()) =~= suffix);
    }
}

/// Stripping takes characters of the class off both ends, and nothing else, until
/// none is left there.
pub proof fn stripping_takes_off_the_ends(s: Seq<char>, class: CharClass)
    ensures
        exists|i: int, j: int|
            {
                &&& 0 <= i <= j <= s.len()
                &&& strip(s, class) == #[trigger] s.subrange(i, j)
                &&& forall|k: int| 0 <= k < i ==> class.has(#[trigger] s[k])
                &&& forall|k: int| j <= k < s.len() ==> class.has(#[trigger] s[k])
                &&& i < j ==> !class.has(s[i]) && !class.has(s[j - 1])
            },
{
    let rest = strip_start(s, class);
    lemma_stripped_start(s, class);
    lemma_stripped_end(rest, class);
    let i = s.len() - rest.len();
    let j = i + strip(s, class).len();
    strip_start_leaves_a_suffix(s, class);
    strip_end_leaves_no_end(rest, class);
    assert forall|k: int| j <= k < s.len() implies class.has(#[trigger] s[k]) by {
        assert(rest[k - i] == s[k]);
    }
    assert(strip(s, class) =~= s.subrange(i, j));
}

proof fn lemma_stripped_start(s: Seq<char>, class: CharClass)
    ensures
        strip_start(s, class).len() <= s.len(),
        forall|k: int|
            0 <= k < s.len() - strip_start(s, class).len() ==> class.has(#[trigger] s[k]),
    decreases s.len(),
{
    if s.len() > 0 && class.has(s[0]) {
        let rest = s.drop_first();
        lemma_stripped_start(rest, class);
        assert forall|k: int| 0 <= k < s.len() - strip_start(s, class).len() implies class.has(
            #[trigger] s[k],
        ) by {
            if k > 0 {
                assert(rest[k - 1] == s[k]);
            }
        }
    }
}

proof fn lemma_stripped_end(s: Seq<char>, class: CharClass)
    ensures
        strip_end(s, class).len() <= s.len(),
        forall|k: int| strip_end(s, class).len() <= k < s.len() ==> class.has(#[trigger] s[k]),
    decreases s.len(),
{
    if s.len() > 0 && class.has(s.last()) {
        let init = s.drop_last();
        lemma_stripped_end(init, class);
        assert forall|k: int| strip_end(s, class).len() <= k < s.len() implies class.has(
            #[trigger] s[k],
        ) by {
            if k < init.len() {
                assert(init[k] == s[k]);
            }
        }
    }
}

/// Stripping leaves a text alone that has no character of the class at its ends.
pub proof fn bare_text_is_not_stripped(s: Seq<char>, class: CharClass)
    requires
        s.len() > 0 ==> !class.has(s[0]) && !class.has(s.last()),
    ensures
        strip(s, class) == s,
{
}

/// The part before the class is the longest beginning that holds no character of
/// it.
pub proof fn part_before_holds_none_of_the_class(s: Seq<char>, class: CharClass)
    ensures
        ({
            let n = before(s, class).len();
            &&& n <= s.len()
            &&& before(s, class) == s.take(n as int)
            &&& forall|k: int| 0 <= k < n ==> !class.has(#[trigger] s[k])
            &&& n < s.len() ==> class.has(s[n as int])
        }),
    decreases s.len(),
{
    if s.len() > 0 && !class.has(s[0]) {
        let rest = s.drop_first();
        part_before_holds_none_of_the_class(rest, class);
        let n = before(s, class).len();
        assert(before(s, class) =~= s.take(n as int));
        assert forall|k: int| 0 <= k < n implies !class.has(#[trigger] s[k]) by {
            if k > 0 {
                assert(rest[k - 1] == s[k]);
            }
        }
        if n < s.len() {
            assert(rest[n - 1] == s[n as int]);
        }
    }
}

/// The characters of the classes, by their code points.
pub proof fn whitespace_by_code_points(c: char, only: char)
    ensures
        CharClass::White.has(c) <==> set![
            9int, 10, 11, 12, 13, 32, 133, 160, 5760, 8192, 8193, 8194, 8195, 8196, 8197, 8198,
            8199, 8200, 8201, 8202, 8232, 8233, 8239, 8287, 12288,
        ].contains(c as int),
        CharClass::AsciiWhite.has(c) <==> set![9int, 10, 12, 13, 32].contains(c as int),
        CharClass::Only(only).has(c) <==> c == only,
{
}

/// Characters of the class around a text make no difference to what stripping
/// leaves of it.
pub proof fn surroundings_are_stripped(x: Seq<char>, s: Seq<char>, y: Seq<char>, class: CharClass)
    requires
        forall|k: int| 0 <= k < x.len() ==> class.has(#[trigger] x[k]),
        forall|k: int| 0 <= k < y.len() ==> class.has(#[trigger] y[k]),
    ensures
        strip(x + s + y, class) == strip(s, class),
        strip_start(x + s, class) == strip_start(s, class),
        strip_end(s + y, class) == strip_end(s, class),
    decreases x.len() + y.len(),
{
    if x.len() > 0 {
        let rest = x.drop_first();
        assert forall|k: int| 0 <= k < rest.len() implies class.has(#[trigger] rest[k]) by {
            assert(rest[k] == x[k + 1]);
        }
        assert(class.has(x[0]));
        surroundings_are_stripped(rest, s, y, class);
        assert((x + s).drop_first() =~= rest + s);
        assert((x + s + y).drop_first() =~= rest + s + y);
    } else if y.len() > 0 {
        let init = y.drop_last();
        assert forall|k: int| 0 <= k < init.len() implies class.has(#[trigger] init[k]) by {
            assert(init[k] == y[k]);
        }
        assert(class.has(y[y.len() - 1]));
        surroundings_are_stripped(x, s, init, class);
        assert((s + y).drop_last() =~= s + init);
        assert(x + s + init =~= s + init);
        assert(x + s + y =~= (s + init).push(y.last()));
        assert(x + s =~= s);
        lemma_strip_of_pushed(s + init, y.last(), class);
    } else {
        assert(x + s + y =~= s);
        assert(x + s =~= s);
        assert(s + y =~= s);
    }
}

proof fn lemma_strip_of_pushed(s: Seq<char>, c: char, class: CharClass)
    requires
        class.has(c),
    ensures
        strip(s.push(c), class) == strip(s, class),
    decreases s.len(),
{
    if s.len() == 0 {
        assert(s.push(c).drop_first() =~= s);
    } else if class.has(s[0]) {
        assert(s.push(c).drop_first() =~= s.drop_first().push(c));
        lemma_strip_of_pushed(s.drop_first(), c, class);
    } else {
        assert(s.push(c).drop_last() =~= s);
    }
}

/// The first word follows characters of the class and ends before the next of
/// these; a text that is made of them has no word.
pub proof fn first_word_ends_before_the_class(
    x: Seq<char>,
    word: Seq<char>,
    y: Seq<char>,
    class: CharClass,
)
    requires
        forall|k: int| 0 <= k < x.len() ==> class.has(#[trigger] x[k]),
        word.len() > 0,
        forall|k: int| 0 <= k < word.len() ==> !class.has(#[trigger] word[k]),
        y.len() > 0 ==> class.has(y[0]),
    ensures
        first_word(x + word + y, class) == Some(word),
        first_word(x, class) is None,
{
    let none = Seq::<char>::empty();
    surroundings_are_stripped(x, none, none, class);
    assert(x + none =~= x);
    let rest = word + y;
    surroundings_are_stripped(x, rest, none, class);
    assert(x + word + y =~= x + rest);
    assert(!class.has(word[0]));
    assert(strip_start(rest, class) == rest);
    part_before_holds_none_of_the_class(rest, class);
    let n = before(rest, class).len() as int;
    if n < word.len() {
        assert(rest[n] == word[n]);
    }
    if n > word.len() {
        assert(rest[word.len() as int] == y[0]);
    }
    assert(rest.take(n) =~= word);
}

/// Whatever follows a text, its pieces stay the same, but for the last one.
pub proof fn earlier_pieces_stay(s: Seq<char>, t: Seq<char>, sep: char)
    ensures
        split(s, sep).len() > 0,
        split(s + t, sep).len() >= split(s, sep).len(),
        forall|i: int|
            0 <= i < split(s, sep).len() - 1 ==> #[trigger] split(s + t, sep)[i] == split(s, sep)[i],
    decreases t.len(),
{
    split_pieces_are_free_of_the_separator(s, sep);
    if t.len() == 0 {
        assert(s + t =~= s);
    } else {
        earlier_pieces_stay(s, t.drop_last(), sep);
        assert((s + t).drop_last() =~= s + t.drop_last());
    }
}

/// Without the whitespace around it, a text begins with its first word.
#[verifier::spinoff_prover]
pub proof fn trimmed_text_begins_with_its_first_word(
    blank: Seq<char>,
    word: Seq<char>,
    tail: Seq<char>,
) -> (end: int)
    requires
        forall|k: int| 0 <= k < blank.len() ==> is_white(#[trigger] blank[k]),
        word.len() > 0,
        forall|k: int| 0 <= k < word.len() ==> !is_white(#[trigger] word[k]),
    ensures
        0 <= end <= tail.len(),
        trimmed(blank + word + tail) == word + tail.take(end),
{
    let white = CharClass::White;
    let s = blank + word + tail;
    let m = blank.len() as int;
    let n = word.len() as int;
    stripping_takes_off_the_ends(s, white);
    let (i, j) = choose|i: int, j: int|
        {
            &&& 0 <= i <= j <= s.len()
            &&& strip(s, white) == #[trigger] s.subrange(i, j)
            &&& forall|k: int| 0 <= k < i ==> white.has(#[trigger] s[k])
            &&& forall|k: int| j <= k < s.len() ==> white.has(#[trigger] s[k])
            &&& i < j ==> !white.has(s[i]) && !white.has(s[j - 1])
        };
    assert(s[m] == word[0] && s[m + n - 1] == word[n - 1]);
    assert(!is_white(word[0]) && !is_white(word[n - 1]));
    assert(i <= m && j >= m + n);
    if i < m {
        assert(s[i] == blank[i]);
    }
    assert(s.subrange(i, j) =~= word + tail.take(j - m - n));
    j - m - n
}

} // verus!
