//! The properties (`key=value`) that the tokens of an entry make up.
use crate::number;
use crate::text;
use vstd::prelude::*;

verus! {

/// A key and its value.
pub struct Property {
    pub key: Vec<char>,
    pub value: Vec<char>,
}

/// What the properties of a list say.
pub open spec fn listed(v: Seq<Property>) -> Seq<(Seq<char>, Seq<char>)> {
    v.map_values(|p: Property| (p.key@, p.value@))
}

/// Whether the token `next` goes on with the key that `w` begins. Whitespace and
/// comments may stand around the `.` and the `/` in a key, and before the `=`
/// after it.
pub open spec fn goes_on(w: Seq<char>, next: Seq<char>) -> bool {
    ||| w.len() > 0 && (w.last() == '.' || w.last() == '/')
    ||| next.len() > 0 && (next[0] == '=' || next[0] == '.' || next[0] == '/')
}

/// Whether a token can be the value that the `=` before it lacks: no property of
/// its own, unless it is quoted.
pub open spec fn is_value(tok: Seq<char>) -> bool {
    !tok.contains('=') || tok[0] == '"'
}

/// A key and its value, and how many tokens they take up.
pub struct Pair {
    pub key: Seq<char>,
    pub value: Seq<char>,
    pub used: nat,
}

/// The `key=value` that the tokens begin with, if they do, when `w` stands for
/// the first `n` of them. A value may stand apart from the `=` before it.
pub open spec fn pair_from(w: Seq<char>, toks: Seq<Seq<char>>, n: nat) -> Option<Pair>
    decreases toks.len() - n,
{
    match text::split_first(w, '=') {
        Some((key, value)) => if value.len() == 0 && n < toks.len() && is_value(toks[n as int]) {
            Some(Pair { key, value: toks[n as int], used: n + 1 })
        } else {
            Some(Pair { key, value, used: n })
        },
        None => if n < toks.len() && goes_on(w, toks[n as int]) {
            pair_from(w + toks[n as int], toks, n + 1)
        } else {
            None
        },
    }
}

/// The `key=value` that the tokens begin with, if they do.
pub open spec fn first_pair(toks: Seq<Seq<char>>) -> Option<Pair> {
    if toks.len() == 0 {
        None
    } else {
        pair_from(toks[0], toks, 1)
    }
}

/// A pair takes up at least one token, and no more than there are.
pub proof fn pair_takes_up_tokens(w: Seq<char>, toks: Seq<Seq<char>>, n: nat)
    requires
        1 <= n <= toks.len(),
    ensures
        match pair_from(w, toks, n) {
            Some(p) => 1 <= p.used <= toks.len(),
            None => true,
        },
    decreases toks.len() - n,
{
    if n < toks.len() {
        pair_takes_up_tokens(w + toks[n as int], toks, n + 1);
    }
}

/// The pairs that the tokens are made of, if they are made of pairs, none of
/// which lacks its value.
pub open spec fn pairs(toks: Seq<Seq<char>>) -> Option<Seq<(Seq<char>, Seq<char>)>>
    decreases toks.len(),
{
    if toks.len() == 0 {
        Some(Seq::empty())
    } else {
        proof {
            pair_takes_up_tokens(toks[0], toks, 1);
        }
        match first_pair(toks) {
            Some(p) => if p.value.len() == 0 {
                None
            } else {
                match pairs(toks.skip(p.used as int)) {
                    Some(rest) => Some(seq![(p.key, p.value)] + rest),
                    None => None,
                }
            },
            None => None,
        }
    }
}

/// Whether a key names a method: a word, and maybe a version after a `/`.
pub open spec fn is_method_key(key: Seq<char>) -> bool {
    &&& key.len() > 0
    &&& !key.contains('.')
    &&& !key.contains('"')
    &&& match text::split_first(key, '/') {
        Some((name, version)) => name.len() > 0 && number::all_digits(version),
        None => true,
    }
}

/// Whether a key names a property: a word, or two with a `.` between them.
pub open spec fn is_property_key(key: Seq<char>) -> bool {
    &&& key.len() > 0
    &&& !key.contains('/')
    &&& !key.contains('"')
    &&& match text::split_first(key, '.') {
        Some((kind, name)) => kind.len() > 0 && name.len() > 0 && !name.contains('.'),
        None => true,
    }
}

/// Whether the list begins with a method and goes on with properties.
pub open spec fn is_entry(list: Seq<(Seq<char>, Seq<char>)>) -> bool {
    &&& list.len() > 0
    &&& is_method_key(list[0].0)
    &&& forall|i: int| 1 <= i < list.len() ==> is_property_key((#[trigger] list[i]).0)
}

/// The method with its result, and the properties after it, if the tokens are
/// made up of these.
pub open spec fn properties(toks: Seq<Seq<char>>) -> Option<Seq<(Seq<char>, Seq<char>)>> {
    match pairs(toks) {
        Some(list) => if is_entry(list) {
            Some(list)
        } else {
            None
        },
        None => None,
    }
}

/// The properties that stand in one token each. Other tokens are skipped.
pub open spec fn single(toks: Seq<Seq<char>>) -> Seq<(Seq<char>, Seq<char>)>
    decreases toks.len(),
{
    if toks.len() == 0 {
        Seq::empty()
    } else {
        let before = single(toks.drop_last());
        match text::split_first(toks.last(), '=') {
            Some(property) => before.push(property),
            None => before,
        }
    }
}

/// The method that a key names: without the version after a `/`.
pub open spec fn method_name(key: Seq<char>) -> Seq<char> {
    match text::split_first(key, '/') {
        Some((name, _)) => name,
        None => key,
    }
}

/// Reads the method off a key.
pub fn method_of(key: &[char]) -> (r: Vec<char>)
    ensures
        r@ == method_name(key@),
{
    match text::split_at_first(key, '/') {
        Some((name, _)) => text::copy_of(name),
        None => text::copy_of(key),
    }
}

fn append(a: &mut Vec<char>, b: &[char])
    ensures
        final(a)@ == old(a)@ + b@,
{
    let ghost start = a@;
    let mut i: usize = 0;
    proof {
        assert(start + b@.take(0) =~= start);
    }
    while i < b.len()
        invariant
            i <= b.len(),
            a@ == start + b@.take(i as int),
        decreases b.len() - i,
    {
        a.push(b[i]);
        proof {
            assert(a@ =~= start + b@.take(i + 1));
        }
        i += 1;
    }
    proof {
        assert(b@.take(b@.len() as int) =~= b@);
    }
}

fn continues(w: &[char], next: &[char]) -> (r: bool)
    ensures
        r == goes_on(w@, next@),
{
    (w.len() > 0 && (w[w.len() - 1] == '.' || w[w.len() - 1] == '/')) || (next.len() > 0 && (
    next[0] == '=' || next[0] == '.' || next[0] == '/'))
}

fn can_be_value(tok: &[char]) -> (r: bool)
    ensures
        r == is_value(tok@),
{
    if text::has_char(tok, '=') {
        tok[0] == '"'
    } else {
        true
    }
}

/// A property and the number of tokens that it takes up.
type Found = (Property, usize);

/// Whether `p` is what was looked for.
spec fn agrees(p: Option<Found>, expected: Option<Pair>) -> bool {
    match p {
        Some((property, used)) => expected == Some(
            Pair { key: property.key@, value: property.value@, used: used as nat },
        ),
        None => expected is None,
    }
}

/// Finds the pair that the tokens begin with, from number `i` on.
fn pair_at(toks: &[Vec<char>], i: usize) -> (r: Option<Found>)
    requires
        i < toks@.len(),
    ensures
        agrees(r, first_pair(text::texts(toks@).skip(i as int))),
        match r {
            Some((_, used)) => 1 <= used <= toks@.len() - i,
            None => true,
        },
{
    let ghost all = text::texts(toks@).skip(i as int);
    let mut w = text::copy_of(&toks[i]);
    let mut n: usize = 1;
    proof {
        assert(all[0] == toks@[i as int]@);
    }
    loop
        invariant
            i < toks@.len(),
            1 <= n <= toks@.len() - i,
            all == text::texts(toks@).skip(i as int),
            first_pair(all) == pair_from(w@, all, n as nat),
        decreases toks@.len() - n,
    {
        proof {
            pair_takes_up_tokens(w@, all, n as nat);
            if n < toks@.len() - i {
                assert(all[n as int] == toks@[i + n]@);
            }
        }
        if let Some((k, v)) = text::split_at_first(&w, '=') {
            if v.len() == 0 && n < toks.len() - i && can_be_value(&toks[i + n]) {
                let value = text::copy_of(&toks[i + n]);
                return Some((Property { key: text::copy_of(k), value }, n + 1));
            }
            return Some((Property { key: text::copy_of(k), value: text::copy_of(v) }, n));
        }
        if n < toks.len() - i && continues(&w, &toks[i + n]) {
            append(&mut w, &toks[i + n]);
            n += 1;
        } else {
            return None;
        }
    }
}

/// Reads the pairs that the tokens are made of.
fn read_pairs(toks: &[Vec<char>]) -> (r: Option<Vec<Property>>)
    ensures
        match r {
            Some(list) => pairs(text::texts(toks@)) == Some(listed(list@)),
            None => pairs(text::texts(toks@)) is None,
        },
{
    let ghost all = text::texts(toks@);
    let mut list: Vec<Property> = Vec::new();
    let mut i: usize = 0;
    proof {
        assert(all.skip(0) =~= all);
        if let Some(rest) = pairs(all) {
            assert(listed(list@) + rest =~= rest);
        }
    }
    while i < toks.len()
        invariant
            i <= toks@.len(),
            all == text::texts(toks@),
            pairs(all) == (match pairs(all.skip(i as int)) {
                Some(rest) => Some(listed(list@) + rest),
                None => None,
            }),
        decreases toks@.len() - i,
    {
        match pair_at(toks, i) {
            Some((property, used)) => {
                if property.value.len() == 0 {
                    return None;
                }
                let ghost before = listed(list@);
                let ghost here = (property.key@, property.value@);
                list.push(property);
                proof {
                    let from = all.skip(i as int);
                    assert(from.skip(used as int) =~= all.skip(i + used));
                    assert(listed(list@) =~= before.push(here));
                    if let Some(rest) = pairs(all.skip(i + used)) {
                        assert(before + (seq![here] + rest) =~= listed(list@) + rest);
                    }
                }
                i += used;
            },
            None => {
                return None;
            },
        }
    }
    proof {
        assert(listed(list@) + Seq::<(Seq<char>, Seq<char>)>::empty() =~= listed(list@));
    }
    Some(list)
}

fn names_method(key: &[char]) -> (r: bool)
    ensures
        r == is_method_key(key@),
{
    if key.len() == 0 || text::has_char(key, '.') || text::has_char(key, '"') {
        return false;
    }
    match text::split_at_first(key, '/') {
        Some((name, version)) => name.len() > 0 && number::is_digits(version),
        None => true,
    }
}

fn names_property(key: &[char]) -> (r: bool)
    ensures
        r == is_property_key(key@),
{
    if key.len() == 0 || text::has_char(key, '/') || text::has_char(key, '"') {
        return false;
    }
    match text::split_at_first(key, '.') {
        Some((kind, name)) => kind.len() > 0 && name.len() > 0 && !text::has_char(name, '.'),
        None => true,
    }
}

/// Reads the method and the properties after it.
pub fn read_properties(toks: &[Vec<char>]) -> (r: Option<Vec<Property>>)
    ensures
        match r {
            Some(list) => list@.len() > 0 && properties(text::texts(toks@)) == Some(listed(list@)),
            None => properties(text::texts(toks@)) is None,
        },
{
    let list = match read_pairs(toks) {
        Some(list) => list,
        None => {
            return None;
        },
    };
    let ghost all = listed(list@);
    if list.len() == 0 || !names_method(&list[0].key) {
        return None;
    }
    let mut i: usize = 1;
    while i < list.len()
        invariant
            1 <= i <= list@.len(),
            all == listed(list@),
            pairs(text::texts(toks@)) == Some(all),
            forall|j: int| 1 <= j < i ==> is_property_key((#[trigger] all[j]).0),
        decreases list@.len() - i,
    {
        assert(all[i as int] == (list@[i as int].key@, list@[i as int].value@));
        if !names_property(&list[i].key) {
            return None;
        }
        i += 1;
    }
    Some(list)
}

/// Reads the properties that stand in one token each, from number `start` on.
pub fn read_single(toks: &[Vec<char>], start: usize) -> (list: Vec<Property>)
    requires
        start <= toks@.len(),
    ensures
        listed(list@) == single(text::texts(toks@).skip(start as int)),
{
    let ghost all = text::texts(toks@).skip(start as int);
    let mut list: Vec<Property> = Vec::new();
    let mut i: usize = start;
    proof {
        assert(listed(list@) =~= single(all.take(0)));
    }
    while i < toks.len()
        invariant
            start <= i <= toks@.len(),
            all == text::texts(toks@).skip(start as int),
            listed(list@) == single(all.take(i - start)),
        decreases toks@.len() - i,
    {
        proof {
            assert(all.take(i + 1 - start).drop_last() =~= all.take(i - start));
            assert(all.take(i + 1 - start).last() == toks@[i as int]@);
        }
        if let Some((k, v)) = text::split_at_first(&toks[i], '=') {
            let ghost before = list@;
            let property = Property { key: text::copy_of(k), value: text::copy_of(v) };
            list.push(property);
            proof {
                assert(listed(list@) =~= listed(before).push((k@, v@)));
            }
        }
        i += 1;
    }
    proof {
        assert(all.take(toks@.len() - start) =~= all);
    }
    list
}

/// Whether whitespace stands around the `=` makes no difference to a property.
pub proof fn property_may_be_spaced(key: Seq<char>, value: Seq<char>, rest: Seq<Seq<char>>)
    requires
        key.len() > 0,
        value.len() > 0,
        !key.contains('='),
        !value.contains('='),
        key.last() != '.' && key.last() != '/',
    ensures
        ({
            let whole = pairs(seq![key + seq!['='] + value] + rest);
            &&& pairs(seq![key, seq!['='], value] + rest) == whole
            &&& pairs(seq![key + seq!['='], value] + rest) == whole
            &&& pairs(seq![key, seq!['='] + value] + rest) == whole
            &&& whole == match pairs(rest) {
                Some(list) => Some(seq![(key, value)] + list),
                None => None,
            }
        }),
{
    let empty = Seq::<char>::empty();
    text::first_cut_is_where_the_head_is_free(key, value, '=');
    text::first_cut_is_where_the_head_is_free(key, empty, '=');
    text::cut_at_the_first(key, '=');
    if let Some((a, b)) = text::split_first(key, '=') {
        assert(key[a.len() as int] == '=');
    }
    assert(key + seq!['='] + empty =~= key + seq!['=']);
    let one = seq![key + seq!['='] + value] + rest;
    assert(one.skip(1) =~= rest);
    let three = seq![key, seq!['='], value] + rest;
    assert(three.skip(3) =~= rest);
    assert(three[2] == value);
    assert(pair_from(key + seq!['='], three, 2) == Some(Pair { key, value, used: 3 }));
    let two = seq![key + seq!['='], value] + rest;
    assert(two.skip(2) =~= rest);
    assert(two[1] == value);
    assert(pair_from(key + seq!['='], two, 1) == Some(Pair { key, value, used: 2 }));
    let other = seq![key, seq!['='] + value] + rest;
    assert(other.skip(2) =~= rest);
    assert(key + (seq!['='] + value) =~= key + seq!['='] + value);
    assert(pair_from(key + (seq!['='] + value), other, 2) == Some(Pair { key, value, used: 2 }));
}

/// A version after the name of a method is left out.
pub proof fn version_is_left_out(name: Seq<char>, version: Seq<char>)
    requires
        !name.contains('/'),
    ensures
        method_name(name + seq!['/'] + version) == name,
        method_name(name) == name,
{
    text::first_cut_is_where_the_head_is_free(name, version, '/');
    text::cut_at_the_first(name, '/');
    if let Some((a, b)) = text::split_first(name, '/') {
        assert(name[a.len() as int] == '/');
    }
}

/// Properties that stand in one token each are all read, in order.
pub proof fn single_properties_stand_in_order(
    a: Seq<Seq<char>>,
    b: Seq<Seq<char>>,
    key: Seq<char>,
    value: Seq<char>,
    stray: Seq<char>,
)
    requires
        !key.contains('='),
        !stray.contains('='),
    ensures
        single(a + b) == single(a) + single(b),
        single(seq![key + seq!['='] + value]) == seq![(key, value)],
        single(seq![stray]) == Seq::<(Seq<char>, Seq<char>)>::empty(),
    decreases b.len(),
{
    text::first_cut_is_where_the_head_is_free(key, value, '=');
    text::cut_at_the_first(stray, '=');
    if let Some((x, y)) = text::split_first(stray, '=') {
        assert(stray[x.len() as int] == '=');
    }
    let token = key + seq!['='] + value;
    assert(seq![token].drop_last() =~= Seq::<Seq<char>>::empty());
    assert(seq![stray].drop_last() =~= Seq::<Seq<char>>::empty());
    let none = Seq::<(Seq<char>, Seq<char>)>::empty();
    assert(single(Seq::<Seq<char>>::empty()) =~= none);
    assert(none.push((key, value)) =~= seq![(key, value)]);
    if b.len() == 0 {
        assert(a + b =~= a);
        assert(single(a) + none =~= single(a));
    } else {
        single_properties_stand_in_order(a, b.drop_last(), key, value, stray);
        assert((a + b).drop_last() =~= a + b.drop_last());
        assert(single(a + b) =~= single(a) + single(b));
    }
}

/// Whether whitespace stands around the dot in a key, or the slash before a version,
/// makes no difference to a property.
pub proof fn key_may_be_spaced(
    a: Seq<char>,
    sep: char,
    b: Seq<char>,
    value: Seq<char>,
    rest: Seq<Seq<char>>,
)
    requires
        sep == '.' || sep == '/',
        a.len() > 0,
        b.len() > 0,
        value.len() > 0,
        !a.contains('='),
        !b.contains('='),
    ensures
        ({
            let whole = pairs(seq![a + seq![sep] + b + seq!['='] + value] + rest);
            &&& pairs(seq![a, seq![sep], b + seq!['='] + value] + rest) == whole
            &&& pairs(seq![a + seq![sep], b + seq!['='] + value] + rest) == whole
            &&& pairs(seq![a, seq![sep] + b + seq!['='] + value] + rest) == whole
            &&& whole == match pairs(rest) {
                Some(list) => Some(seq![(a + seq![sep] + b, value)] + list),
                None => None,
            }
        }),
{
    let key = a + seq![sep] + b;
    let end = b + seq!['='] + value;
    lemma_free_of_equals(a, seq![sep]);
    lemma_free_of_equals(a + seq![sep], b);
    lemma_free_of_equals(a, Seq::empty());
    text::first_cut_is_where_the_head_is_free(key, value, '=');
    text::cut_at_the_first(a, '=');
    text::cut_at_the_first(a + seq![sep], '=');
    if let Some((x, y)) = text::split_first(a, '=') {
        assert(a[x.len() as int] == '=');
    }
    if let Some((x, y)) = text::split_first(a + seq![sep], '=') {
        assert((a + seq![sep])[x.len() as int] == '=');
    }
    let one = seq![a + seq![sep] + b + seq!['='] + value] + rest;
    assert(one.skip(1) =~= rest);
    assert(one[0] =~= key + seq!['='] + value);
    assert(pair_from(one[0], one, 1) == Some(Pair { key, value, used: 1 }));

    let three = seq![a, seq![sep], end] + rest;
    assert(three.skip(3) =~= rest);
    assert(three[1] == seq![sep] && three[2] == end);
    assert(a + seq![sep] + end =~= key + seq!['='] + value);
    assert(pair_from(a + seq![sep] + end, three, 3) == Some(Pair { key, value, used: 3 }));
    assert((a + seq![sep]).last() == sep);
    assert(pair_from(a + seq![sep], three, 2) == pair_from(a + seq![sep] + end, three, 3));
    assert(pair_from(a, three, 1) == pair_from(a + seq![sep], three, 2));

    let two = seq![a + seq![sep], end] + rest;
    assert(two.skip(2) =~= rest);
    assert(two[1] == end);
    assert(pair_from(a + seq![sep] + end, two, 2) == Some(Pair { key, value, used: 2 }));
    assert(pair_from(a + seq![sep], two, 1) == pair_from(a + seq![sep] + end, two, 2));

    let other = seq![a, seq![sep] + b + seq!['='] + value] + rest;
    assert(other.skip(2) =~= rest);
    assert(other[1] == seq![sep] + b + seq!['='] + value);
    assert(a + other[1] =~= key + seq!['='] + value);
    assert(pair_from(a + other[1], other, 2) == Some(Pair { key, value, used: 2 }));
    assert(pair_from(a, other, 1) == pair_from(a + other[1], other, 2));
}

proof fn lemma_free_of_equals(a: Seq<char>, b: Seq<char>)
    requires
        !a.contains('='),
        !b.contains('='),
    ensures
        !(a + b).contains('='),
{
    if (a + b).contains('=') {
        let k = choose|k: int| 0 <= k < (a + b).len() && (a + b)[k] == '=';
        if k < a.len() {
            assert(a[k] == '=');
        } else {
            assert(b[k - a.len()] == '=');
        }
    }
}

/// A property whose value is missing does not take the next property for it: such
/// tokens are not made of properties.
pub proof fn missing_value_is_not_borrowed(
    key: Seq<char>,
    next: Seq<char>,
    value: Seq<char>,
    rest: Seq<Seq<char>>,
)
    requires
        !key.contains('='),
        next.len() > 0,
        next[0] != '"',
    ensures
        pairs(seq![key + seq!['='], next + seq!['='] + value] + rest) is None,
        pairs(seq![key + seq!['=']]) is None,
{
    let empty = Seq::<char>::empty();
    text::first_cut_is_where_the_head_is_free(key, empty, '=');
    assert(key + seq!['='] + empty =~= key + seq!['=']);
    let tok = next + seq!['='] + value;
    assert(tok[next.len() as int] == '=');
    assert(tok.contains('='));
    assert(tok[0] == next[0]);
    let toks = seq![key + seq!['='], tok] + rest;
    assert(toks[1] == tok);
    assert(pair_from(toks[0], toks, 1) == Some(Pair { key, value: empty, used: 1 }));
    let alone = seq![key + seq!['=']];
    assert(pair_from(alone[0], alone, 1) == Some(Pair { key, value: empty, used: 1 }));
}

/// Tokens without any `=` make up no pair, however they go on.
proof fn lemma_no_pair(w: Seq<char>, toks: Seq<Seq<char>>, n: nat)
    requires
        !w.contains('='),
        n <= toks.len(),
        forall|i: int| 0 <= i < toks.len() ==> !(#[trigger] toks[i]).contains('='),
    ensures
        pair_from(w, toks, n) is None,
    decreases toks.len() - n,
{
    text::cut_at_the_first(w, '=');
    if let Some((x, y)) = text::split_first(w, '=') {
        assert(w[x.len() as int] == '=');
    }
    if n < toks.len() {
        lemma_free_of_equals(w, toks[n as int]);
        lemma_no_pair(w + toks[n as int], toks, n + 1);
    }
}

/// Tokens without any `=` are no properties.
pub proof fn words_are_no_properties(toks: Seq<Seq<char>>)
    requires
        toks.len() > 0,
        forall|i: int| 0 <= i < toks.len() ==> !(#[trigger] toks[i]).contains('='),
    ensures
        properties(toks) is None,
        single(toks) == Seq::<(Seq<char>, Seq<char>)>::empty(),
    decreases toks.len(),
{
    lemma_no_pair(toks[0], toks, 1);
    let init = toks.drop_last();
    assert forall|i: int| 0 <= i < init.len() implies !(#[trigger] init[i]).contains('=') by {
        assert(init[i] == toks[i]);
    }
    if init.len() > 0 {
        words_are_no_properties(init);
    }
    let last = toks[toks.len() - 1];
    text::cut_at_the_first(last, '=');
    if let Some((x, y)) = text::split_first(last, '=') {
        assert(last[x.len() as int] == '=');
    }
}

/// A word that belongs to no property keeps an entry from being made of properties.
pub proof fn stray_word_is_no_property(
    method: Seq<char>,
    result: Seq<char>,
    stray: Seq<char>,
    next: Seq<char>,
    rest: Seq<Seq<char>>,
)
    requires
        !method.contains('='),
        result.len() > 0,
        stray.len() > 0,
        !stray.contains('='),
        stray.last() != '.' && stray.last() != '/',
        next.len() > 0,
        next[0] != '=' && next[0] != '.' && next[0] != '/',
    ensures
        properties(seq![method + seq!['='] + result, stray, next] + rest) is None,
        properties(seq![method + seq!['='] + result, stray]) is None,
{
    text::first_cut_is_where_the_head_is_free(method, result, '=');
    text::cut_at_the_first(stray, '=');
    if let Some((x, y)) = text::split_first(stray, '=') {
        assert(stray[x.len() as int] == '=');
    }
    let toks = seq![method + seq!['='] + result, stray, next] + rest;
    let after = toks.skip(1);
    assert(after[0] == stray && after[1] == next);
    assert(pair_from(stray, after, 1) is None);
    assert(pairs(after) is None);
    assert(pair_from(toks[0], toks, 1) == Some(Pair { key: method, value: result, used: 1 }));
    assert(pairs(toks) is None);
    let few = seq![method + seq!['='] + result, stray];
    let one = few.skip(1);
    assert(one[0] == stray && one.len() == 1);
    assert(pair_from(stray, one, 1) is None);
    assert(pairs(one) is None);
    assert(pair_from(few[0], few, 1) == Some(Pair { key: method, value: result, used: 1 }));
}

/// An entry begins with a method, a word with a version at most, and goes on with
/// properties, whose keys are a word or two words with a dot between them.
pub proof fn entry_is_a_method_and_properties(
    method: Seq<char>,
    version: Seq<char>,
    result: Seq<char>,
    kind: Seq<char>,
    name: Seq<char>,
    value: Seq<char>,
)
    requires
        method.len() > 0 && version.len() > 0 && kind.len() > 0 && name.len() > 0,
        forall|k: int|
            0 <= k < method.len() ==> {
                let c = #[trigger] method[k];
                c != '.' && c != '/' && c != '"' && c != '='
            },
        forall|k: int|
            0 <= k < kind.len() ==> {
                let c = #[trigger] kind[k];
                c != '.' && c != '/' && c != '"' && c != '='
            },
        forall|k: int|
            0 <= k < name.len() ==> {
                let c = #[trigger] name[k];
                c != '.' && c != '/' && c != '"' && c != '='
            },
        forall|k: int| 0 <= k < version.len() ==> '0' <= #[trigger] version[k] && version[k] <= '9',
    ensures
        is_entry(seq![(method, result), (kind + seq!['.'] + name, value)]),
        is_entry(seq![(method + seq!['/'] + version, result), (name, value)]),
        !is_entry(seq![(kind + seq!['.'] + name, result)]),
        !is_entry(seq![(method.push('/'), result)]),
        (exists|k: int| 0 <= k < name.len() && !('0' <= #[trigger] name[k] && name[k] <= '9'))
            ==> !is_entry(seq![(method + seq!['/'] + name, result)]),
        !is_entry(seq![(method, result), (kind + seq!['/'] + name, value)]),
        !is_entry(seq![(method, result), (kind + seq!['.'] + name + seq!['.'] + kind, value)]),
        !is_entry(Seq::empty()),
{
    text::cut_at_the_first(method, '/');
    if let Some((x, y)) = text::split_first(method, '/') {
        assert(method[x.len() as int] == '/');
    }
    assert(!method.contains('/') && !kind.contains('.') && !name.contains('.'));
    assert(!name.contains('/') && !name.contains('"'));
    assert(number::all_digits(version));
    let none = Seq::<char>::empty();
    text::first_cut_is_where_the_head_is_free(method, none, '/');
    assert(method + seq!['/'] + none =~= method.push('/'));
    if exists|k: int| 0 <= k < name.len() && !('0' <= #[trigger] name[k] && name[k] <= '9') {
        let k = choose|k: int|
            0 <= k < name.len() && !('0' <= #[trigger] name[k] && name[k] <= '9');
        assert(!number::is_digit(name[k]));
    }
    text::first_cut_is_where_the_head_is_free(kind, name, '.');
    text::first_cut_is_where_the_head_is_free(method, version, '/');
    text::first_cut_is_where_the_head_is_free(method, name, '/');
    text::cut_at_the_first(name, '.');
    if let Some((x, y)) = text::split_first(name, '.') {
        assert(name[x.len() as int] == '.');
    }
    let dotted = kind + seq!['.'] + name;
    assert(dotted[kind.len() as int] == '.');
    let slashed = kind + seq!['/'] + name;
    assert(slashed[kind.len() as int] == '/');
    let versioned = method + seq!['/'] + version;
    assert forall|k: int| 0 <= k < versioned.len() implies versioned[k] != '.' && versioned[k]
        != '"' by {
        if k < method.len() {
            assert(versioned[k] == method[k]);
        } else if k > method.len() {
            assert(versioned[k] == version[k - method.len() - 1]);
        }
    }
    assert forall|k: int| 0 <= k < dotted.len() implies dotted[k] != '/' && dotted[k] != '"' by {
        if k < kind.len() {
            assert(dotted[k] == kind[k]);
        } else if k > kind.len() {
            assert(dotted[k] == name[k - kind.len() - 1]);
        }
    }
    let twice = kind + seq!['.'] + name + seq!['.'] + kind;
    let tail = name + seq!['.'] + kind;
    assert(twice =~= kind + seq!['.'] + tail);
    text::first_cut_is_where_the_head_is_free(kind, tail, '.');
    assert(tail[name.len() as int] == '.');
    let a = seq![(method, result), (slashed, value)];
    assert(a[1].0 == slashed);
    let b = seq![(method, result), (twice, value)];
    assert(b[1].0 == twice);
    assert(tail.contains('.'));
    assert(slashed.contains('/'));
    assert(dotted.contains('.'));
}

} // verus!
