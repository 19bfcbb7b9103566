//! What the mail store says about messages and mailboxes, in plain values.
use crate::text;
use vstd::prelude::*;

verus! {

/// What is looked at in a message.
#[derive(Debug, Clone)]
pub struct EmailFacts {
    pub mailbox_ids: Vec<String>,
    pub from_addresses: Vec<String>,
    pub auth_results_headers: Vec<String>,
}

/// How the mail store gives the `Authentication-Results` headers.
pub enum HeaderText {
    /// All of them.
    All(Vec<String>),
    /// One.
    One(String),
    /// None, or in a form that holds no text.
    Absent,
}

/// Whether two lists hold the same texts.
pub open spec fn same_texts(a: Seq<String>, b: Seq<String>) -> bool {
    a.len() == b.len() && forall|i: int| 0 <= i < a.len() ==> (#[trigger] a[i])@ == b[i]@
}

impl EmailFacts {
    /// Collects the facts about a message: the mailboxes it is in, the addresses
    /// in `From:`, if it has that header, and its `Authentication-Results`.
    pub fn new(
        mailbox_ids: Vec<String>,
        from: Option<Vec<String>>,
        auth_results: HeaderText,
    ) -> (facts: Self)
        ensures
            facts.mailbox_ids == mailbox_ids,
            facts.from_addresses@ == (match from {
                Some(addresses) => addresses@,
                None => Seq::empty(),
            }),
            facts.auth_results_headers@ == (match auth_results {
                HeaderText::All(headers) => headers@,
                HeaderText::One(header) => seq![header],
                HeaderText::Absent => Seq::empty(),
            }),
    {
        let from_addresses = match from {
            Some(addresses) => addresses,
            None => Vec::new(),
        };
        let auth_results_headers = match auth_results {
            HeaderText::All(headers) => headers,
            HeaderText::One(header) => {
                let mut one: Vec<String> = Vec::new();
                one.push(header);
                one
            },
            HeaderText::Absent => Vec::new(),
        };
        EmailFacts { mailbox_ids, from_addresses, auth_results_headers }
    }

    /// Whether the message is in this mailbox.
    pub open spec fn is_in(self, mailbox_id: Seq<char>) -> bool {
        exists|i: int|
            0 <= i < self.mailbox_ids@.len() && (#[trigger] self.mailbox_ids@[i])@ == mailbox_id
    }

    /// Tells whether the message is in this mailbox.
    pub fn in_mailbox(&self, mailbox_id: &String) -> (r: bool)
        ensures
            r == self.is_in(mailbox_id@),
    {
        let mut i: usize = 0;
        while i < self.mailbox_ids.len()
            invariant
                i <= self.mailbox_ids.len(),
                forall|j: int| 0 <= j < i ==> (#[trigger] self.mailbox_ids@[j])@ != mailbox_id@,
            decreases self.mailbox_ids.len() - i,
        {
            if self.mailbox_ids[i] == *mailbox_id {
                return true;
            }
            i += 1;
        }
        false
    }
}

/// The mailbox to use among those that a query found: the last one.
pub fn found_mailbox(ids: Vec<String>) -> (id: Option<String>)
    ensures
        id == if ids@.len() == 0 {
            None
        } else {
            Some(ids@.last())
        },
{
    let mut ids = ids;
    ids.pop()
}

/// Whether `a` comes before `b` in the order of their characters.
pub open spec fn comes_before(a: Seq<char>, b: Seq<char>) -> bool
    decreases a.len(),
{
    if b.len() == 0 {
        false
    } else if a.len() == 0 {
        true
    } else if a[0] == b[0] {
        comes_before(a.drop_first(), b.drop_first())
    } else {
        a[0] < b[0]
    }
}

/// Whether each text comes before all that follow it.
pub open spec fn ascending(list: Seq<String>) -> bool {
    forall|i: int, j: int|
        0 <= i < j < list.len() ==> comes_before((#[trigger] list[i])@, (#[trigger] list[j])@)
}

/// Whether a text is in the list.
pub open spec fn holds(list: Seq<String>, s: Seq<char>) -> bool {
    exists|i: int| 0 <= i < list.len() && (#[trigger] list[i])@ == s
}

/// Of two texts, one comes before the other, or they are the same.
proof fn lemma_order_is_total(a: Seq<char>, b: Seq<char>)
    ensures
        comes_before(a, b) || a == b || comes_before(b, a),
        !(comes_before(a, b) && comes_before(b, a)),
        !comes_before(a, a),
    decreases a.len(),
{
    if a.len() > 0 {
        lemma_order_is_total(a.drop_first(), a.drop_first());
    }
    if a.len() == 0 && b.len() == 0 {
        assert(a =~= b);
    } else if a.len() > 0 && b.len() > 0 && a[0] == b[0] {
        lemma_order_is_total(a.drop_first(), b.drop_first());
        if a.drop_first() == b.drop_first() {
            assert(a =~= seq![a[0]] + a.drop_first());
            assert(b =~= seq![b[0]] + b.drop_first());
        }
    }
}

/// The order is transitive.
proof fn lemma_order_is_transitive(a: Seq<char>, b: Seq<char>, c: Seq<char>)
    requires
        comes_before(a, b),
        comes_before(b, c),
    ensures
        comes_before(a, c),
    decreases a.len(),
{
    if a.len() > 0 && a[0] == b[0] && b[0] == c[0] {
        lemma_order_is_transitive(a.drop_first(), b.drop_first(), c.drop_first());
    }
}

/// Tells whether `a` comes before `b`.
fn is_before(a: &[char], b: &[char]) -> (r: bool)
    ensures
        r == comes_before(a@, b@),
{
    let mut i: usize = 0;
    proof {
        assert(a@.skip(0) =~= a@);
        assert(b@.skip(0) =~= b@);
    }
    while i < a.len() && i < b.len()
        invariant
            i <= a.len(),
            i <= b.len(),
            comes_before(a@, b@) == comes_before(a@.skip(i as int), b@.skip(i as int)),
        decreases a.len() - i,
    {
        if a[i] != b[i] {
            return a[i] < b[i];
        }
        proof {
            assert(a@.skip(i as int).drop_first() =~= a@.skip(i + 1));
            assert(b@.skip(i as int).drop_first() =~= b@.skip(i + 1));
        }
        i += 1;
    }
    i < b.len()
}

/// Puts a text into an ascending list, unless it is there.
fn insert_sorted(list: &mut Vec<String>, s: String)
    requires
        ascending(old(list)@),
    ensures
        ascending(final(list)@),
        forall|t: Seq<char>| #[trigger] holds(final(list)@, t) <==> holds(old(list)@, t) || t == s@,
{
    let ghost before = list@;
    let wanted = text::chars_of(s.as_str());
    let mut i: usize = 0;
    while i < list.len()
        invariant
            i <= list.len(),
            list@ == before,
            wanted@ == s@,
            ascending(before),
            forall|j: int| 0 <= j < i ==> comes_before((#[trigger] before[j])@, s@),
        ensures
            i < before.len() ==> comes_before(s@, before[i as int]@),
        decreases list.len() - i,
    {
        let here = text::chars_of(list[i].as_str());
        if text::same(&here, &wanted) {
            assert(before[i as int]@ == s@);
            return ;
        }
        if is_before(&wanted, &here) {
            break ;
        }
        proof {
            lemma_order_is_total(here@, wanted@);
        }
        i += 1;
    }
    proof {
        assert forall|j: int| i <= j < before.len() implies comes_before(
            s@,
            (#[trigger] before[j])@,
        ) by {
            if i < j {
                lemma_order_is_transitive(s@, before[i as int]@, before[j]@);
            }
        }
    }
    list.insert(i, s);
    proof {
        let after = list@;
        assert(after =~= before.insert(i as int, s));
        assert(ascending(after));
        assert forall|t: Seq<char>| #[trigger] holds(after, t) <==> holds(before, t) || t == s@ by {
            if holds(after, t) && t != s@ {
                let k = choose|k: int| 0 <= k < after.len() && (#[trigger] after[k])@ == t;
                let k2 = if k < i {
                    k
                } else {
                    k - 1
                };
                assert(before[k2] == after[k]);
            }
            if holds(before, t) {
                let k = choose|k: int| 0 <= k < before.len() && (#[trigger] before[k])@ == t;
                let k2 = if k < i {
                    k
                } else {
                    k + 1
                };
                assert(after[k2] == before[k]);
            }
            if t == s@ {
                assert(after[i as int]@ == t);
            }
        }
    }
}

/// The messages to look at after a change: those that were created, in ascending
/// order, each once.
pub fn created_ids(created: Vec<String>) -> (ids: Vec<String>)
    ensures
        ascending(ids@),
        forall|id: Seq<char>| #[trigger] holds(ids@, id) <==> holds(created@, id),
{
    let mut ids: Vec<String> = Vec::new();
    let mut i: usize = 0;
    while i < created.len()
        invariant
            i <= created.len(),
            ascending(ids@),
            forall|id: Seq<char>| #[trigger] holds(ids@, id) <==> holds(created@.take(i as int), id),
        decreases created.len() - i,
    {
        insert_sorted(&mut ids, created[i].clone());
        proof {
            lemma_holds_next(created@, i as int);
        }
        i += 1;
    }
    assert(created@.take(created@.len() as int) =~= created@);
    ids
}

/// What one more element adds to a list.
proof fn lemma_holds_next(list: Seq<String>, i: int)
    requires
        0 <= i < list.len(),
    ensures
        forall|s: Seq<char>| #[trigger]
            holds(list.take(i + 1), s) <==> holds(list.take(i), s) || s == list[i]@,
{
    assert forall|s: Seq<char>| #[trigger]
        holds(list.take(i + 1), s) <==> holds(list.take(i), s) || s == list[i]@ by {
        if holds(list.take(i + 1), s) && s != list[i]@ {
            let k = choose|k: int|
                0 <= k < list.take(i + 1).len() && (#[trigger] list.take(i + 1)[k])@ == s;
            assert(list.take(i)[k]@ == s);
        }
        if holds(list.take(i), s) {
            let k = choose|k: int|
                0 <= k < list.take(i).len() && (#[trigger] list.take(i)[k])@ == s;
            assert(list.take(i + 1)[k]@ == s);
        }
        if s == list[i]@ {
            assert(list.take(i + 1)[i]@ == s);
        }
    }
}

/// Two ascending lists with the same texts are the same list.
pub proof fn ascending_list_is_determined(a: Seq<String>, b: Seq<String>)
    requires
        ascending(a),
        ascending(b),
        forall|s: Seq<char>| #[trigger] holds(a, s) <==> holds(b, s),
    ensures
        same_texts(a, b),
    decreases a.len(),
{
    if a.len() == 0 {
        if b.len() > 0 {
            assert(holds(b, b[0]@));
            assert(!holds(a, b[0]@));
        }
    } else if b.len() == 0 {
        assert(holds(a, a[0]@));
    } else {
        let x = a.last()@;
        let y = b.last()@;
        // Each list ends with the greatest text.
        assert(x == y) by {
            assert(a[a.len() - 1]@ == x && b[b.len() - 1]@ == y);
            assert(holds(a, x) && holds(b, y));
            assert(holds(b, x) && holds(a, y));
            let i = choose|i: int| 0 <= i < b.len() && (#[trigger] b[i])@ == x;
            let j = choose|j: int| 0 <= j < a.len() && (#[trigger] a[j])@ == y;
            if i < b.len() - 1 && j < a.len() - 1 {
                assert(comes_before(b[i]@, b[b.len() - 1]@));
                assert(comes_before(a[j]@, a[a.len() - 1]@));
                lemma_order_is_total(x, y);
            }
        }
        let a2 = a.drop_last();
        let b2 = b.drop_last();
        assert forall|s: Seq<char>| #[trigger] holds(a2, s) <==> holds(b2, s) by {
            lemma_holds_init(a, s);
            lemma_holds_init(b, s);
            assert(holds(a, s) <==> holds(b, s));
        }
        assert(ascending(a2)) by {
            assert forall|i: int, j: int| 0 <= i < j < a2.len() implies comes_before(
                (#[trigger] a2[i])@,
                (#[trigger] a2[j])@,
            ) by {
                assert(a2[i] == a[i] && a2[j] == a[j]);
            }
        }
        assert(ascending(b2)) by {
            assert forall|i: int, j: int| 0 <= i < j < b2.len() implies comes_before(
                (#[trigger] b2[i])@,
                (#[trigger] b2[j])@,
            ) by {
                assert(b2[i] == b[i] && b2[j] == b[j]);
            }
        }
        ascending_list_is_determined(a2, b2);
        assert forall|i: int| 0 <= i < a.len() implies (#[trigger] a[i])@ == b[i]@ by {
            if i < a2.len() {
                assert(a2[i]@ == b2[i]@);
            }
        }
    }
}

/// Without its last element an ascending list lacks only that text.
proof fn lemma_holds_init(list: Seq<String>, s: Seq<char>)
    requires
        ascending(list),
        list.len() > 0,
    ensures
        holds(list.drop_last(), s) <==> holds(list, s) && s != list.last()@,
{
    let init = list.drop_last();
    if holds(init, s) {
        let k = choose|k: int| 0 <= k < init.len() && (#[trigger] init[k])@ == s;
        assert(list[k]@ == s);
        assert(comes_before(list[k]@, list[list.len() - 1]@));
        lemma_order_is_total(s, s);
    }
    if holds(list, s) && s != list.last()@ {
        let k = choose|k: int| 0 <= k < list.len() && (#[trigger] list[k])@ == s;
        assert(init[k]@ == s);
    }
}

/// One text comes before another exactly if they agree up to some place, and there
/// the first one ends or has the lesser character.
pub proof fn first_difference_decides_the_order(a: Seq<char>, b: Seq<char>)
    ensures
        comes_before(a, b) <==> exists|k: int|
            {
                &&& 0 <= k <= a.len()
                &&& k < b.len()
                &&& #[trigger] a.take(k) == b.take(k)
                &&& k == a.len() || a[k] < b[k]
            },
    decreases a.len(),
{
    if b.len() > 0 && a.len() > 0 && a[0] == b[0] {
        let x = a.drop_first();
        let y = b.drop_first();
        first_difference_decides_the_order(x, y);
        if comes_before(x, y) {
            let k = choose|k: int|
                {
                    &&& 0 <= k <= x.len()
                    &&& k < y.len()
                    &&& #[trigger] x.take(k) == y.take(k)
                    &&& k == x.len() || x[k] < y[k]
                };
            assert(a.take(k + 1) =~= seq![a[0]] + x.take(k));
            assert(b.take(k + 1) =~= seq![b[0]] + y.take(k));
        }
        if exists|k: int|
            {
                &&& 0 <= k <= a.len()
                &&& k < b.len()
                &&& #[trigger] a.take(k) == b.take(k)
                &&& k == a.len() || a[k] < b[k]
            } {
            let k = choose|k: int|
                {
                    &&& 0 <= k <= a.len()
                    &&& k < b.len()
                    &&& #[trigger] a.take(k) == b.take(k)
                    &&& k == a.len() || a[k] < b[k]
                };
            assert(k > 0);
            assert(x.take(k - 1) =~= a.take(k).drop_first());
            assert(y.take(k - 1) =~= b.take(k).drop_first());
        }
    } else {
        if comes_before(a, b) {
            assert(a.take(0) =~= b.take(0));
        }
        assert forall|k: int|
            0 < k <= a.len() && k < b.len() && #[trigger] a.take(k) == b.take(k) implies a[0]
            == b[0] by {
            assert(a.take(k)[0] == b.take(k)[0]);
        }
    }
}

/// A text is in a list exactly if it is one of the texts of the list; of two texts
/// of an ascending list, the former comes before the latter.
pub proof fn ascending_list_goes_up(list: Seq<String>, s: Seq<char>)
    ensures
        holds(list, s) <==> text::strings(list).contains(s),
        ascending(list) <==> forall|i: int, j: int|
            0 <= i < j < list.len() ==> comes_before(
                (#[trigger] list[i])@,
                (#[trigger] list[j])@,
            ),
{
    if holds(list, s) {
        let k = choose|k: int| 0 <= k < list.len() && (#[trigger] list[k])@ == s;
        assert(text::strings(list)[k] == s);
    }
    if text::strings(list).contains(s) {
        let k = choose|k: int| 0 <= k < text::strings(list).len() && text::strings(list)[k] == s;
        assert(list[k]@ == s);
    }
}

} // verus!
