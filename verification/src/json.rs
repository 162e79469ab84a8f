//! JSON values, and the map from keys to values that an object is.

use crate::text::{compare, text_lt, Order};
use vstd::prelude::*;

verus! {

/// A JSON value. Texts are borrowed from where they were read.
#[derive(Debug, PartialEq)]
pub enum Json<'a> {
    Null,
    Bool(bool),
    /// A number, as it was written.
    Number(&'a str),
    /// A string: what stands between its quotes, escapes untouched.
    String(&'a str),
    Object(JsonMap<'a>),
    Array(Vec<Json<'a>>),
}

/// The members of an object: no key twice, and always in the order of
/// their keys.
#[derive(Debug, PartialEq)]
pub struct JsonMap<'a> {
    pub(crate) entries: Vec<(&'a str, Json<'a>)>,
}

/// The mathematical value of a [`Json`]. An object is the sequence of its
/// members in the order of their keys.
pub enum JsonView {
    Null,
    Bool(bool),
    Number(Seq<char>),
    String(Seq<char>),
    Object(Seq<(Seq<char>, JsonView)>),
    Array(Seq<JsonView>),
}

impl<'a> View for JsonMap<'a> {
    type V = Seq<(Seq<char>, JsonView)>;

    open(crate) spec fn view(&self) -> Seq<(Seq<char>, JsonView)>
        decreases self,
    {
        Seq::new(
            self.entries.len() as nat,
            |i: int|
                if 0 <= i < self.entries.len() {
                    (self.entries[i].0@, self.entries[i].1.view())
                } else {
                    (Seq::empty(), JsonView::Null)
                },
        )
    }
}

impl<'a> View for Json<'a> {
    type V = JsonView;

    open spec fn view(&self) -> JsonView
        decreases self,
    {
        match self {
            Json::Null => JsonView::Null,
            Json::Bool(b) => JsonView::Bool(*b),
            Json::Number(t) => JsonView::Number(t@),
            Json::String(s) => JsonView::String(s@),
            Json::Object(m) => JsonView::Object(m.view()),
            Json::Array(v) => JsonView::Array(
                Seq::new(
                    v.len() as nat,
                    |i: int|
                        if 0 <= i < v.len() {
                            v[i].view()
                        } else {
                            JsonView::Null
                        },
                ),
            ),
        }
    }
}

/// The values of a sequence of JSON values, one by one.
pub open spec fn json_views(values: Seq<Json>) -> Seq<JsonView> {
    Seq::new(values.len(), |i: int| values[i]@)
}

/// The keys come in strictly ascending order, so none comes twice.
pub open spec fn sorted(entries: Seq<(Seq<char>, JsonView)>) -> bool {
    forall|i: int, j: int|
        0 <= i < j < entries.len() ==> text_lt(#[trigger] entries[i].0, #[trigger] entries[j].0)
}

/// Some member has the key `key`.
pub open spec fn has_key(entries: Seq<(Seq<char>, JsonView)>, key: Seq<char>) -> bool {
    exists|i: int| 0 <= i < entries.len() && (#[trigger] entries[i]).0 == key
}

/// How many members at the front have a key that comes before `key`. Among
/// sorted members this is the one place where `key` is or belongs.
pub open spec fn rank(entries: Seq<(Seq<char>, JsonView)>, key: Seq<char>) -> int
    decreases entries.len(),
{
    if entries.len() > 0 && text_lt(entries[0].0, key) {
        1 + rank(entries.drop_first(), key)
    } else {
        0
    }
}

/// The members after `key` is given the value `value`: a member with that
/// key gets the new value, otherwise a new member takes its place in the
/// order.
pub open spec fn put(
    entries: Seq<(Seq<char>, JsonView)>,
    key: Seq<char>,
    value: JsonView,
) -> Seq<(Seq<char>, JsonView)> {
    let at = rank(entries, key);
    if at < entries.len() && entries[at].0 == key {
        entries.update(at, (key, value))
    } else {
        entries.insert(at, (key, value))
    }
}

/// The rank is a place in the sequence or its end.
pub proof fn lemma_rank_bounds(entries: Seq<(Seq<char>, JsonView)>, key: Seq<char>)
    ensures
        0 <= rank(entries, key) <= entries.len(),
    decreases entries.len(),
{
    if entries.len() > 0 {
        lemma_rank_bounds(entries.drop_first(), key);
    }
}

/// A place before which every key comes before `key`, and at which the key
/// does not, is the rank of `key`.
pub proof fn lemma_rank_is(entries: Seq<(Seq<char>, JsonView)>, key: Seq<char>, at: int)
    requires
        0 <= at <= entries.len(),
        forall|i: int| 0 <= i < at ==> text_lt((#[trigger] entries[i]).0, key),
        at < entries.len() ==> !text_lt(entries[at].0, key),
    ensures
        rank(entries, key) == at,
    decreases entries.len(),
{
    if at > 0 {
        assert(text_lt(entries[0].0, key));
        let rest = entries.drop_first();
        assert forall|i: int| 0 <= i < at - 1 implies text_lt((#[trigger] rest[i]).0, key) by {
            assert(rest[i] == entries[i + 1]);
        }
        lemma_rank_is(rest, key, at - 1);
    }
}

/// Among sorted members, a key is present exactly if it stands at its rank.
pub proof fn lemma_rank_finds(entries: Seq<(Seq<char>, JsonView)>, key: Seq<char>)
    requires
        sorted(entries),
    ensures
        has_key(entries, key) <==> (rank(entries, key) < entries.len() && entries[rank(
            entries,
            key,
        )].0 == key),
        forall|i: int| 0 <= i < rank(entries, key) ==> text_lt((#[trigger] entries[i]).0, key),
        forall|i: int|
            rank(entries, key) <= i < entries.len() ==> !text_lt((#[trigger] entries[i]).0, key),
    decreases entries.len(),
{
    let at = rank(entries, key);
    lemma_rank_bounds(entries, key);
    if entries.len() > 0 {
        let rest = entries.drop_first();
        assert forall|i: int, j: int| 0 <= i < j < rest.len() implies text_lt(
            #[trigger] rest[i].0,
            #[trigger] rest[j].0,
        ) by {
            assert(rest[i] == entries[i + 1] && rest[j] == entries[j + 1]);
        }
        if text_lt(entries[0].0, key) {
            lemma_rank_finds(rest, key);
            assert forall|i: int| 0 <= i < at implies text_lt((#[trigger] entries[i]).0, key) by {
                if i > 0 {
                    assert(entries[i] == rest[i - 1]);
                }
            }
            assert forall|i: int| at <= i < entries.len() implies !text_lt(
                (#[trigger] entries[i]).0,
                key,
            ) by {
                assert(entries[i] == rest[i - 1]);
            }
        } else {
            assert forall|i: int| 0 <= i < entries.len() implies !text_lt(
                (#[trigger] entries[i]).0,
                key,
            ) by {
                if i > 0 && text_lt(entries[i].0, key) {
                    crate::text::lemma_text_lt_transitive(entries[0].0, entries[i].0, key);
                }
            }
        }
    }
    if has_key(entries, key) {
        let i = choose|i: int| 0 <= i < entries.len() && (#[trigger] entries[i]).0 == key;
        crate::text::lemma_text_lt_irreflexive(key);
        if i != at {
            assert(i > at);
            assert(at < entries.len());
            crate::text::lemma_text_lt_total(entries[at].0, key);
        }
    }
}

/// Putting a key among sorted members leaves them sorted, with the key
/// present.
pub proof fn lemma_put_sorted(entries: Seq<(Seq<char>, JsonView)>, key: Seq<char>, value: JsonView)
    requires
        sorted(entries),
    ensures
        sorted(put(entries, key, value)),
        has_key(put(entries, key, value), key),
        put(entries, key, value).len() == if has_key(entries, key) {
            entries.len()
        } else {
            entries.len() + 1
        },
{
    let at = rank(entries, key);
    let after = put(entries, key, value);
    lemma_rank_bounds(entries, key);
    lemma_rank_finds(entries, key);
    if at < entries.len() && entries[at].0 == key {
        assert(after[at].0 == key);
        assert forall|i: int, j: int| 0 <= i < j < after.len() implies text_lt(
            #[trigger] after[i].0,
            #[trigger] after[j].0,
        ) by {
            assert(after[i].0 == entries[i].0 && after[j].0 == entries[j].0);
        }
    } else {
        assert(after[at].0 == key);
        assert forall|i: int, j: int| 0 <= i < j < after.len() implies text_lt(
            #[trigger] after[i].0,
            #[trigger] after[j].0,
        ) by {
            if j < at {
                assert(after[i] == entries[i] && after[j] == entries[j]);
            } else if j == at {
                assert(after[i] == entries[i]);
            } else if i < at {
                assert(after[i] == entries[i] && after[j] == entries[j - 1]);
            } else if i == at {
                assert(after[j] == entries[j - 1]);
                crate::text::lemma_text_lt_total(entries[j - 1].0, key);
            } else {
                assert(after[i] == entries[i - 1] && after[j] == entries[j - 1]);
            }
        }
    }
}

/// Each member after a key was put is the new member or one of the old.
pub proof fn lemma_put_members(
    entries: Seq<(Seq<char>, JsonView)>,
    key: Seq<char>,
    value: JsonView,
    i: int,
)
    requires
        0 <= i < put(entries, key, value).len(),
    ensures
        put(entries, key, value)[i] == (key, value) || exists|j: int|
            0 <= j < entries.len() && put(entries, key, value)[i] == #[trigger] entries[j],
{
    let at = rank(entries, key);
    lemma_rank_bounds(entries, key);
    let after = put(entries, key, value);
    if at < entries.len() && entries[at].0 == key {
        if i != at {
            assert(after[i] == entries[i]);
        }
    } else {
        if i < at {
            assert(after[i] == entries[i]);
        } else if i > at {
            assert(after[i] == entries[i - 1]);
        }
    }
}

/// Among sorted members no two have the same key.
pub proof fn lemma_sorted_distinct(entries: Seq<(Seq<char>, JsonView)>, i: int, j: int)
    requires
        sorted(entries),
        0 <= i < entries.len(),
        0 <= j < entries.len(),
        entries[i].0 == entries[j].0,
    ensures
        i == j,
{
    crate::text::lemma_text_lt_irreflexive(entries[i].0);
    if i < j {
        assert(text_lt(entries[i].0, entries[j].0));
    } else if j < i {
        assert(text_lt(entries[j].0, entries[i].0));
    }
}

/// After a key was put among sorted members, the members are the new one
/// and those of the old that have another key.
pub proof fn lemma_put_holds(
    entries: Seq<(Seq<char>, JsonView)>,
    key: Seq<char>,
    value: JsonView,
    member: (Seq<char>, JsonView),
)
    requires
        sorted(entries),
    ensures
        put(entries, key, value).contains(member) <==> (member == (key, value) || (entries.contains(
            member,
        ) && member.0 != key)),
{
    let at = rank(entries, key);
    let after = put(entries, key, value);
    let replaced = at < entries.len() && entries[at].0 == key;
    lemma_rank_bounds(entries, key);
    lemma_rank_finds(entries, key);
    if after.contains(member) {
        let i = choose|i: int| 0 <= i < after.len() && after[i] == member;
        if replaced {
            if i != at {
                assert(after[i] == entries[i]);
                if entries[i].0 == key {
                    lemma_sorted_distinct(entries, i, at);
                }
            }
        } else {
            if i < at {
                assert(after[i] == entries[i]);
            } else if i > at {
                assert(after[i] == entries[i - 1]);
            }
            if member != (key, value) && member.0 == key {
                assert(has_key(entries, key));
            }
        }
    }
    if member == (key, value) {
        assert(after[at] == member);
    } else if entries.contains(member) && member.0 != key {
        let j = choose|j: int| 0 <= j < entries.len() && entries[j] == member;
        if replaced || j < at {
            assert(after[j] == member);
        } else {
            assert(after[j + 1] == member);
        }
    }
}

/// Sorted members are told by what they hold: two sorted sequences with
/// the same members are the same sequence.
pub proof fn lemma_sorted_same(a: Seq<(Seq<char>, JsonView)>, b: Seq<(Seq<char>, JsonView)>)
    requires
        sorted(a),
        sorted(b),
        forall|member: (Seq<char>, JsonView)| a.contains(member) <==> b.contains(member),
    ensures
        a == b,
    decreases a.len(),
{
    if a.len() == 0 {
        if b.len() > 0 {
            assert(b.contains(b[0]));
            assert(a.contains(b[0]));
        }
        assert(a =~= b);
    } else {
        assert(a.contains(a[0]));
        assert(b.contains(a[0]));
        let j = choose|j: int| 0 <= j < b.len() && b[j] == a[0];
        assert(b.contains(b[0]));
        assert(a.contains(b[0]));
        let i = choose|i: int| 0 <= i < a.len() && a[i] == b[0];
        if j > 0 {
            assert(text_lt(b[0].0, b[j].0));
            if i > 0 {
                assert(text_lt(a[0].0, a[i].0));
                crate::text::lemma_text_lt_total(a[0].0, b[0].0);
            } else {
                crate::text::lemma_text_lt_irreflexive(a[0].0);
            }
        }
        assert(a[0] == b[0]);
        let rest_a = a.drop_first();
        let rest_b = b.drop_first();
        assert forall|p: int, q: int| 0 <= p < q < rest_a.len() implies text_lt(
            #[trigger] rest_a[p].0,
            #[trigger] rest_a[q].0,
        ) by {
            assert(rest_a[p] == a[p + 1] && rest_a[q] == a[q + 1]);
        }
        assert forall|p: int, q: int| 0 <= p < q < rest_b.len() implies text_lt(
            #[trigger] rest_b[p].0,
            #[trigger] rest_b[q].0,
        ) by {
            assert(rest_b[p] == b[p + 1] && rest_b[q] == b[q + 1]);
        }
        assert forall|member: (Seq<char>, JsonView)| rest_a.contains(member) <==> rest_b.contains(
            member,
        ) by {
            if rest_a.contains(member) {
                let p = choose|p: int| 0 <= p < rest_a.len() && rest_a[p] == member;
                assert(a[p + 1] == member);
                assert(a.contains(member));
                assert(b.contains(member));
                let q = choose|q: int| 0 <= q < b.len() && b[q] == member;
                if q == 0 {
                    lemma_sorted_distinct(a, 0, p + 1);
                }
                assert(rest_b[q - 1] == member);
            }
            if rest_b.contains(member) {
                let q = choose|q: int| 0 <= q < rest_b.len() && rest_b[q] == member;
                assert(b[q + 1] == member);
                assert(b.contains(member));
                assert(a.contains(member));
                let p = choose|p: int| 0 <= p < a.len() && a[p] == member;
                if p == 0 {
                    lemma_sorted_distinct(b, 0, q + 1);
                }
                assert(rest_a[p - 1] == member);
            }
        }
        lemma_sorted_same(rest_a, rest_b);
        assert(a =~= seq![a[0]] + rest_a);
        assert(b =~= seq![b[0]] + rest_b);
    }
}

/// The order in which two keys are put does not matter: the members are
/// the same either way.
pub proof fn lemma_put_commutes(
    entries: Seq<(Seq<char>, JsonView)>,
    first_key: Seq<char>,
    first_value: JsonView,
    second_key: Seq<char>,
    second_value: JsonView,
)
    requires
        sorted(entries),
        first_key != second_key,
    ensures
        put(put(entries, first_key, first_value), second_key, second_value) == put(
            put(entries, second_key, second_value),
            first_key,
            first_value,
        ),
{
    let one = put(entries, first_key, first_value);
    let other = put(entries, second_key, second_value);
    let one_way = put(one, second_key, second_value);
    let other_way = put(other, first_key, first_value);
    lemma_put_sorted(entries, first_key, first_value);
    lemma_put_sorted(entries, second_key, second_value);
    lemma_put_sorted(one, second_key, second_value);
    lemma_put_sorted(other, first_key, first_value);
    assert forall|member: (Seq<char>, JsonView)| one_way.contains(member) <==> other_way.contains(
        member,
    ) by {
        lemma_put_holds(entries, first_key, first_value, member);
        lemma_put_holds(entries, second_key, second_value, member);
        lemma_put_holds(one, second_key, second_value, member);
        lemma_put_holds(other, first_key, first_value, member);
    }
    lemma_sorted_same(one_way, other_way);
}

impl<'a> JsonMap<'a> {
    #[verifier::type_invariant]
    spec fn in_order(self) -> bool {
        sorted(self@)
    }

    /// A map without members.
    pub fn new() -> (map: JsonMap<'a>)
        ensures
            map@ == Seq::<(Seq<char>, JsonView)>::empty(),
    {
        let map = JsonMap { entries: Vec::new() };
        assert(map@ =~= Seq::empty());
        map
    }

    /// The number of members, which stand in the strictly ascending order of
    /// their keys.
    pub fn len(&self) -> (n: usize)
        ensures
            n == self@.len(),
            sorted(self@),
    {
        proof {
            use_type_invariant(self);
        }
        self.entries.len()
    }

    /// The key and the value of the member at place `i` in the order of
    /// keys, if the map has `i + 1` members or more.
    pub fn entry(&self, i: usize) -> (member: Option<(&'a str, &Json<'a>)>)
        ensures
            match member {
                Some((key, value)) => i < self@.len() && (key@, value@) == self@[i as int],
                None => i >= self@.len(),
            },
    {
        if i < self.entries.len() {
            Some((self.entries[i].0, &self.entries[i].1))
        } else {
            None
        }
    }

    /// Gives `key` the value `value`. Returns the value that `key` had, if
    /// it was a key of the map.
    pub fn insert(&mut self, key: &'a str, value: Json<'a>) -> (before: Option<Json<'a>>)
        ensures
            final(self)@ == put(old(self)@, key@, value@),
            before is Some <==> has_key(old(self)@, key@),
            before matches Some(v) ==> v@ == old(self)@[rank(old(self)@, key@)].1,
    {
        proof {
            use_type_invariant(&*self);
            lemma_put_sorted(self@, key@, value@);
            lemma_rank_finds(self@, key@);
        }
        let mut low: usize = 0;
        let mut high: usize = self.entries.len();
        while low < high
            invariant
                low <= high <= self.entries.len(),
                sorted(self@),
                forall|i: int| 0 <= i < low ==> text_lt((#[trigger] self@[i]).0, key@),
                forall|i: int| high <= i < self@.len() ==> !text_lt((#[trigger] self@[i]).0, key@),
            decreases high - low,
        {
            let middle = low + (high - low) / 2;
            match compare(self.entries[middle].0, key) {
                Order::Less => {
                    proof {
                        assert forall|i: int| 0 <= i < middle + 1 implies text_lt(
                            (#[trigger] self@[i]).0,
                            key@,
                        ) by {
                            if i < middle {
                                crate::text::lemma_text_lt_transitive(
                                    self@[i].0,
                                    self@[middle as int].0,
                                    key@,
                                );
                            }
                        }
                    }
                    low = middle + 1;
                },
                _ => {
                    proof {
                        crate::text::lemma_text_lt_irreflexive(key@);
                        assert forall|i: int| middle <= i < self@.len() implies !text_lt(
                            (#[trigger] self@[i]).0,
                            key@,
                        ) by {
                            if i > middle && text_lt(self@[i].0, key@) {
                                crate::text::lemma_text_lt_transitive(
                                    self@[middle as int].0,
                                    self@[i].0,
                                    key@,
                                );
                            }
                        }
                    }
                    high = middle;
                },
            }
        }
        proof {
            lemma_rank_is(self@, key@, low as int);
        }
        let found = low < self.entries.len() && match compare(self.entries[low].0, key) {
            Order::Equal => true,
            _ => false,
        };
        let mut entries: Vec<(&'a str, Json<'a>)> = Vec::new();
        core::mem::swap(&mut self.entries, &mut entries);
        let before = if found {
            let (_, before) = entries.remove(low);
            Some(before)
        } else {
            None
        };
        entries.insert(low, (key, value));
        assert((JsonMap { entries })@ =~= put(old(self)@, key@, value@));
        self.entries = entries;
        before
    }
}

} // verus!
