//! Comparing a tree with a JSON document.

use crate::decimal::decimal_value;
use crate::decimal::Decimal;
use crate::grammar::after_sign;
use crate::grammar::lemma_run;
use crate::grammar::run_end;
use crate::grammar::scan_run;
use crate::grammar::skip_sign;
use crate::grammar::CharClass;
use crate::integer::digit_of;
use crate::integer::radix_literal_value;
use crate::integer::Integer;
use crate::merge::find;
use crate::merge::has_key;
use crate::merge::lemma_rank;
use crate::merge::rank;
use crate::text::chars_of;
use crate::value::lemma_array_model;
use crate::value::lemma_object_model;
use crate::value::item_trees;
use crate::value::member_trees;
use crate::value::Tree;
use crate::value::Value;
use vstd::prelude::*;

verus! {

/// A JSON document as a JSON reader hands it out: a number as its text, the
/// members of an object in the order they come in.
#[derive(Debug, PartialEq, Eq)]
pub enum Json {
    Null,
    Bool(bool),
    Number(String),
    String(String),
    Array(Vec<Json>),
    Object(Vec<(String, Json)>),
}

/// A JSON document, apart from how it is stored.
pub ghost enum JsonTree {
    Null,
    Bool(bool),
    Number(Seq<char>),
    String(Seq<char>),
    Array(Seq<JsonTree>),
    Object(Seq<(Seq<char>, JsonTree)>),
}

impl Json {
    /// The document apart from how it is stored.
    pub open spec fn model(&self) -> JsonTree
        decreases self,
    {
        match self {
            Json::Null => JsonTree::Null,
            Json::Bool(b) => JsonTree::Bool(*b),
            Json::Number(s) => JsonTree::Number(s@),
            Json::String(s) => JsonTree::String(s@),
            Json::Array(items) => JsonTree::Array(
                Seq::new(
                    items@.len(),
                    |i: int|
                        if 0 <= i < items@.len() {
                            items@[i].model()
                        } else {
                            JsonTree::Null
                        },
                ),
            ),
            Json::Object(members) => JsonTree::Object(
                Seq::new(
                    members@.len(),
                    |i: int|
                        if 0 <= i < members@.len() {
                            (members@[i].0@, members@[i].1.model())
                        } else {
                            (Seq::empty(), JsonTree::Null)
                        },
                ),
            ),
        }
    }
}

impl View for Json {
    type V = JsonTree;

    open spec fn view(&self) -> JsonTree {
        self.model()
    }
}

/// The items of a JSON array, each apart from how it is stored.
pub open spec fn json_items(items: Seq<Json>) -> Seq<JsonTree> {
    Seq::new(items.len(), |i: int| items[i]@)
}

/// The members of a JSON object, each apart from how it is stored.
pub open spec fn json_members(members: Seq<(String, Json)>) -> Seq<(Seq<char>, JsonTree)> {
    Seq::new(members.len(), |i: int| (members[i].0@, members[i].1@))
}

/// A JSON array is its items.
pub proof fn lemma_json_array(j: Json)
    requires
        j is Array,
    ensures
        j@ == JsonTree::Array(json_items(j->Array_0@)),
{
    assert(j.model()->Array_0 =~= json_items(j->Array_0@));
}

/// A JSON object is its members.
pub proof fn lemma_json_object(j: Json)
    requires
        j is Object,
    ensures
        j@ == JsonTree::Object(json_members(j->Object_0@)),
{
    assert(j.model()->Object_0 =~= json_members(j->Object_0@));
}

/// An optional `-` and then digits, at least one.
pub open spec fn plain_integer(s: Seq<char>) -> bool {
    let q = after_sign(s, 0);
    q < s.len() && run_end(s, q, CharClass::Digit) == s.len()
}

/// Whether no two members have the same key.
pub open spec fn keys_differ(members: Seq<(Seq<char>, JsonTree)>) -> bool {
    forall|i: int, j: int|
        0 <= i < j < members.len() ==> (#[trigger] members[i]).0 != (#[trigger] members[j]).0
}

/// Whether a tree and a JSON document are the same document. Numbers are held
/// to the number that the JSON text writes, not to its text: a whole number
/// to a text of digits, a decimal number to any plain decimal literal. The
/// members of a JSON object may come in any order.
pub open spec fn same(t: Tree, j: JsonTree) -> bool
    decreases j,
{
    match j {
        JsonTree::Null => t is Null,
        JsonTree::Bool(b) => t == Tree::Bool(b),
        JsonTree::Number(s) => match t {
            Tree::Int(n) => plain_integer(s) && radix_literal_value(s, 10) == n,
            Tree::Float(d) => decimal_value(s) == Some(d),
            _ => false,
        },
        JsonTree::String(s) => t == Tree::String(s),
        JsonTree::Array(items) => t matches Tree::Array(xs) && xs.len() == items.len()
            && forall|i: int| 0 <= i < items.len() ==> same(xs[i], #[trigger] items[i]),
        JsonTree::Object(members) => t matches Tree::Object(ms) && ms.len() == members.len()
            && keys_differ(members) && forall|i: int|
            0 <= i < members.len() ==> has_key(ms, (#[trigger] members[i]).0) && same(
                ms[rank(ms, members[i].0)].1,
                members[i].1,
            ),
    }
}

fn same_integer(n: &Integer, text: &str) -> (r: bool)
    ensures
        r == (plain_integer(text@) && radix_literal_value(text@, 10) == n@),
{
    let s = chars_of(text);
    let q = skip_sign(&s, 0);
    if q >= s.len() || scan_run(&s, q, CharClass::Digit) != s.len() {
        return false;
    }
    proof {
        lemma_run(s@, q as int, CharClass::Digit);
        let body = if s@.len() > 0 && s@[0] == '-' {
            s@.skip(1)
        } else {
            s@
        };
        assert(body =~= s@.subrange(q as int, s@.len() as int));
        assert forall|i: int| 0 <= i < body.len() implies body[i] == '_' || digit_of(
            #[trigger] body[i],
        ) < 10 by {
            assert(body[i] == s@[q + i]);
            assert(CharClass::Digit.has(s@[q + i]));
        }
        assert(CharClass::Digit.has(s@[q as int]));
    }
    match Integer::parse(text, 10) {
        Some(m) => m.equals(n),
        None => false,
    }
}

fn same_decimal(d: &Decimal, text: &str) -> (r: bool)
    ensures
        r == (decimal_value(text@) == Some(d@)),
{
    match Decimal::parse(text) {
        Some(m) => m.equals(d),
        None => false,
    }
}

impl Value {
    /// Whether this tree and a JSON document are the same document.
    pub fn eq_json(&self, other: &Json) -> (r: bool)
        ensures
            r == same(self@, other@),
        decreases other,
    {
        match other {
            Json::Null => match self {
                Value::Null => true,
                _ => false,
            },
            Json::Bool(b) => match self {
                Value::Bool(a) => *a == *b,
                _ => false,
            },
            Json::Number(s) => match self {
                Value::Int(n) => same_integer(n, s.as_str()),
                Value::Float(d) => same_decimal(d, s.as_str()),
                _ => false,
            },
            Json::String(s) => match self {
                Value::String(a) => *a == *s,
                _ => false,
            },
            Json::Array(items) => {
                proof {
                    lemma_json_array(*other);
                }
                match self {
                    Value::Array(xs) => {
                        proof {
                            lemma_array_model(*self);
                        }
                        if xs.len() != items.len() {
                            return false;
                        }
                        let mut i: usize = 0;
                        while i < items.len()
                            invariant
                                i <= items.len(),
                                xs.len() == items.len(),
                                *other == Json::Array(*items),
                                *self == Value::Array(*xs),
                                self@ == Tree::Array(item_trees(xs@)),
                                other@ == JsonTree::Array(json_items(items@)),
                                forall|k: int|
                                    0 <= k < i ==> same(
                                        item_trees(xs@)[k],
                                        #[trigger] json_items(items@)[k],
                                    ),
                            decreases items.len() - i,
                        {
                            proof {
                                assert(other->Array_0 == *items);
                                assert(decreases_to!(*other => other->Array_0));
                                assert(decreases_to!(*items => items[i as int]));
                            }
                            if !xs[i].eq_json(&items[i]) {
                                assert(!same(
                                    item_trees(xs@)[i as int],
                                    json_items(items@)[i as int],
                                ));
                                return false;
                            }
                            i += 1;
                        }
                        true
                    },
                    _ => false,
                }
            },
            Json::Object(members) => {
                proof {
                    lemma_json_object(*other);
                }
                match self {
                    Value::Object(ms) => {
                        proof {
                            lemma_object_model(*self);
                        }
                        if ms.len() != members.len() {
                            return false;
                        }
                        let ghost mine = member_trees(ms@);
                        let ghost theirs = json_members(members@);
                        let mut seen: Vec<bool> = Vec::new();
                        let mut k: usize = 0;
                        while k < ms.len()
                            invariant
                                k <= ms.len(),
                                seen.len() == k,
                                forall|j: int| 0 <= j < k ==> !seen@[j],
                            decreases ms.len() - k,
                        {
                            seen.push(false);
                            k += 1;
                        }
                        let mut i: usize = 0;
                        while i < members.len()
                            invariant
                                i <= members.len(),
                                ms.len() == members.len(),
                                seen.len() == ms.len(),
                                *other == Json::Object(*members),
                                *self == Value::Object(*ms),
                                mine == member_trees(ms@),
                                theirs == json_members(members@),
                                self@ == Tree::Object(mine),
                                other@ == JsonTree::Object(theirs),
                                forall|a: int, b: int|
                                    0 <= a < b < i ==> (#[trigger] theirs[a]).0 != (
                                    #[trigger] theirs[b]).0,
                                forall|a: int|
                                    0 <= a < i ==> has_key(mine, (#[trigger] theirs[a]).0) && same(
                                        mine[rank(mine, theirs[a].0)].1,
                                        theirs[a].1,
                                    ) && seen@[rank(mine, theirs[a].0)],
                                forall|r: int|
                                    0 <= r < seen.len() && #[trigger] seen@[r] ==> exists|a: int|
                                        0 <= a < i && (#[trigger] theirs[a]).0 == mine[r].0,
                            decreases members.len() - i,
                        {
                            proof {
                                assert(other->Object_0 == *members);
                                assert(decreases_to!(*other => other->Object_0));
                                assert(decreases_to!(*members => members[i as int]));
                                assert(decreases_to!(members[i as int] => members[i as int].1));
                                lemma_rank(mine, theirs[i as int].0, 0);
                            }
                            let (r, found) = find(ms, &members[i].0);
                            if !found {
                                assert(!has_key(mine, theirs[i as int].0));
                                return false;
                            }
                            if seen[r] {
                                proof {
                                    let a = choose|a: int|
                                        0 <= a < i && (#[trigger] theirs[a]).0 == mine[r as int].0;
                                    assert(theirs[a].0 == theirs[i as int].0);
                                    assert(!keys_differ(theirs));
                                }
                                return false;
                            }
                            if !ms[r].1.eq_json(&members[i].1) {
                                assert(!same(
                                    mine[rank(mine, theirs[i as int].0)].1,
                                    theirs[i as int].1,
                                ));
                                return false;
                            }
                            proof {
                                assert forall|a: int| 0 <= a < i implies (#[trigger] theirs[a]).0
                                    != theirs[i as int].0 by {
                                    if theirs[a].0 == theirs[i as int].0 {
                                        assert(seen@[rank(mine, theirs[a].0)]);
                                    }
                                }
                            }
                            let ghost before = seen@;
                            seen.set(r, true);
                            proof {
                                assert(same(
                                    mine[rank(mine, theirs[i as int].0)].1,
                                    theirs[i as int].1,
                                ));
                                assert forall|a: int| 0 <= a < i + 1 implies has_key(
                                    mine,
                                    (#[trigger] theirs[a]).0,
                                ) && same(mine[rank(mine, theirs[a].0)].1, theirs[a].1) && seen@[rank(
                                    mine,
                                    theirs[a].0,
                                )] by {
                                    if a < i {
                                        assert(has_key(mine, theirs[a].0));
                                        assert(same(mine[rank(mine, theirs[a].0)].1, theirs[a].1));
                                        lemma_rank(mine, theirs[a].0, 0);
                                        assert(before[rank(mine, theirs[a].0)]);
                                        assert(seen@[rank(mine, theirs[a].0)]);
                                    } else {
                                        assert(theirs[a].0 == members@[i as int].0@);
                                        assert(has_key(mine, theirs[a].0));
                                        assert(rank(mine, theirs[a].0) == r);
                                        assert(seen@[r as int]);
                                    }
                                }
                                assert forall|q: int|
                                    0 <= q < seen.len() && #[trigger] seen@[q] implies exists|
                                    a: int,
                                |
                                    0 <= a < i + 1 && (#[trigger] theirs[a]).0 == mine[q].0 by {
                                    if q == r {
                                        assert(theirs[i as int].0 == mine[q].0);
                                    } else {
                                        assert(before[q]);
                                        let a = choose|a: int|
                                            0 <= a < i && (#[trigger] theirs[a]).0 == mine[q].0;
                                        assert(theirs[a].0 == mine[q].0);
                                    }
                                }
                            }
                            i += 1;
                        }
                        assert(keys_differ(theirs));
                        true
                    },
                    _ => false,
                }
            },
        }
    }
}

} // verus!
