//! The tree that a document comes to.

use crate::decimal::float_text;
use crate::decimal::Decimal;
use crate::decimal::Scaled;
use crate::integer::int_text;
use crate::integer::Integer;
use crate::path::push_bool;
use crate::path::push_null;
use crate::path::PathTarget;
use crate::path::Seg;
use crate::path::Target;
use crate::text::join;
use crate::text::key_lt;
use crate::text::lemma_join_push;
use crate::text::push_quoted;
use crate::text::quoted;
use vstd::prelude::*;
use vstd::string::StringExecFns;

verus! {

/// A value of a document. An object holds its members in the order of their
/// keys, each key once.
#[derive(Debug, PartialEq, Eq)]
pub enum Value {
    Null,
    Bool(bool),
    Int(Integer),
    Float(Decimal),
    String(String),
    Array(Vec<Value>),
    Object(Vec<(String, Value)>),
}

/// A value of a document, apart from how it is stored.
pub ghost enum Tree {
    Null,
    Bool(bool),
    Int(int),
    Float(Scaled),
    String(Seq<char>),
    Array(Seq<Tree>),
    Object(Seq<(Seq<char>, Tree)>),
}

/// Whether the keys of the members rise strictly from each member to the
/// next.
pub open spec fn keys_rise(members: Seq<(Seq<char>, Tree)>) -> bool {
    forall|i: int| 0 <= i < members.len() - 1 ==> key_lt(#[trigger] members[i].0, members[i + 1].0)
}

/// How a member of an object is shown: its key between double quotes, `:`,
/// and its value.
pub open spec fn member_text(key: Seq<char>, value: Seq<char>) -> Seq<char> {
    quoted(key) + seq![':'] + value
}

/// How the items of an array are shown, each by itself.
pub open spec fn item_texts(items: Seq<Tree>) -> Seq<Seq<char>>
    decreases items, 0nat,
{
    Seq::new(
        items.len(),
        |i: int|
            if 0 <= i < items.len() {
                tree_text(items[i])
            } else {
                Seq::empty()
            },
    )
}

/// How the members of an object are shown, each by itself.
pub open spec fn member_texts(members: Seq<(Seq<char>, Tree)>) -> Seq<Seq<char>>
    decreases members, 0nat,
{
    Seq::new(
        members.len(),
        |i: int|
            if 0 <= i < members.len() {
                member_text(members[i].0, tree_text(members[i].1))
            } else {
                Seq::empty()
            },
    )
}

/// How a value is shown: on one line and without blanks, the members of an
/// object and the items of an array in the order they stand in. In a
/// well-formed value that is, for the members, the order of their keys.
pub open spec fn tree_text(t: Tree) -> Seq<char>
    decreases t, 1nat,
{
    match t {
        Tree::Null => seq!['n', 'u', 'l', 'l'],
        Tree::Bool(b) => if b {
            seq!['t', 'r', 'u', 'e']
        } else {
            seq!['f', 'a', 'l', 's', 'e']
        },
        Tree::Int(n) => int_text(n),
        Tree::Float(d) => float_text(d),
        Tree::String(s) => quoted(s),
        Tree::Array(items) => seq!['['] + join(item_texts(items), seq![',']) + seq![']'],
        Tree::Object(members) => seq!['{'] + join(member_texts(members), seq![',']) + seq!['}'],
    }
}

/// The value that a target stands for. A reference stands for none.
pub open spec fn target_tree(t: Target) -> Option<Tree> {
    match t {
        Target::Null => Some(Tree::Null),
        Target::Bool(b) => Some(Tree::Bool(b)),
        Target::Int(n) => Some(Tree::Int(n)),
        Target::Float(d) => Some(Tree::Float(d)),
        Target::String(s) => Some(Tree::String(s)),
        Target::EmptyArray => Some(Tree::Array(Seq::empty())),
        Target::EmptyObject => Some(Tree::Object(Seq::empty())),
        Target::Reference(_) => None,
    }
}

impl Value {
    /// The value apart from how it is stored.
    pub open spec fn model(&self) -> Tree
        decreases self,
    {
        match self {
            Value::Null => Tree::Null,
            Value::Bool(b) => Tree::Bool(*b),
            Value::Int(n) => Tree::Int(n@),
            Value::Float(d) => Tree::Float(d@),
            Value::String(s) => Tree::String(s@),
            Value::Array(items) => Tree::Array(
                Seq::new(
                    items@.len(),
                    |i: int|
                        if 0 <= i < items@.len() {
                            items@[i].model()
                        } else {
                            Tree::Null
                        },
                ),
            ),
            Value::Object(members) => Tree::Object(
                Seq::new(
                    members@.len(),
                    |i: int|
                        if 0 <= i < members@.len() {
                            (members@[i].0@, members@[i].1.model())
                        } else {
                            (Seq::empty(), Tree::Null)
                        },
                ),
            ),
        }
    }

    /// What every `Value` that this library hands out satisfies: in each
    /// object the keys rise strictly from each member to the next.
    pub open spec fn wf(&self) -> bool
        decreases self,
    {
        match self {
            Value::Array(items) => forall|i: int|
                0 <= i < items@.len() ==> (#[trigger] items@[i]).wf(),
            Value::Object(members) => {
                &&& forall|i: int| 0 <= i < members@.len() ==> (#[trigger] members@[i]).1.wf()
                &&& forall|i: int|
                    0 <= i < members@.len() - 1 ==> key_lt(
                        (#[trigger] members@[i]).0@,
                        members@[i + 1].0@,
                    )
            },
            _ => true,
        }
    }
}

impl View for Value {
    type V = Tree;

    open spec fn view(&self) -> Tree {
        self.model()
    }
}

/// The items of an array, each apart from how it is stored.
pub open spec fn item_trees(items: Seq<Value>) -> Seq<Tree> {
    Seq::new(items.len(), |i: int| items[i]@)
}

/// The members of an object, each apart from how it is stored.
pub open spec fn member_trees(members: Seq<(String, Value)>) -> Seq<(Seq<char>, Tree)> {
    Seq::new(members.len(), |i: int| (members[i].0@, members[i].1@))
}

/// An array is its items.
pub proof fn lemma_array_model(v: Value)
    requires
        v is Array,
    ensures
        v@ == Tree::Array(item_trees(v->Array_0@)),
{
    assert(v.model()->Array_0 =~= item_trees(v->Array_0@));
}

/// An object is its members.
pub proof fn lemma_object_model(v: Value)
    requires
        v is Object,
    ensures
        v@ == Tree::Object(member_trees(v->Object_0@)),
{
    assert(v.model()->Object_0 =~= member_trees(v->Object_0@));
}

impl Value {
    /// The value that a target stands for, or none for a reference.
    pub fn try_from(target: &PathTarget) -> (r: Option<Value>)
        ensures
            match target_tree(target@) {
                Some(t) => r matches Some(v) && v@ == t && v.wf(),
                None => r is None,
            },
    {
        match target {
            PathTarget::Null => Some(Value::Null),
            PathTarget::Bool(b) => Some(Value::Bool(*b)),
            PathTarget::Int(n) => Some(Value::Int(n.duplicate())),
            PathTarget::Float(d) => Some(Value::Float(d.duplicate())),
            PathTarget::String(s) => Some(Value::String(s.clone())),
            PathTarget::EmptyArray => {
                let v = Value::Array(Vec::new());
                proof {
                    lemma_array_model(v);
                    assert(item_trees(v->Array_0@) =~= Seq::empty());
                }
                Some(v)
            },
            PathTarget::EmptyObject => {
                let v = Value::Object(Vec::new());
                proof {
                    lemma_object_model(v);
                    assert(member_trees(v->Object_0@) =~= Seq::empty());
                }
                Some(v)
            },
            PathTarget::Reference(_) => None,
        }
    }

    /// A copy of the value.
    pub fn duplicate(&self) -> (r: Value)
        ensures
            r@ == self@,
            self.wf() ==> r.wf(),
        decreases self,
    {
        match self {
            Value::Null => Value::Null,
            Value::Bool(b) => Value::Bool(*b),
            Value::Int(n) => Value::Int(n.duplicate()),
            Value::Float(d) => Value::Float(d.duplicate()),
            Value::String(s) => Value::String(s.clone()),
            Value::Array(items) => {
                let mut out: Vec<Value> = Vec::new();
                let mut i: usize = 0;
                while i < items.len()
                    invariant
                        i <= items.len(),
                        out.len() == i,
                        *self == Value::Array(*items),
                        forall|j: int| 0 <= j < i ==> out@[j]@ == items@[j]@,
                        forall|j: int| 0 <= j < i ==> (items@[j].wf() ==> (#[trigger] out@[j]).wf()),
                    decreases items.len() - i,
                {
                    proof {
                        assert(self->Array_0 == *items);
                        assert(decreases_to!(*self => self->Array_0));
                        assert(decreases_to!(*items => items[i as int]));
                    }
                    out.push(items[i].duplicate());
                    i += 1;
                }
                let r = Value::Array(out);
                proof {
                    lemma_array_model(r);
                    lemma_array_model(*self);
                    assert(item_trees(out@) =~= item_trees(items@));
                }
                r
            },
            Value::Object(members) => {
                let mut out: Vec<(String, Value)> = Vec::new();
                let mut i: usize = 0;
                while i < members.len()
                    invariant
                        i <= members.len(),
                        out.len() == i,
                        *self == Value::Object(*members),
                        forall|j: int|
                            0 <= j < i ==> out@[j].1@ == members@[j].1@ && out@[j].0@
                                == members@[j].0@,
                        forall|j: int|
                            0 <= j < i ==> (members@[j].1.wf() ==> (#[trigger] out@[j]).1.wf()),
                    decreases members.len() - i,
                {
                    proof {
                        assert(self->Object_0 == *members);
                        assert(decreases_to!(*self => self->Object_0));
                        assert(decreases_to!(*members => members[i as int]));
                        assert(decreases_to!(members[i as int] => members[i as int].1));
                    }
                    out.push((members[i].0.clone(), members[i].1.duplicate()));
                    i += 1;
                }
                let r = Value::Object(out);
                proof {
                    lemma_object_model(r);
                    lemma_object_model(*self);
                    assert(member_trees(out@) =~= member_trees(members@));
                    if self.wf() {
                        assert forall|j: int| 0 <= j < out@.len() - 1 implies key_lt(
                            (#[trigger] out@[j]).0@,
                            out@[j + 1].0@,
                        ) by {
                            assert(key_lt(members@[j].0@, members@[j + 1].0@));
                        }
                    }
                }
                r
            },
        }
    }

    /// Whether two values are the same value.
    pub fn equals(&self, other: &Value) -> (r: bool)
        ensures
            r == (self@ == other@),
        decreases self,
    {
        match (self, other) {
            (Value::Null, Value::Null) => true,
            (Value::Bool(a), Value::Bool(b)) => *a == *b,
            (Value::Int(a), Value::Int(b)) => a.equals(b),
            (Value::Float(a), Value::Float(b)) => a.equals(b),
            (Value::String(a), Value::String(b)) => *a == *b,
            (Value::Array(a), Value::Array(b)) => {
                proof {
                    lemma_array_model(*self);
                    lemma_array_model(*other);
                }
                if a.len() != b.len() {
                    assert(item_trees(a@).len() != item_trees(b@).len());
                    return false;
                }
                let mut i: usize = 0;
                while i < a.len()
                    invariant
                        i <= a.len(),
                        a.len() == b.len(),
                        *self == Value::Array(*a),
                        *other == Value::Array(*b),
                        self@ == Tree::Array(item_trees(a@)),
                        other@ == Tree::Array(item_trees(b@)),
                        forall|j: int| 0 <= j < i ==> a@[j]@ == b@[j]@,
                    decreases a.len() - i,
                {
                    proof {
                        assert(self->Array_0 == *a);
                        assert(decreases_to!(*self => self->Array_0));
                        assert(decreases_to!(*a => a[i as int]));
                    }
                    if !a[i].equals(&b[i]) {
                        assert(item_trees(a@)[i as int] != item_trees(b@)[i as int]);
                        return false;
                    }
                    i += 1;
                }
                assert(item_trees(a@) =~= item_trees(b@));
                true
            },
            (Value::Object(a), Value::Object(b)) => {
                proof {
                    lemma_object_model(*self);
                    lemma_object_model(*other);
                }
                if a.len() != b.len() {
                    assert(member_trees(a@).len() != member_trees(b@).len());
                    return false;
                }
                let mut i: usize = 0;
                while i < a.len()
                    invariant
                        i <= a.len(),
                        a.len() == b.len(),
                        *self == Value::Object(*a),
                        *other == Value::Object(*b),
                        self@ == Tree::Object(member_trees(a@)),
                        other@ == Tree::Object(member_trees(b@)),
                        forall|j: int|
                            0 <= j < i ==> a@[j].0@ == b@[j].0@ && a@[j].1@ == b@[j].1@,
                    decreases a.len() - i,
                {
                    proof {
                        assert(self->Object_0 == *a);
                        assert(decreases_to!(*self => self->Object_0));
                        assert(decreases_to!(*a => a[i as int]));
                        assert(decreases_to!(a[i as int] => a[i as int].1));
                    }
                    if !(a[i].0 == b[i].0) || !a[i].1.equals(&b[i].1) {
                        assert(member_trees(a@)[i as int] != member_trees(b@)[i as int]);
                        return false;
                    }
                    i += 1;
                }
                assert(member_trees(a@) =~= member_trees(b@));
                true
            },
            _ => false,
        }
    }

    /// The value as it is shown. The members of an object are shown in the
    /// order they are stored in: in the order of their keys where the value
    /// is well formed, as every value that this library hands out is.
    pub fn to_text(&self) -> (r: String)
        ensures
            r@ == tree_text(self@),
        decreases self,
    {
        let mut out = String::new();
        match self {
            Value::Null => {
                push_null(&mut out);
            },
            Value::Bool(b) => {
                push_bool(&mut out, *b);
            },
            Value::Int(n) => {
                let t = n.to_text();
                out.append(t.as_str());
            },
            Value::Float(d) => {
                let t = d.to_text();
                out.append(t.as_str());
            },
            Value::String(s) => {
                push_quoted(&mut out, s.as_str());
            },
            Value::Array(items) => {
                proof {
                    lemma_array_model(*self);
                }
                let ghost parts = Seq::new(items@.len(), |i: int| tree_text(items@[i]@));
                out.push('[');
                let mut i: usize = 0;
                while i < items.len()
                    invariant
                        i <= items.len(),
                        *self == Value::Array(*items),
                        parts == Seq::new(items@.len(), |i: int| tree_text(items@[i]@)),
                        out@ == seq!['['] + join(parts.take(i as int), seq![',']),
                    decreases items.len() - i,
                {
                    proof {
                        assert(self->Array_0 == *items);
                        assert(decreases_to!(*self => self->Array_0));
                        assert(decreases_to!(*items => items[i as int]));
                        lemma_join_push(parts.take(i as int), parts[i as int], seq![',']);
                        assert(parts.take(i + 1) =~= parts.take(i as int).push(parts[i as int]));
                    }
                    if i > 0 {
                        out.push(',');
                    }
                    let t = items[i].to_text();
                    out.append(t.as_str());
                    assert(out@ =~= seq!['['] + join(parts.take(i + 1), seq![',']));
                    i += 1;
                }
                out.push(']');
                proof {
                    assert(parts.take(items.len() as int) =~= parts);
                    assert(item_texts(item_trees(items@)) =~= parts);
                }
            },
            Value::Object(members) => {
                proof {
                    lemma_object_model(*self);
                }
                let ghost parts = Seq::new(
                    members@.len(),
                    |i: int| member_text(members@[i].0@, tree_text(members@[i].1@)),
                );
                out.push('{');
                let mut i: usize = 0;
                while i < members.len()
                    invariant
                        i <= members.len(),
                        *self == Value::Object(*members),
                        parts == Seq::new(
                            members@.len(),
                            |i: int| member_text(members@[i].0@, tree_text(members@[i].1@)),
                        ),
                        out@ == seq!['{'] + join(parts.take(i as int), seq![',']),
                    decreases members.len() - i,
                {
                    proof {
                        assert(self->Object_0 == *members);
                        assert(decreases_to!(*self => self->Object_0));
                        assert(decreases_to!(*members => members[i as int]));
                        assert(decreases_to!(members[i as int] => members[i as int].1));
                        lemma_join_push(parts.take(i as int), parts[i as int], seq![',']);
                        assert(parts.take(i + 1) =~= parts.take(i as int).push(parts[i as int]));
                    }
                    if i > 0 {
                        out.push(',');
                    }
                    push_quoted(&mut out, members[i].0.as_str());
                    out.push(':');
                    let t = members[i].1.to_text();
                    out.append(t.as_str());
                    assert(out@ =~= seq!['{'] + join(parts.take(i + 1), seq![',']));
                    i += 1;
                }
                out.push('}');
                proof {
                    assert(parts.take(members.len() as int) =~= parts);
                    assert(member_texts(member_trees(members@)) =~= parts);
                }
            },
        }
        assert(out@ =~= tree_text(self@));
        out
    }
}

} // verus!
