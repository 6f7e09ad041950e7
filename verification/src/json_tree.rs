//! The JSON documents that are read back as they are, what such a document
//! is as a tree, and which assignments it makes.

use crate::decimal::decimal_limit;
use crate::decimal::decimal_literal;
use crate::decimal::decimal_value;
use crate::decimal::literal_exponent_magnitude;
use crate::decimal::literal_has_point;
use crate::decimal::literal_mantissa_end;
use crate::decimal::literal_whole_end;
use crate::grammar::after_sign;
use crate::integer::radix_literal_value;
use crate::json::keys_differ;
use crate::json::json_items;
use crate::json::json_members;
use crate::json::lemma_json_array;
use crate::json::lemma_json_object;
use crate::json::Json;
use crate::json::JsonTree;
use crate::lex::Lexeme;
use crate::merge::with_member;
use crate::path::Seg;
use crate::path::push_bool;
use crate::path::push_null;
use crate::path::Target;
use crate::text::push_quoted;
use crate::text::quoted;
use crate::value::Tree;
use vstd::prelude::*;
use vstd::string::StringExecFns;

verus! {

/// A text that can stand between double quotes as it is: it holds neither a
/// double quote nor a backslash.
pub open spec fn plain(s: Seq<char>) -> bool {
    forall|i: int| 0 <= i < s.len() ==> #[trigger] s[i] != '"' && s[i] != '\\'
}

/// A number as JSON writes it: an optional `-`, `0` or digits that begin with
/// no zero, then optionally a point and digits, then optionally an exponent.
/// It is within the limit of decimal numbers.
pub open spec fn json_number(s: Seq<char>) -> bool {
    let q = after_sign(s, 0);
    let w = literal_whole_end(s);
    &&& w > q
    &&& (s[q] == '0' ==> w == q + 1)
    &&& (literal_has_point(s) ==> literal_mantissa_end(s) > w + 1)
    &&& decimal_literal(s)
    &&& s.len() + literal_exponent_magnitude(s) <= decimal_limit()
}

/// Whether a JSON number is written with digits only.
pub open spec fn json_integer(s: Seq<char>) -> bool {
    literal_whole_end(s) == s.len()
}

/// A JSON document that is read back as it is: its strings and keys are
/// plain, its numbers are JSON numbers, no object has a key twice, and no
/// array has more items than an index can count.
pub open spec fn plain_json(j: JsonTree) -> bool
    decreases j,
{
    match j {
        JsonTree::Number(s) => json_number(s),
        JsonTree::String(s) => plain(s),
        JsonTree::Array(items) => items.len() <= usize::MAX && forall|i: int|
            0 <= i < items.len() ==> plain_json(#[trigger] items[i]),
        JsonTree::Object(members) => keys_differ(members) && forall|i: int|
            0 <= i < members.len() ==> plain((#[trigger] members[i]).0) && plain_json(
                members[i].1,
            ),
        _ => true,
    }
}

/// What a JSON number is in a tree: a whole number where it is written with
/// digits only, a decimal number otherwise.
pub open spec fn number_tree(s: Seq<char>) -> Tree {
    if json_integer(s) {
        Tree::Int(radix_literal_value(s, 10))
    } else {
        Tree::Float(decimal_value(s)->0)
    }
}

/// The items of a JSON array as trees.
pub open spec fn trees_of(items: Seq<JsonTree>) -> Seq<Tree>
    decreases items, 0nat,
{
    Seq::new(
        items.len(),
        |i: int|
            if 0 <= i < items.len() {
                tree_of(items[i])
            } else {
                Tree::Null
            },
    )
}

/// The first `n` members of a JSON object as the members of a tree, in the
/// order of their keys.
pub open spec fn members_of(members: Seq<(Seq<char>, JsonTree)>, n: nat) -> Seq<(Seq<char>, Tree)>
    decreases members, n,
{
    if n == 0 || n > members.len() {
        Seq::empty()
    } else {
        with_member(
            members_of(members, (n - 1) as nat),
            members[n - 1].0,
            tree_of(members[n - 1].1),
        )
    }
}

/// A JSON document as a tree.
pub open spec fn tree_of(j: JsonTree) -> Tree
    decreases j, 1nat,
{
    match j {
        JsonTree::Null => Tree::Null,
        JsonTree::Bool(b) => Tree::Bool(b),
        JsonTree::Number(s) => number_tree(s),
        JsonTree::String(s) => Tree::String(s),
        JsonTree::Array(items) => Tree::Array(trees_of(items)),
        JsonTree::Object(members) => Tree::Object(members_of(members, members.len())),
    }
}

/// What the parser finds for a JSON document that is no container with
/// something in it.
pub open spec fn leaf_target(j: JsonTree) -> Target {
    match j {
        JsonTree::Null => Target::Null,
        JsonTree::Bool(b) => Target::Bool(b),
        JsonTree::Number(s) => if json_integer(s) {
            Target::Int(radix_literal_value(s, 10))
        } else {
            Target::Float(decimal_value(s)->0)
        },
        JsonTree::String(s) => Target::String(s),
        JsonTree::Array(_) => Target::EmptyArray,
        JsonTree::Object(_) => Target::EmptyObject,
    }
}

/// The assignments that the first `n` items of a JSON array make, the array
/// standing at `base`.
pub open spec fn flat_items(items: Seq<JsonTree>, n: nat, base: Seq<Seg>) -> Seq<
    (Seq<Seg>, Target),
>
    decreases items, n,
{
    if n == 0 || n > items.len() {
        Seq::empty()
    } else {
        flat_items(items, (n - 1) as nat, base) + flat(items[n - 1], base.push(Seg::Index(n - 1)))
    }
}

/// The assignments that the first `n` members of a JSON object make, the
/// object standing at `base`.
pub open spec fn flat_members(members: Seq<(Seq<char>, JsonTree)>, n: nat, base: Seq<Seg>) -> Seq<
    (Seq<Seg>, Target),
>
    decreases members, n,
{
    if n == 0 || n > members.len() {
        Seq::empty()
    } else {
        flat_members(members, (n - 1) as nat, base) + flat(
            members[n - 1].1,
            base.push(Seg::Key(members[n - 1].0)),
        )
    }
}

/// The assignments that a JSON document makes, standing at `base`: one for
/// each of its scalars and empty containers, in the order of the text, each
/// with its path.
pub open spec fn flat(j: JsonTree, base: Seq<Seg>) -> Seq<(Seq<Seg>, Target)>
    decreases j, 1nat,
{
    match j {
        JsonTree::Array(items) => if items.len() == 0 {
            seq![(base, Target::EmptyArray)]
        } else {
            flat_items(items, items.len(), base)
        },
        JsonTree::Object(members) => if members.len() == 0 {
            seq![(base, Target::EmptyObject)]
        } else {
            flat_members(members, members.len(), base)
        },
        _ => seq![(base, leaf_target(j))],
    }
}

/// The token of a JSON document that is no container.
pub open spec fn leaf_lexeme(j: JsonTree) -> Lexeme {
    match j {
        JsonTree::Bool(b) => Lexeme::Bool(b),
        JsonTree::Number(s) => if json_integer(s) {
            Lexeme::Int(radix_literal_value(s, 10))
        } else {
            Lexeme::Float(decimal_value(s)->0)
        },
        JsonTree::String(s) => Lexeme::String(s),
        _ => Lexeme::Null,
    }
}

/// The tokens of the first `n` items of a JSON array, with the commas
/// between them.
pub open spec fn item_lexemes(items: Seq<JsonTree>, n: nat) -> Seq<Lexeme>
    decreases items, n,
{
    if n == 0 || n > items.len() {
        Seq::empty()
    } else if n == 1 {
        lexemes_of(items[0])
    } else {
        item_lexemes(items, (n - 1) as nat).push(Lexeme::Comma) + lexemes_of(items[n - 1])
    }
}

/// The tokens of a member of a JSON object: its key, `:`, its value.
pub open spec fn member_lexemes(members: Seq<(Seq<char>, JsonTree)>, n: nat) -> Seq<Lexeme>
    decreases members, n,
{
    if n == 0 || n > members.len() {
        Seq::empty()
    } else if n == 1 {
        seq![Lexeme::String(members[0].0), Lexeme::Colon] + lexemes_of(members[0].1)
    } else {
        member_lexemes(members, (n - 1) as nat).push(Lexeme::Comma) + seq![
            Lexeme::String(members[n - 1].0),
            Lexeme::Colon,
        ] + lexemes_of(members[n - 1].1)
    }
}

/// The tokens of a JSON document in its compact text.
pub open spec fn lexemes_of(j: JsonTree) -> Seq<Lexeme>
    decreases j, 1nat,
{
    match j {
        JsonTree::Array(items) => seq![Lexeme::OpenBracket] + item_lexemes(items, items.len())
            + seq![Lexeme::CloseBracket],
        JsonTree::Object(members) => seq![Lexeme::OpenBrace] + member_lexemes(
            members,
            members.len(),
        ) + seq![Lexeme::CloseBrace],
        _ => seq![leaf_lexeme(j)],
    }
}

/// The text of a JSON document that is no container.
pub open spec fn leaf_text(j: JsonTree) -> Seq<char> {
    match j {
        JsonTree::Bool(b) => if b {
            seq!['t', 'r', 'u', 'e']
        } else {
            seq!['f', 'a', 'l', 's', 'e']
        },
        JsonTree::Number(s) => s,
        JsonTree::String(s) => quoted(s),
        _ => seq!['n', 'u', 'l', 'l'],
    }
}

/// The text of the first `n` items of a JSON array, with the commas between
/// them.
pub open spec fn items_text(items: Seq<JsonTree>, n: nat) -> Seq<char>
    decreases items, n,
{
    if n == 0 || n > items.len() {
        Seq::empty()
    } else if n == 1 {
        json_text(items[0])
    } else {
        items_text(items, (n - 1) as nat).push(',') + json_text(items[n - 1])
    }
}

/// The text of the first `n` members of a JSON object, with the commas
/// between them.
pub open spec fn members_text(members: Seq<(Seq<char>, JsonTree)>, n: nat) -> Seq<char>
    decreases members, n,
{
    if n == 0 || n > members.len() {
        Seq::empty()
    } else if n == 1 {
        quoted(members[0].0).push(':') + json_text(members[0].1)
    } else {
        members_text(members, (n - 1) as nat).push(',') + quoted(members[n - 1].0).push(':')
            + json_text(members[n - 1].1)
    }
}

/// The compact text of a JSON document: no blanks, a number as it is
/// written, a string between double quotes as it is.
pub open spec fn json_text(j: JsonTree) -> Seq<char>
    decreases j, 1nat,
{
    match j {
        JsonTree::Array(items) => seq!['['] + items_text(items, items.len()) + seq![']'],
        JsonTree::Object(members) => seq!['{'] + members_text(members, members.len()) + seq!['}'],
        _ => leaf_text(j),
    }
}

impl Json {
    /// The compact text of the document.
    pub fn to_text(&self) -> (r: String)
        ensures
            r@ == json_text(self@),
        decreases self,
    {
        let mut out = String::new();
        match self {
            Json::Null => {
                push_null(&mut out);
            },
            Json::Bool(b) => {
                push_bool(&mut out, *b);
            },
            Json::Number(s) => {
                out.append(s.as_str());
            },
            Json::String(s) => {
                push_quoted(&mut out, s.as_str());
            },
            Json::Array(items) => {
                proof {
                    lemma_json_array(*self);
                }
                let ghost trees = json_items(items@);
                out.push('[');
                let mut i: usize = 0;
                while i < items.len()
                    invariant
                        i <= items.len(),
                        *self == Json::Array(*items),
                        trees == json_items(items@),
                        out@ == seq!['['] + items_text(trees, i as nat),
                    decreases items.len() - i,
                {
                    proof {
                        assert(self->Array_0 == *items);
                        assert(decreases_to!(*self => self->Array_0));
                        assert(decreases_to!(*items => items[i as int]));
                    }
                    if i > 0 {
                        out.push(',');
                    }
                    let t = items[i].to_text();
                    out.append(t.as_str());
                    assert(out@ =~= seq!['['] + items_text(trees, (i + 1) as nat));
                    i += 1;
                }
                out.push(']');
            },
            Json::Object(members) => {
                proof {
                    lemma_json_object(*self);
                }
                let ghost trees = json_members(members@);
                out.push('{');
                let mut i: usize = 0;
                while i < members.len()
                    invariant
                        i <= members.len(),
                        *self == Json::Object(*members),
                        trees == json_members(members@),
                        out@ == seq!['{'] + members_text(trees, i as nat),
                    decreases members.len() - i,
                {
                    proof {
                        assert(self->Object_0 == *members);
                        assert(decreases_to!(*self => self->Object_0));
                        assert(decreases_to!(*members => members[i as int]));
                        assert(decreases_to!(members[i as int] => members[i as int].1));
                    }
                    if i > 0 {
                        out.push(',');
                    }
                    push_quoted(&mut out, members[i].0.as_str());
                    out.push(':');
                    let t = members[i].1.to_text();
                    out.append(t.as_str());
                    assert(out@ =~= seq!['{'] + members_text(trees, (i + 1) as nat));
                    i += 1;
                }
                out.push('}');
            },
        }
        assert(out@ =~= json_text(self@));
        out
    }
}

} // verus!
