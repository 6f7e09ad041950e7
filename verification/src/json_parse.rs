//! Parsing the tokens of a JSON document gives the assignments of the
//! document.

use crate::json::JsonTree;
use crate::json_merge::lemma_flat_under;
use crate::json_tree::flat;
use crate::json_tree::flat_items;
use crate::json_tree::flat_members;
use crate::json_tree::item_lexemes;
use crate::json_tree::leaf_lexeme;
use crate::json_tree::leaf_target;
use crate::json_tree::lexemes_of;
use crate::json_tree::member_lexemes;
use crate::json_tree::plain_json;
use crate::lex::Lexeme;
use crate::parse::act;
use crate::parse::advance;
use crate::parse::close;
use crate::parse::commit;
use crate::parse::emit;
use crate::parse::finish;
use crate::parse::mark_used;
use crate::parse::open;
use crate::parse::parse_spec;
use crate::parse::run;
use crate::parse::scope_path;
use crate::parse::scope_steps;
use crate::parse::start;
use crate::parse::step;
use crate::parse::target_of;
use crate::parse::Machine;
use crate::parse::ParseErrorKind;
use crate::parse::ParseFault;
use crate::parse::Scope;
use crate::path::Seg;
use crate::path::Target;
use vstd::prelude::*;

verus! {

/// The machine after a run of tokens, or what is wrong with them.
pub open spec fn feed(m: Machine, tokens: Seq<Lexeme>) -> Result<Machine, ParseErrorKind>
    decreases tokens.len(),
{
    if tokens.len() == 0 {
        Ok(m)
    } else {
        match step(m, tokens[0]) {
            Ok(m1) => feed(m1, tokens.drop_first()),
            Err(k) => Err(k),
        }
    }
}

/// A run of tokens after another is fed after the other.
pub proof fn lemma_feed_concat(m: Machine, a: Seq<Lexeme>, b: Seq<Lexeme>)
    ensures
        feed(m, a + b) == match feed(m, a) {
            Ok(m1) => feed(m1, b),
            Err(k) => Err(k),
        },
    decreases a.len(),
{
    if a.len() == 0 {
        assert(a + b =~= b);
    } else {
        assert((a + b).drop_first() =~= a.drop_first() + b);
        assert((a + b)[0] == a[0]);
        match step(m, a[0]) {
            Ok(m1) => {
                lemma_feed_concat(m1, a.drop_first(), b);
            },
            Err(_) => {},
        }
    }
}

/// One token fed is one step.
pub proof fn lemma_feed_one(m: Machine, x: Lexeme)
    ensures
        feed(m, seq![x]) == step(m, x),
{
    let tokens = seq![x];
    assert(tokens[0] == x);
    assert(tokens.drop_first().len() == 0);
    match step(m, x) {
        Ok(m1) => {
            assert(feed(m1, tokens.drop_first()) == Ok::<Machine, ParseErrorKind>(m1));
        },
        Err(_) => {},
    }
}

/// Where feeding the tokens succeeds, running over them from any place in
/// them succeeds with the same machine.
pub proof fn lemma_run_is_feed(m: Machine, tokens: Seq<Lexeme>, i: int)
    requires
        0 <= i <= tokens.len(),
        feed(m, tokens.skip(i)) is Ok,
    ensures
        run(m, tokens, i) == Ok::<Machine, ParseFault>(feed(m, tokens.skip(i))->Ok_0),
    decreases tokens.len() - i,
{
    let rest = tokens.skip(i);
    if i < tokens.len() {
        assert(rest[0] == tokens[i]);
        assert(rest.drop_first() =~= tokens.skip(i + 1));
        lemma_run_is_feed(step(m, tokens[i])->Ok_0, tokens, i + 1);
    }
}

/// Whether the machine waits for nothing: no token is pending, no line end
/// was seen, no reference is being read.
pub open spec fn clean(m: Machine) -> bool {
    m.pending is None && !m.after_newline && m.reference.len() == 0
}

/// The path at which the machine would assign a value now.
pub open spec fn here(m: Machine) -> Seq<Seg> {
    scope_path(m.scope) + m.path
}

/// The machine after the value `j` was read and committed.
pub open spec fn settled(m: Machine, j: JsonTree) -> Machine {
    Machine {
        out: m.out + flat(j, here(m)),
        scope: mark_used(m.scope),
        path: Seq::empty(),
        pending: None,
        after_newline: false,
        reference: Seq::empty(),
    }
}

/// Whether a JSON document is a container: an array or an object.
pub open spec fn is_container(j: JsonTree) -> bool {
    j is Array || j is Object
}

/// The machine after the tokens of the value `j`: a scalar is pending, a
/// container is closed.
pub open spec fn after_value(m: Machine, j: JsonTree) -> Machine {
    if is_container(j) {
        settled(m, j)
    } else {
        Machine { pending: Some(leaf_lexeme(j)), ..m }
    }
}

/// Committing after a value leaves the machine settled.
pub proof fn lemma_commit_value(m: Machine, j: JsonTree)
    requires
        clean(m),
    ensures
        commit(after_value(m, j)) == Ok::<Machine, ParseErrorKind>(settled(m, j)),
        !after_value(m, j).after_newline,
{
    if !is_container(j) {
        let pending = after_value(m, j);
        assert(m.reference =~= Seq::empty());
        assert(target_of(leaf_lexeme(j), m.reference) == Ok::<Target, ParseErrorKind>(
            leaf_target(j),
        ));
        let done = emit(Machine { pending: None, ..pending }, leaf_target(j));
        assert(done.out =~= m.out + flat(j, here(m)));
        assert(done == settled(m, j));
    }
}

/// The steps of the open brackets with one more.
pub proof fn lemma_scope_push(scope: Seq<Scope>, top: Scope)
    ensures
        scope_path(scope.push(top)) == scope_path(scope) + scope_steps(top),
        mark_used(scope.push(top)) == scope.push(Scope { empty: false, ..top }),
{
    assert(scope.push(top).drop_last() =~= scope);
    assert(mark_used(scope.push(top)) =~= scope.push(Scope { empty: false, ..top }));
}

/// The machine inside an array of which `k` items were read, the comma
/// after them too.
pub open spec fn in_array(m: Machine, items: Seq<JsonTree>, k: nat) -> Machine {
    Machine {
        out: m.out + flat_items(items, k, here(m)),
        scope: m.scope.push(Scope { prefix: m.path, index: Some(k as int), empty: k == 0 }),
        path: Seq::empty(),
        pending: None,
        after_newline: false,
        reference: Seq::empty(),
    }
}

/// The machine inside an object of which `k` members were read, the comma
/// after them too.
pub open spec fn in_object(m: Machine, members: Seq<(Seq<char>, JsonTree)>, k: nat) -> Machine {
    Machine {
        out: m.out + flat_members(members, k, here(m)),
        scope: m.scope.push(Scope { prefix: m.path, index: None, empty: k == 0 }),
        path: Seq::empty(),
        pending: None,
        after_newline: false,
        reference: Seq::empty(),
    }
}

/// The machine inside an object after the key of its member `k` and `:`.
pub open spec fn at_member(m: Machine, members: Seq<(Seq<char>, JsonTree)>, k: nat) -> Machine {
    Machine { path: seq![Seg::Key(members[k as int].0)], ..in_object(m, members, k) }
}

/// Feeding the tokens of a JSON value to a machine that waits for nothing
/// leaves it after the value.
pub proof fn lemma_feed_value(m: Machine, j: JsonTree)
    requires
        clean(m),
        plain_json(j),
    ensures
        feed(m, lexemes_of(j)) == Ok::<Machine, ParseErrorKind>(after_value(m, j)),
    decreases j, 1nat,
{
    match j {
        JsonTree::Array(items) => {
            let n = items.len();
            let inner = item_lexemes(items, n);
            let opening = seq![Lexeme::OpenBracket];
            let closing = seq![Lexeme::CloseBracket];
            lemma_feed_concat(m, opening + inner, closing);
            lemma_feed_concat(m, opening, inner);
            lemma_feed_one(m, Lexeme::OpenBracket);
            let inside = in_array(m, items, 0);
            assert(m.reference =~= Seq::empty());
            assert(inside.out =~= m.out);
            assert(open(m, true) == inside);
            assert(step(m, Lexeme::OpenBracket) == Ok::<Machine, ParseErrorKind>(inside));
            if n == 0 {
                assert(feed(inside, inner) == Ok::<Machine, ParseErrorKind>(inside));
                lemma_feed_one(inside, Lexeme::CloseBracket);
                let top = inside.scope.last();
                let bare = inside.scope.update(
                    inside.scope.len() - 1,
                    Scope { index: None, ..top },
                );
                assert(bare =~= m.scope.push(Scope { index: None, ..top }));
                lemma_scope_push(m.scope, Scope { index: None, ..top });
                let filled = emit(Machine { scope: bare, ..inside }, Target::EmptyArray);
                assert(filled.scope.drop_last() =~= m.scope);
                assert(scope_path(bare) + inside.path =~= here(m));
                assert(filled.out =~= m.out + flat(j, here(m)));
                assert(close(inside, true) == Ok::<Machine, ParseErrorKind>(settled(m, j)));
            } else {
                lemma_feed_items(m, items, n);
                let last = (n - 1) as nat;
                let before = in_array(m, items, last);
                let value = after_value(before, items[last as int]);
                lemma_feed_one(value, Lexeme::CloseBracket);
                lemma_commit_value(before, items[last as int]);
                lemma_item_settled(m, items, last);
                let done = settled(before, items[last as int]);
                assert(done.scope.drop_last() =~= m.scope);
                assert(close(done, true) == Ok::<Machine, ParseErrorKind>(settled(m, j)));
            }
        },
        JsonTree::Object(members) => {
            let n = members.len();
            let inner = member_lexemes(members, n);
            let opening = seq![Lexeme::OpenBrace];
            let closing = seq![Lexeme::CloseBrace];
            lemma_feed_concat(m, opening + inner, closing);
            lemma_feed_concat(m, opening, inner);
            lemma_feed_one(m, Lexeme::OpenBrace);
            let inside = in_object(m, members, 0);
            assert(m.reference =~= Seq::empty());
            assert(inside.out =~= m.out);
            assert(open(m, false) == inside);
            assert(step(m, Lexeme::OpenBrace) == Ok::<Machine, ParseErrorKind>(inside));
            if n == 0 {
                assert(feed(inside, inner) == Ok::<Machine, ParseErrorKind>(inside));
                lemma_feed_one(inside, Lexeme::CloseBrace);
                let top = inside.scope.last();
                let bare = inside.scope.update(
                    inside.scope.len() - 1,
                    Scope { index: None, ..top },
                );
                assert(bare =~= inside.scope);
                lemma_scope_push(m.scope, top);
                let filled = emit(Machine { scope: bare, ..inside }, Target::EmptyObject);
                assert(filled.scope.drop_last() =~= m.scope);
                assert(scope_path(bare) + inside.path =~= here(m));
                assert(filled.out =~= m.out + flat(j, here(m)));
                assert(close(inside, false) == Ok::<Machine, ParseErrorKind>(settled(m, j)));
            } else {
                lemma_feed_members(m, members, n);
                let last = (n - 1) as nat;
                let before = at_member(m, members, last);
                let value = after_value(before, members[last as int].1);
                lemma_feed_one(value, Lexeme::CloseBrace);
                lemma_commit_value(before, members[last as int].1);
                lemma_member_settled(m, members, last);
                let done = settled(before, members[last as int].1);
                assert(done.scope.drop_last() =~= m.scope);
                assert(close(done, false) == Ok::<Machine, ParseErrorKind>(settled(m, j)));
            }
        },
        _ => {
            lemma_feed_one(m, leaf_lexeme(j));
        },
    }
}

/// What the machine is when item `k` of an array was read and committed.
pub proof fn lemma_item_settled(m: Machine, items: Seq<JsonTree>, k: nat)
    requires
        k < items.len(),
    ensures
        settled(in_array(m, items, k), items[k as int]) == (Machine {
            scope: m.scope.push(Scope { prefix: m.path, index: Some(k as int), empty: false }),
            ..in_array(m, items, k + 1)
        }),
{
    let before = in_array(m, items, k);
    let top = Scope { prefix: m.path, index: Some(k as int), empty: k == 0 };
    lemma_scope_push(m.scope, top);
    assert(here(before) =~= here(m).push(Seg::Index(k as int)));
    let done = settled(before, items[k as int]);
    assert(done.out =~= m.out + flat_items(items, k + 1, here(m)));
}

/// What the machine is when member `k` of an object was read and
/// committed.
pub proof fn lemma_member_settled(m: Machine, members: Seq<(Seq<char>, JsonTree)>, k: nat)
    requires
        k < members.len(),
    ensures
        settled(at_member(m, members, k), members[k as int].1) == (Machine {
            scope: m.scope.push(Scope { prefix: m.path, index: None, empty: false }),
            ..in_object(m, members, k + 1)
        }),
{
    let before = at_member(m, members, k);
    let top = Scope { prefix: m.path, index: None, empty: k == 0 };
    lemma_scope_push(m.scope, top);
    assert(here(before) =~= here(m).push(Seg::Key(members[k as int].0)));
    let done = settled(before, members[k as int].1);
    assert(done.out =~= m.out + flat_members(members, k + 1, here(m)));
}

/// Feeding the tokens of the first `n` items of an array to the machine
/// inside the array leaves it after item `n - 1`.
pub proof fn lemma_feed_items(m: Machine, items: Seq<JsonTree>, n: nat)
    requires
        clean(m),
        0 < n <= items.len(),
        items.len() <= usize::MAX,
        forall|i: int| 0 <= i < items.len() ==> plain_json(#[trigger] items[i]),
    ensures
        feed(in_array(m, items, 0), item_lexemes(items, n)) == Ok::<Machine, ParseErrorKind>(
            after_value(in_array(m, items, (n - 1) as nat), items[n - 1]),
        ),
    decreases items, n,
{
    let inside = in_array(m, items, 0);
    let last = (n - 1) as nat;
    if n == 1 {
        lemma_feed_value(inside, items[0]);
    } else {
        let earlier = item_lexemes(items, last);
        let prev = (n - 2) as nat;
        lemma_feed_items(m, items, last);
        let value = after_value(in_array(m, items, prev), items[prev as int]);
        lemma_feed_concat(inside, earlier.push(Lexeme::Comma), lexemes_of(items[last as int]));
        assert(earlier.push(Lexeme::Comma) =~= earlier + seq![Lexeme::Comma]);
        lemma_feed_concat(inside, earlier, seq![Lexeme::Comma]);
        lemma_feed_one(value, Lexeme::Comma);
        lemma_commit_value(in_array(m, items, prev), items[prev as int]);
        lemma_item_settled(m, items, prev);
        let done = settled(in_array(m, items, prev), items[prev as int]);
        let next = in_array(m, items, last);
        assert(done.scope.update(
            done.scope.len() - 1,
            Scope { index: Some(prev as int + 1), ..done.scope.last() },
        ) =~= next.scope);
        assert(advance(done) == Ok::<Machine, ParseErrorKind>(next));
        assert(step(value, Lexeme::Comma) == Ok::<Machine, ParseErrorKind>(next));
        lemma_feed_value(next, items[last as int]);
    }
}

/// The key of a member and `:` take the machine inside an object to the
/// member.
pub proof fn lemma_feed_key(m: Machine, members: Seq<(Seq<char>, JsonTree)>, k: nat)
    requires
        k < members.len(),
    ensures
        feed(in_object(m, members, k), seq![Lexeme::String(members[k as int].0), Lexeme::Colon])
            == Ok::<Machine, ParseErrorKind>(at_member(m, members, k)),
{
    let inside = in_object(m, members, k);
    let key = members[k as int].0;
    let tokens = seq![Lexeme::String(key), Lexeme::Colon];
    let waiting = Machine { pending: Some(Lexeme::String(key)), ..inside };
    assert(tokens[0] == Lexeme::String(key));
    assert(tokens.drop_first() =~= seq![Lexeme::Colon]);
    assert(step(inside, Lexeme::String(key)) == Ok::<Machine, ParseErrorKind>(waiting));
    lemma_feed_one(waiting, Lexeme::Colon);
    let keyed = at_member(m, members, k);
    assert(inside.path.push(Seg::Key(key)) =~= keyed.path);
    assert(step(waiting, Lexeme::Colon) == Ok::<Machine, ParseErrorKind>(keyed));
}

/// Feeding the tokens of the first `n` members of an object to the machine
/// inside the object leaves it after the value of member `n - 1`.
pub proof fn lemma_feed_members(m: Machine, members: Seq<(Seq<char>, JsonTree)>, n: nat)
    requires
        clean(m),
        0 < n <= members.len(),
        forall|i: int| 0 <= i < members.len() ==> plain_json((#[trigger] members[i]).1),
    ensures
        feed(in_object(m, members, 0), member_lexemes(members, n)) == Ok::<
            Machine,
            ParseErrorKind,
        >(after_value(at_member(m, members, (n - 1) as nat), members[n - 1].1)),
    decreases members, n,
{
    let inside = in_object(m, members, 0);
    let last = (n - 1) as nat;
    let key = seq![Lexeme::String(members[last as int].0), Lexeme::Colon];
    let value = lexemes_of(members[last as int].1);
    lemma_feed_key(m, members, last);
    lemma_feed_value(at_member(m, members, last), members[last as int].1);
    if n == 1 {
        lemma_feed_concat(inside, key, value);
    } else {
        let earlier = member_lexemes(members, last);
        let prev = (n - 2) as nat;
        lemma_feed_members(m, members, last);
        let before = after_value(at_member(m, members, prev), members[prev as int].1);
        lemma_feed_concat(inside, earlier.push(Lexeme::Comma) + key, value);
        lemma_feed_concat(inside, earlier.push(Lexeme::Comma), key);
        assert(earlier.push(Lexeme::Comma) =~= earlier + seq![Lexeme::Comma]);
        lemma_feed_concat(inside, earlier, seq![Lexeme::Comma]);
        lemma_feed_one(before, Lexeme::Comma);
        lemma_commit_value(at_member(m, members, prev), members[prev as int].1);
        lemma_member_settled(m, members, prev);
        let done = settled(at_member(m, members, prev), members[prev as int].1);
        let next = in_object(m, members, last);
        assert(done == next);
        assert(advance(done) == Ok::<Machine, ParseErrorKind>(next));
        assert(step(before, Lexeme::Comma) == Ok::<Machine, ParseErrorKind>(next));
    }
}

/// Parsing the tokens of a plain JSON document gives the assignments of the
/// document.
pub proof fn lemma_parse_json(j: JsonTree)
    requires
        plain_json(j),
    ensures
        parse_spec(lexemes_of(j)) == Ok::<Seq<(Seq<Seg>, Target)>, ParseFault>(
            flat(j, Seq::empty()),
        ),
{
    let tokens = lexemes_of(j);
    let m = start();
    lemma_feed_value(m, j);
    assert(tokens.skip(0) =~= tokens);
    lemma_run_is_feed(m, tokens, 0);
    lemma_commit_value(m, j);
    let done = settled(m, j);
    assert(here(m) =~= Seq::empty());
    lemma_flat_under(j, Seq::empty());
    assert(done.out =~= flat(j, Seq::empty()));
    assert(done.scope =~= Seq::empty());
}

} // verus!
