//! What holds of the merge, of the parser and of the shown values, whatever
//! the input.

use crate::decimal::float_text;
use crate::decimal::Scaled;
use crate::document;
use crate::json::same;
use crate::json::JsonTree;
use crate::json_lex::lemma_lex_json;
use crate::json_merge::lemma_merge_json;
use crate::json_parse::lemma_parse_json;
use crate::json_tree::json_text;
use crate::json_tree::plain_json;
use crate::json_tree::tree_of;
use crate::Fault;
use crate::integer::int_text;
use crate::integer::nat_text;
use crate::lex::Lexeme;
use crate::merge::beyond;
use crate::merge::child;
use crate::merge::discarded_here;
use crate::merge::discards;
use crate::merge::discards_from;
use crate::merge::merge_discards;
use crate::merge::has_key;
use crate::merge::lemma_rank;
use crate::merge::lemma_rank_is;
use crate::merge::merge_from;
use crate::merge::merge_spec;
use crate::merge::opened;
use crate::merge::place;
use crate::merge::rank;
use crate::merge::root_occupant;
use crate::merge::set_spec;
use crate::merge::with_child;
use crate::merge::MergeFault;
use crate::parse::step;
use crate::parse::Machine;
use crate::path::Seg;
use crate::path::Target;
use crate::text::lemma_key_order;
use crate::value::target_tree;
use crate::value::Tree;
use vstd::prelude::*;

verus! {

/// Whether a container is of the kind that a step walks into.
pub open spec fn fits(container: Tree, seg: Seg) -> bool {
    match seg {
        Seg::Key(_) => container is Object,
        Seg::Index(i) => container is Array && i >= 0,
    }
}

/// What a step walks into is of the step's kind.
pub proof fn lemma_opened_fits(node: Tree, seg: Seg, strict: bool)
    requires
        seg matches Seg::Index(i) ==> i >= 0,
        opened(node, seg, strict) is Some,
    ensures
        fits(opened(node, seg, strict)->0, seg),
{
}

/// A container that was given something at a step holds it there, is still
/// of the step's kind and long enough for it, and giving it something else at
/// that step is as giving that to the container it was before.
pub proof fn lemma_with_child(container: Tree, seg: Seg, t: Tree, u: Tree, strict: bool)
    requires
        fits(container, seg),
        !beyond(container, seg),
    ensures
        fits(with_child(container, seg, t), seg),
        !beyond(with_child(container, seg, t), seg),
        opened(with_child(container, seg, t), seg, strict) == Some(with_child(container, seg, t)),
        child(with_child(container, seg, t), seg) == Some(t),
        with_child(with_child(container, seg, t), seg, u) == with_child(container, seg, u),
{
    match (container, seg) {
        (Tree::Object(members), Seg::Key(key)) => {
            let r = rank(members, key);
            lemma_rank(members, key, 0);
            lemma_key_order(key, key);
            if has_key(members, key) {
                let after = members.update(r, (key, t));
                assert forall|j: int| 0 <= j < r implies crate::text::key_lt(
                    #[trigger] after[j].0,
                    key,
                ) by {
                    assert(after[j] == members[j]);
                }
                lemma_rank_is(after, key, 0, r);
                assert(after.update(r, (key, u)) =~= members.update(r, (key, u)));
            } else {
                let after = members.insert(r, (key, t));
                assert forall|j: int| 0 <= j < r implies crate::text::key_lt(
                    #[trigger] after[j].0,
                    key,
                ) by {
                    assert(after[j] == members[j]);
                }
                assert(after[r] == (key, t));
                lemma_rank_is(after, key, 0, r);
                assert(after.update(r, (key, u)) =~= members.insert(r, (key, u)));
            }
        },
        (Tree::Array(items), Seg::Index(i)) => {
            if 0 <= i < items.len() {
                assert(items.update(i, t).update(i, u) =~= items.update(i, u));
            } else {
                assert(items.push(t).update(i, u) =~= items.push(u));
            }
        },
        _ => {},
    }
}

/// Every step of the path that is an index is no less than 0.
pub open spec fn indices_natural(path: Seq<Seg>) -> bool {
    forall|i: int| 0 <= i < path.len() ==> (#[trigger] path[i] matches Seg::Index(k) ==> k >= 0)
}

/// Assigning a value to a place a second time changes nothing: where the
/// first assignment succeeds, the second succeeds too, under either policy,
/// and leaves what the first left.
pub proof fn lemma_place_twice(
    occupant: Option<Tree>,
    path: Seq<Seg>,
    depth: int,
    value: Tree,
    strict: bool,
)
    requires
        0 <= depth <= path.len(),
        indices_natural(path),
        place(occupant, path, depth, value, strict) is Ok,
    ensures
        place(Some(place(occupant, path, depth, value, strict)->Ok_0), path, depth, value, strict)
            == place(occupant, path, depth, value, strict),
    decreases path.len() - depth,
{
    if depth < path.len() {
        let node = match occupant {
            Some(t) => t,
            None => Tree::Null,
        };
        let seg = path[depth];
        let container = opened(node, seg, strict)->0;
        let inner = place(child(container, seg), path, depth + 1, value, strict);
        lemma_opened_fits(node, seg, strict);
        lemma_place_twice(child(container, seg), path, depth + 1, value, strict);
        lemma_with_child(container, seg, inner->Ok_0, inner->Ok_0, strict);
    }
}

/// Assigning the same value to the same path of a tree twice is as assigning
/// it once.
pub proof fn lemma_set_twice(root: Tree, path: Seq<Seg>, value: Tree, strict: bool)
    requires
        indices_natural(path),
        set_spec(root, path, value, strict) is Ok,
    ensures
        set_spec(set_spec(root, path, value, strict)->Ok_0, path, value, strict) == set_spec(
            root,
            path,
            value,
            strict,
        ),
{
    let first = set_spec(root, path, value, strict)->Ok_0;
    lemma_place_twice(root_occupant(root), path, 0, value, strict);
    if first is Null {
        if path.len() > 0 {
            let node = match root_occupant(root) {
                Some(t) => t,
                None => Tree::Null,
            };
            lemma_opened_fits(node, path[0], strict);
        }
    }
}

/// What one assignment makes of a tree: a reference leaves it as it is.
pub open spec fn assign(root: Tree, entry: (Seq<Seg>, Target), strict: bool) -> Result<
    Tree,
    MergeFault,
> {
    match target_tree(entry.1) {
        None => Ok(root),
        Some(v) => set_spec(root, entry.0, v, strict),
    }
}

/// Merging a list with one more assignment at its end is merging the list and
/// then making that assignment.
pub proof fn lemma_merge_push(
    root: Tree,
    entries: Seq<(Seq<Seg>, Target)>,
    entry: (Seq<Seg>, Target),
    i: int,
    strict: bool,
)
    requires
        0 <= i <= entries.len(),
    ensures
        merge_from(root, entries.push(entry), i, strict) == match merge_from(
            root,
            entries,
            i,
            strict,
        ) {
            Ok(t) => assign(t, entry, strict),
            Err(f) => Err(f),
        },
    decreases entries.len() - i,
{
    let longer = entries.push(entry);
    if i < entries.len() {
        assert(longer[i] == entries[i]);
        match target_tree(entries[i].1) {
            None => {
                lemma_merge_push(root, entries, entry, i + 1, strict);
            },
            Some(v) => match set_spec(root, entries[i].0, v, strict) {
                Ok(t) => {
                    lemma_merge_push(t, entries, entry, i + 1, strict);
                },
                Err(_) => {},
            },
        }
    } else {
        assert(longer[i] == entry);
        assert(merge_from(root, entries, i, strict) == Ok::<Tree, MergeFault>(root));
        match assign(root, entry, strict) {
            Ok(t) => {
                assert(merge_from(t, longer, i + 1, strict) == Ok::<Tree, MergeFault>(t));
            },
            Err(_) => {},
        }
    }
}

/// A document that makes its last assignment twice comes to what it comes to
/// with that assignment made once, under either policy: where the one
/// succeeds, so does the other, with the same tree.
pub proof fn lemma_merge_repeated(
    entries: Seq<(Seq<Seg>, Target)>,
    entry: (Seq<Seg>, Target),
    strict: bool,
)
    requires
        indices_natural(entry.0),
        merge_spec(entries.push(entry), strict) is Ok,
    ensures
        merge_spec(entries.push(entry).push(entry), strict) == merge_spec(
            entries.push(entry),
            strict,
        ),
{
    lemma_merge_push(Tree::Null, entries, entry, 0, strict);
    lemma_merge_push(Tree::Null, entries.push(entry), entry, 0, strict);
    let before = merge_from(Tree::Null, entries, 0, strict)->Ok_0;
    match target_tree(entry.1) {
        None => {},
        Some(v) => {
            lemma_set_twice(before, entry.0, v, strict);
        },
    }
}

/// What stands at the place that `path` leads to from its step `depth` on,
/// `occupant` being what stands at the place of step `depth`.
pub open spec fn lookup(occupant: Option<Tree>, path: Seq<Seg>, depth: int) -> Option<Tree>
    decreases path.len() - depth,
{
    if depth < 0 || depth >= path.len() {
        occupant
    } else {
        match occupant {
            Some(node) => lookup(child(node, path[depth]), path, depth + 1),
            None => None,
        }
    }
}

/// After an assignment that succeeds, under either policy, the value stands
/// at the path.
pub proof fn lemma_assigned_is_found(
    occupant: Option<Tree>,
    path: Seq<Seg>,
    depth: int,
    value: Tree,
    strict: bool,
)
    requires
        0 <= depth <= path.len(),
        indices_natural(path),
        place(occupant, path, depth, value, strict) is Ok,
    ensures
        lookup(Some(place(occupant, path, depth, value, strict)->Ok_0), path, depth) == Some(value),
    decreases path.len() - depth,
{
    if depth < path.len() {
        let node = match occupant {
            Some(t) => t,
            None => Tree::Null,
        };
        let seg = path[depth];
        let container = opened(node, seg, strict)->0;
        let inner = place(child(container, seg), path, depth + 1, value, strict);
        lemma_opened_fits(node, seg, strict);
        lemma_assigned_is_found(child(container, seg), path, depth + 1, value, strict);
        lemma_with_child(container, seg, inner->Ok_0, inner->Ok_0, strict);
    }
}

/// Under the strict policy, an assignment to a path at which another value
/// stands fails.
pub proof fn lemma_strict_refuses(
    occupant: Option<Tree>,
    path: Seq<Seg>,
    depth: int,
    value: Tree,
)
    requires
        0 <= depth <= path.len(),
        lookup(occupant, path, depth) matches Some(old) && old != value,
    ensures
        place(occupant, path, depth, value, true) is Err,
    decreases path.len() - depth,
{
    if depth < path.len() {
        let node = occupant->0;
        let seg = path[depth];
        assert(lookup(None, path, depth + 1) is None);
        assert(child(node, seg) is Some);
        assert(opened(node, seg, true) == Some(node));
        lemma_strict_refuses(child(node, seg), path, depth + 1, value);
    }
}

/// Under the lenient policy, an assignment fails only on an index beyond the
/// end of an array.
pub proof fn lemma_lenient_fails_only_beyond(
    occupant: Option<Tree>,
    path: Seq<Seg>,
    depth: int,
    value: Tree,
)
    requires
        0 <= depth <= path.len(),
    ensures
        place(occupant, path, depth, value, false) matches Err(f) ==> f is IndexOutOfBounds,
    decreases path.len() - depth,
{
    if depth < path.len() {
        let node = match occupant {
            Some(t) => t,
            None => Tree::Null,
        };
        let container = opened(node, path[depth], false)->0;
        lemma_lenient_fails_only_beyond(child(container, path[depth]), path, depth + 1, value);
    }
}

/// Under the strict policy an assignment throws nothing away.
pub proof fn lemma_strict_discards_nothing(
    occupant: Option<Tree>,
    path: Seq<Seg>,
    depth: int,
    value: Tree,
)
    requires
        0 <= depth <= path.len(),
    ensures
        discards(occupant, path, depth, value, true).len() == 0,
    decreases path.len() - depth,
{
    if depth < path.len() {
        let node = match occupant {
            Some(t) => t,
            None => Tree::Null,
        };
        match opened(node, path[depth], true) {
            Some(container) => {
                lemma_strict_discards_nothing(child(container, path[depth]), path, depth + 1, value);
            },
            None => {},
        }
    }
}

/// Under the strict policy a merge throws nothing away.
pub proof fn lemma_strict_merge_discards_nothing(
    root: Tree,
    entries: Seq<(Seq<Seg>, Target)>,
    i: int,
)
    requires
        0 <= i <= entries.len(),
    ensures
        discards_from(root, entries, i, true).len() == 0,
        i == 0 && root is Null ==> merge_discards(entries, true).len() == 0,
    decreases entries.len() - i,
{
    if i < entries.len() {
        match target_tree(entries[i].1) {
            None => {
                lemma_strict_merge_discards_nothing(root, entries, i + 1);
            },
            Some(v) => match set_spec(root, entries[i].0, v, true) {
                Ok(t) => {
                    lemma_strict_discards_nothing(root_occupant(root), entries[i].0, 0, v);
                    lemma_strict_merge_discards_nothing(t, entries, i + 1);
                },
                Err(_) => {},
            },
        }
    }
}

/// An assignment that succeeds under the lenient policy and throws nothing
/// away succeeds under the strict policy too, with the same result; and one
/// that succeeds under the strict policy succeeds under the lenient with the
/// same result and throws nothing away.
pub proof fn lemma_lenient_without_discard(
    occupant: Option<Tree>,
    path: Seq<Seg>,
    depth: int,
    value: Tree,
)
    requires
        0 <= depth <= path.len(),
    ensures
        place(occupant, path, depth, value, true) is Ok <==> place(
            occupant,
            path,
            depth,
            value,
            false,
        ) is Ok && discards(occupant, path, depth, value, false).len() == 0,
        place(occupant, path, depth, value, true) is Ok ==> place(
            occupant,
            path,
            depth,
            value,
            true,
        ) == place(occupant, path, depth, value, false),
    decreases path.len() - depth,
{
    if depth < path.len() {
        let node = match occupant {
            Some(t) => t,
            None => Tree::Null,
        };
        match opened(node, path[depth], false) {
            Some(container) => {
                lemma_lenient_without_discard(child(container, path[depth]), path, depth + 1, value);
                assert(discards(occupant, path, depth, value, false) == discarded_here(
                    node,
                    path,
                    depth,
                    false,
                ) + discards(child(container, path[depth]), path, depth + 1, value, false));
            },
            None => {},
        }
    }
}

/// A key written without quotes and the same key written between quotes are
/// the same step of a path: before `:`, the identifier and the string with
/// the same characters take the machine to the same state.
pub proof fn lemma_key_quotes(m: Machine, key: Seq<char>)
    ensures
        step(Machine { pending: Some(Lexeme::Ident(key)), ..m }, Lexeme::Colon) == step(
            Machine { pending: Some(Lexeme::String(key)), ..m },
            Lexeme::Colon,
        ),
{
}

/// Every character of the decimal text of a natural number is a digit.
pub proof fn lemma_nat_text_digits(n: nat)
    ensures
        nat_text(n).len() >= 1,
        forall|i: int| 0 <= i < nat_text(n).len() ==> '0' <= #[trigger] nat_text(n)[i] <= '9',
    decreases n,
{
    if n >= 10 {
        lemma_nat_text_digits(n / 10);
    }
}

/// A decimal number with no digit after the point is shown with `.0` at its
/// end, and so is never shown as a whole number is.
pub proof fn lemma_whole_float_text(d: Scaled, n: int)
    requires
        d.exponent >= 0,
    ensures
        float_text(d).len() >= 2,
        float_text(d)[float_text(d).len() - 2] == '.',
        float_text(d).last() == '0',
        float_text(d) != int_text(n),
{
    let shown = float_text(d);
    let whole = int_text(n);
    if n < 0 {
        lemma_nat_text_digits((-n) as nat);
    } else {
        lemma_nat_text_digits(n as nat);
    }
    if shown == whole {
        let i = shown.len() - 2;
        assert(whole[i] == '.');
        if n < 0 {
            if i > 0 {
                assert(whole[i] == nat_text((-n) as nat)[i - 1]);
            }
        }
    }
}

/// Reading the compact text of a plain JSON document gives, under either
/// policy, the tree of the document, and that tree is the same document:
/// its numbers are the numbers that the JSON text writes, and its objects
/// have the members of the JSON objects, whatever their order.
pub proof fn lemma_json_read_back(j: JsonTree, strict: bool)
    requires
        plain_json(j),
    ensures
        document(json_text(j), strict) == Ok::<Tree, Fault>(tree_of(j)),
        same(tree_of(j), j),
{
    lemma_lex_json(j);
    lemma_parse_json(j);
    lemma_merge_json(j, strict);
}

} // verus!
