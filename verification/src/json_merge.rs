//! Merging the assignments of a JSON document gives the tree of the
//! document.

use crate::json::keys_differ;
use crate::json::same;
use crate::json::JsonTree;
use crate::json_tree::flat;
use crate::json_tree::flat_items;
use crate::json_tree::flat_members;
use crate::json_tree::json_integer;
use crate::json_tree::json_number;
use crate::json_tree::leaf_target;
use crate::json_tree::members_of;
use crate::json_tree::plain_json;
use crate::json_tree::tree_of;
use crate::json_tree::trees_of;
use crate::laws::fits;
use crate::laws::lemma_with_child;
use crate::merge::beyond;
use crate::merge::child;
use crate::merge::has_key;
use crate::merge::lemma_member_added;
use crate::merge::lemma_rank;
use crate::merge::lemma_rank_is;
use crate::merge::merge_from;
use crate::merge::merge_spec;
use crate::merge::opened;
use crate::merge::place;
use crate::merge::rank;
use crate::merge::root_occupant;
use crate::merge::set_spec;
use crate::merge::with_child;
use crate::merge::with_member;
use crate::merge::MergeFault;
use crate::path::Seg;
use crate::path::Target;
use crate::text::key_lt;
use crate::text::lemma_key_order;
use crate::text::lemma_key_transitive;
use crate::value::keys_rise;
use crate::value::target_tree;
use crate::value::Tree;
use vstd::prelude::*;

verus! {

/// What a run of assignments makes of what stands at a place: each is
/// assigned from the step `depth` of its path on, and a reference changes
/// nothing.
pub open spec fn graft(
    occupant: Option<Tree>,
    entries: Seq<(Seq<Seg>, Target)>,
    depth: int,
    strict: bool,
) -> Result<
    Option<Tree>,
    MergeFault,
>
    decreases entries.len(),
{
    if entries.len() == 0 {
        Ok(occupant)
    } else {
        match target_tree(entries[0].1) {
            None => graft(occupant, entries.drop_first(), depth, strict),
            Some(v) => match place(occupant, entries[0].0, depth, v, strict) {
                Ok(t) => graft(Some(t), entries.drop_first(), depth, strict),
                Err(f) => Err(f),
            },
        }
    }
}

/// A run of assignments after another is made after the other.
pub proof fn lemma_graft_concat(
    occupant: Option<Tree>,
    a: Seq<(Seq<Seg>, Target)>,
    b: Seq<(Seq<Seg>, Target)>,
    depth: int,
    strict: bool,
)
    ensures
        graft(occupant, a + b, depth, strict) == match graft(occupant, a, depth, strict) {
            Ok(o) => graft(o, b, depth, strict),
            Err(f) => Err(f),
        },
    decreases a.len(),
{
    if a.len() == 0 {
        assert(a + b =~= b);
    } else {
        assert((a + b).drop_first() =~= a.drop_first() + b);
        assert((a + b)[0] == a[0]);
        match target_tree(a[0].1) {
            None => {
                lemma_graft_concat(occupant, a.drop_first(), b, depth, strict);
            },
            Some(v) => match place(occupant, a[0].0, depth, v, strict) {
                Ok(t) => {
                    lemma_graft_concat(Some(t), a.drop_first(), b, depth, strict);
                },
                Err(_) => {},
            },
        }
    }
}

/// Whether every assignment of the run is of a value, to a path that goes
/// on beyond the step `depth` and has `seg` there.
pub open spec fn all_through(entries: Seq<(Seq<Seg>, Target)>, depth: int, seg: Seg) -> bool {
    forall|k: int|
        0 <= k < entries.len() ==> (#[trigger] entries[k]).0.len() > depth && entries[k].0[depth]
            == seg && target_tree(entries[k].1) is Some
}

/// The node that stands at a place: null where nothing does.
pub open spec fn node_of(occupant: Option<Tree>) -> Tree {
    match occupant {
        Some(t) => t,
        None => Tree::Null,
    }
}

/// A run of assignments that all go through one step makes of the container
/// at that step what it makes of the container's child there.
pub proof fn lemma_graft_through(
    occupant: Option<Tree>,
    entries: Seq<(Seq<Seg>, Target)>,
    depth: int,
    seg: Seg,
    result: Tree,
    strict: bool,
)
    requires
        0 <= depth,
        entries.len() > 0,
        all_through(entries, depth, seg),
        seg matches Seg::Index(i) ==> i >= 0,
        opened(node_of(occupant), seg, strict) is Some,
        !beyond(opened(node_of(occupant), seg, strict)->0, seg),
        graft(child(opened(node_of(occupant), seg, strict)->0, seg), entries, depth + 1, strict) == Ok::<
            Option<Tree>,
            MergeFault,
        >(Some(result)),
    ensures
        graft(occupant, entries, depth, strict) == Ok::<Option<Tree>, MergeFault>(
            Some(with_child(opened(node_of(occupant), seg, strict)->0, seg, result)),
        ),
    decreases entries.len(),
{
    let container = opened(node_of(occupant), seg, strict)->0;
    let first = entries[0];
    let rest = entries.drop_first();
    let v = target_tree(first.1)->0;
    assert(first.0[depth] == seg);
    let inner = place(child(container, seg), first.0, depth + 1, v, strict);
    assert(inner is Ok);
    let t1 = inner->Ok_0;
    let c1 = with_child(container, seg, t1);
    assert(place(occupant, first.0, depth, v, strict) == Ok::<Tree, MergeFault>(c1));
    crate::laws::lemma_opened_fits(node_of(occupant), seg, strict);
    lemma_with_child(container, seg, t1, result, strict);
    assert(graft(child(container, seg), entries, depth + 1, strict) == graft(Some(t1), rest, depth + 1, strict));
    assert(graft(occupant, entries, depth, strict) == graft(Some(c1), rest, depth, strict));
    if rest.len() == 0 {
        assert(graft(Some(t1), rest, depth + 1, strict) == Ok::<Option<Tree>, MergeFault>(Some(t1)));
        assert(graft(Some(c1), rest, depth, strict) == Ok::<Option<Tree>, MergeFault>(Some(c1)));
    } else {
        assert forall|k: int| 0 <= k < rest.len() implies (#[trigger] rest[k]).0.len() > depth
            && rest[k].0[depth] == seg && target_tree(rest[k].1) is Some by {
            assert(rest[k] == entries[k + 1]);
        }
        lemma_graft_through(Some(c1), rest, depth, seg, result, strict);
    }
}

/// Whether every assignment of the run is of a value, to a path that begins
/// with `base`.
pub open spec fn all_under(entries: Seq<(Seq<Seg>, Target)>, base: Seq<Seg>) -> bool {
    forall|k: int|
        0 <= k < entries.len() ==> (#[trigger] entries[k]).0.len() >= base.len()
            && entries[k].0.take(base.len() as int) == base && target_tree(entries[k].1) is Some
}

/// The assignments of a JSON document are at least one, each of a value, to
/// a path that begins with the path of the document.
pub proof fn lemma_flat_under(j: JsonTree, base: Seq<Seg>)
    ensures
        flat(j, base).len() > 0,
        all_under(flat(j, base), base),
    decreases j, 1nat,
{
    match j {
        JsonTree::Array(items) => {
            if items.len() > 0 {
                lemma_flat_items_under(items, items.len(), base);
            } else {
                assert(base.take(base.len() as int) =~= base);
            }
        },
        JsonTree::Object(members) => {
            if members.len() > 0 {
                lemma_flat_members_under(members, members.len(), base);
            } else {
                assert(base.take(base.len() as int) =~= base);
            }
        },
        _ => {
            assert(base.take(base.len() as int) =~= base);
        },
    }
}

/// The assignments of the items of an array are at least one, each of a
/// value, to a path that begins with the path of the array.
pub proof fn lemma_flat_items_under(items: Seq<JsonTree>, n: nat, base: Seq<Seg>)
    requires
        0 < n <= items.len(),
    ensures
        flat_items(items, n, base).len() > 0,
        all_under(flat_items(items, n, base), base),
    decreases items, n,
{
    let head = flat_items(items, (n - 1) as nat, base);
    let step = base.push(Seg::Index(n - 1));
    let tail = flat(items[n - 1], step);
    lemma_flat_under(items[n - 1], step);
    if n > 1 {
        lemma_flat_items_under(items, (n - 1) as nat, base);
    }
    assert forall|k: int| 0 <= k < (head + tail).len() implies (#[trigger] (head + tail)[k]).0.len()
        >= base.len() && (head + tail)[k].0.take(base.len() as int) == base && target_tree(
        (head + tail)[k].1,
    ) is Some by {
        if k >= head.len() {
            let e = tail[k - head.len()];
            assert((head + tail)[k] == e);
            assert(e.0.take(step.len() as int) == step);
            assert(e.0.take(base.len() as int) =~= e.0.take(step.len() as int).take(
                base.len() as int,
            ));
            assert(step.take(base.len() as int) =~= base);
        } else {
            assert((head + tail)[k] == head[k]);
        }
    }
}

/// The assignments of the members of an object are at least one, each of a
/// value, to a path that begins with the path of the object.
pub proof fn lemma_flat_members_under(
    members: Seq<(Seq<char>, JsonTree)>,
    n: nat,
    base: Seq<Seg>,
)
    requires
        0 < n <= members.len(),
    ensures
        flat_members(members, n, base).len() > 0,
        all_under(flat_members(members, n, base), base),
    decreases members, n,
{
    let head = flat_members(members, (n - 1) as nat, base);
    let step = base.push(Seg::Key(members[n - 1].0));
    let tail = flat(members[n - 1].1, step);
    lemma_flat_under(members[n - 1].1, step);
    if n > 1 {
        lemma_flat_members_under(members, (n - 1) as nat, base);
    }
    assert forall|k: int| 0 <= k < (head + tail).len() implies (#[trigger] (head + tail)[k]).0.len()
        >= base.len() && (head + tail)[k].0.take(base.len() as int) == base && target_tree(
        (head + tail)[k].1,
    ) is Some by {
        if k >= head.len() {
            let e = tail[k - head.len()];
            assert((head + tail)[k] == e);
            assert(e.0.take(step.len() as int) == step);
            assert(e.0.take(base.len() as int) =~= e.0.take(step.len() as int).take(
                base.len() as int,
            ));
            assert(step.take(base.len() as int) =~= base);
        } else {
            assert((head + tail)[k] == head[k]);
        }
    }
}

/// Assignments to paths that begin with a path all go through its last
/// step.
pub proof fn lemma_under_through(entries: Seq<(Seq<Seg>, Target)>, base: Seq<Seg>, seg: Seg)
    requires
        all_under(entries, base.push(seg)),
    ensures
        all_through(entries, base.len() as int, seg),
{
    let step = base.push(seg);
    assert forall|k: int| 0 <= k < entries.len() implies (#[trigger] entries[k]).0.len()
        > base.len() && entries[k].0[base.len() as int] == seg && target_tree(entries[k].1)
        is Some by {
        assert(entries[k].0.take(step.len() as int)[base.len() as int] == step[base.len() as int]);
    }
}

/// What the first members of a plain JSON object come to: their keys rise,
/// they are as many as they were, each is found under its key with its tree,
/// and no other key is found.
pub proof fn lemma_members_of(members: Seq<(Seq<char>, JsonTree)>, n: nat)
    requires
        n <= members.len(),
        keys_differ(members),
    ensures
        keys_rise(members_of(members, n)),
        members_of(members, n).len() == n,
        forall|i: int|
            0 <= i < n ==> has_key(members_of(members, n), (#[trigger] members[i]).0)
                && members_of(members, n)[rank(members_of(members, n), members[i].0)].1 == tree_of(
                members[i].1,
            ),
        forall|other: Seq<char>| #[trigger]
            has_key(members_of(members, n), other) ==> exists|i: int|
                0 <= i < n && (#[trigger] members[i]).0 == other,
    decreases n,
{
    if n > 0 {
        let before = members_of(members, (n - 1) as nat);
        let key = members[n - 1].0;
        let t = tree_of(members[n - 1].1);
        let after = members_of(members, n);
        lemma_members_of(members, (n - 1) as nat);
        if has_key(before, key) {
            let i = choose|i: int| 0 <= i < n - 1 && (#[trigger] members[i]).0 == key;
            assert(members[i].0 != members[n - 1].0);
        }
        lemma_member_added(before, key, t);
        assert forall|i: int| 0 <= i < n implies has_key(after, (#[trigger] members[i]).0)
            && after[rank(after, members[i].0)].1 == tree_of(members[i].1) by {
            if i < n - 1 {
                let q = rank(before, members[i].0);
                lemma_rank(before, members[i].0, 0);
                assert(before[q].0 == members[i].0);
                assert(has_key(after, before[q].0) && after[rank(after, before[q].0)] == before[q]);
            }
        }
        assert forall|other: Seq<char>| #[trigger] has_key(after, other) implies exists|i: int|
            0 <= i < n && (#[trigger] members[i]).0 == other by {
            if other == key {
                assert(members[n - 1].0 == other);
            } else {
                assert(has_key(before, other));
                let i = choose|i: int| 0 <= i < n - 1 && (#[trigger] members[i]).0 == other;
                assert(members[i].0 == other);
            }
        }
    }
}

/// Grafting one assignment of a value on the place of its own path, where
/// nothing stands, leaves the value there.
pub proof fn lemma_graft_one(base: Seq<Seg>, target: Target, strict: bool)
    requires
        target_tree(target) is Some,
    ensures
        graft(None, seq![(base, target)], base.len() as int, strict) == Ok::<Option<Tree>, MergeFault>(
            Some(target_tree(target)->0),
        ),
{
    let entries = seq![(base, target)];
    let v = target_tree(target)->0;
    assert(entries[0] == (base, target));
    assert(entries.drop_first().len() == 0);
    assert(place(None, base, base.len() as int, v, strict) == Ok::<Tree, MergeFault>(v));
    assert(graft(Some(v), entries.drop_first(), base.len() as int, strict) == Ok::<
        Option<Tree>,
        MergeFault,
    >(Some(v)));
}

/// Grafting the assignments of a plain JSON document on a place where
/// nothing stands leaves the tree of the document there.
pub proof fn lemma_graft_json(j: JsonTree, base: Seq<Seg>, strict: bool)
    requires
        plain_json(j),
    ensures
        graft(None, flat(j, base), base.len() as int, strict) == Ok::<Option<Tree>, MergeFault>(
            Some(tree_of(j)),
        ),
    decreases j, 1nat,
{
    let entries = flat(j, base);
    let depth = base.len() as int;
    match j {
        JsonTree::Array(items) => {
            if items.len() > 0 {
                lemma_graft_items(items, items.len(), base, strict);
                assert(trees_of(items).take(items.len() as int) =~= trees_of(items));
            } else {
                assert(trees_of(items) =~= Seq::empty());
                lemma_graft_one(base, Target::EmptyArray, strict);
            }
        },
        JsonTree::Object(members) => {
            if members.len() > 0 {
                lemma_graft_members(members, members.len(), base, strict);
            } else {
                lemma_graft_one(base, Target::EmptyObject, strict);
            }
        },
        _ => {
            lemma_graft_one(base, leaf_target(j), strict);
        },
    }
}

/// Grafting the assignments of the first `n` items of an array leaves the
/// array of their trees.
pub proof fn lemma_graft_items(items: Seq<JsonTree>, n: nat, base: Seq<Seg>, strict: bool)
    requires
        0 < n <= items.len(),
        forall|i: int| 0 <= i < items.len() ==> plain_json(#[trigger] items[i]),
    ensures
        graft(None, flat_items(items, n, base), base.len() as int, strict) == Ok::<
            Option<Tree>,
            MergeFault,
        >(Some(Tree::Array(trees_of(items).take(n as int)))),
    decreases items, n,
{
    let depth = base.len() as int;
    let head = flat_items(items, (n - 1) as nat, base);
    let seg = Seg::Index(n - 1);
    let tail = flat(items[n - 1], base.push(seg));
    let before = trees_of(items).take(n - 1);
    let occupant = if n > 1 {
        Some(Tree::Array(before))
    } else {
        None
    };
    if n > 1 {
        lemma_graft_items(items, (n - 1) as nat, base, strict);
    } else {
        assert(before =~= Seq::empty());
    }
    assert(graft(None, head, depth, strict) == Ok::<Option<Tree>, MergeFault>(occupant));
    lemma_graft_concat(None, head, tail, depth, strict);
    lemma_flat_under(items[n - 1], base.push(seg));
    lemma_under_through(tail, base, seg);
    lemma_graft_json(items[n - 1], base.push(seg), strict);
    let container = Tree::Array(before);
    assert(opened(node_of(occupant), seg, strict) == Some(container));
    assert(child(container, seg) is None);
    lemma_graft_through(occupant, tail, depth, seg, tree_of(items[n - 1]), strict);
    assert(before.push(tree_of(items[n - 1])) =~= trees_of(items).take(n as int));
}

/// Grafting the assignments of the first `n` members of an object leaves
/// the object of their trees.
pub proof fn lemma_graft_members(
    members: Seq<(Seq<char>, JsonTree)>,
    n: nat,
    base: Seq<Seg>,
    strict: bool,
)
    requires
        0 < n <= members.len(),
        keys_differ(members),
        forall|i: int| 0 <= i < members.len() ==> plain_json((#[trigger] members[i]).1),
    ensures
        graft(None, flat_members(members, n, base), base.len() as int, strict) == Ok::<
            Option<Tree>,
            MergeFault,
        >(Some(Tree::Object(members_of(members, n)))),
    decreases members, n,
{
    let depth = base.len() as int;
    let head = flat_members(members, (n - 1) as nat, base);
    let key = members[n - 1].0;
    let seg = Seg::Key(key);
    let tail = flat(members[n - 1].1, base.push(seg));
    let before = members_of(members, (n - 1) as nat);
    let occupant = if n > 1 {
        Some(Tree::Object(before))
    } else {
        None
    };
    if n > 1 {
        lemma_graft_members(members, (n - 1) as nat, base, strict);
    }
    assert(graft(None, head, depth, strict) == Ok::<Option<Tree>, MergeFault>(occupant));
    lemma_graft_concat(None, head, tail, depth, strict);
    lemma_flat_under(members[n - 1].1, base.push(seg));
    lemma_under_through(tail, base, seg);
    lemma_graft_json(members[n - 1].1, base.push(seg), strict);
    let container = Tree::Object(before);
    assert(opened(node_of(occupant), seg, strict) == Some(container));
    lemma_members_of(members, (n - 1) as nat);
    if has_key(before, key) {
        let i = choose|i: int| 0 <= i < n - 1 && (#[trigger] members[i]).0 == key;
        assert(members[i].0 != members[n - 1].0);
    }
    assert(child(container, seg) is None);
    lemma_graft_through(occupant, tail, depth, seg, tree_of(members[n - 1].1), strict);
}

/// The tree of a plain JSON document is the same document.
pub proof fn lemma_tree_is_same(j: JsonTree)
    requires
        plain_json(j),
    ensures
        same(tree_of(j), j),
    decreases j,
{
    match j {
        JsonTree::Number(s) => {
            if json_integer(s) {
                assert(crate::json::plain_integer(s));
            }
        },
        JsonTree::Array(items) => {
            assert forall|i: int| 0 <= i < items.len() implies same(
                trees_of(items)[i],
                #[trigger] items[i],
            ) by {
                lemma_tree_is_same(items[i]);
            }
        },
        JsonTree::Object(members) => {
            lemma_members_of(members, members.len());
            let ms = members_of(members, members.len());
            assert forall|i: int| 0 <= i < members.len() implies has_key(
                ms,
                (#[trigger] members[i]).0,
            ) && same(ms[rank(ms, members[i].0)].1, members[i].1) by {
                lemma_tree_is_same(members[i].1);
            }
        },
        _ => {},
    }
}

/// Merging a run of assignments to paths that are not empty is grafting
/// them on the root.
pub proof fn lemma_merge_is_graft(
    root: Tree,
    entries: Seq<(Seq<Seg>, Target)>,
    i: int,
    strict: bool,
)
    requires
        0 <= i <= entries.len(),
        forall|k: int| 0 <= k < entries.len() ==> (#[trigger] entries[k]).0.len() > 0,
    ensures
        merge_from(root, entries, i, strict) == match graft(
            root_occupant(root),
            entries.skip(i),
            0, strict,
        ) {
            Ok(o) => Ok(node_of(o)),
            Err(f) => Err(f),
        },
    decreases entries.len() - i,
{
    let rest = entries.skip(i);
    if i < entries.len() {
        assert(rest[0] == entries[i]);
        assert(rest.drop_first() =~= entries.skip(i + 1));
        match target_tree(entries[i].1) {
            None => {
                lemma_merge_is_graft(root, entries, i + 1, strict);
            },
            Some(v) => match set_spec(root, entries[i].0, v, strict) {
                Ok(t) => {
                    lemma_merge_is_graft(t, entries, i + 1, strict);
                    let node = node_of(root_occupant(root));
                    assert(opened(node, entries[i].0[0], strict) is Some);
                    assert(!(t is Null));
                },
                Err(_) => {},
            },
        }
    }
}

/// Merging the assignments of a plain JSON document, under either policy,
/// gives the tree of the document, which is the same document.
pub proof fn lemma_merge_json(j: JsonTree, strict: bool)
    requires
        plain_json(j),
    ensures
        merge_spec(flat(j, Seq::empty()), strict) == Ok::<Tree, MergeFault>(tree_of(j)),
        same(tree_of(j), j),
{
    let base = Seq::<Seg>::empty();
    let entries = flat(j, base);
    lemma_tree_is_same(j);
    lemma_graft_json(j, base, strict);
    lemma_flat_under(j, base);
    let container = match j {
        JsonTree::Array(items) => items.len() > 0,
        JsonTree::Object(members) => members.len() > 0,
        _ => false,
    };
    if container {
        match j {
            JsonTree::Array(items) => {
                lemma_flat_items_through(items, items.len(), base);
                assert(entries == flat_items(items, items.len(), base));
            },
            JsonTree::Object(members) => {
                lemma_flat_members_through(members, members.len(), base);
                assert(entries == flat_members(members, members.len(), base));
            },
            _ => {},
        }
        assert forall|k: int| 0 <= k < entries.len() implies (#[trigger] entries[k]).0.len()
            > 0 by {}
        lemma_merge_is_graft(Tree::Null, entries, 0, strict);
        assert(entries.skip(0) =~= entries);
    } else {
        assert(entries.len() == 1);
        let v = target_tree(entries[0].1)->0;
        assert(merge_from(Tree::Null, entries, 1, strict) == Ok::<Tree, MergeFault>(Tree::Null));
        assert(place(None, base, 0, v, strict) == Ok::<Tree, MergeFault>(v));
        assert(merge_from(v, entries, 1, strict) == Ok::<Tree, MergeFault>(v));
        match j {
            JsonTree::Array(items) => {
                assert(trees_of(items) =~= Seq::empty());
            },
            _ => {},
        }
    }
}

/// The assignments of the items of an array all go to paths longer than the
/// path of the array.
pub proof fn lemma_flat_items_through(items: Seq<JsonTree>, n: nat, base: Seq<Seg>)
    requires
        n <= items.len(),
    ensures
        forall|k: int|
            0 <= k < flat_items(items, n, base).len() ==> (#[trigger] flat_items(
                items,
                n,
                base,
            )[k]).0.len() > base.len(),
    decreases n,
{
    if n > 0 {
        let head = flat_items(items, (n - 1) as nat, base);
        let step = base.push(Seg::Index(n - 1));
        let tail = flat(items[n - 1], step);
        lemma_flat_items_through(items, (n - 1) as nat, base);
        lemma_flat_under(items[n - 1], step);
        assert forall|k: int| 0 <= k < (head + tail).len() implies (#[trigger] (head
            + tail)[k]).0.len() > base.len() by {
            if k >= head.len() {
                assert((head + tail)[k] == tail[k - head.len()]);
            } else {
                assert((head + tail)[k] == head[k]);
            }
        }
    }
}

/// The assignments of the members of an object all go to paths longer than
/// the path of the object.
pub proof fn lemma_flat_members_through(
    members: Seq<(Seq<char>, JsonTree)>,
    n: nat,
    base: Seq<Seg>,
)
    requires
        n <= members.len(),
    ensures
        forall|k: int|
            0 <= k < flat_members(members, n, base).len() ==> (#[trigger] flat_members(
                members,
                n,
                base,
            )[k]).0.len() > base.len(),
    decreases n,
{
    if n > 0 {
        let head = flat_members(members, (n - 1) as nat, base);
        let step = base.push(Seg::Key(members[n - 1].0));
        let tail = flat(members[n - 1].1, step);
        lemma_flat_members_through(members, (n - 1) as nat, base);
        lemma_flat_under(members[n - 1].1, step);
        assert forall|k: int| 0 <= k < (head + tail).len() implies (#[trigger] (head
            + tail)[k]).0.len() > base.len() by {
            if k >= head.len() {
                assert((head + tail)[k] == tail[k - head.len()]);
            } else {
                assert((head + tail)[k] == head[k]);
            }
        }
    }
}

} // verus!
