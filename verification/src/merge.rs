//! From the flat list of assignments to one tree.

use crate::path::Path;
use crate::path::PathSegment;
use crate::path::PathTarget;
use crate::path::Seg;
use crate::path::Target;
use crate::text::chars_equal;
use crate::text::chars_of;
use crate::text::key_less;
use crate::text::key_lt;
use crate::text::lemma_key_order;
use crate::text::lemma_key_transitive;
use crate::value::keys_rise;
use crate::value::lemma_array_model;
use crate::value::lemma_object_model;
use crate::value::item_trees;
use crate::value::member_trees;
use crate::value::target_tree;
use crate::value::Tree;
use crate::value::Value;
use vstd::prelude::*;

verus! {

/// Why an assignment could not be merged into the tree.
#[derive(Debug, PartialEq, Eq)]
pub enum MergeError {
    /// The step at `depth` of `path` asks for an object or an array, and
    /// `found` stands there, which is neither that nor null.
    StructuralConflict { path: Path, depth: usize, found: Value },
    /// `old` stands at `path`, and `new`, which differs, was assigned to it.
    ValueConflict { path: Path, old: Value, new: Value },
    /// The step at `depth` of `path` is an index beyond the end of an array
    /// of `len` items.
    IndexOutOfBounds { path: Path, depth: usize, len: usize },
}

/// Why an assignment could not be merged, apart from how it is stored.
pub ghost enum MergeFault {
    StructuralConflict { path: Seq<Seg>, depth: int, found: Tree },
    ValueConflict { path: Seq<Seg>, old: Tree, new: Tree },
    IndexOutOfBounds { path: Seq<Seg>, depth: int, len: int },
}

impl View for MergeError {
    type V = MergeFault;

    open spec fn view(&self) -> MergeFault {
        match self {
            MergeError::StructuralConflict { path, depth, found } => MergeFault::StructuralConflict {
                path: path@,
                depth: *depth as int,
                found: found@,
            },
            MergeError::ValueConflict { path, old, new } => MergeFault::ValueConflict {
                path: path@,
                old: old@,
                new: new@,
            },
            MergeError::IndexOutOfBounds { path, depth, len } => MergeFault::IndexOutOfBounds {
                path: path@,
                depth: *depth as int,
                len: *len as int,
            },
        }
    }
}

/// What a lenient assignment threw away: `old` stood at `path`, and `new`
/// stands there in its place.
#[derive(Debug, PartialEq, Eq)]
pub struct Discarded {
    pub path: Path,
    pub old: Value,
    pub new: Value,
}

/// The first place from `i` on whose key does not come before `key`.
pub open spec fn rank_from(members: Seq<(Seq<char>, Tree)>, key: Seq<char>, i: int) -> int
    decreases members.len() - i,
{
    if 0 <= i < members.len() && key_lt(members[i].0, key) {
        rank_from(members, key, i + 1)
    } else {
        i
    }
}

/// Where `key` stands among the members, or would stand: the first place
/// whose key does not come before it.
pub open spec fn rank(members: Seq<(Seq<char>, Tree)>, key: Seq<char>) -> int {
    rank_from(members, key, 0)
}

/// Whether `key` is the key of a member.
pub open spec fn has_key(members: Seq<(Seq<char>, Tree)>, key: Seq<char>) -> bool {
    let r = rank(members, key);
    r < members.len() && members[r].0 == key
}

/// The rank is a place among the members or just behind them; every key
/// before it comes before `key`, and the key at it does not.
pub proof fn lemma_rank(members: Seq<(Seq<char>, Tree)>, key: Seq<char>, i: int)
    requires
        0 <= i <= members.len(),
    ensures
        i <= rank_from(members, key, i) <= members.len(),
        forall|j: int| i <= j < rank_from(members, key, i) ==> key_lt(#[trigger] members[j].0, key),
        rank_from(members, key, i) < members.len() ==> !key_lt(
            members[rank_from(members, key, i)].0,
            key,
        ),
    decreases members.len() - i,
{
    if i < members.len() && key_lt(members[i].0, key) {
        lemma_rank(members, key, i + 1);
    }
}

/// The rank is the place before which every key comes before `key` and at
/// which the key does not.
pub proof fn lemma_rank_is(members: Seq<(Seq<char>, Tree)>, key: Seq<char>, i: int, r: int)
    requires
        0 <= i <= r <= members.len(),
        forall|j: int| i <= j < r ==> key_lt(#[trigger] members[j].0, key),
        r < members.len() ==> !key_lt(members[r].0, key),
    ensures
        rank_from(members, key, i) == r,
    decreases r - i,
{
    if i < r {
        assert(key_lt(members[i].0, key));
        lemma_rank_is(members, key, i + 1, r);
    }
}

/// The container that a step walks into: what stands there where it is of
/// the step's kind, a new empty one where null stands there, and where
/// anything else does, none under the strict policy and a new empty one
/// under the lenient.
pub open spec fn opened(node: Tree, seg: Seg, strict: bool) -> Option<Tree> {
    match seg {
        Seg::Key(_) => match node {
            Tree::Object(_) => Some(node),
            Tree::Null => Some(Tree::Object(Seq::empty())),
            _ => if strict {
                None
            } else {
                Some(Tree::Object(Seq::empty()))
            },
        },
        Seg::Index(_) => match node {
            Tree::Array(_) => Some(node),
            Tree::Null => Some(Tree::Array(Seq::empty())),
            _ => if strict {
                None
            } else {
                Some(Tree::Array(Seq::empty()))
            },
        },
    }
}

/// What stands in a container at a step, if anything.
pub open spec fn child(container: Tree, seg: Seg) -> Option<Tree> {
    match (container, seg) {
        (Tree::Object(members), Seg::Key(key)) => if has_key(members, key) {
            Some(members[rank(members, key)].1)
        } else {
            None
        },
        (Tree::Array(items), Seg::Index(i)) => if 0 <= i < items.len() {
            Some(items[i])
        } else {
            None
        },
        _ => None,
    }
}

/// The container with `t` at the step: in place of what stood there, or new,
/// a member at the place of its key and an item at the end.
pub open spec fn with_child(container: Tree, seg: Seg, t: Tree) -> Tree {
    match (container, seg) {
        (Tree::Object(members), Seg::Key(key)) => if has_key(members, key) {
            Tree::Object(members.update(rank(members, key), (key, t)))
        } else {
            Tree::Object(members.insert(rank(members, key), (key, t)))
        },
        (Tree::Array(items), Seg::Index(i)) => if 0 <= i < items.len() {
            Tree::Array(items.update(i, t))
        } else {
            Tree::Array(items.push(t))
        },
        _ => container,
    }
}

/// Whether a step is an index beyond the end of the array it walks into.
pub open spec fn beyond(container: Tree, seg: Seg) -> bool {
    container matches Tree::Array(items) && seg matches Seg::Index(i) && i > items.len()
}

/// The number of items of an array, 0 for what is none.
pub open spec fn items_len(container: Tree) -> int {
    match container {
        Tree::Array(items) => items.len() as int,
        _ => 0,
    }
}

/// What stands at the place that `path` leads to from its step `depth` on,
/// after `value` is assigned there, `occupant` being what stands at the place
/// of step `depth` now.
///
/// At the end of the path: the value, where nothing stands there or the same
/// value does; where another one does, a conflict under the strict policy and
/// the new value under the lenient. Before the end: the container at that
/// step, opened, with the rest of the path assigned in it.
pub open spec fn place(
    occupant: Option<Tree>,
    path: Seq<Seg>,
    depth: int,
    value: Tree,
    strict: bool,
) -> Result<Tree, MergeFault>
    decreases path.len() - depth,
{
    if depth < 0 || depth >= path.len() {
        match occupant {
            None => Ok(value),
            Some(old) => if old == value {
                Ok(old)
            } else if strict {
                Err(MergeFault::ValueConflict { path, old, new: value })
            } else {
                Ok(value)
            },
        }
    } else {
        let node = match occupant {
            Some(t) => t,
            None => Tree::Null,
        };
        let seg = path[depth];
        match opened(node, seg, strict) {
            None => Err(MergeFault::StructuralConflict { path, depth, found: node }),
            Some(container) => if beyond(container, seg) {
                Err(MergeFault::IndexOutOfBounds { path, depth, len: items_len(container) })
            } else {
                match place(child(container, seg), path, depth + 1, value, strict) {
                    Ok(t) => Ok(with_child(container, seg, t)),
                    Err(f) => Err(f),
                }
            },
        }
    }
}

/// What a lenient assignment threw away, apart from how it is stored.
pub ghost struct Loss {
    pub path: Seq<Seg>,
    pub old: Tree,
    pub new: Tree,
}

/// What walking into the step `depth` of `path` throws away, `node`
/// standing there: under the lenient policy, a node that is neither null nor
/// of the kind of the step, with the empty container that takes its place.
pub open spec fn discarded_here(node: Tree, path: Seq<Seg>, depth: int, strict: bool) -> Seq<Loss> {
    match opened(node, path[depth], strict) {
        Some(container) => if opened(node, path[depth], true) is None {
            seq![Loss { path: path.take(depth), old: node, new: container }]
        } else {
            Seq::empty()
        },
        None => Seq::empty(),
    }
}

/// What the assignment of `value` throws away from the step `depth` of
/// `path` on, `occupant` being what stands at the place of that step: under
/// the lenient policy, each node on the way that is neither null nor of the
/// kind of its step, and the other value that stands at the end of the path.
/// Under the strict policy, nothing: such an assignment fails.
pub open spec fn discards(
    occupant: Option<Tree>,
    path: Seq<Seg>,
    depth: int,
    value: Tree,
    strict: bool,
) -> Seq<Loss>
    decreases path.len() - depth,
{
    if depth < 0 || depth >= path.len() {
        match occupant {
            Some(old) => if old != value && !strict {
                seq![Loss { path, old, new: value }]
            } else {
                Seq::empty()
            },
            None => Seq::empty(),
        }
    } else {
        let node = match occupant {
            Some(t) => t,
            None => Tree::Null,
        };
        match opened(node, path[depth], strict) {
            Some(container) => discarded_here(node, path, depth, strict) + discards(
                child(container, path[depth]),
                path,
                depth + 1,
                value,
                strict,
            ),
            None => Seq::empty(),
        }
    }
}

/// What stands at the root, if anything: null is nothing.
pub open spec fn root_occupant(root: Tree) -> Option<Tree> {
    if root is Null {
        None
    } else {
        Some(root)
    }
}

/// The tree after `value` is assigned to `path`.
pub open spec fn set_spec(root: Tree, path: Seq<Seg>, value: Tree, strict: bool) -> Result<
    Tree,
    MergeFault,
> {
    place(root_occupant(root), path, 0, value, strict)
}

/// The assignments of a list, apart from how they are stored.
pub open spec fn assignments(xs: Seq<(Path, PathTarget)>) -> Seq<(Seq<Seg>, Target)> {
    Seq::new(xs.len(), |i: int| (xs[i].0@, xs[i].1@))
}

/// The tree after the assignments from `i` on are applied to `root`, in the
/// order of the list. A reference changes nothing.
pub open spec fn merge_from(
    root: Tree,
    entries: Seq<(Seq<Seg>, Target)>,
    i: int,
    strict: bool,
) -> Result<Tree, MergeFault>
    decreases entries.len() - i,
{
    if i < 0 || i >= entries.len() {
        Ok(root)
    } else {
        match target_tree(entries[i].1) {
            None => merge_from(root, entries, i + 1, strict),
            Some(v) => match set_spec(root, entries[i].0, v, strict) {
                Ok(t) => merge_from(t, entries, i + 1, strict),
                Err(f) => Err(f),
            },
        }
    }
}

/// What the assignments from `i` on throw away, applied to `root` in the
/// order of the list.
pub open spec fn discards_from(
    root: Tree,
    entries: Seq<(Seq<Seg>, Target)>,
    i: int,
    strict: bool,
) -> Seq<Loss>
    decreases entries.len() - i,
{
    if i < 0 || i >= entries.len() {
        Seq::empty()
    } else {
        match target_tree(entries[i].1) {
            None => discards_from(root, entries, i + 1, strict),
            Some(v) => match set_spec(root, entries[i].0, v, strict) {
                Ok(t) => discards(root_occupant(root), entries[i].0, 0, v, strict)
                    + discards_from(t, entries, i + 1, strict),
                Err(_) => Seq::empty(),
            },
        }
    }
}

/// What merging a list of assignments throws away.
pub open spec fn merge_discards(entries: Seq<(Seq<Seg>, Target)>, strict: bool) -> Seq<Loss> {
    discards_from(Tree::Null, entries, 0, strict)
}

/// The tree that a list of assignments comes to, from a null root.
pub open spec fn merge_spec(entries: Seq<(Seq<Seg>, Target)>, strict: bool) -> Result<
    Tree,
    MergeFault,
> {
    merge_from(Tree::Null, entries, 0, strict)
}

/// The members of an object with one more, at the place of its key.
pub open spec fn with_member(members: Seq<(Seq<char>, Tree)>, key: Seq<char>, t: Tree) -> Seq<
    (Seq<char>, Tree),
> {
    with_child(Tree::Object(members), Seg::Key(key), t)->Object_0
}

/// Where the keys rise from each member to the next, they rise from each
/// member to every later one.
pub proof fn lemma_rise_pairs(members: Seq<(Seq<char>, Tree)>, i: int, j: int)
    requires
        keys_rise(members),
        0 <= i < j < members.len(),
    ensures
        key_lt(members[i].0, members[j].0),
    decreases j - i,
{
    if i + 1 < j {
        lemma_rise_pairs(members, i, j - 1);
        assert(key_lt(members[j - 1].0, members[j].0));
        lemma_key_transitive(members[i].0, members[j - 1].0, members[j].0);
    } else {
        assert(key_lt(members[i].0, members[i + 1].0));
    }
}

/// Among members whose keys rise, a key is found at the place of the member
/// that has it.
pub proof fn lemma_found_at(members: Seq<(Seq<char>, Tree)>, j: int)
    requires
        keys_rise(members),
        0 <= j < members.len(),
    ensures
        rank(members, members[j].0) == j,
        has_key(members, members[j].0),
{
    let key = members[j].0;
    assert forall|i: int| 0 <= i < j implies key_lt(#[trigger] members[i].0, key) by {
        lemma_rise_pairs(members, i, j);
    }
    lemma_key_order(key, key);
    lemma_rank_is(members, key, 0, j);
}

/// One more member, under a key that no member has, keeps the keys rising,
/// keeps every member that was there, and is found under its key.
pub proof fn lemma_member_added(members: Seq<(Seq<char>, Tree)>, key: Seq<char>, t: Tree)
    requires
        keys_rise(members),
        !has_key(members, key),
    ensures
        keys_rise(with_member(members, key, t)),
        with_member(members, key, t).len() == members.len() + 1,
        has_key(with_member(members, key, t), key),
        with_member(members, key, t)[rank(with_member(members, key, t), key)] == (key, t),
        forall|j: int|
            0 <= j < members.len() ==> has_key(
                with_member(members, key, t),
                (#[trigger] members[j]).0,
            ) && with_member(members, key, t)[rank(with_member(members, key, t), members[j].0)]
                == members[j],
        forall|other: Seq<char>|
            #[trigger] has_key(with_member(members, key, t), other) ==> other == key || has_key(
                members,
                other,
            ),
{
    let r = rank(members, key);
    let after = with_member(members, key, t);
    lemma_rank(members, key, 0);
    assert(after == members.insert(r, (key, t)));
    assert forall|i: int| 0 <= i < after.len() - 1 implies key_lt(
        #[trigger] after[i].0,
        after[i + 1].0,
    ) by {
        if i + 1 < r {
            assert(key_lt(members[i].0, members[i + 1].0));
        } else if i + 1 == r {
            assert(key_lt(members[i].0, key));
        } else if i == r {
            lemma_key_order(members[r].0, key);
        } else {
            assert(key_lt(members[i - 1].0, members[i].0));
        }
    }
    assert(after[r] == (key, t));
    lemma_found_at(after, r);
    assert forall|j: int| 0 <= j < members.len() implies has_key(after, (#[trigger] members[j]).0)
        && after[rank(after, members[j].0)] == members[j] by {
        if j < r {
            assert(after[j] == members[j]);
            lemma_found_at(after, j);
        } else {
            assert(after[j + 1] == members[j]);
            lemma_found_at(after, j + 1);
        }
    }
    assert forall|other: Seq<char>| #[trigger] has_key(after, other) implies other == key
        || has_key(members, other) by {
        lemma_rank(after, other, 0);
        let q = rank(after, other);
        if q < r {
            assert(after[q] == members[q]);
            lemma_found_at(members, q);
        } else if q > r {
            assert(after[q] == members[q - 1]);
            lemma_found_at(members, q - 1);
        }
    }
}

/// Another value under a key that a member has keeps the keys rising.
pub proof fn lemma_member_replaced(members: Seq<(Seq<char>, Tree)>, key: Seq<char>, t: Tree)
    requires
        keys_rise(members),
        has_key(members, key),
    ensures
        keys_rise(with_member(members, key, t)),
        with_member(members, key, t) == members.update(rank(members, key), (key, t)),
{
    let r = rank(members, key);
    let after = with_member(members, key, t);
    lemma_rank(members, key, 0);
    assert forall|i: int| 0 <= i < after.len() - 1 implies key_lt(
        #[trigger] after[i].0,
        after[i + 1].0,
    ) by {
        assert(key_lt(members[i].0, members[i + 1].0));
    }
}

/// Whether what may stand at a place is well formed.
pub open spec fn occupant_wf(occupant: Option<Value>) -> bool {
    match occupant {
        Some(v) => v.wf(),
        None => true,
    }
}

impl View for Discarded {
    type V = Loss;

    open spec fn view(&self) -> Loss {
        Loss { path: self.path@, old: self.old@, new: self.new@ }
    }
}

/// What was thrown away, each apart from how it is stored.
pub open spec fn losses(notes: Seq<Discarded>) -> Seq<Loss> {
    Seq::new(notes.len(), |i: int| notes[i]@)
}

/// Notes one more thing thrown away.
fn note(notes: &mut Vec<Discarded>, path: Path, was: Value, now: Value)
    ensures
        losses(final(notes)@) == losses(old(notes)@).push(
            Loss { path: path@, old: was@, new: now@ },
        ),
{
    let ghost before = losses(notes@);
    notes.push(Discarded { path, old: was, new: now });
    assert(losses(notes@) =~= before.push(Loss { path: path@, old: was@, new: now@ }));
}

/// What may stand at a place, apart from how it is stored.
pub open spec fn occupant_tree(occupant: Option<Value>) -> Option<Tree> {
    match occupant {
        Some(v) => Some(v@),
        None => None,
    }
}

/// Where `key` stands among the members, or would stand, and whether it is
/// there.
pub(crate) fn find(members: &Vec<(String, Value)>, key: &String) -> (r: (usize, bool))
    ensures
        r.0 == rank(member_trees(members@), key@),
        r.1 == has_key(member_trees(members@), key@),
        r.0 <= members.len(),
{
    let wanted = chars_of(key.as_str());
    let ghost ms = member_trees(members@);
    let mut i: usize = 0;
    while i < members.len()
        invariant
            i <= members.len(),
            wanted@ == key@,
            ms == member_trees(members@),
            forall|j: int| 0 <= j < i ==> key_lt(#[trigger] ms[j].0, key@),
        decreases members.len() - i,
    {
        let here = chars_of(members[i].0.as_str());
        assert(ms[i as int].0 == here@);
        if !key_less(&here, &wanted) {
            proof {
                lemma_rank_is(ms, key@, 0, i as int);
            }
            return (i, chars_equal(&here, &wanted));
        }
        i += 1;
    }
    proof {
        lemma_rank_is(ms, key@, 0, i as int);
    }
    (i, false)
}

/// Whether the keys of the members rise strictly, and every value among them
/// is well formed.
pub open spec fn members_wf(members: Seq<(String, Value)>) -> bool {
    &&& forall|i: int| 0 <= i < members.len() ==> (#[trigger] members[i]).1.wf()
    &&& keys_rise(member_trees(members))
}

/// An object is well formed where its members are.
pub proof fn lemma_object_wf(v: Value)
    requires
        v is Object,
    ensures
        v.wf() == members_wf(v->Object_0@),
{
    let members = v->Object_0@;
    let trees = member_trees(members);
    if v.wf() {
        assert forall|i: int| 0 <= i < trees.len() - 1 implies key_lt(
            #[trigger] trees[i].0,
            trees[i + 1].0,
        ) by {
            assert(key_lt(members[i].0@, members[i + 1].0@));
        }
    }
    if members_wf(members) {
        assert forall|i: int| 0 <= i < members.len() - 1 implies key_lt(
            (#[trigger] members[i]).0@,
            members[i + 1].0@,
        ) by {
            assert(key_lt(trees[i].0, trees[i + 1].0));
        }
    }
}

/// Whether every item is well formed.
pub open spec fn items_wf(items: Seq<Value>) -> bool {
    forall|i: int| 0 <= i < items.len() ==> (#[trigger] items[i]).wf()
}

/// The members of the object that the step at `depth` walks into, where
/// `node` stands there now. A node that is thrown away is noted.
fn index_object(
    node: Value,
    path: &Path,
    depth: usize,
    strict: bool,
    notes: &mut Vec<Discarded>,
) -> (r: Result<Vec<(String, Value)>, MergeError>)
    requires
        depth < path.0.len(),
        path@[depth as int] is Key,
    ensures
        match opened(node@, path@[depth as int], strict) {
            Some(c) => r matches Ok(ms) && c == Tree::Object(member_trees(ms@)) && (node.wf()
                ==> members_wf(ms@)) && losses(final(notes)@) == losses(old(notes)@)
                + discarded_here(node@, path@, depth as int, strict),
            None => r matches Err(e) && e@ == (MergeFault::StructuralConflict {
                path: path@,
                depth: depth as int,
                found: node@,
            }),
        },
{
    let ghost before = losses(notes@);
    match node {
        Value::Object(ms) => {
            proof {
                lemma_object_model(node);
                lemma_object_wf(node);
                assert(before + Seq::<Loss>::empty() =~= before);
            }
            Ok(ms)
        },
        Value::Null => {
            let ms: Vec<(String, Value)> = Vec::new();
            assert(member_trees(ms@) =~= Seq::empty());
            assert(before + Seq::<Loss>::empty() =~= before);
            Ok(ms)
        },
        other => {
            if strict {
                Err(MergeError::StructuralConflict { path: path.duplicate(), depth, found: other })
            } else {
                let fresh = Value::Object(Vec::new());
                proof {
                    lemma_object_model(fresh);
                    assert(member_trees(fresh->Object_0@) =~= Seq::empty());
                }
                note(notes, path.prefix(depth), other, fresh);
                let ms: Vec<(String, Value)> = Vec::new();
                assert(member_trees(ms@) =~= Seq::empty());
                assert(losses(notes@) =~= before + discarded_here(
                    node@,
                    path@,
                    depth as int,
                    strict,
                ));
                Ok(ms)
            }
        },
    }
}

/// The items of the array that the step at `depth` walks into, where `node`
/// stands there now. A node that is thrown away is noted.
fn index_array(
    node: Value,
    path: &Path,
    depth: usize,
    strict: bool,
    notes: &mut Vec<Discarded>,
) -> (r: Result<Vec<Value>, MergeError>)
    requires
        depth < path.0.len(),
        path@[depth as int] is Index,
    ensures
        match opened(node@, path@[depth as int], strict) {
            Some(c) => r matches Ok(xs) && c == Tree::Array(item_trees(xs@)) && (node.wf()
                ==> items_wf(xs@)) && losses(final(notes)@) == losses(old(notes)@)
                + discarded_here(node@, path@, depth as int, strict),
            None => r matches Err(e) && e@ == (MergeFault::StructuralConflict {
                path: path@,
                depth: depth as int,
                found: node@,
            }),
        },
{
    let ghost before = losses(notes@);
    match node {
        Value::Array(xs) => {
            proof {
                lemma_array_model(node);
                assert(before + Seq::<Loss>::empty() =~= before);
            }
            Ok(xs)
        },
        Value::Null => {
            let xs: Vec<Value> = Vec::new();
            assert(item_trees(xs@) =~= Seq::empty());
            assert(before + Seq::<Loss>::empty() =~= before);
            Ok(xs)
        },
        other => {
            if strict {
                Err(MergeError::StructuralConflict { path: path.duplicate(), depth, found: other })
            } else {
                let fresh = Value::Array(Vec::new());
                proof {
                    lemma_array_model(fresh);
                    assert(item_trees(fresh->Array_0@) =~= Seq::empty());
                }
                note(notes, path.prefix(depth), other, fresh);
                let xs: Vec<Value> = Vec::new();
                assert(item_trees(xs@) =~= Seq::empty());
                assert(losses(notes@) =~= before + discarded_here(
                    node@,
                    path@,
                    depth as int,
                    strict,
                ));
                Ok(xs)
            }
        },
    }
}

/// What the rest of the path comes to inside a container that the step at
/// `depth` has walked into.
pub open spec fn placed_in(
    container: Tree,
    path: Seq<Seg>,
    depth: int,
    value: Tree,
    strict: bool,
) -> Result<Tree, MergeFault> {
    if beyond(container, path[depth]) {
        Err(MergeFault::IndexOutOfBounds { path, depth, len: items_len(container) })
    } else {
        match place(child(container, path[depth]), path, depth + 1, value, strict) {
            Ok(t) => Ok(with_child(container, path[depth], t)),
            Err(f) => Err(f),
        }
    }
}

/// What the rest of the path throws away inside a container that the step
/// at `depth` has walked into.
pub open spec fn discards_in(
    container: Tree,
    path: Seq<Seg>,
    depth: int,
    value: Tree,
    strict: bool,
) -> Seq<Loss> {
    discards(child(container, path[depth]), path, depth + 1, value, strict)
}

/// Assigns the rest of the path inside the object with these members.
fn put_member(
    members: Vec<(String, Value)>,
    key: &String,
    path: &Path,
    depth: usize,
    value: Value,
    strict: bool,
    notes: &mut Vec<Discarded>,
) -> (r: Result<Value, MergeError>)
    requires
        depth < path.0.len(),
        path@[depth as int] == Seg::Key(key@),
    ensures
        match placed_in(Tree::Object(member_trees(members@)), path@, depth as int, value@, strict) {
            Ok(t) => r matches Ok(v) && v@ == t && (value.wf() && members_wf(members@) ==> v.wf())
                && losses(final(notes)@) == losses(old(notes)@) + discards_in(
                Tree::Object(member_trees(members@)),
                path@,
                depth as int,
                value@,
                strict,
            ),
            Err(f) => r matches Err(e) && e@ == f,
        },
    decreases path.0.len() - depth, 0nat,
{
    let mut members = members;
    let ghost before = member_trees(members@);
    let (r, found) = find(&members, key);
    proof {
        lemma_rank(before, key@, 0);
    }
    if found {
        let (k, old) = members.remove(r);
        assert(old@ == before[r as int].1);
        match put(Some(old), path, depth + 1, value, strict, notes) {
            Err(e) => Err(e),
            Ok(t) => {
                members.insert(r, (k, t));
                let v = Value::Object(members);
                proof {
                    lemma_object_model(v);
                    assert(member_trees(members@) =~= before.update(r as int, (key@, t@)));
                    if keys_rise(before) {
                        lemma_member_replaced(before, key@, t@);
                    }
                    lemma_object_wf(v);
                }
                Ok(v)
            },
        }
    } else {
        match put(None, path, depth + 1, value, strict, notes) {
            Err(e) => Err(e),
            Ok(t) => {
                members.insert(r, (key.clone(), t));
                let v = Value::Object(members);
                proof {
                    lemma_object_model(v);
                    assert(member_trees(members@) =~= before.insert(r as int, (key@, t@)));
                    if keys_rise(before) {
                        lemma_member_added(before, key@, t@);
                    }
                    lemma_object_wf(v);
                }
                Ok(v)
            },
        }
    }
}

/// Assigns the rest of the path inside the array with these items.
fn put_item(
    items: Vec<Value>,
    index: usize,
    path: &Path,
    depth: usize,
    value: Value,
    strict: bool,
    notes: &mut Vec<Discarded>,
) -> (r: Result<Value, MergeError>)
    requires
        depth < path.0.len(),
        path@[depth as int] == Seg::Index(index as int),
    ensures
        match placed_in(Tree::Array(item_trees(items@)), path@, depth as int, value@, strict) {
            Ok(t) => r matches Ok(v) && v@ == t && (value.wf() && items_wf(items@) ==> v.wf())
                && losses(final(notes)@) == losses(old(notes)@) + discards_in(
                Tree::Array(item_trees(items@)),
                path@,
                depth as int,
                value@,
                strict,
            ),
            Err(f) => r matches Err(e) && e@ == f,
        },
    decreases path.0.len() - depth, 0nat,
{
    let mut items = items;
    let ghost before = item_trees(items@);
    if index > items.len() {
        return Err(
            MergeError::IndexOutOfBounds { path: path.duplicate(), depth, len: items.len() },
        );
    }
    if index < items.len() {
        let old = items.remove(index);
        assert(old@ == before[index as int]);
        match put(Some(old), path, depth + 1, value, strict, notes) {
            Err(e) => Err(e),
            Ok(t) => {
                items.insert(index, t);
                let v = Value::Array(items);
                proof {
                    lemma_array_model(v);
                    assert(item_trees(items@) =~= before.update(index as int, t@));
                }
                Ok(v)
            },
        }
    } else {
        match put(None, path, depth + 1, value, strict, notes) {
            Err(e) => Err(e),
            Ok(t) => {
                items.push(t);
                let v = Value::Array(items);
                proof {
                    lemma_array_model(v);
                    assert(item_trees(items@) =~= before.push(t@));
                }
                Ok(v)
            },
        }
    }
}

/// Assigns `value` at the place that `path` leads to from its step `depth`
/// on, where `occupant` stands at the place of that step now, gives what
/// stands there afterwards, and notes what it threw away.
fn put(
    occupant: Option<Value>,
    path: &Path,
    depth: usize,
    value: Value,
    strict: bool,
    notes: &mut Vec<Discarded>,
) -> (r: Result<Value, MergeError>)
    requires
        depth <= path.0.len(),
    ensures
        match place(occupant_tree(occupant), path@, depth as int, value@, strict) {
            Ok(t) => r matches Ok(v) && v@ == t && (value.wf() && occupant_wf(occupant)
                ==> v.wf()) && losses(final(notes)@) == losses(old(notes)@) + discards(
                occupant_tree(occupant),
                path@,
                depth as int,
                value@,
                strict,
            ),
            Err(f) => r matches Err(e) && e@ == f,
        },
    decreases path.0.len() - depth, 1nat,
{
    let ghost before = losses(notes@);
    if depth >= path.0.len() {
        return match occupant {
            None => {
                assert(before + Seq::<Loss>::empty() =~= before);
                Ok(value)
            },
            Some(old) => {
                if old.equals(&value) {
                    assert(before + Seq::<Loss>::empty() =~= before);
                    Ok(old)
                } else if strict {
                    Err(MergeError::ValueConflict { path: path.duplicate(), old, new: value })
                } else {
                    note(notes, path.duplicate(), old, value.duplicate());
                    assert(losses(notes@) =~= before + discards(
                        occupant_tree(occupant),
                        path@,
                        depth as int,
                        value@,
                        strict,
                    ));
                    Ok(value)
                }
            },
        };
    }
    let node = match occupant {
        Some(v) => v,
        None => Value::Null,
    };
    let ghost here = discarded_here(node@, path@, depth as int, strict);
    match &path.0[depth] {
        PathSegment::Object(key) => match index_object(node, path, depth, strict, notes) {
            Ok(members) => {
                let ghost inner = discards_in(
                    Tree::Object(member_trees(members@)),
                    path@,
                    depth as int,
                    value@,
                    strict,
                );
                let r = put_member(members, key, path, depth, value, strict, notes);
                assert((before + here) + inner =~= before + (here + inner));
                r
            },
            Err(e) => Err(e),
        },
        PathSegment::Array(index) => match index_array(node, path, depth, strict, notes) {
            Ok(items) => {
                let ghost inner = discards_in(
                    Tree::Array(item_trees(items@)),
                    path@,
                    depth as int,
                    value@,
                    strict,
                );
                let r = put_item(items, *index, path, depth, value, strict, notes);
                assert((before + here) + inner =~= before + (here + inner));
                r
            },
            Err(e) => Err(e),
        },
    }
}

impl Value {
    /// Assigns `value` to `path` in this tree. Where that fails, the tree is
    /// left as it was. A well-formed value assigned in a well-formed tree
    /// leaves the tree well formed.
    pub fn set(&mut self, path: &Path, value: Value, strict: bool) -> (r: Result<(), MergeError>)
        ensures
            old(self).wf() && value.wf() ==> final(self).wf(),
            match set_spec(old(self)@, path@, value@, strict) {
                Ok(t) => r is Ok && final(self)@ == t,
                Err(f) => r matches Err(e) && e@ == f && final(self)@ == old(self)@,
            },
    {
        let current = self.duplicate();
        let occupant = match current {
            Value::Null => None,
            other => Some(other),
        };
        let mut notes: Vec<Discarded> = Vec::new();
        match put(occupant, path, 0, value, strict, &mut notes) {
            Ok(v) => {
                *self = v;
                Ok(())
            },
            Err(e) => Err(e),
        }
    }
}

/// Builds the tree that the assignments come to: from a null root, one
/// assignment after the other, in the order of the list. The first one that
/// cannot be merged fails the whole. With the tree comes the list of what
/// the lenient policy threw away on the way, in the order it did: each old
/// value or subtree with its place and with what took its place. Under the
/// strict policy that list is empty.
pub fn merge_reporting(xs: Vec<(Path, PathTarget)>, strict: bool) -> (r: Result<
    (Value, Vec<Discarded>),
    MergeError,
>)
    ensures
        match merge_spec(assignments(xs@), strict) {
            Ok(t) => r matches Ok((v, notes)) && v@ == t && v.wf() && losses(notes@)
                == merge_discards(assignments(xs@), strict),
            Err(f) => r matches Err(e) && e@ == f,
        },
{
    let mut root = Value::Null;
    let mut notes: Vec<Discarded> = Vec::new();
    let mut i: usize = 0;
    assert(losses(notes@) =~= Seq::empty());
    assert(Seq::<Loss>::empty() + merge_discards(assignments(xs@), strict) =~= merge_discards(
        assignments(xs@),
        strict,
    ));
    while i < xs.len()
        invariant
            i <= xs.len(),
            root.wf(),
            merge_spec(assignments(xs@), strict) == merge_from(
                root@,
                assignments(xs@),
                i as int,
                strict,
            ),
            merge_spec(assignments(xs@), strict) is Ok ==> merge_discards(assignments(xs@), strict)
                == losses(notes@) + discards_from(root@, assignments(xs@), i as int, strict),
        decreases xs.len() - i,
    {
        assert(assignments(xs@)[i as int] == (xs@[i as int].0@, xs@[i as int].1@));
        match Value::try_from(&xs[i].1) {
            None => {},
            Some(v) => {
                let ghost before = losses(notes@);
                let ghost now = discards(root_occupant(root@), xs@[i as int].0@, 0, v@, strict);
                let occupant = match root {
                    Value::Null => None,
                    other => Some(other),
                };
                match put(occupant, &xs[i].0, 0, v, strict, &mut notes) {
                    Ok(t) => {
                        root = t;
                        assert((before + now) + discards_from(
                            root@,
                            assignments(xs@),
                            i + 1,
                            strict,
                        ) =~= before + (now + discards_from(
                            root@,
                            assignments(xs@),
                            i + 1,
                            strict,
                        )));
                    },
                    Err(e) => {
                        return Err(e);
                    },
                }
            },
        }
        i += 1;
    }
    assert(losses(notes@) + Seq::<Loss>::empty() =~= losses(notes@));
    Ok((root, notes))
}

/// Builds the tree that the assignments come to: from a null root, one
/// assignment after the other, in the order of the list. The first one that
/// cannot be merged fails the whole.
pub fn merge(xs: Vec<(Path, PathTarget)>, strict: bool) -> (r: Result<Value, MergeError>)
    ensures
        match merge_spec(assignments(xs@), strict) {
            Ok(t) => r matches Ok(v) && v@ == t && v.wf(),
            Err(f) => r matches Err(e) && e@ == f,
        },
{
    match merge_reporting(xs, strict) {
        Ok((v, _)) => Ok(v),
        Err(e) => Err(e),
    }
}

} // verus!
