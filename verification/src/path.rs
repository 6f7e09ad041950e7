//! Where a value stands in the tree: a path of keys and indices from the
//! root, and what the parser found there.

use crate::decimal::float_text;
use crate::decimal::Decimal;
use crate::decimal::Scaled;
use crate::integer::int_text;
use crate::integer::nat_text;
use crate::integer::push_nat;
use crate::integer::Integer;
use crate::text::join;
use crate::text::lemma_join_push;
use crate::text::push_quoted;
use crate::text::quoted;
use vstd::prelude::*;
use vstd::string::StringExecFns;

verus! {

/// One step of a path: into an object by a key, or into an array by an index.
#[derive(Clone, Debug, PartialEq, Eq, PartialOrd, Ord)]
pub enum PathSegment {
    Object(String),
    Array(usize),
}

/// One step of a path, apart from how it is stored.
pub ghost enum Seg {
    Key(Seq<char>),
    Index(int),
}

impl View for PathSegment {
    type V = Seg;

    open spec fn view(&self) -> Seg {
        match self {
            PathSegment::Object(k) => Seg::Key(k@),
            PathSegment::Array(i) => Seg::Index(*i as int),
        }
    }
}

/// The steps of a path, in order.
pub open spec fn segs(v: Seq<PathSegment>) -> Seq<Seg> {
    Seq::new(v.len(), |i: int| v[i]@)
}

/// How a step is shown: the key as it is, the index in decimal.
pub open spec fn seg_text(s: Seg) -> Seq<char> {
    match s {
        Seg::Key(k) => k,
        Seg::Index(i) => nat_text(i as nat),
    }
}

/// How a path is shown: its steps with `/` between them.
pub open spec fn path_text(p: Seq<Seg>) -> Seq<char> {
    join(Seq::new(p.len(), |i: int| seg_text(p[i])), seq!['/'])
}

impl PathSegment {
    /// A copy of the step.
    pub fn duplicate(&self) -> (r: PathSegment)
        ensures
            r@ == self@,
    {
        match self {
            PathSegment::Object(k) => PathSegment::Object(k.clone()),
            PathSegment::Array(i) => PathSegment::Array(*i),
        }
    }

    /// The step as it is shown.
    pub fn to_text(&self) -> (r: String)
        ensures
            r@ == seg_text(self@),
    {
        let mut out = String::new();
        match self {
            PathSegment::Object(k) => {
                out.append(k.as_str());
            },
            PathSegment::Array(i) => {
                push_nat(&mut out, *i);
            },
        }
        assert(out@ =~= seg_text(self@));
        out
    }
}

/// A copy of a stretch of steps.
pub fn copy_segments(v: &Vec<PathSegment>) -> (r: Vec<PathSegment>)
    ensures
        segs(r@) == segs(v@),
{
    let mut out: Vec<PathSegment> = Vec::new();
    let mut i: usize = 0;
    while i < v.len()
        invariant
            i <= v.len(),
            out.len() == i,
            forall|j: int| 0 <= j < i ==> out@[j]@ == v@[j]@,
        decreases v.len() - i,
    {
        out.push(v[i].duplicate());
        i += 1;
    }
    assert(segs(out@) =~= segs(v@));
    out
}

/// Appends copies of the steps of `v` to `out`.
pub fn extend_segments(out: &mut Vec<PathSegment>, v: &Vec<PathSegment>)
    ensures
        segs(final(out)@) == segs(old(out)@) + segs(v@),
{
    let mut i: usize = 0;
    while i < v.len()
        invariant
            i <= v.len(),
            segs(out@) == segs(old(out)@) + segs(v@.take(i as int)),
        decreases v.len() - i,
    {
        let ghost before = segs(out@);
        let seg = v[i].duplicate();
        out.push(seg);
        assert(segs(out@) =~= before.push(seg@));
        assert(segs(v@.take(i + 1)) =~= segs(v@.take(i as int)).push(v@[i as int]@));
        i += 1;
    }
    assert(v@.take(v.len() as int) == v@);
}

/// The address of a value: the steps that lead to it from the root.
#[derive(Clone, Debug, PartialEq, Eq, PartialOrd, Ord)]
pub struct Path(pub Vec<PathSegment>);

impl View for Path {
    type V = Seq<Seg>;

    open spec fn view(&self) -> Seq<Seg> {
        segs(self.0@)
    }
}

impl Path {
    /// A copy of the path.
    pub fn duplicate(&self) -> (r: Path)
        ensures
            r@ == self@,
    {
        Path(copy_segments(&self.0))
    }

    /// The first `n` steps of the path, or all of them where it has fewer.
    pub fn prefix(&self, n: usize) -> (r: Path)
        ensures
            r@ == if n <= self@.len() {
                self@.take(n as int)
            } else {
                self@
            },
    {
        let mut out: Vec<PathSegment> = Vec::new();
        let mut i: usize = 0;
        while i < n && i < self.0.len()
            invariant
                i <= self.0.len(),
                i <= n,
                segs(out@) == self@.take(i as int),
            decreases self.0.len() - i,
        {
            let ghost before = segs(out@);
            let seg = self.0[i].duplicate();
            out.push(seg);
            assert(segs(out@) =~= before.push(seg@));
            assert(self@.take(i + 1) =~= self@.take(i as int).push(self@[i as int]));
            i += 1;
        }
        assert(self@.take(self@.len() as int) =~= self@);
        Path(out)
    }

    /// The path as it is shown.
    pub fn to_text(&self) -> (r: String)
        ensures
            r@ == path_text(self@),
    {
        let mut out = String::new();
        let ghost parts = Seq::new(self@.len(), |i: int| seg_text(self@[i]));
        let mut i: usize = 0;
        while i < self.0.len()
            invariant
                i <= self.0.len(),
                parts == Seq::new(self@.len(), |i: int| seg_text(self@[i])),
                out@ == join(parts.take(i as int), seq!['/']),
            decreases self.0.len() - i,
        {
            proof {
                lemma_join_push(parts.take(i as int), parts[i as int], seq!['/']);
                assert(parts.take(i + 1) =~= parts.take(i as int).push(parts[i as int]));
            }
            if i > 0 {
                out.push('/');
            }
            let t = self.0[i].to_text();
            out.append(t.as_str());
            assert(out@ =~= join(parts.take(i + 1), seq!['/']));
            i += 1;
        }
        assert(parts.take(self.0.len() as int) =~= parts);
        out
    }
}

/// What the parser found at a path: a literal, an empty container, or a
/// reference to another path, which is kept and never followed.
#[derive(Clone, Debug, PartialEq, Eq)]
pub enum PathTarget {
    Null,
    Bool(bool),
    Int(Integer),
    Float(Decimal),
    String(String),
    EmptyArray,
    EmptyObject,
    Reference(Path),
}

/// What the parser found at a path, apart from how it is stored.
pub ghost enum Target {
    Null,
    Bool(bool),
    Int(int),
    Float(Scaled),
    String(Seq<char>),
    EmptyArray,
    EmptyObject,
    Reference(Seq<Seg>),
}

impl View for PathTarget {
    type V = Target;

    open spec fn view(&self) -> Target {
        match self {
            PathTarget::Null => Target::Null,
            PathTarget::Bool(b) => Target::Bool(*b),
            PathTarget::Int(n) => Target::Int(n@),
            PathTarget::Float(d) => Target::Float(d@),
            PathTarget::String(s) => Target::String(s@),
            PathTarget::EmptyArray => Target::EmptyArray,
            PathTarget::EmptyObject => Target::EmptyObject,
            PathTarget::Reference(p) => Target::Reference(p@),
        }
    }
}

/// How a reference is shown: each of its keys between double quotes, with `.`
/// between them.
pub open spec fn reference_text(p: Seq<Seg>) -> Seq<char> {
    join(Seq::new(p.len(), |i: int| quoted(seg_text(p[i]))), seq!['.'])
}

/// How a target is shown.
pub open spec fn target_text(t: Target) -> Seq<char> {
    match t {
        Target::Null => seq!['n', 'u', 'l', 'l'],
        Target::Bool(b) => if b {
            seq!['t', 'r', 'u', 'e']
        } else {
            seq!['f', 'a', 'l', 's', 'e']
        },
        Target::Int(n) => int_text(n),
        Target::Float(d) => float_text(d),
        Target::String(s) => quoted(s),
        Target::EmptyArray => seq!['[', ']'],
        Target::EmptyObject => seq!['{', '}'],
        Target::Reference(p) => reference_text(p),
    }
}

/// Appends `null` to `out`.
pub fn push_null(out: &mut String)
    ensures
        final(out)@ == old(out)@ + seq!['n', 'u', 'l', 'l'],
{
    out.push('n');
    out.push('u');
    out.push('l');
    out.push('l');
    assert(out@ =~= old(out)@ + seq!['n', 'u', 'l', 'l']);
}

/// Appends `true` or `false` to `out`.
pub fn push_bool(out: &mut String, b: bool)
    ensures
        final(out)@ == old(out)@ + if b {
            seq!['t', 'r', 'u', 'e']
        } else {
            seq!['f', 'a', 'l', 's', 'e']
        },
{
    if b {
        out.push('t');
        out.push('r');
        out.push('u');
        out.push('e');
        assert(out@ =~= old(out)@ + seq!['t', 'r', 'u', 'e']);
    } else {
        out.push('f');
        out.push('a');
        out.push('l');
        out.push('s');
        out.push('e');
        assert(out@ =~= old(out)@ + seq!['f', 'a', 'l', 's', 'e']);
    }
}

impl PathTarget {
    /// The target as it is shown.
    pub fn to_text(&self) -> (r: String)
        ensures
            r@ == target_text(self@),
    {
        let mut out = String::new();
        match self {
            PathTarget::Null => {
                push_null(&mut out);
            },
            PathTarget::Bool(b) => {
                push_bool(&mut out, *b);
            },
            PathTarget::Int(n) => {
                let t = n.to_text();
                out.append(t.as_str());
            },
            PathTarget::Float(d) => {
                let t = d.to_text();
                out.append(t.as_str());
            },
            PathTarget::String(s) => {
                push_quoted(&mut out, s.as_str());
            },
            PathTarget::EmptyArray => {
                out.push('[');
                out.push(']');
            },
            PathTarget::EmptyObject => {
                out.push('{');
                out.push('}');
            },
            PathTarget::Reference(p) => {
                let ghost parts = Seq::new(p@.len(), |i: int| quoted(seg_text(p@[i])));
                let mut i: usize = 0;
                while i < p.0.len()
                    invariant
                        i <= p.0.len(),
                        parts == Seq::new(p@.len(), |i: int| quoted(seg_text(p@[i]))),
                        out@ == join(parts.take(i as int), seq!['.']),
                    decreases p.0.len() - i,
                {
                    proof {
                        lemma_join_push(parts.take(i as int), parts[i as int], seq!['.']);
                        assert(parts.take(i + 1) =~= parts.take(i as int).push(parts[i as int]));
                    }
                    if i > 0 {
                        out.push('.');
                    }
                    let t = p.0[i].to_text();
                    push_quoted(&mut out, t.as_str());
                    assert(out@ =~= join(parts.take(i + 1), seq!['.']));
                    i += 1;
                }
                assert(parts.take(p.0.len() as int) =~= parts);
            },
        }
        assert(out@ =~= target_text(self@));
        out
    }
}

} // verus!
