//! From tokens to the flat list of assignments.

use crate::lex::lexemes;
use crate::lex::Lexeme;
use crate::lex::Token;
use crate::merge::assignments;
use crate::path::extend_segments;
use crate::path::segs;
use crate::path::Path;
use crate::path::PathSegment;
use crate::path::PathTarget;
use crate::path::Seg;
use crate::path::Target;
use vstd::prelude::*;

verus! {

/// What is wrong with the tokens.
#[derive(Clone, Copy, Debug, PartialEq, Eq)]
pub enum ParseErrorKind {
    /// A value follows a value with nothing between them.
    TwoValues,
    /// `:` follows what is neither an identifier nor a string.
    BadKey,
    /// An identifier stands where a value is asked for.
    BadValue,
    /// `.` follows what is no string, or a reference ends in what is no
    /// string, or is used as a key.
    BadReference,
    /// `}` or `]` closes nothing, or the other kind of bracket.
    Unbalanced,
    /// The tokens end inside `{` or `[`.
    Unclosed,
    /// `]` closes an array that holds commas and no item.
    MissingItem,
    /// An array has more items than an index can count.
    TooManyItems,
}

/// A failure of the parser: at which token, counted from 0 (the count of all
/// tokens where it is the end of them that fails), and why.
#[derive(Clone, Copy, Debug, PartialEq, Eq)]
pub struct ParseError {
    pub at: usize,
    pub kind: ParseErrorKind,
}

/// A failure of the parser, as the specification has it.
pub ghost struct ParseFault {
    pub at: int,
    pub kind: ParseErrorKind,
}

impl View for ParseError {
    type V = ParseFault;

    open spec fn view(&self) -> ParseFault {
        ParseFault { at: self.at as int, kind: self.kind }
    }
}

/// An open `{` or `[`.
pub ghost struct Scope {
    /// The steps written between the bracket before it and this one.
    pub prefix: Seq<Seg>,
    /// For `[`, the index of the item that comes next; none for `{`.
    pub index: Option<int>,
    /// Whether nothing has been assigned inside it yet.
    pub empty: bool,
}

/// What the parser knows between two tokens.
pub ghost struct Machine {
    /// The assignments made so far.
    pub out: Seq<(Seq<Seg>, Target)>,
    /// The open brackets, the outermost first.
    pub scope: Seq<Scope>,
    /// The keys written since the last bracket or assignment.
    pub path: Seq<Seg>,
    /// The value or key that waits for what follows it.
    pub pending: Option<Lexeme>,
    /// Whether a line end stands between the pending token and what follows.
    pub after_newline: bool,
    /// The strings of a reference read so far.
    pub reference: Seq<Seg>,
}

/// The steps that an open bracket stands for.
pub open spec fn scope_steps(s: Scope) -> Seq<Seg> {
    match s.index {
        Some(i) => s.prefix.push(Seg::Index(i)),
        None => s.prefix,
    }
}

/// The steps that the open brackets stand for, one after the other.
pub open spec fn scope_path(scope: Seq<Scope>) -> Seq<Seg>
    decreases scope.len(),
{
    if scope.len() == 0 {
        Seq::empty()
    } else {
        scope_path(scope.drop_last()) + scope_steps(scope.last())
    }
}

/// The open brackets, the innermost marked as holding something.
pub open spec fn mark_used(scope: Seq<Scope>) -> Seq<Scope> {
    if scope.len() == 0 {
        scope
    } else {
        scope.update(scope.len() - 1, Scope { empty: false, ..scope.last() })
    }
}

/// The target that a pending token stands for. A string that ends a
/// reference stands for the reference, the string its last step.
pub open spec fn target_of(x: Lexeme, reference: Seq<Seg>) -> Result<Target, ParseErrorKind> {
    match x {
        Lexeme::String(s) => if reference.len() == 0 {
            Ok(Target::String(s))
        } else {
            Ok(Target::Reference(reference.push(Seg::Key(s))))
        },
        Lexeme::Null => if reference.len() == 0 {
            Ok(Target::Null)
        } else {
            Err(ParseErrorKind::BadReference)
        },
        Lexeme::Bool(b) => if reference.len() == 0 {
            Ok(Target::Bool(b))
        } else {
            Err(ParseErrorKind::BadReference)
        },
        Lexeme::Int(n) => if reference.len() == 0 {
            Ok(Target::Int(n))
        } else {
            Err(ParseErrorKind::BadReference)
        },
        Lexeme::Float(d) => if reference.len() == 0 {
            Ok(Target::Float(d))
        } else {
            Err(ParseErrorKind::BadReference)
        },
        _ => Err(ParseErrorKind::BadValue),
    }
}

/// One more assignment: of `target`, to the steps of the open brackets and
/// the keys written since.
pub open spec fn emit(m: Machine, target: Target) -> Machine {
    Machine {
        out: m.out.push((scope_path(m.scope) + m.path, target)),
        scope: mark_used(m.scope),
        path: Seq::empty(),
        reference: Seq::empty(),
        ..m
    }
}

/// The pending token, if there is one, assigned as a value.
pub open spec fn commit(m: Machine) -> Result<Machine, ParseErrorKind> {
    match m.pending {
        None => Ok(m),
        Some(x) => match target_of(x, m.reference) {
            Ok(t) => Ok(emit(Machine { pending: None, ..m }, t)),
            Err(k) => Err(k),
        },
    }
}

/// After a comma: inside `[`, the next index.
pub open spec fn advance(m: Machine) -> Result<Machine, ParseErrorKind> {
    if m.scope.len() > 0 && m.scope.last().index is Some {
        let i = m.scope.last().index->0;
        if i >= usize::MAX {
            Err(ParseErrorKind::TooManyItems)
        } else {
            Ok(
                Machine {
                    scope: m.scope.update(
                        m.scope.len() - 1,
                        Scope { index: Some(i + 1), ..m.scope.last() },
                    ),
                    ..m
                },
            )
        }
    } else {
        Ok(m)
    }
}

/// After `{` or `[`: one more open bracket, which takes the keys written
/// since the last one as its prefix.
pub open spec fn open(m: Machine, array: bool) -> Machine {
    Machine {
        scope: m.scope.push(
            Scope {
                prefix: m.path,
                index: if array {
                    Some(0)
                } else {
                    None
                },
                empty: true,
            },
        ),
        path: Seq::empty(),
        ..m
    }
}

/// After `}` or `]`, the pending token committed: the innermost bracket is
/// closed. Where nothing was assigned inside it, the empty container is
/// assigned to its own steps, without the index of an array. The bracket
/// around it now holds something.
pub open spec fn close(m: Machine, array: bool) -> Result<Machine, ParseErrorKind> {
    if m.scope.len() == 0 {
        Err(ParseErrorKind::Unbalanced)
    } else {
        let top = m.scope.last();
        if (top.index is Some) != array {
            Err(ParseErrorKind::Unbalanced)
        } else if top.empty && array && top.index != Some(0int) {
            Err(ParseErrorKind::MissingItem)
        } else {
            let filled = if top.empty {
                emit(
                    Machine {
                        scope: m.scope.update(m.scope.len() - 1, Scope { index: None, ..top }),
                        ..m
                    },
                    if array {
                        Target::EmptyArray
                    } else {
                        Target::EmptyObject
                    },
                )
            } else {
                m
            };
            Ok(Machine { scope: mark_used(filled.scope.drop_last()), ..filled })
        }
    }
}

/// What a token does, the line end before it dealt with.
pub open spec fn act(m: Machine, x: Lexeme) -> Result<Machine, ParseErrorKind> {
    match x {
        Lexeme::Colon => match m.pending {
            Some(Lexeme::Ident(k)) => if m.reference.len() == 0 {
                Ok(Machine { path: m.path.push(Seg::Key(k)), pending: None, ..m })
            } else {
                Err(ParseErrorKind::BadReference)
            },
            Some(Lexeme::String(k)) => if m.reference.len() == 0 {
                Ok(Machine { path: m.path.push(Seg::Key(k)), pending: None, ..m })
            } else {
                Err(ParseErrorKind::BadReference)
            },
            _ => Err(ParseErrorKind::BadKey),
        },
        Lexeme::Period => match m.pending {
            Some(Lexeme::String(s)) => Ok(
                Machine { reference: m.reference.push(Seg::Key(s)), pending: None, ..m },
            ),
            _ => Err(ParseErrorKind::BadReference),
        },
        Lexeme::Newline => Ok(Machine { after_newline: true, ..m }),
        Lexeme::Comma => match commit(m) {
            Ok(m1) => advance(m1),
            Err(k) => Err(k),
        },
        Lexeme::OpenBrace => Ok(open(m, false)),
        Lexeme::OpenBracket => Ok(open(m, true)),
        Lexeme::CloseBrace => match commit(m) {
            Ok(m1) => close(m1, false),
            Err(k) => Err(k),
        },
        Lexeme::CloseBracket => match commit(m) {
            Ok(m1) => close(m1, true),
            Err(k) => Err(k),
        },
        _ => if m.pending is Some {
            Err(ParseErrorKind::TwoValues)
        } else {
            Ok(Machine { pending: Some(x), ..m })
        },
    }
}

/// What one token does to the machine. A line end commits nothing by itself:
/// the token after it does, unless that is `:` or one more line end, so that a
/// value before a line end ends its statement, and a key may stand on the
/// line before its `:`.
pub open spec fn step(m: Machine, x: Lexeme) -> Result<Machine, ParseErrorKind> {
    let forced = if m.after_newline && !(x is Colon) && !(x is Newline) {
        commit(m)
    } else {
        Ok(m)
    };
    match forced {
        Ok(m1) => act(Machine { after_newline: false, ..m1 }, x),
        Err(k) => Err(k),
    }
}

/// The machine before the first token.
pub open spec fn start() -> Machine {
    Machine {
        out: Seq::empty(),
        scope: Seq::empty(),
        path: Seq::empty(),
        pending: None,
        after_newline: false,
        reference: Seq::empty(),
    }
}

/// The machine after the tokens from `i` on.
pub open spec fn run(m: Machine, tokens: Seq<Lexeme>, i: int) -> Result<Machine, ParseFault>
    decreases tokens.len() - i,
{
    if i < 0 || i >= tokens.len() {
        Ok(m)
    } else {
        match step(m, tokens[i]) {
            Ok(m1) => run(m1, tokens, i + 1),
            Err(kind) => Err(ParseFault { at: i, kind }),
        }
    }
}

/// The list that the machine leaves at the end of the tokens: the pending
/// token is committed, no bracket may be open, and a document that assigned
/// nothing is the empty object.
pub open spec fn finish(m: Machine) -> Result<Seq<(Seq<Seg>, Target)>, ParseErrorKind> {
    match commit(m) {
        Ok(m1) => if m1.scope.len() > 0 {
            Err(ParseErrorKind::Unclosed)
        } else if m1.out.len() == 0 {
            Ok(seq![(Seq::empty(), Target::EmptyObject)])
        } else {
            Ok(m1.out)
        },
        Err(k) => Err(k),
    }
}

/// The assignments that the tokens make, in the order of the source.
pub open spec fn parse_spec(tokens: Seq<Lexeme>) -> Result<Seq<(Seq<Seg>, Target)>, ParseFault> {
    match run(start(), tokens, 0) {
        Ok(m) => match finish(m) {
            Ok(out) => Ok(out),
            Err(kind) => Err(ParseFault { at: tokens.len() as int, kind }),
        },
        Err(f) => Err(f),
    }
}

/// An open `{` or `[`, as the parser keeps it.
struct Frame {
    prefix: Vec<PathSegment>,
    index: Option<usize>,
    empty: bool,
}

impl View for Frame {
    type V = Scope;

    closed spec fn view(&self) -> Scope {
        Scope {
            prefix: segs(self.prefix@),
            index: match self.index {
                Some(i) => Some(i as int),
                None => None,
            },
            empty: self.empty,
        }
    }
}

/// The open brackets, each apart from how it is kept.
spec fn scopes(frames: Seq<Frame>) -> Seq<Scope> {
    Seq::new(frames.len(), |i: int| frames[i]@)
}

/// What the parser knows between two tokens, as it keeps it.
struct Flattener {
    out: Vec<(Path, PathTarget)>,
    scope: Vec<Frame>,
    path: Vec<PathSegment>,
    pending: Option<Token>,
    after_newline: bool,
    reference: Vec<PathSegment>,
}

impl View for Flattener {
    type V = Machine;

    closed spec fn view(&self) -> Machine {
        Machine {
            out: assignments(self.out@),
            scope: scopes(self.scope@),
            path: segs(self.path@),
            pending: match self.pending {
                Some(t) => Some(t@),
                None => None,
            },
            after_newline: self.after_newline,
            reference: segs(self.reference@),
        }
    }
}

/// The steps that the open brackets stand for.
fn scope_segments(scope: &Vec<Frame>) -> (r: Vec<PathSegment>)
    ensures
        segs(r@) == scope_path(scopes(scope@)),
{
    let mut out: Vec<PathSegment> = Vec::new();
    let mut i: usize = 0;
    assert(segs(out@) =~= Seq::empty());
    assert(scopes(scope@).take(0) =~= Seq::empty());
    while i < scope.len()
        invariant
            i <= scope.len(),
            segs(out@) == scope_path(scopes(scope@).take(i as int)),
        decreases scope.len() - i,
    {
        let ghost before = segs(out@);
        let ghost upto = scopes(scope@).take(i + 1);
        assert(upto.drop_last() =~= scopes(scope@).take(i as int));
        assert(upto.last() == scope@[i as int]@);
        extend_segments(&mut out, &scope[i].prefix);
        match scope[i].index {
            Some(k) => {
                let ghost mid = segs(out@);
                out.push(PathSegment::Array(k));
                assert(segs(out@) =~= mid.push(Seg::Index(k as int)));
                assert(segs(out@) =~= before + scope_steps(scope@[i as int]@));
            },
            None => {},
        }
        i += 1;
    }
    assert(scopes(scope@).take(scope.len() as int) =~= scopes(scope@));
    out
}

/// Marks the innermost open bracket as holding something.
fn mark(scope: &mut Vec<Frame>)
    ensures
        scopes(final(scope)@) == mark_used(scopes(old(scope)@)),
{
    match scope.pop() {
        Some(top) => {
            scope.push(Frame { prefix: top.prefix, index: top.index, empty: false });
            assert(scopes(scope@) =~= mark_used(scopes(old(scope)@)));
        },
        None => {
            assert(scopes(scope@) =~= mark_used(scopes(old(scope)@)));
        },
    }
}

impl Flattener {
    /// The machine before the first token.
    fn new() -> (r: Flattener)
        ensures
            r@ == start(),
    {
        let r = Flattener {
            out: Vec::new(),
            scope: Vec::new(),
            path: Vec::new(),
            pending: None,
            after_newline: false,
            reference: Vec::new(),
        };
        assert(r@.out =~= Seq::empty());
        assert(r@.scope =~= Seq::empty());
        assert(r@.path =~= Seq::empty());
        assert(r@.reference =~= Seq::empty());
        r
    }

    /// Makes one more assignment, of `target`.
    fn emit(&mut self, target: PathTarget)
        ensures
            final(self)@ == emit(old(self)@, target@),
    {
        let mut steps = scope_segments(&self.scope);
        extend_segments(&mut steps, &self.path);
        let ghost before = assignments(self.out@);
        let ghost place = segs(steps@);
        self.out.push((Path(steps), target));
        assert(assignments(self.out@) =~= before.push((place, target@)));
        mark(&mut self.scope);
        self.path = Vec::new();
        self.reference = Vec::new();
        assert(segs(self.path@) =~= Seq::empty());
        assert(segs(self.reference@) =~= Seq::empty());
    }

    /// Assigns the pending token, if there is one, as a value.
    fn commit(&mut self) -> (r: Result<(), ParseErrorKind>)
        ensures
            match commit(old(self)@) {
                Ok(m) => r is Ok && final(self)@ == m,
                Err(k) => r == Err::<(), ParseErrorKind>(k),
            },
    {
        let pending = self.pending.take();
        match pending {
            None => Ok(()),
            Some(token) => {
                let referring = self.reference.len() > 0;
                assert(referring == (segs(self.reference@).len() > 0));
                let target = match token {
                    Token::String(s) => {
                        if referring {
                            let ghost before = segs(self.reference@);
                            let mut steps: Vec<PathSegment> = Vec::new();
                            assert(segs(steps@) =~= Seq::empty());
                            extend_segments(&mut steps, &self.reference);
                            let ghost mid = segs(steps@);
                            assert(mid =~= before);
                            steps.push(PathSegment::Object(s));
                            assert(segs(steps@) =~= mid.push(Seg::Key(s@)));
                            PathTarget::Reference(Path(steps))
                        } else {
                            PathTarget::String(s)
                        }
                    },
                    Token::Null => {
                        if referring {
                            return Err(ParseErrorKind::BadReference);
                        }
                        PathTarget::Null
                    },
                    Token::Bool(b) => {
                        if referring {
                            return Err(ParseErrorKind::BadReference);
                        }
                        PathTarget::Bool(b)
                    },
                    Token::Int(n) => {
                        if referring {
                            return Err(ParseErrorKind::BadReference);
                        }
                        PathTarget::Int(n)
                    },
                    Token::Float(d) => {
                        if referring {
                            return Err(ParseErrorKind::BadReference);
                        }
                        PathTarget::Float(d)
                    },
                    _ => {
                        return Err(ParseErrorKind::BadValue);
                    },
                };
                self.emit(target);
                Ok(())
            },
        }
    }

    /// After a comma: inside `[`, the next index.
    fn advance(&mut self) -> (r: Result<(), ParseErrorKind>)
        ensures
            match advance(old(self)@) {
                Ok(m) => r is Ok && final(self)@ == m,
                Err(k) => r == Err::<(), ParseErrorKind>(k),
            },
    {
        match self.scope.pop() {
            None => Ok(()),
            Some(top) => {
                match top.index {
                    None => {
                        self.scope.push(top);
                        assert(scopes(self.scope@) =~= scopes(old(self).scope@));
                        Ok(())
                    },
                    Some(i) => {
                        if i == usize::MAX {
                            self.scope.push(top);
                            return Err(ParseErrorKind::TooManyItems);
                        }
                        self.scope.push(
                            Frame { prefix: top.prefix, index: Some(i + 1), empty: top.empty },
                        );
                        assert(scopes(self.scope@) =~= scopes(old(self).scope@).update(
                            old(self).scope@.len() - 1,
                            Scope { index: Some(i + 1), ..scopes(old(self).scope@).last() },
                        ));
                        Ok(())
                    },
                }
            },
        }
    }

    /// Opens one more bracket.
    fn open(&mut self, array: bool)
        ensures
            final(self)@ == open(old(self)@, array),
    {
        let mut prefix: Vec<PathSegment> = Vec::new();
        assert(segs(prefix@) =~= Seq::empty());
        extend_segments(&mut prefix, &self.path);
        assert(segs(prefix@) =~= segs(self.path@));
        let ghost before = scopes(self.scope@);
        let frame = Frame {
            prefix,
            index: if array {
                Some(0)
            } else {
                None
            },
            empty: true,
        };
        self.scope.push(frame);
        assert(scopes(self.scope@) =~= before.push(frame@));
        self.path = Vec::new();
        assert(segs(self.path@) =~= Seq::empty());
    }

    /// Closes the innermost bracket.
    fn close(&mut self, array: bool) -> (r: Result<(), ParseErrorKind>)
        ensures
            match close(old(self)@, array) {
                Ok(m) => r is Ok && final(self)@ == m,
                Err(k) => r == Err::<(), ParseErrorKind>(k),
            },
    {
        let ghost before = scopes(self.scope@);
        match self.scope.pop() {
            None => Err(ParseErrorKind::Unbalanced),
            Some(top) => {
                let ghost rest = scopes(self.scope@);
                assert(rest =~= before.drop_last());
                assert(top@ == before.last());
                if top.index.is_some() != array {
                    return Err(ParseErrorKind::Unbalanced);
                }
                if top.empty {
                    match top.index {
                        Some(i) => {
                            if i != 0 {
                                return Err(ParseErrorKind::MissingItem);
                            }
                        },
                        None => {},
                    }
                    let bare = Frame { prefix: top.prefix, index: None, empty: true };
                    self.scope.push(bare);
                    assert(scopes(self.scope@) =~= before.update(
                        before.len() - 1,
                        Scope { index: None, ..before.last() },
                    ));
                    self.emit(
                        if array {
                            PathTarget::EmptyArray
                        } else {
                            PathTarget::EmptyObject
                        },
                    );
                    let ghost filled = scopes(self.scope@);
                    let _ = self.scope.pop();
                    assert(scopes(self.scope@) =~= filled.drop_last());
                }
                mark(&mut self.scope);
                Ok(())
            },
        }
    }

    /// Does what a token does, the line end before it dealt with.
    fn act(&mut self, token: Token) -> (r: Result<(), ParseErrorKind>)
        ensures
            match act(old(self)@, token@) {
                Ok(m) => r is Ok && final(self)@ == m,
                Err(k) => r == Err::<(), ParseErrorKind>(k),
            },
    {
        match token {
            Token::Colon => {
                let referring = self.reference.len() > 0;
                assert(referring == (segs(self.reference@).len() > 0));
                let pending = self.pending.take();
                let key = match pending {
                    Some(Token::Ident(k)) => k,
                    Some(Token::String(k)) => k,
                    _ => {
                        return Err(ParseErrorKind::BadKey);
                    },
                };
                if referring {
                    return Err(ParseErrorKind::BadReference);
                }
                let ghost before = segs(self.path@);
                self.path.push(PathSegment::Object(key));
                assert(segs(self.path@) =~= before.push(Seg::Key(key@)));
                Ok(())
            },
            Token::Period => {
                let pending = self.pending.take();
                match pending {
                    Some(Token::String(s)) => {
                        let ghost before = segs(self.reference@);
                        self.reference.push(PathSegment::Object(s));
                        assert(segs(self.reference@) =~= before.push(Seg::Key(s@)));
                        Ok(())
                    },
                    _ => Err(ParseErrorKind::BadReference),
                }
            },
            Token::Newline => {
                self.after_newline = true;
                Ok(())
            },
            Token::Comma => match self.commit() {
                Ok(()) => self.advance(),
                Err(k) => Err(k),
            },
            Token::OpenBrace => {
                self.open(false);
                Ok(())
            },
            Token::OpenBracket => {
                self.open(true);
                Ok(())
            },
            Token::CloseBrace => match self.commit() {
                Ok(()) => self.close(false),
                Err(k) => Err(k),
            },
            Token::CloseBracket => match self.commit() {
                Ok(()) => self.close(true),
                Err(k) => Err(k),
            },
            other => {
                if self.pending.is_some() {
                    return Err(ParseErrorKind::TwoValues);
                }
                self.pending = Some(other);
                Ok(())
            },
        }
    }

    /// Takes one token.
    fn step(&mut self, token: Token) -> (r: Result<(), ParseErrorKind>)
        ensures
            match step(old(self)@, token@) {
                Ok(m) => r is Ok && final(self)@ == m,
                Err(k) => r == Err::<(), ParseErrorKind>(k),
            },
    {
        let separator = match token {
            Token::Colon => true,
            Token::Newline => true,
            _ => false,
        };
        if self.after_newline && !separator {
            match self.commit() {
                Ok(()) => {},
                Err(k) => {
                    return Err(k);
                },
            }
        }
        self.after_newline = false;
        self.act(token)
    }

    /// Ends the tokens and hands out the list.
    fn finish(self) -> (r: Result<Vec<(Path, PathTarget)>, ParseErrorKind>)
        ensures
            match finish(self@) {
                Ok(out) => r matches Ok(xs) && assignments(xs@) == out,
                Err(k) => r == Err::<Vec<(Path, PathTarget)>, ParseErrorKind>(k),
            },
    {
        let mut this = self;
        match this.commit() {
            Err(k) => Err(k),
            Ok(()) => {
                if this.scope.len() > 0 {
                    return Err(ParseErrorKind::Unclosed);
                }
                if this.out.len() == 0 {
                    let mut out: Vec<(Path, PathTarget)> = Vec::new();
                    let steps: Vec<PathSegment> = Vec::new();
                    assert(segs(steps@) =~= Seq::empty());
                    out.push((Path(steps), PathTarget::EmptyObject));
                    assert(assignments(out@) =~= seq![(Seq::empty(), Target::EmptyObject)]);
                    return Ok(out);
                }
                Ok(this.out)
            },
        }
    }
}

/// Reads the tokens once, from left to right, and gives the assignments that
/// they make: one for each literal and each empty container, in the order of
/// the source, each with the path from the root to its place.
pub fn parse(tokens: Vec<Token>) -> (r: Result<Vec<(Path, PathTarget)>, ParseError>)
    ensures
        match parse_spec(lexemes(tokens@)) {
            Ok(out) => r matches Ok(xs) && assignments(xs@) == out,
            Err(f) => r matches Err(e) && e@ == f,
        },
{
    let mut machine = Flattener::new();
    let n = tokens.len();
    let ghost all = lexemes(tokens@);
    let mut i: usize = 0;
    for token in it: tokens
        invariant
            i == it.index(),
            it.seq() == tokens@,
            n == tokens@.len(),
            all == lexemes(tokens@),
            run(start(), all, 0) == run(machine@, all, i as int),
    {
        assert(token == tokens@[i as int]);
        assert(all[i as int] == token@);
        match machine.step(token) {
            Ok(()) => {},
            Err(kind) => {
                return Err(ParseError { at: i, kind });
            },
        }
        i += 1;
    }
    match machine.finish() {
        Ok(out) => Ok(out),
        Err(kind) => Err(ParseError { at: n, kind }),
    }
}

} // verus!
