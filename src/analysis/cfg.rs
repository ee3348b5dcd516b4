//! The control-flow model of one function body, as handed over by a compiler front end.
use vstd::prelude::*;

verus! {

/// A source range: file name, start line, start column, end line, end column (all 1-based).
pub type Span = (String, u32, u32, u32, u32);

/// A program point: the statement `statement_index` of block `block`; the index equal to the
/// number of statements of the block designates its terminator.
#[derive(Clone, Copy, Debug, PartialEq, Eq, Structural)]
pub struct Location {
    pub block: usize,
    pub statement_index: usize,
}

/// The right-hand side of an assignment, as far as the analysis distinguishes it.
pub enum Rvalue {
    /// The value of a local, moved out of it.
    Move(usize),
    /// Anything else.
    Other,
}

pub enum StatementKind {
    /// The storage of a local is acquired.
    StorageLive(usize),
    /// The storage of a local is released.
    StorageDead(usize),
    /// An assignment to a local.
    Assign(usize, Rvalue),
    Other,
}

pub struct Statement {
    pub kind: StatementKind,
    pub span: Span,
}

/// A call target that the front end resolved to exactly one function.
pub struct Callee {
    pub def_id: u64,
    /// The callee's item name, such as `send`.
    pub name: String,
    /// The receiver type, where the call goes to a method through a known type.
    pub receiver_ty: Option<String>,
}

pub enum TerminatorKind {
    /// The value of a local is dropped.
    Drop(usize),
    /// A call; `None` where the target is not statically known (a function pointer, a
    /// dynamic dispatch).
    Call(Option<Callee>),
    Other,
}

pub struct Terminator {
    pub kind: TerminatorKind,
    pub span: Span,
    /// The blocks that control may reach next.
    pub successors: Vec<usize>,
}

pub struct BasicBlock {
    pub statements: Vec<Statement>,
    pub terminator: Terminator,
}

pub struct LocalDecl {
    /// Whether the front end classified the declared type as a lock guard.
    pub is_guard: bool,
}

pub struct Body {
    pub def_id: u64,
    pub local_decls: Vec<LocalDecl>,
    pub basic_blocks: Vec<BasicBlock>,
}

impl Body {
    /// Every successor names a block of the body, and the sizes leave room for counting.
    pub open spec fn wf(&self) -> bool {
        &&& self.basic_blocks@.len() < usize::MAX
        &&& self.local_decls@.len() < usize::MAX
        &&& forall|b: int|
            0 <= b < self.basic_blocks@.len() ==> #[trigger] self.block(b).wf(
                self.basic_blocks@.len() as int,
            )
    }

    pub open spec fn block(&self, b: int) -> BasicBlock {
        self.basic_blocks@[b]
    }

    pub open spec fn num_blocks(&self) -> int {
        self.basic_blocks@.len() as int
    }

    /// The span reported for a location: its statement's, or its terminator's.
    pub open spec fn span_at(&self, loc: Location) -> Span {
        let bb = self.block(loc.block as int);
        if loc.statement_index < bb.statements@.len() {
            bb.statements@[loc.statement_index as int].span
        } else {
            bb.terminator.span
        }
    }
}

impl BasicBlock {
    pub open spec fn wf(&self, num_blocks: int) -> bool {
        &&& self.statements@.len() < usize::MAX
        &&& forall|j: int|
            0 <= j < self.terminator.successors@.len() ==> #[trigger] self.terminator.successors@[j]
                < num_blocks
    }
}

/// Copies a span.
pub fn clone_span(s: &Span) -> (r: Span)
    ensures
        r == *s,
{
    (s.0.clone(), s.1, s.2, s.3, s.4)
}

} // verus!
