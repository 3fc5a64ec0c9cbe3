//! The control-flow graph of one function, as the instrumentation reads and
//! rewrites it: blocks of statements, each closed by a terminator that names
//! the blocks control may pass to.

use crate::region::CodeRegion;
use crate::span::Span;
use vstd::prelude::*;

verus! {

/// The index of a block in [`Body::basic_blocks`].
pub type BasicBlock = usize;

/// The block at which every execution of a function begins.
pub const START_BLOCK: usize = 0;

/// Where in the source an instruction comes from.
#[derive(Clone, Copy, Debug, PartialEq, Eq, Structural)]
pub struct SourceInfo {
    pub span: Span,
}

/// The marker that a coverage statement carries.
#[derive(Clone, Copy, Debug, PartialEq, Eq, Structural)]
pub enum CoverageKind {
    /// Adds one to the physical counter `id` whenever it is executed.
    CounterIncrement { id: usize },
    /// Marks the place whose count expression `id` stands for, so that a
    /// report can tell code that was removed from code that never ran.
    ExpressionUsed { id: usize },
}

/// What a statement does, as far as coverage is concerned.
#[derive(Clone, Copy, Debug, PartialEq, Eq, Structural)]
pub enum StatementKind {
    /// User code: an assignment or another statement with a source span.
    Assign,
    /// The start of a local's storage, placed by the compiler.
    StorageLive,
    /// The end of a local's storage, placed by the compiler.
    StorageDead,
    /// No operation.
    Nop,
    /// A coverage marker.
    Coverage(CoverageKind),
}

/// One statement of a block.
#[derive(Clone, Copy, Debug, PartialEq, Eq, Structural)]
pub struct Statement {
    pub source_info: SourceInfo,
    pub kind: StatementKind,
}

/// How control leaves a block.
#[allow(inconsistent_fields)]
#[derive(Clone, Debug, PartialEq, Eq)]
pub enum TerminatorKind {
    /// Continues at `target`.
    Goto { target: usize },
    /// Continues at one of `targets`, chosen by a value.
    SwitchInt { targets: Vec<usize> },
    /// Calls a function, and continues at `target` if the call returns.
    Call { target: Option<usize> },
    /// Leaves the function.
    Return,
    /// Is never executed.
    Unreachable,
}

/// The last instruction of a block.
#[derive(Clone, Debug, PartialEq, Eq)]
pub struct Terminator {
    pub source_info: SourceInfo,
    pub kind: TerminatorKind,
}

/// A block: statements executed in order, then the terminator.
#[derive(Clone, Debug, PartialEq, Eq)]
pub struct BasicBlockData {
    pub statements: Vec<Statement>,
    pub terminator: Terminator,
    pub is_cleanup: bool,
}

/// How an expression combines its operands.
#[derive(Clone, Copy, Debug, PartialEq, Eq, Structural)]
pub enum Op {
    Add,
    Subtract,
}

/// A count: a physical counter, or the value of an expression.
#[derive(Clone, Copy, Debug, PartialEq, Eq, Structural)]
pub enum CovTerm {
    Counter(usize),
    Expression(usize),
}

/// A count derived from two others. Its id is its index in
/// [`FunctionCoverageInfo::expressions`].
#[derive(Clone, Copy, Debug, PartialEq, Eq, Structural)]
pub struct Expression {
    pub id: usize,
    pub lhs: CovTerm,
    pub op: Op,
    pub rhs: CovTerm,
}

/// What a mapping measures.
#[derive(Clone, Copy, Debug, PartialEq, Eq, Structural)]
pub enum MappingKind {
    /// The region is executed as often as the term says.
    Code(CovTerm),
}

/// One source region with the term that counts its executions.
#[derive(Clone, Debug, PartialEq, Eq)]
pub struct Mapping {
    pub kind: MappingKind,
    pub code_region: CodeRegion,
}

/// What the instrumentation of one function leaves for later stages.
#[derive(Clone, Debug, PartialEq, Eq)]
pub struct FunctionCoverageInfo {
    pub function_source_hash: u64,
    pub num_counters: usize,
    pub expressions: Vec<Expression>,
    pub mappings: Vec<Mapping>,
}

/// The blocks of one function, and its coverage information once it has been
/// instrumented.
#[derive(Clone, Debug, PartialEq, Eq)]
pub struct Body {
    pub basic_blocks: Vec<BasicBlockData>,
    pub function_coverage_info: Option<FunctionCoverageInfo>,
}

/// A terminator kind as a plain value.
#[allow(inconsistent_fields)]
pub enum TerminatorKindView {
    Goto { target: usize },
    SwitchInt { targets: Seq<usize> },
    Call { target: Option<usize> },
    Return,
    Unreachable,
}

impl TerminatorKindView {
    /// The blocks that control may pass to, one entry per successor slot.
    pub open spec fn successors(self) -> Seq<usize> {
        match self {
            TerminatorKindView::Goto { target } => seq![target],
            TerminatorKindView::SwitchInt { targets } => targets,
            TerminatorKindView::Call { target } => match target {
                Some(t) => seq![t],
                None => seq![],
            },
            TerminatorKindView::Return => seq![],
            TerminatorKindView::Unreachable => seq![],
        }
    }

    /// The same kind with successor slot `slot` leading to `to`.
    pub open spec fn redirect(self, slot: int, to: usize) -> TerminatorKindView {
        match self {
            TerminatorKindView::Goto { target } => TerminatorKindView::Goto { target: to },
            TerminatorKindView::SwitchInt { targets } => TerminatorKindView::SwitchInt {
                targets: targets.update(slot, to),
            },
            TerminatorKindView::Call { target } => TerminatorKindView::Call { target: Some(to) },
            TerminatorKindView::Return => self,
            TerminatorKindView::Unreachable => self,
        }
    }
}

impl View for TerminatorKind {
    type V = TerminatorKindView;

    open spec fn view(&self) -> TerminatorKindView {
        match self {
            TerminatorKind::Goto { target } => TerminatorKindView::Goto { target: *target },
            TerminatorKind::SwitchInt { targets } => TerminatorKindView::SwitchInt {
                targets: targets@,
            },
            TerminatorKind::Call { target } => TerminatorKindView::Call { target: *target },
            TerminatorKind::Return => TerminatorKindView::Return,
            TerminatorKind::Unreachable => TerminatorKindView::Unreachable,
        }
    }
}

/// A block as a plain value.
pub struct BlockView {
    pub statements: Seq<Statement>,
    pub source_info: SourceInfo,
    pub kind: TerminatorKindView,
    pub is_cleanup: bool,
}

impl View for BasicBlockData {
    type V = BlockView;

    open spec fn view(&self) -> BlockView {
        BlockView {
            statements: self.statements@,
            source_info: self.terminator.source_info,
            kind: self.terminator.kind@,
            is_cleanup: self.is_cleanup,
        }
    }
}

/// The coverage information of a function as a plain value.
pub struct FunctionCoverageInfoView {
    pub function_source_hash: u64,
    pub num_counters: usize,
    pub expressions: Seq<Expression>,
    pub mappings: Seq<Mapping>,
}

impl View for FunctionCoverageInfo {
    type V = FunctionCoverageInfoView;

    open spec fn view(&self) -> FunctionCoverageInfoView {
        FunctionCoverageInfoView {
            function_source_hash: self.function_source_hash,
            num_counters: self.num_counters,
            expressions: self.expressions@,
            mappings: self.mappings@,
        }
    }
}

/// A body as a plain value.
pub struct BodyView {
    pub blocks: Seq<BlockView>,
    pub function_coverage_info: Option<FunctionCoverageInfoView>,
}

impl View for Body {
    type V = BodyView;

    open spec fn view(&self) -> BodyView {
        BodyView {
            blocks: Seq::new(self.basic_blocks@.len(), |b: int| self.basic_blocks@[b]@),
            function_coverage_info: match self.function_coverage_info {
                Some(info) => Some(info@),
                None => None,
            },
        }
    }
}

/// The successor slots of every block: the shape of the graph.
pub open spec fn cfg_of(blocks: Seq<BlockView>) -> Seq<Seq<usize>> {
    Seq::new(blocks.len(), |b: int| blocks[b].kind.successors())
}

impl TerminatorKind {
    /// The blocks that control may pass to, one entry per successor slot.
    pub open spec fn successor_seq(&self) -> Seq<usize> {
        self@.successors()
    }

    /// The number of successor slots.
    pub fn num_successors(&self) -> (n: usize)
        ensures
            n == self.successor_seq().len(),
    {
        match self {
            TerminatorKind::Goto { .. } => 1,
            TerminatorKind::SwitchInt { targets } => targets.len(),
            TerminatorKind::Call { target } => match target {
                Some(_) => 1,
                None => 0,
            },
            TerminatorKind::Return => 0,
            TerminatorKind::Unreachable => 0,
        }
    }

    /// The block in successor slot `slot`.
    pub fn successor(&self, slot: usize) -> (b: usize)
        requires
            slot < self.successor_seq().len(),
        ensures
            b == self.successor_seq()[slot as int],
    {
        match self {
            TerminatorKind::Goto { target } => *target,
            TerminatorKind::SwitchInt { targets } => targets[slot],
            TerminatorKind::Call { target } => match target {
                Some(t) => *t,
                None => 0,
            },
            TerminatorKind::Return => 0,
            TerminatorKind::Unreachable => 0,
        }
    }
}

impl Body {
    /// The successor slots of every block: the shape of the graph.
    pub open spec fn cfg(&self) -> Seq<Seq<usize>> {
        cfg_of(self@.blocks)
    }

    /// A body has a start block, and its terminators name blocks of the body.
    pub open spec fn well_formed(&self) -> bool {
        cfg_well_formed(self.cfg())
    }

    /// Tests whether the body is well formed.
    pub fn is_well_formed(&self) -> (r: bool)
        ensures
            r == self.well_formed(),
    {
        let n = self.basic_blocks.len();
        if n == 0 {
            return false;
        }
        let mut b: usize = 0;
        while b < n
            invariant
                n == self.basic_blocks@.len(),
                b <= n,
                forall|a: int, s: int|
                    0 <= a < b && 0 <= s < self.cfg()[a].len() ==> #[trigger] self.cfg()[a][s] < n,
            decreases n - b,
        {
            let kind = &self.basic_blocks[b].terminator.kind;
            let count = kind.num_successors();
            let mut s: usize = 0;
            while s < count
                invariant
                    n == self.basic_blocks@.len(),
                    b < n,
                    s <= count,
                    count == self.cfg()[b as int].len(),
                    *kind == self.basic_blocks@[b as int].terminator.kind,
                    forall|t: int| 0 <= t < s ==> #[trigger] self.cfg()[b as int][t] < n,
                decreases count - s,
            {
                if kind.successor(s) >= n {
                    return false;
                }
                s = s + 1;
            }
            b = b + 1;
        }
        true
    }
}

/// A graph with at least one block whose successor slots all name blocks of
/// the graph.
pub open spec fn cfg_well_formed(cfg: Seq<Seq<usize>>) -> bool {
    &&& cfg.len() > 0
    &&& forall|a: int, s: int| 0 <= a < cfg.len() && 0 <= s < cfg[a].len() ==> #[trigger] cfg[a][s]
        < cfg.len()
}

} // verus!
