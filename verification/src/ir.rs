//! The intermediate representation: statements in the order in which they run, each followed
//! by its continuation.
use crate::layout::InLayout;
use crate::symbol::{IdentId, Symbol};
use vstd::prelude::*;

verus! {

/// How a call may update its arguments. Calls, resets and reuses carry one.
#[derive(Clone, Copy, Debug, PartialEq, Eq)]
pub struct UpdateModeId(pub u32);

/// The supply of update modes.
#[derive(Clone, Copy, Debug, PartialEq, Eq)]
pub struct UpdateModeIds {
    pub next: u32,
}

/// A point that jumps go to.
#[derive(Clone, Copy, Debug, PartialEq, Eq)]
pub struct JoinPointId(pub Symbol);

/// A type variable.
#[derive(Clone, Copy, Debug, PartialEq, Eq)]
pub struct Variable(pub u32);

/// A piece of the source text.
#[derive(Clone, Copy, Debug, PartialEq, Eq)]
pub struct Region {
    pub start: u32,
    pub end: u32,
}

/// Who asked for a crash.
#[derive(Clone, Copy, Debug, PartialEq, Eq)]
pub enum CrashTag {
    Roc,
    User,
}

/// Who drops the argument of a parameter.
#[derive(Clone, Copy, Debug, PartialEq, Eq)]
pub enum Ownership {
    Owned,
    Borrowed,
}

/// A parameter of a join point.
#[derive(Clone, Copy, Debug, PartialEq, Eq)]
pub struct Param {
    pub symbol: Symbol,
    pub ownership: Ownership,
    pub layout: InLayout,
}

/// A constant. Numbers are given by their bits.
#[derive(Clone, Copy, Debug, PartialEq, Eq)]
pub enum Literal<'a> {
    Int([u8; 16]),
    U128([u8; 16]),
    Float(u64),
    Decimal([u8; 16]),
    Str(&'a str),
    Bool(bool),
    Byte(u8),
}

/// An element of an array literal.
#[derive(Clone, Copy, Debug, PartialEq, Eq)]
pub enum ListLiteralElement<'a> {
    Literal(Literal<'a>),
    Symbol(Symbol),
}

/// What is called.
#[derive(Clone, Copy, Debug, PartialEq, Eq)]
pub enum CallType<'a> {
    ByName { name: Symbol, ret_layout: InLayout, arg_layouts: &'a [InLayout] },
    Foreign { foreign_symbol: IdentId, ret_layout: InLayout },
    LowLevel { op: u16, update_mode: UpdateModeId },
    HigherOrder { op: u16, passed_function: Symbol },
}

#[derive(Clone, Copy, Debug, PartialEq, Eq)]
pub struct Call<'a> {
    pub call_type: CallType<'a>,
    pub arguments: &'a [Symbol],
}

/// What a binding binds its symbol to.
#[derive(Clone, Copy, Debug, PartialEq, Eq)]
pub enum Expr<'a> {
    Literal(Literal<'a>),
    Call(Call<'a>),
    Tag { tag_layout: InLayout, tag_id: u16, arguments: &'a [Symbol] },
    Struct(&'a [Symbol]),
    NullPointer,
    StructAtIndex { index: u64, field_layouts: &'a [InLayout], structure: Symbol },
    GetTagId { structure: Symbol, union_layout: InLayout },
    UnionAtIndex { structure: Symbol, tag_id: u16, union_layout: InLayout, index: u64 },
    Array { elem_layout: InLayout, elems: &'a [ListLiteralElement<'a>] },
    EmptyArray,
    ExprBox { symbol: Symbol },
    ExprUnbox { symbol: Symbol },
    Reuse {
        symbol: Symbol,
        update_tag_id: bool,
        update_mode: UpdateModeId,
        tag_layout: InLayout,
        tag_id: u16,
        arguments: &'a [Symbol],
    },
    Reset { symbol: Symbol, update_mode: UpdateModeId },
    ResetRef { symbol: Symbol, update_mode: UpdateModeId },
    RuntimeErrorFunction(&'a str),
}

/// A change of a reference count.
#[derive(Clone, Copy, Debug, PartialEq, Eq)]
pub enum ModifyRc {
    /// Adds to the count of the symbol.
    Inc(Symbol, u64),
    /// Takes one from the count of the symbol. At zero the value is freed and what it holds is
    /// decremented in turn.
    Dec(Symbol),
    /// Takes one from the count of the symbol. At zero the value is freed and what it holds is
    /// left alone.
    DecRef(Symbol),
}

/// What is known in a branch.
#[derive(Clone, Copy, Debug, PartialEq, Eq)]
pub enum BranchInfo {
    Nothing,
    Constructor { scrutinee: Symbol, layout: InLayout, tag_id: u16 },
}

/// The labelled branches of a switch, in order.
#[derive(Clone, Copy, Debug, PartialEq, Eq)]
pub enum Branches<'a> {
    Nil,
    Cons { label: u64, info: BranchInfo, branch: &'a Stmt<'a>, rest: &'a Branches<'a> },
}

/// A statement.
#[derive(Clone, Copy, Debug, PartialEq, Eq)]
pub enum Stmt<'a> {
    Let(Symbol, Expr<'a>, InLayout, &'a Stmt<'a>),
    Switch {
        cond_symbol: Symbol,
        cond_layout: InLayout,
        branches: &'a Branches<'a>,
        default_branch: (BranchInfo, &'a Stmt<'a>),
        ret_layout: InLayout,
    },
    Ret(Symbol),
    Refcounting(ModifyRc, &'a Stmt<'a>),
    Expect {
        condition: Symbol,
        region: Region,
        lookups: &'a [Symbol],
        variables: &'a [Variable],
        remainder: &'a Stmt<'a>,
    },
    ExpectFx {
        condition: Symbol,
        region: Region,
        lookups: &'a [Symbol],
        variables: &'a [Variable],
        remainder: &'a Stmt<'a>,
    },
    Dbg { symbol: Symbol, variable: Variable, remainder: &'a Stmt<'a> },
    Join {
        id: JoinPointId,
        parameters: &'a [Param],
        body: &'a Stmt<'a>,
        remainder: &'a Stmt<'a>,
    },
    Jump(JoinPointId, &'a [Symbol]),
    Crash(Symbol, CrashTag),
}

/// The layouts that a procedure is specialised to.
#[derive(Clone, Copy, Debug, PartialEq, Eq)]
pub struct ProcLayout<'a> {
    pub arguments: &'a [InLayout],
    pub result: InLayout,
}

/// A procedure.
#[derive(Clone, Copy, Debug, PartialEq, Eq)]
pub struct Proc<'a> {
    pub name: Symbol,
    pub args: &'a [(InLayout, Symbol)],
    pub body: Stmt<'a>,
    pub closure_data_layout: Option<InLayout>,
    pub ret_layout: InLayout,
    pub is_self_recursive: bool,
}

} // verus!
