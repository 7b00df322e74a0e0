//! The grammar engine and scope stack of `syntect`, as seen by the verified code.
use syntect::parsing::{
    ClearAmount, ParseState, ParsingError, Scope, ScopeStack, ScopeStackOp, SyntaxSet,
};
use vstd::prelude::*;

verus! {

#[verifier::external_type_specification]
#[verifier::external_body]
pub struct ExScope(Scope);

#[verifier::external_type_specification]
#[verifier::external_body]
pub struct ExScopeStack(ScopeStack);

#[verifier::external_type_specification]
pub struct ExClearAmount(ClearAmount);

#[verifier::external_type_specification]
pub struct ExScopeStackOp(ScopeStackOp);

#[verifier::external_type_specification]
#[verifier::external_body]
pub struct ExParseState(ParseState);

#[verifier::external_type_specification]
#[verifier::external_body]
pub struct ExSyntaxSet(SyntaxSet);

#[verifier::external_type_specification]
#[verifier::external_body]
pub struct ExParsingError(ParsingError);

/// The syntaxes that syntect ships, loaded for lines that keep their `\n`.
/// Only syntect's own loader fills it, so every syntax in it has the start
/// context that parsing begins in, and a parser state made from one of them
/// is only used with this set.
pub struct Syntaxes {
    pub(crate) set: SyntaxSet,
}

impl Syntaxes {
    /// Loads the syntaxes bundled with syntect.
    pub fn load_defaults() -> (r: Syntaxes) {
        Syntaxes { set: load_default_set() }
    }

    /// Whether one of the syntaxes claims the file extension `ext`.
    pub open(crate) spec fn has_syntax(&self, ext: Seq<char>) -> bool {
        claims_extension(self.set, ext)
    }
}

/// Relies on `SyntaxSet::load_defaults_newlines`: the syntaxes bundled with
/// syntect, each loaded from its definition with a start context.
#[verifier::external_body]
fn load_default_set() -> (r: SyntaxSet) {
    SyntaxSet::load_defaults_newlines()
}

/// Whether a syntax of `set` claims the file extension `ext`.
pub uninterp spec fn claims_extension(set: SyntaxSet, ext: Seq<char>) -> bool;

/// The scopes of a stack, deepest last.
pub uninterp spec fn scopes_of(s: ScopeStack) -> Seq<Scope>;

/// The groups of scopes that `Clear` changes took off a stack and that a
/// `Restore` puts back, the latest last.
pub uninterp spec fn cleared_of(s: ScopeStack) -> Seq<Seq<Scope>>;

/// The mathematical value of a scope stack.
pub struct StackView {
    pub scopes: Seq<Scope>,
    pub cleared: Seq<Seq<Scope>>,
}

pub open spec fn stack_view(s: ScopeStack) -> StackView {
    StackView { scopes: scopes_of(s), cleared: cleared_of(s) }
}

/// A stack with no scope and nothing cleared.
pub open spec fn empty_view() -> StackView {
    StackView { scopes: Seq::empty(), cleared: Seq::empty() }
}

/// The deepest scope of a stack, if it holds any.
pub open spec fn top_of(v: StackView) -> Option<Scope> {
    if v.scopes.len() == 0 {
        None
    } else {
        Some(v.scopes.last())
    }
}

/// `s` without its top `n` scopes, or empty when it holds fewer.
pub open spec fn keep_bottom(s: Seq<Scope>, n: int) -> Seq<Scope> {
    if n < s.len() {
        s.subrange(0, s.len() - n)
    } else {
        Seq::empty()
    }
}

/// What one scope change does to a stack.
pub open spec fn apply_op(v: StackView, op: ScopeStackOp) -> StackView {
    match op {
        ScopeStackOp::Push(s) => StackView { scopes: v.scopes.push(s), cleared: v.cleared },
        ScopeStackOp::Pop(n) => StackView { scopes: keep_bottom(v.scopes, n as int), cleared: v.cleared },
        ScopeStackOp::Clear(ClearAmount::TopN(n)) => {
            let kept = keep_bottom(v.scopes, n as int);
            StackView {
                scopes: kept,
                cleared: v.cleared.push(v.scopes.subrange(kept.len() as int, v.scopes.len() as int)),
            }
        },
        ScopeStackOp::Clear(ClearAmount::All) => StackView {
            scopes: Seq::empty(),
            cleared: v.cleared.push(v.scopes),
        },
        ScopeStackOp::Restore => if v.cleared.len() == 0 {
            v
        } else {
            StackView { scopes: v.scopes + v.cleared.last(), cleared: v.cleared.drop_last() }
        },
        ScopeStackOp::Noop => v,
    }
}

/// What a sequence of scope changes does to a stack, applied in order.
pub open spec fn apply_all(v: StackView, ops: Seq<ScopeStackOp>) -> StackView
    decreases ops.len(),
{
    if ops.len() == 0 {
        v
    } else {
        apply_op(apply_all(v, ops.drop_last()), ops.last())
    }
}

/// Relies on `ScopeStack::new`: a stack that holds no scope and has cleared
/// nothing.
#[verifier::external_body]
pub(crate) fn empty_stack() -> (r: ScopeStack)
    ensures
        scopes_of(r) == Seq::<Scope>::empty(),
        cleared_of(r) == Seq::<Seq<Scope>>::empty(),
{
    ScopeStack::new()
}

/// Relies on `ScopeStack::apply`, which changes the stack as `apply_op` says.
/// A `Restore` with nothing cleared leaves the stack as it is and reports an
/// error, which carries nothing the caller acts on.
#[verifier::external_body]
pub(crate) fn apply_change(stack: &mut ScopeStack, op: &ScopeStackOp)
    ensures
        stack_view(*final(stack)) == apply_op(stack_view(*old(stack)), *op),
{
    let _ = stack.apply(op);
}

/// Relies on `ScopeStack::as_slice`: its last element is the deepest scope.
#[verifier::external_body]
pub(crate) fn deepest_scope(stack: &ScopeStack) -> (r: Option<Scope>)
    ensures
        r == top_of(stack_view(*stack)),
{
    stack.as_slice().last().copied()
}

/// Relies on `SyntaxSet::find_syntax_by_extension` and `ParseState::new`: the
/// parser state at the start of a document, for the syntax that claims the
/// file extension, if one does. The syntax comes from a set that syntect's
/// loader built, so it has the start context that `ParseState::new` reads.
#[verifier::external_body]
pub(crate) fn start_parse(syntaxes: &Syntaxes, extension: &str) -> (r: Option<ParseState>)
    ensures
        r is Some <==> claims_extension(syntaxes.set, extension@),
{
    syntaxes.set.find_syntax_by_extension(extension).map(ParseState::new)
}

/// Relies on `ParseState::parse_line`: the scope changes of one line, each
/// with the byte offset where it applies, with the set that holds the syntax
/// the state was made from. Which changes come depends on the lines parsed
/// before, so nothing is stated of them.
#[verifier::external_body]
pub(crate) fn parse_line_changes(
    state: &mut ParseState,
    line: &str,
    syntaxes: &Syntaxes,
) -> (r: Result<Vec<(usize, ScopeStackOp)>, ParsingError>) {
    state.parse_line(line, &syntaxes.set)
}

} // verus!
