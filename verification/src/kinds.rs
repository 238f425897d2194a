//! The closed vocabularies of the resolver: declaration kinds, raw
//! reference hints, final semantic tags, and structural errors.

use vstd::prelude::*;
use crate::span::Span;

verus! {

/// The declared kind of a definition candidate, as tagged by the
/// upstream query layer.
#[derive(Clone, Copy, PartialEq, Eq, Structural, Debug)]
pub enum BindKind {
    Variable,
    Parameter,
    SelfParam,
    Field,
    Function,
    Type,
    Trait,
    Const,
}

/// The raw syntactic position of a reference candidate.
#[derive(Clone, Copy, PartialEq, Eq, Structural, Debug)]
pub enum RefHint {
    /// A bare identifier in expression position, a read or an
    /// assignment target alike.
    Bare,
    /// The identifier after `.` in a field or method access. It never
    /// takes part in lexical-scope lookup.
    FieldRhs,
    /// The target of a call.
    CallTarget,
    /// An identifier in type position.
    TypePos,
}

/// The final semantic tag of one classified span.
#[derive(Clone, Copy, PartialEq, Eq, Structural, Debug)]
pub enum Tag {
    Variable,
    Parameter,
    SelfVar,
    Function,
    Type,
    Trait,
    Const,
    Field,
    /// No lexical binding: expected to resolve in an external namespace,
    /// a global function table or the like.
    FreeReference,
    /// Part of the closed tag vocabulary for downstream reporting; the
    /// resolver itself reports a missing lexical binding as
    /// `FreeReference`.
    Unresolved,
}

/// The final tag a definition of the given kind receives.
pub open spec fn tag_of_kind(k: BindKind) -> Tag {
    match k {
        BindKind::Variable => Tag::Variable,
        BindKind::Parameter => Tag::Parameter,
        BindKind::SelfParam => Tag::SelfVar,
        BindKind::Field => Tag::Field,
        BindKind::Function => Tag::Function,
        BindKind::Type => Tag::Type,
        BindKind::Trait => Tag::Trait,
        BindKind::Const => Tag::Const,
    }
}

pub fn kind_tag(k: BindKind) -> (t: Tag)
    ensures
        t == tag_of_kind(k),
{
    match k {
        BindKind::Variable => Tag::Variable,
        BindKind::Parameter => Tag::Parameter,
        BindKind::SelfParam => Tag::SelfVar,
        BindKind::Field => Tag::Field,
        BindKind::Function => Tag::Function,
        BindKind::Type => Tag::Type,
        BindKind::Trait => Tag::Trait,
        BindKind::Const => Tag::Const,
    }
}

/// The textual name of a final tag.
pub open spec fn tag_name(t: Tag) -> Seq<char> {
    match t {
        Tag::Variable => "variable"@,
        Tag::Parameter => "variable.parameter"@,
        Tag::SelfVar => "variable.self"@,
        Tag::Function => "function"@,
        Tag::Type => "type"@,
        Tag::Trait => "trait"@,
        Tag::Const => "const"@,
        Tag::Field => "field"@,
        Tag::FreeReference => "free-reference"@,
        Tag::Unresolved => "unresolved"@,
    }
}

impl Tag {
    /// The textual name of this tag.
    pub fn name(&self) -> (r: &'static str)
        ensures
            r@ == tag_name(*self),
    {
        match self {
            Tag::Variable => "variable",
            Tag::Parameter => "variable.parameter",
            Tag::SelfVar => "variable.self",
            Tag::Function => "function",
            Tag::Type => "type",
            Tag::Trait => "trait",
            Tag::Const => "const",
            Tag::Field => "field",
            Tag::FreeReference => "free-reference",
            Tag::Unresolved => "unresolved",
        }
    }
}

/// A structural fault in the resolver's input: the upstream layer handed
/// over something no well-formed syntax tree produces.
#[derive(Clone, Copy, PartialEq, Eq, Structural, Debug)]
pub enum StructError {
    /// A span that ends before it starts.
    MalformedSpan(Span),
    /// Two scope spans that overlap without nesting.
    OverlappingScopes(Span, Span),
    /// A candidate span that lies outside the root scope.
    OutsideRoot(Span),
}

} // verus!
