//! The validated selection-language syntax trees that the merge engine
//! consumes, and their mathematical models. Field references have already
//! been resolved by an external validation pass: a linked field carries
//! the object id of its target type, and a scalar field records whether
//! it names a server field or a resolver field.

use vstd::prelude::*;
use crate::DefinedField;

verus! {

/// One argument of a field selection. The value is the parser's rendering
/// of the argument value, such as `"$first"` for a variable reference; it
/// is always at least one character long.
#[derive(Debug, Clone, PartialEq, Eq)]
pub struct SelectionFieldArgument {
    pub name: String,
    pub value: String,
}

/// A validated selection: a scalar field (server- or resolver-backed) or
/// a linked field with its own nested selection set.
#[derive(Debug, PartialEq, Eq)]
pub enum Selection {
    ScalarField(ScalarFieldSelection),
    LinkedField(LinkedFieldSelection),
}

#[derive(Debug, PartialEq, Eq)]
pub struct ScalarFieldSelection {
    pub name: String,
    pub normalization_alias: Option<String>,
    /// Which kind of field the name resolved to.
    pub associated_data: DefinedField<(), ()>,
    pub arguments: Vec<SelectionFieldArgument>,
}

#[derive(Debug, PartialEq, Eq)]
pub struct LinkedFieldSelection {
    pub name: String,
    pub normalization_alias: Option<String>,
    /// The object id of the type this field links to.
    pub associated_data: usize,
    pub selection_set: Vec<Selection>,
    pub arguments: Vec<SelectionFieldArgument>,
}

/// A variable declared by a resolver declaration, carried through merging
/// unread.
#[derive(Debug, Clone, PartialEq, Eq)]
pub struct VariableDefinition {
    pub name: String,
    pub declared_type: String,
}

/// An unwrap operator applied to a resolver's selection set; carried
/// through declaration processing unread.
#[derive(Debug, Clone, PartialEq, Eq)]
pub struct Unwrap {
}

/// One directive attached to a resolver declaration, such as `@eager`.
#[derive(Debug, Clone, PartialEq, Eq)]
pub struct FragmentDirectiveUsage {
    pub name: String,
}

/// A parsed resolver declaration, as handed over by the external parser.
#[derive(Debug, PartialEq, Eq)]
pub struct ResolverDeclaration {
    pub parent_type: String,
    pub resolver_field_name: String,
    pub description: Option<String>,
    pub resolver_definition_path: String,
    pub selection_set_and_unwraps: Option<(Vec<Selection>, Vec<Unwrap>)>,
    pub directives: Vec<FragmentDirectiveUsage>,
    pub variable_definitions: Vec<VariableDefinition>,
    pub has_associated_js_function: bool,
}

/// Model of an argument list: each argument as (name, value) contents.
pub open spec fn args_view(args: Seq<SelectionFieldArgument>) -> Seq<(Seq<char>, Seq<char>)> {
    args.map(|i: int, a: SelectionFieldArgument| (a.name@, a.value@))
}

/// Every argument value is non-empty (the parser always emits at least a
/// sigil character).
pub open spec fn args_wf(args: Seq<SelectionFieldArgument>) -> bool {
    forall|i: int| 0 <= i < args.len() ==> #[trigger] args[i].value@.len() > 0
}

/// Structural height of a selection, for termination of recursion over
/// nested selection sets.
pub open spec fn sel_height(s: Selection) -> nat
    decreases s,
{
    match s {
        Selection::ScalarField(_) => 0,
        Selection::LinkedField(l) => 1 + sels_height(l.selection_set@),
    }
}

pub open spec fn sels_height(ss: Seq<Selection>) -> nat
    decreases ss,
{
    if ss.len() == 0 {
        0
    } else {
        let h0 = sel_height(ss.last());
        let h1 = sels_height(ss.drop_last());
        if h0 > h1 {
            h0
        } else {
            h1
        }
    }
}

pub proof fn lemma_sels_height_index(ss: Seq<Selection>, i: int)
    requires
        0 <= i < ss.len(),
    ensures
        sel_height(ss[i]) <= sels_height(ss),
    decreases ss.len(),
{
    if i < ss.len() - 1 {
        assert(ss.drop_last()[i] == ss[i]);
        lemma_sels_height_index(ss.drop_last(), i);
    }
}

} // verus!
