//! The schema: object and scalar types, a global append-only field
//! table, and the name table resolving textual type references. Built
//! once by declaration processing, then read-only during merging.

use vstd::prelude::*;
use crate::DefinedField;
use crate::lang::{Selection, Unwrap, VariableDefinition};
use crate::string_map::StringMap;

verus! {

/// A resolved type reference: an object or a scalar, by dense index.
#[derive(Debug, Clone, Copy, PartialEq, Eq)]
pub enum TypeId {
    Object(usize),
    Scalar(usize),
}

#[derive(Debug)]
pub struct ScalarType {
    pub id: usize,
    pub name: String,
}

/// An object type. `encountered_field_names` enforces a single flat
/// namespace across server and resolver fields; `fields` and `resolvers`
/// hold ids into the schema's global field table.
pub struct ObjectType {
    pub id: usize,
    pub name: String,
    pub encountered_field_names: StringMap<DefinedField<(), String>>,
    pub fields: Vec<usize>,
    pub resolvers: Vec<usize>,
    pub id_field: Option<usize>,
}

/// The classification of a resolver field, decided once from its
/// declaration's directives. `RefetchField` is never produced by
/// directive classification; it marks resolvers whose encounter during
/// merging enqueues a refetch artifact.
#[derive(Debug, Clone, Copy, PartialEq, Eq, Structural)]
pub enum ResolverVariant {
    Component,
    Eager,
    RefetchField,
}

impl ResolverVariant {
    /// The variant's display name.
    pub fn display_name(&self) -> (r: String)
        ensures
            *self is Component ==> r@ == "Component"@,
            *self is Eager ==> r@ == "Eager"@,
            *self is RefetchField ==> r@ == "RefetchField"@,
    {
        match self {
            ResolverVariant::Component => String::from_str("Component"),
            ResolverVariant::Eager => String::from_str("Eager"),
            ResolverVariant::RefetchField => String::from_str("RefetchField"),
        }
    }
}

/// Everything a resolver field owns: created once by declaration
/// processing, never mutated afterwards.
pub struct ResolverDefinitionInfo {
    pub resolver_definition_path: String,
    pub selection_set_and_unwraps: Option<(Vec<Selection>, Vec<Unwrap>)>,
    pub field_id: usize,
    pub variant: Option<ResolverVariant>,
    pub is_fetchable: bool,
    pub variable_definitions: Vec<VariableDefinition>,
    /// Synthetic key `"{parent_type_name}__{resolver_field_name}"`.
    pub type_and_field: String,
    pub has_associated_js_function: bool,
}

/// One record of the global field table. The server-field payload is
/// opaque to this crate: a server field is resolved by the host schema.
pub struct SchemaField {
    pub description: Option<String>,
    pub name: String,
    pub id: usize,
    pub field_type: DefinedField<(), ResolverDefinitionInfo>,
    pub parent_type_id: usize,
}

pub struct SchemaData {
    pub objects: Vec<ObjectType>,
    pub scalars: Vec<ScalarType>,
    pub defined_types: StringMap<TypeId>,
}

pub struct Schema {
    pub fields: Vec<SchemaField>,
    pub schema_data: SchemaData,
}

impl ObjectType {
    /// Ids are in range, the name table is well-formed, and every entry
    /// of `resolvers` indexes a resolver field of the global table.
    pub open spec fn wf(self, fields: Seq<SchemaField>) -> bool {
        &&& self.encountered_field_names.wf()
        &&& forall|i: int| 0 <= i < self.fields@.len() ==> (#[trigger] self.fields@[i]) < fields.len()
        &&& forall|i: int|
            0 <= i < self.resolvers@.len()
                ==> (#[trigger] self.resolvers@[i]) < fields.len()
                    && fields[self.resolvers@[i] as int].field_type is ResolverField
                    && fields[self.resolvers@[i] as int].parent_type_id == self.id
        &&& match self.id_field {
            Some(f) => f < fields.len(),
            None => true,
        }
    }
}

impl Schema {
    pub open spec fn objects(self) -> Seq<ObjectType> {
        self.schema_data.objects@
    }

    pub open spec fn scalars(self) -> Seq<ScalarType> {
        self.schema_data.scalars@
    }

    /// Schema well-formedness: dense ids, a well-formed type-name table
    /// whose targets are in range, and well-formed objects.
    pub open spec fn wf(self) -> bool {
        &&& self.schema_data.defined_types.wf()
        &&& forall|i: int| 0 <= i < self.objects().len() ==> (#[trigger] self.objects()[i].id) == i
        &&& forall|i: int| 0 <= i < self.scalars().len() ==> (#[trigger] self.scalars()[i].id) == i
        &&& forall|i: int| 0 <= i < self.fields@.len() ==> (#[trigger] self.fields@[i].id) == i
        &&& forall|n: Seq<char>|
            self.schema_data.defined_types@.contains_key(n)
                ==> match #[trigger] self.schema_data.defined_types@[n] {
                    TypeId::Object(oid) => oid < self.objects().len(),
                    TypeId::Scalar(sid) => sid < self.scalars().len(),
                }
        &&& forall|i: int|
            0 <= i < self.objects().len() ==> (#[trigger] self.objects()[i]).wf(self.fields@)
    }

    /// The object with the given id.
    pub fn object(&self, object_id: usize) -> (r: &ObjectType)
        requires
            object_id < self.objects().len(),
        ensures
            *r == self.objects()[object_id as int],
    {
        &self.schema_data.objects[object_id]
    }

    /// The resolver definition of a resolver field of the global table.
    pub fn resolver(&self, field_id: usize) -> (r: &ResolverDefinitionInfo)
        requires
            field_id < self.fields@.len(),
            self.fields@[field_id as int].field_type is ResolverField,
        ensures
            self.fields@[field_id as int].field_type == DefinedField::<(), ResolverDefinitionInfo>::ResolverField(*r),
    {
        match &self.fields[field_id].field_type {
            DefinedField::ResolverField(info) => info,
            DefinedField::ServerField(_) => {
                proof {
                    assert(false);
                }
                unreached()
            },
        }
    }

    /// The field record acting as a type's identity field.
    pub fn id_field(&self, field_id: usize) -> (r: &SchemaField)
        requires
            field_id < self.fields@.len(),
        ensures
            *r == self.fields@[field_id as int],
    {
        &self.fields[field_id]
    }
}

} // verus!
