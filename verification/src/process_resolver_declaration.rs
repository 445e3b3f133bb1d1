//! Resolver declaration processing: validates a parsed resolver
//! declaration against the schema and, on success, installs a new
//! resolver field into the schema's global field table.

use vstd::prelude::*;
use crate::DefinedField;
use crate::lang::{FragmentDirectiveUsage, ResolverDeclaration};
use crate::schema::{ResolverDefinitionInfo, ResolverVariant, Schema, SchemaField, TypeId};

verus! {

/// The typed, user-correctable errors of declaration processing.
#[derive(Debug, Clone, PartialEq, Eq)]
pub enum ProcessResolverDeclarationError {
    MissingParent { parent_type_name: String },
    InvalidParentType { parent_type: String, parent_type_name: String },
    ParentAlreadyHasField { parent_type: String, parent_type_name: String, resolver_field_name: String },
    ComponentResolverMissingJsFunction {},
}

/// The first-match directive classification: the first directive named
/// `eager` or `component` decides; later directives are ignored.
pub open spec fn spec_resolver_variant(dirs: Seq<FragmentDirectiveUsage>) -> Option<ResolverVariant>
    decreases dirs.len(),
{
    if dirs.len() == 0 {
        None
    } else if dirs[0].name@ == "eager"@ {
        Some(ResolverVariant::Eager)
    } else if dirs[0].name@ == "component"@ {
        Some(ResolverVariant::Component)
    } else {
        spec_resolver_variant(dirs.drop_first())
    }
}

/// A declaration is fetchable when any directive is named `fetchable`.
pub open spec fn spec_is_fetchable(dirs: Seq<FragmentDirectiveUsage>) -> bool {
    exists|i: int| 0 <= i < dirs.len() && (#[trigger] dirs[i].name)@ == "fetchable"@
}

/// What processing a declaration against a schema must do, decided
/// purely from the schema and the declaration.
pub enum DeclOutcome {
    Accepted,
    MissingParent,
    InvalidParentType { scalar_name: Seq<char> },
    ParentAlreadyHasField { object_name: Seq<char> },
    ComponentResolverMissingJsFunction,
}

/// The outcome of a declaration whose parent resolved to object `oid`.
pub open spec fn object_decl_outcome(s: Schema, d: ResolverDeclaration, oid: int) -> DeclOutcome {
    if s.objects()[oid].encountered_field_names@.contains_key(d.resolver_field_name@) {
        DeclOutcome::ParentAlreadyHasField { object_name: s.objects()[oid].name@ }
    } else if spec_resolver_variant(d.directives@) == Some(ResolverVariant::Component)
        && !d.has_associated_js_function {
        DeclOutcome::ComponentResolverMissingJsFunction
    } else {
        DeclOutcome::Accepted
    }
}

pub open spec fn decl_outcome(s: Schema, d: ResolverDeclaration) -> DeclOutcome {
    if !s.schema_data.defined_types@.contains_key(d.parent_type@) {
        DeclOutcome::MissingParent
    } else {
        match s.schema_data.defined_types@[d.parent_type@] {
            TypeId::Scalar(sid) => DeclOutcome::InvalidParentType {
                scalar_name: s.scalars()[sid as int].name@,
            },
            TypeId::Object(oid) => object_decl_outcome(s, d, oid as int),
        }
    }
}

/// The resolver definition record created for an accepted declaration.
pub open spec fn resolver_info_matches(
    info: ResolverDefinitionInfo,
    s0: Schema,
    d: ResolverDeclaration,
    oid: int,
    fid: int,
) -> bool {
    &&& info.resolver_definition_path == d.resolver_definition_path
    &&& info.selection_set_and_unwraps == d.selection_set_and_unwraps
    &&& info.field_id == fid
    &&& info.variant == spec_resolver_variant(d.directives@)
    &&& info.is_fetchable == spec_is_fetchable(d.directives@)
    &&& info.variable_definitions == d.variable_definitions
    &&& info.type_and_field@ == s0.objects()[oid].name@ + "__"@ + d.resolver_field_name@
    &&& info.has_associated_js_function == d.has_associated_js_function
}

/// The field record appended for an accepted declaration.
pub open spec fn new_field_matches(
    f: SchemaField,
    s0: Schema,
    d: ResolverDeclaration,
    oid: int,
    fid: int,
) -> bool {
    &&& f.description == d.description
    &&& f.name@ == d.resolver_field_name@
    &&& f.id == fid
    &&& f.parent_type_id == oid
    &&& f.field_type matches DefinedField::ResolverField(info)
        && resolver_info_matches(info, s0, d, oid, fid)
}

/// How an accepted declaration changes the schema: one field appended to
/// the global table, the parent object extended, everything else as it
/// was. The new field's id equals the table's length before the call.
pub open spec fn accepted_schema_at(s0: Schema, s1: Schema, d: ResolverDeclaration, oid: int) -> bool {
    let fid = s0.fields@.len() as int;
    let o0 = s0.objects()[oid];
    let o1 = s1.objects()[oid];
    &&& s1.fields@.len() == fid + 1
    &&& forall|i: int| 0 <= i < fid ==> s1.fields@[i] == s0.fields@[i]
    &&& new_field_matches(s1.fields@[fid], s0, d, oid, fid)
    &&& s1.schema_data.scalars@ == s0.schema_data.scalars@
    &&& s1.schema_data.defined_types@ == s0.schema_data.defined_types@
    &&& s1.objects().len() == s0.objects().len()
    &&& forall|j: int| 0 <= j < s0.objects().len() && j != oid ==> s1.objects()[j] == s0.objects()[j]
    &&& o1.id == o0.id
    &&& o1.name == o0.name
    &&& o1.id_field == o0.id_field
    &&& o1.fields@ == o0.fields@.push(fid as usize)
    &&& o1.resolvers@ == o0.resolvers@.push(fid as usize)
    &&& exists|v: String|
        o1.encountered_field_names@ == o0.encountered_field_names@.insert(
            d.resolver_field_name@,
            DefinedField::ResolverField(v),
        ) && (#[trigger] v@) == d.resolver_field_name@
}

/// First directive named `eager` or `component` wins; no error is raised
/// for conflicting classifying directives.
fn get_resolver_variant(directives: &Vec<FragmentDirectiveUsage>) -> (r: Option<ResolverVariant>)
    ensures
        r == spec_resolver_variant(directives@),
{
    let eager = String::from_str("eager");
    let component = String::from_str("component");
    let n = directives.len();
    proof {
        assert(directives@.skip(0) =~= directives@);
    }
    let mut i: usize = 0;
    while i < n
        invariant
            i <= n,
            n == directives@.len(),
            eager@ == "eager"@,
            component@ == "component"@,
            spec_resolver_variant(directives@) == spec_resolver_variant(directives@.skip(i as int)),
        decreases n - i,
    {
        proof {
            assert(directives@.skip(i as int)[0] == directives@[i as int]);
        }
        if directives[i].name == eager {
            return Some(ResolverVariant::Eager);
        }
        if directives[i].name == component {
            return Some(ResolverVariant::Component);
        }
        proof {
            assert(directives@.skip(i as int).drop_first() =~= directives@.skip(i as int + 1));
        }
        i = i + 1;
    }
    proof {
        assert(directives@.skip(n as int).len() == 0);
    }
    None
}

fn is_fetchable(directives: &Vec<FragmentDirectiveUsage>) -> (r: bool)
    ensures
        r == spec_is_fetchable(directives@),
{
    let fetchable = String::from_str("fetchable");
    let n = directives.len();
    let mut i: usize = 0;
    while i < n
        invariant
            i <= n,
            n == directives@.len(),
            fetchable@ == "fetchable"@,
            forall|j: int| 0 <= j < i ==> (#[trigger] directives@[j].name)@ != "fetchable"@,
        decreases n - i,
    {
        if directives[i].name == fetchable {
            return true;
        }
        i = i + 1;
    }
    false
}

impl Schema {
    /// Validates and installs one resolver declaration. The outcome —
    /// acceptance or one of the four typed errors — is a function of the
    /// schema and the declaration (`decl_outcome`); an error leaves the
    /// schema untouched.
    pub fn process_resolver_declaration(
        &mut self,
        resolver_declaration: ResolverDeclaration,
    ) -> (r: Result<(), ProcessResolverDeclarationError>)
        requires
            old(self).wf(),
        ensures
            final(self).wf(),
            match r {
                Ok(()) => {
                    &&& decl_outcome(*old(self), resolver_declaration) is Accepted
                    &&& old(self).schema_data.defined_types@[resolver_declaration.parent_type@]
                        matches TypeId::Object(oid)
                        && accepted_schema_at(*old(self), *final(self), resolver_declaration, oid as int)
                },
                Err(e) => {
                    &&& *final(self) == *old(self)
                    &&& match e {
                        ProcessResolverDeclarationError::MissingParent { parent_type_name } => {
                            &&& decl_outcome(*old(self), resolver_declaration) is MissingParent
                            &&& parent_type_name@ == resolver_declaration.parent_type@
                        },
                        ProcessResolverDeclarationError::InvalidParentType { parent_type, parent_type_name } => {
                            &&& decl_outcome(*old(self), resolver_declaration)
                                matches DeclOutcome::InvalidParentType { scalar_name }
                                && parent_type_name@ == scalar_name
                            &&& parent_type@ == "scalar"@
                        },
                        ProcessResolverDeclarationError::ParentAlreadyHasField { parent_type, parent_type_name, resolver_field_name } => {
                            &&& decl_outcome(*old(self), resolver_declaration)
                                matches DeclOutcome::ParentAlreadyHasField { object_name }
                                && parent_type_name@ == object_name
                            &&& parent_type@ == "object"@
                            &&& resolver_field_name@ == resolver_declaration.resolver_field_name@
                        },
                        ProcessResolverDeclarationError::ComponentResolverMissingJsFunction {} => {
                            decl_outcome(*old(self), resolver_declaration)
                                is ComponentResolverMissingJsFunction
                        },
                    }
                },
            },
    {
        let parent_type_id: Option<TypeId> =
            match self.schema_data.defined_types.get(&resolver_declaration.parent_type) {
                Some(t) => Some(*t),
                None => None,
            };
        match parent_type_id {
            Some(TypeId::Object(object_id)) => {
                self.add_resolver_field_to_object(object_id, resolver_declaration)
            },
            Some(TypeId::Scalar(scalar_id)) => {
                let scalar_name = self.schema_data.scalars[scalar_id].name.clone();
                Err(ProcessResolverDeclarationError::InvalidParentType {
                    parent_type: String::from_str("scalar"),
                    parent_type_name: scalar_name,
                })
            },
            None => Err(ProcessResolverDeclarationError::MissingParent {
                parent_type_name: resolver_declaration.parent_type,
            }),
        }
    }

    /// Installs a declaration whose parent resolved to the object with id
    /// `object_id`: enforces field-name uniqueness and the component
    /// rule, then appends the new resolver field.
    fn add_resolver_field_to_object(
        &mut self,
        object_id: usize,
        resolver_declaration: ResolverDeclaration,
    ) -> (r: Result<(), ProcessResolverDeclarationError>)
        requires
            old(self).wf(),
            object_id < old(self).objects().len(),
        ensures
            final(self).wf(),
            match r {
                Ok(()) => {
                    &&& object_decl_outcome(*old(self), resolver_declaration, object_id as int)
                        is Accepted
                    &&& accepted_schema_at(*old(self), *final(self), resolver_declaration, object_id as int)
                },
                Err(e) => {
                    &&& *final(self) == *old(self)
                    &&& match e {
                        ProcessResolverDeclarationError::ParentAlreadyHasField { parent_type, parent_type_name, resolver_field_name } => {
                            &&& object_decl_outcome(*old(self), resolver_declaration, object_id as int)
                                matches DeclOutcome::ParentAlreadyHasField { object_name }
                                && parent_type_name@ == object_name
                            &&& parent_type@ == "object"@
                            &&& resolver_field_name@ == resolver_declaration.resolver_field_name@
                        },
                        ProcessResolverDeclarationError::ComponentResolverMissingJsFunction {} => {
                            object_decl_outcome(*old(self), resolver_declaration, object_id as int)
                                is ComponentResolverMissingJsFunction
                        },
                        _ => false,
                    }
                },
            },
    {
        let name_taken = self
            .schema_data
            .objects[object_id]
            .encountered_field_names
            .contains_key(&resolver_declaration.resolver_field_name);
        if name_taken {
            let parent_type_name = self.schema_data.objects[object_id].name.clone();
            return Err(ProcessResolverDeclarationError::ParentAlreadyHasField {
                parent_type: String::from_str("object"),
                parent_type_name,
                resolver_field_name: resolver_declaration.resolver_field_name,
            });
        }

        let variant = get_resolver_variant(&resolver_declaration.directives);
        let variant_is_component = match variant {
            Some(ResolverVariant::Component) => true,
            _ => false,
        };
        if variant_is_component && !resolver_declaration.has_associated_js_function {
            return Err(ProcessResolverDeclarationError::ComponentResolverMissingJsFunction {});
        }

        let fetchable = is_fetchable(&resolver_declaration.directives);
        let next_field_id = self.fields.len();

        let ghost old_objects = self.schema_data.objects@;
        let mut object = self.schema_data.objects.remove(object_id);
        let type_and_field =
            object.name.clone().concat("__").concat(resolver_declaration.resolver_field_name.as_str());
        object.fields.push(next_field_id);
        object.resolvers.push(next_field_id);
        object.encountered_field_names.insert_new(
            resolver_declaration.resolver_field_name.clone(),
            DefinedField::ResolverField(resolver_declaration.resolver_field_name.clone()),
        );
        let parent_type_id = object.id;
        self.schema_data.objects.insert(object_id, object);
        proof {
            assert(self.schema_data.objects@ =~= old_objects.update(
                object_id as int,
                self.schema_data.objects@[object_id as int],
            ));
        }

        let ghost old_fields = self.fields@;
        self.fields.push(SchemaField {
            description: resolver_declaration.description,
            name: resolver_declaration.resolver_field_name,
            id: next_field_id,
            field_type: DefinedField::ResolverField(ResolverDefinitionInfo {
                resolver_definition_path: resolver_declaration.resolver_definition_path,
                selection_set_and_unwraps: resolver_declaration.selection_set_and_unwraps,
                field_id: next_field_id,
                variant,
                is_fetchable: fetchable,
                variable_definitions: resolver_declaration.variable_definitions,
                type_and_field,
                has_associated_js_function: resolver_declaration.has_associated_js_function,
            }),
            parent_type_id,
        });
        proof {
            assert(forall|i: int| 0 <= i < old_fields.len() ==> self.fields@[i] == old_fields[i]);
            let s0 = *old(self);
            let s1 = *self;
            let oid = object_id as int;
            assert(s1.schema_data.scalars@ == s0.schema_data.scalars@);
            assert forall|i: int| 0 <= i < s1.scalars().len() implies (
                #[trigger] s1.scalars()[i].id) == i by {
                assert(s1.scalars()[i] == s0.scalars()[i]);
            }
            assert forall|i: int| 0 <= i < s1.objects().len() implies (#[trigger] s1.objects()[i]).wf(
                s1.fields@,
            ) by {
                let o = s1.objects()[i];
                if i != oid {
                    assert(o == s0.objects()[i]);
                    assert(o.wf(s0.fields@));
                    assert forall|k: int| 0 <= k < o.resolvers@.len() implies (
                        #[trigger] o.resolvers@[k]) < s1.fields@.len()
                        && s1.fields@[o.resolvers@[k] as int].field_type is ResolverField by {
                        assert(o.resolvers@[k] < s0.fields@.len());
                        assert(s1.fields@[o.resolvers@[k] as int] == s0.fields@[o.resolvers@[k] as int]);
                    }
                } else {
                    let o0 = s0.objects()[oid];
                    assert(o0.wf(s0.fields@));
                    assert(o.fields@ == o0.fields@.push(next_field_id));
                    assert(o.resolvers@ == o0.resolvers@.push(next_field_id));
                    assert forall|k: int| 0 <= k < o.fields@.len() implies (
                        #[trigger] o.fields@[k]) < s1.fields@.len() by {
                        if k < o0.fields@.len() {
                            assert(o.fields@[k] == o0.fields@[k]);
                        }
                    }
                    assert forall|k: int| 0 <= k < o.resolvers@.len() implies (
                        #[trigger] o.resolvers@[k]) < s1.fields@.len()
                        && s1.fields@[o.resolvers@[k] as int].field_type is ResolverField by {
                        if k < o0.resolvers@.len() {
                            assert(o.resolvers@[k] == o0.resolvers@[k]);
                            assert(o.resolvers@[k] < s0.fields@.len());
                            assert(s1.fields@[o.resolvers@[k] as int]
                                == s0.fields@[o.resolvers@[k] as int]);
                        } else {
                            assert(o.resolvers@[k] == next_field_id);
                        }
                    }
                }
            }
        }
        Ok(())
    }
}

} // verus!
