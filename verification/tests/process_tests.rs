use isograph::lang::{FragmentDirectiveUsage, ResolverDeclaration};
use isograph::process_resolver_declaration::ProcessResolverDeclarationError;
use isograph::schema::{
    ObjectType, ResolverVariant, ScalarType, Schema, SchemaData, TypeId,
};
use isograph::string_map::StringMap;
use isograph::DefinedField;

fn base_schema() -> Schema {
    let mut defined_types = StringMap::new();
    defined_types.insert_new("User".to_string(), TypeId::Object(0));
    defined_types.insert_new("ID".to_string(), TypeId::Scalar(0));

    let mut user_fields = StringMap::new();
    user_fields.insert_new("existing".to_string(), DefinedField::ServerField(()));

    Schema {
        fields: Vec::new(),
        schema_data: SchemaData {
            objects: vec![ObjectType {
                id: 0,
                name: "User".to_string(),
                encountered_field_names: user_fields,
                fields: Vec::new(),
                resolvers: Vec::new(),
                id_field: None,
            }],
            scalars: vec![ScalarType { id: 0, name: "ID".to_string() }],
            defined_types,
        },
    }
}

fn declaration(parent: &str, field: &str, directives: &[&str], js: bool) -> ResolverDeclaration {
    ResolverDeclaration {
        parent_type: parent.to_string(),
        resolver_field_name: field.to_string(),
        description: None,
        resolver_definition_path: "src/User.resolver.tsx".to_string(),
        selection_set_and_unwraps: None,
        directives: directives
            .iter()
            .map(|d| FragmentDirectiveUsage { name: d.to_string() })
            .collect(),
        variable_definitions: Vec::new(),
        has_associated_js_function: js,
    }
}

#[test]
fn accepted_declaration_gets_next_field_id() {
    let mut schema = base_schema();
    let before = schema.fields.len();
    let result = schema.process_resolver_declaration(declaration("User", "displayName", &[], true));
    assert!(result.is_ok());
    assert_eq!(schema.fields.len(), before + 1);
    assert_eq!(schema.fields[before].id, before);
    assert_eq!(schema.fields[before].name, "displayName");
    assert_eq!(schema.schema_data.objects[0].fields, vec![before]);
    assert_eq!(schema.schema_data.objects[0].resolvers, vec![before]);
}

#[test]
fn missing_parent_leaves_schema_unchanged() {
    let mut schema = base_schema();
    let result = schema.process_resolver_declaration(declaration("Ghost", "displayName", &[], true));
    assert_eq!(
        result.unwrap_err(),
        ProcessResolverDeclarationError::MissingParent { parent_type_name: "Ghost".to_string() }
    );
    assert_eq!(schema.fields.len(), 0);
    assert_eq!(schema.schema_data.objects[0].fields.len(), 0);
}

#[test]
fn scalar_parent_is_invalid() {
    let mut schema = base_schema();
    let result = schema.process_resolver_declaration(declaration("ID", "displayName", &[], true));
    assert_eq!(
        result.unwrap_err(),
        ProcessResolverDeclarationError::InvalidParentType {
            parent_type: "scalar".to_string(),
            parent_type_name: "ID".to_string(),
        }
    );
    assert_eq!(schema.fields.len(), 0);
}

#[test]
fn name_collision_leaves_field_list_unchanged() {
    let mut schema = base_schema();
    let result = schema.process_resolver_declaration(declaration("User", "existing", &[], true));
    assert_eq!(
        result.unwrap_err(),
        ProcessResolverDeclarationError::ParentAlreadyHasField {
            parent_type: "object".to_string(),
            parent_type_name: "User".to_string(),
            resolver_field_name: "existing".to_string(),
        }
    );
    assert_eq!(schema.fields.len(), 0);
    assert_eq!(schema.schema_data.objects[0].fields.len(), 0);
}

#[test]
fn collision_with_previous_resolver_is_rejected() {
    let mut schema = base_schema();
    assert!(schema
        .process_resolver_declaration(declaration("User", "displayName", &[], true))
        .is_ok());
    let result = schema.process_resolver_declaration(declaration("User", "displayName", &[], true));
    assert!(matches!(
        result,
        Err(ProcessResolverDeclarationError::ParentAlreadyHasField { .. })
    ));
    assert_eq!(schema.fields.len(), 1);
    assert_eq!(schema.schema_data.objects[0].fields.len(), 1);
}

#[test]
fn component_without_js_function_fails() {
    let mut schema = base_schema();
    let result = schema.process_resolver_declaration(declaration(
        "User",
        "avatar",
        &["component"],
        false,
    ));
    assert_eq!(
        result.unwrap_err(),
        ProcessResolverDeclarationError::ComponentResolverMissingJsFunction {}
    );
    assert_eq!(schema.fields.len(), 0);
}

#[test]
fn component_with_js_function_succeeds() {
    let mut schema = base_schema();
    let result = schema.process_resolver_declaration(declaration(
        "User",
        "avatar",
        &["component"],
        true,
    ));
    assert!(result.is_ok());
    match &schema.fields[0].field_type {
        DefinedField::ResolverField(info) => {
            assert_eq!(info.variant, Some(ResolverVariant::Component));
            assert!(info.has_associated_js_function);
        }
        _ => panic!("expected a resolver field"),
    }
}

#[test]
fn first_classifying_directive_wins() {
    let mut schema = base_schema();
    schema
        .process_resolver_declaration(declaration(
            "User",
            "displayName",
            &["eager", "component"],
            true,
        ))
        .unwrap();
    match &schema.fields[0].field_type {
        DefinedField::ResolverField(info) => {
            assert_eq!(info.variant, Some(ResolverVariant::Eager));
        }
        _ => panic!("expected a resolver field"),
    }
}

#[test]
fn fetchable_directive_marks_resolver_fetchable() {
    let mut schema = base_schema();
    schema
        .process_resolver_declaration(declaration("User", "a", &["fetchable"], true))
        .unwrap();
    schema
        .process_resolver_declaration(declaration("User", "b", &["eager"], true))
        .unwrap();
    match (&schema.fields[0].field_type, &schema.fields[1].field_type) {
        (DefinedField::ResolverField(a), DefinedField::ResolverField(b)) => {
            assert!(a.is_fetchable);
            assert!(!b.is_fetchable);
        }
        _ => panic!("expected resolver fields"),
    }
}

#[test]
fn type_and_field_key_is_parent_and_name() {
    let mut schema = base_schema();
    schema
        .process_resolver_declaration(declaration("User", "displayName", &[], true))
        .unwrap();
    match &schema.fields[0].field_type {
        DefinedField::ResolverField(info) => {
            assert_eq!(info.type_and_field, "User__displayName");
        }
        _ => panic!("expected a resolver field"),
    }
}

#[test]
fn resolver_variant_display_names() {
    assert_eq!(ResolverVariant::Component.display_name(), "Component");
    assert_eq!(ResolverVariant::Eager.display_name(), "Eager");
    assert_eq!(ResolverVariant::RefetchField.display_name(), "RefetchField");
}

#[test]
fn string_map_basic_operations() {
    let mut m: StringMap<u64> = StringMap::new();
    assert!(!m.contains_key(&"a".to_string()));
    m.insert_new("a".to_string(), 1);
    m.insert_new("b".to_string(), 2);
    assert!(m.contains_key(&"a".to_string()));
    assert_eq!(m.get(&"b".to_string()), Some(&2));
    assert_eq!(m.remove(&"a".to_string()), Some(1));
    assert!(!m.contains_key(&"a".to_string()));
    assert_eq!(m.remove(&"a".to_string()), None);
}
