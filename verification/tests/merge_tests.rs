use isograph::lang::{
    LinkedFieldSelection, ScalarFieldSelection, Selection, SelectionFieldArgument,
};
use isograph::merged::{
    create_merged_selection_set, ArtifactQueueItem, MergedServerFieldSelection,
};
use isograph::schema::{
    ObjectType, ResolverVariant, Schema, SchemaData, SchemaField, ResolverDefinitionInfo,
};
use isograph::string_map::StringMap;
use isograph::DefinedField;

fn scalar_server(name: &str) -> Selection {
    Selection::ScalarField(ScalarFieldSelection {
        name: name.to_string(),
        normalization_alias: None,
        associated_data: DefinedField::ServerField(()),
        arguments: Vec::new(),
    })
}

fn scalar_server_args(name: &str, args: &[(&str, &str)]) -> Selection {
    Selection::ScalarField(ScalarFieldSelection {
        name: name.to_string(),
        normalization_alias: None,
        associated_data: DefinedField::ServerField(()),
        arguments: args
            .iter()
            .map(|(n, v)| SelectionFieldArgument { name: n.to_string(), value: v.to_string() })
            .collect(),
    })
}

fn scalar_resolver(name: &str) -> Selection {
    Selection::ScalarField(ScalarFieldSelection {
        name: name.to_string(),
        normalization_alias: None,
        associated_data: DefinedField::ResolverField(()),
        arguments: Vec::new(),
    })
}

fn linked(name: &str, target: usize, nested: Vec<Selection>, args: &[(&str, &str)]) -> Selection {
    Selection::LinkedField(LinkedFieldSelection {
        name: name.to_string(),
        normalization_alias: None,
        associated_data: target,
        selection_set: nested,
        arguments: args
            .iter()
            .map(|(n, v)| SelectionFieldArgument { name: n.to_string(), value: v.to_string() })
            .collect(),
    })
}

fn server_field(id: usize, name: &str, parent: usize) -> SchemaField {
    SchemaField {
        description: None,
        name: name.to_string(),
        id,
        field_type: DefinedField::ServerField(()),
        parent_type_id: parent,
    }
}

fn resolver_field(
    id: usize,
    name: &str,
    parent: usize,
    selections: Option<Vec<Selection>>,
    variant: Option<ResolverVariant>,
) -> SchemaField {
    SchemaField {
        description: None,
        name: name.to_string(),
        id,
        field_type: DefinedField::ResolverField(ResolverDefinitionInfo {
            resolver_definition_path: "src/resolvers.tsx".to_string(),
            selection_set_and_unwraps: selections.map(|s| (s, Vec::new())),
            field_id: id,
            variant,
            is_fetchable: false,
            variable_definitions: Vec::new(),
            type_and_field: format!("Type__{}", name),
            has_associated_js_function: true,
        }),
        parent_type_id: parent,
    }
}

/// Objects: `User` (id 0, identity field `id`, resolvers `displayName`
/// and `refetchMe`) and `Profile` (id 1, no identity field).
fn test_schema() -> Schema {
    let user = ObjectType {
        id: 0,
        name: "User".to_string(),
        encountered_field_names: StringMap::new(),
        fields: vec![0, 2, 3],
        resolvers: vec![2, 3],
        id_field: Some(0),
    };
    let profile = ObjectType {
        id: 1,
        name: "Profile".to_string(),
        encountered_field_names: StringMap::new(),
        fields: vec![1],
        resolvers: Vec::new(),
        id_field: None,
    };
    Schema {
        fields: vec![
            server_field(0, "id", 0),
            server_field(1, "name", 1),
            resolver_field(
                2,
                "displayName",
                0,
                Some(vec![linked("profile", 1, vec![scalar_server("name")], &[])]),
                Some(ResolverVariant::Eager),
            ),
            resolver_field(3, "refetchMe", 0, None, Some(ResolverVariant::RefetchField)),
        ],
        schema_data: SchemaData {
            objects: vec![user, profile],
            scalars: Vec::new(),
            defined_types: StringMap::new(),
        },
    }
}

fn merge(schema: &Schema, parent: usize, selections: Vec<Selection>) -> (
    Vec<MergedServerFieldSelection>,
    Vec<ArtifactQueueItem>,
) {
    let mut queue = Vec::new();
    let merged = create_merged_selection_set(
        schema,
        &schema.schema_data.objects[parent],
        &selections,
        &mut queue,
        &Vec::new(),
    );
    (merged_into_vec(merged), queue)
}

fn merged_into_vec(
    m: isograph::merged::MergedSelectionSet,
) -> Vec<MergedServerFieldSelection> {
    let isograph::merged::MergedSelectionSet { selections, .. } = m;
    selections
}

fn entry_name(e: &MergedServerFieldSelection) -> String {
    match e {
        MergedServerFieldSelection::ScalarField(s) => s.name.clone(),
        MergedServerFieldSelection::LinkedField(l) => l.name.clone(),
    }
}

fn names(entries: &[MergedServerFieldSelection]) -> Vec<String> {
    entries.iter().map(entry_name).collect()
}

#[test]
fn resolver_selections_flatten_and_id_is_injected() {
    // `User` with identity field `id` and resolver `displayName` whose
    // selection set is `profile { name }`: merging `[displayName]`
    // yields `[id, profile]` with `name` inside `profile`.
    let schema = test_schema();
    let (entries, _) = merge(&schema, 0, vec![scalar_resolver("displayName")]);
    assert_eq!(names(&entries), vec!["id", "profile"]);
    match &entries[1] {
        MergedServerFieldSelection::LinkedField(l) => {
            assert_eq!(names(&l.selection_set), vec!["name"]);
        }
        other => panic!("expected a linked field, got {:?}", other),
    }
}

#[test]
fn identical_selections_merge_into_one_entry() {
    // Two selections with the same name and the same arguments produce
    // exactly one entry.
    let schema = test_schema();
    let sel = |v: &str| scalar_server_args("comments", &[("first", v)]);
    let (entries, _) = merge(&schema, 1, vec![sel("$first"), sel("$first")]);
    assert_eq!(names(&entries), vec!["comments"]);
}

#[test]
fn different_arguments_stay_distinct() {
    let schema = test_schema();
    let (entries, _) = merge(
        &schema,
        1,
        vec![
            scalar_server_args("comments", &[("first", "$b")]),
            scalar_server_args("comments", &[("first", "$a")]),
        ],
    );
    // Two aliases, ordered: comments__first_a before comments__first_b.
    assert_eq!(entries.len(), 2);
    match (&entries[0], &entries[1]) {
        (
            MergedServerFieldSelection::ScalarField(a),
            MergedServerFieldSelection::ScalarField(b),
        ) => {
            assert_eq!(a.arguments[0].value, "$a");
            assert_eq!(b.arguments[0].value, "$b");
        }
        _ => panic!("expected scalar fields"),
    }
}

#[test]
fn merging_is_order_independent() {
    let schema = test_schema();
    let sels = || {
        vec![
            scalar_server("zebra"),
            linked("profile", 1, vec![scalar_server("name")], &[]),
            scalar_server("apple"),
        ]
    };
    let mut permuted = sels();
    permuted.reverse();
    let (a, _) = merge(&schema, 0, sels());
    let (b, _) = merge(&schema, 0, permuted);
    assert_eq!(a, b);
    assert_eq!(names(&a), vec!["id", "apple", "profile", "zebra"]);
}

#[test]
fn linked_fields_with_same_key_union_their_selections() {
    // Two linked-field selections on the same field and arguments with
    // disjoint nested selections merge into one entry whose nested set
    // is the deduplicated union.
    let schema = test_schema();
    let (entries, _) = merge(
        &schema,
        0,
        vec![
            linked("profile", 1, vec![scalar_server("zeta")], &[]),
            linked("profile", 1, vec![scalar_server("alpha"), scalar_server("zeta")], &[]),
        ],
    );
    assert_eq!(names(&entries), vec!["id", "profile"]);
    match &entries[1] {
        MergedServerFieldSelection::LinkedField(l) => {
            assert_eq!(names(&l.selection_set), vec!["alpha", "zeta"]);
        }
        other => panic!("expected a linked field, got {:?}", other),
    }
}

#[test]
fn id_entry_is_unique_even_when_selected_explicitly() {
    let schema = test_schema();
    let (entries, _) = merge(
        &schema,
        0,
        vec![scalar_server("id"), scalar_server("name"), scalar_server("id")],
    );
    assert_eq!(names(&entries), vec!["id", "name"]);
}

#[test]
fn type_without_id_field_gets_no_id_entry() {
    let schema = test_schema();
    let (entries, _) = merge(&schema, 1, vec![scalar_server("name")]);
    assert_eq!(names(&entries), vec!["name"]);
}

#[test]
fn refetch_resolver_enqueues_an_artifact() {
    let schema = test_schema();
    let (entries, queue) = merge(&schema, 0, vec![scalar_resolver("refetchMe")]);
    assert_eq!(names(&entries), vec!["id"]);
    assert_eq!(queue.len(), 1);
    match &queue[0] {
        ArtifactQueueItem::RefetchField(info) => {
            assert_eq!(info.parent_id, 0);
            assert_eq!(names(info.merged_selection_set.selections()), vec!["id"]);
        }
        _ => panic!("expected a refetch artifact"),
    }
}

#[test]
fn entries_are_sorted_by_alias() {
    let schema = test_schema();
    let (entries, _) = merge(
        &schema,
        1,
        vec![scalar_server("zebra"), scalar_server("apple"), scalar_server("mango")],
    );
    assert_eq!(names(&entries), vec!["apple", "mango", "zebra"]);
}

#[test]
fn linked_field_named_id_is_not_filtered() {
    // The identity filter is a name check on scalar selections only: a
    // linked field named `id` passes through and coexists with the
    // injected identity entry, which sorts first.
    let schema = test_schema();
    let (entries, _) = merge(
        &schema,
        0,
        vec![linked("id", 1, vec![scalar_server("name")], &[])],
    );
    assert_eq!(names(&entries), vec!["id", "id"]);
    assert!(matches!(entries[0], MergedServerFieldSelection::ScalarField(_)));
    assert!(matches!(entries[1], MergedServerFieldSelection::LinkedField(_)));
}

#[test]
fn merge_linked_fields_re_merges_an_existing_set() {
    let schema = test_schema();
    let existing = vec![MergedServerFieldSelection::ScalarField(
        isograph::merged::MergedScalarFieldSelection {
            name: "alpha".to_string(),
            normalization_alias: None,
            arguments: Vec::new(),
        },
    )];
    let mut queue = Vec::new();
    let merged = isograph::merged::merge_linked_fields(
        &schema,
        existing,
        &vec![scalar_server("beta"), scalar_server("alpha")],
        &schema.schema_data.objects[1],
        &mut queue,
        &Vec::new(),
    );
    assert_eq!(names(&merged), vec!["alpha", "beta"]);
    assert!(queue.is_empty());
}

#[test]
fn alias_encoding_strips_the_value_sigil() {
    // The argument encoding drops the value's leading sigil, so the
    // entries order by the remainder: `za` encodes as `a` and sorts
    // before `ab`, which encodes as `b`.
    let schema = test_schema();
    let (entries, _) = merge(
        &schema,
        1,
        vec![
            scalar_server_args("k", &[("arg", "ab")]),
            scalar_server_args("k", &[("arg", "za")]),
        ],
    );
    assert_eq!(entries.len(), 2);
    match (&entries[0], &entries[1]) {
        (
            MergedServerFieldSelection::ScalarField(first),
            MergedServerFieldSelection::ScalarField(second),
        ) => {
            assert_eq!(first.arguments[0].value, "za");
            assert_eq!(second.arguments[0].value, "ab");
        }
        _ => panic!("expected scalar fields"),
    }
}
