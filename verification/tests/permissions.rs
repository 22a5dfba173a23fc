use rbac::access_checker::Environment;
use rbac::parse::{Permission as ParsedPermission, PermissionKind, PermissionRule};
use rbac::permissions::{Permission, PermissionTree};
use rbac::string_map::StringMap;

fn no_environment() -> Environment {
    Environment { variables: StringMap::new(), sets: StringMap::new() }
}

fn rule(permission: ParsedPermission, role_name: &str, resource: Vec<PermissionKind>) -> PermissionRule {
    PermissionRule { permission, role_name: role_name.to_string(), resource }
}

fn literal(name: &str) -> PermissionKind {
    PermissionKind::Literal(name.to_string())
}

fn path(segments: &[&str]) -> Vec<String> {
    segments.iter().map(|segment| segment.to_string()).collect()
}

#[test]
fn test_permission_tree() {
    let role_name = "X".to_string();
    let tree = PermissionTree::from_rules(vec![PermissionRule {
        permission: ParsedPermission::Allow,
        role_name: role_name.clone(),
        resource: vec![PermissionKind::Literal("a".to_string())],
    }]);

    assert!(tree.has_permission_for(
        vec![role_name.clone()],
        vec!["a".to_string()],
        &Environment { variables: StringMap::new(), sets: StringMap::new() }
    ));
}

#[test]
fn only_allow_converts_to_true() {
    assert!(bool::from(Permission::Allow));
    assert!(!bool::from(Permission::Deny));
    assert!(!bool::from(Permission::Unset));
    let granted: bool = Permission::Allow.into();
    assert!(granted);
}

#[test]
fn empty_tree_denies() {
    let tree = PermissionTree::from_rules(Vec::new());
    assert!(!tree.has_permission_for(path(&["X"]), path(&["a"]), &no_environment()));
}

#[test]
fn unknown_role_is_denied() {
    let tree = PermissionTree::from_rules(vec![rule(ParsedPermission::Allow, "X", vec![literal("a")])]);
    assert!(!tree.has_permission_for(path(&["Y"]), path(&["a"]), &no_environment()));
    assert!(!tree.has_permission_for(Vec::new(), path(&["a"]), &no_environment()));
}

#[test]
fn empty_path_is_denied() {
    let tree = PermissionTree::from_rules(vec![rule(ParsedPermission::Allow, "X", vec![literal("a")])]);
    assert!(!tree.has_permission_for(path(&["X"]), Vec::new(), &no_environment()));
}

#[test]
fn a_deny_rule_grants_nothing() {
    let tree = PermissionTree::from_rules(vec![rule(ParsedPermission::Deny, "X", vec![literal("a")])]);
    assert!(!tree.has_permission_for(path(&["X"]), path(&["a"]), &no_environment()));
}

#[test]
fn an_allow_rule_is_not_revoked_by_a_deny_rule() {
    let tree = PermissionTree::from_rules(vec![
        rule(ParsedPermission::Deny, "X", vec![literal("a")]),
        rule(ParsedPermission::Allow, "X", vec![literal("a")]),
        rule(ParsedPermission::Deny, "X", vec![literal("a")]),
    ]);
    assert!(tree.has_permission_for(path(&["X"]), path(&["a"]), &no_environment()));
}

#[test]
fn any_role_of_the_chain_may_grant() {
    let tree = PermissionTree::from_rules(vec![
        rule(ParsedPermission::Allow, "Admin", vec![literal("x")]),
        rule(ParsedPermission::Deny, "User", vec![literal("x")]),
    ]);
    let env = no_environment();
    assert!(!tree.has_permission_for(path(&["User"]), path(&["x"]), &env));
    assert!(tree.has_permission_for(path(&["Admin"]), path(&["x"]), &env));
    assert!(tree.has_permission_for(path(&["User", "Admin"]), path(&["x"]), &env));
    assert!(tree.has_permission_for(path(&["Nobody", "Admin"]), path(&["x"]), &env));
}

#[test]
fn literal_needs_the_whole_path() {
    let tree = PermissionTree::from_rules(vec![rule(
        ParsedPermission::Allow,
        "Editor",
        vec![literal("docs"), literal("public")],
    )]);
    let env = no_environment();
    assert!(tree.has_permission_for(path(&["Editor"]), path(&["docs", "public"]), &env));
    assert!(!tree.has_permission_for(path(&["Editor"]), path(&["docs", "private"]), &env));
    assert!(!tree.has_permission_for(path(&["Editor"]), path(&["docs"]), &env));
    assert!(!tree.has_permission_for(path(&["Editor"]), path(&["docs", "public", "more"]), &env));
    assert!(!tree.has_permission_for(path(&["Editor"]), path(&["public"]), &env));
    assert!(!tree.has_permission_for(path(&["Editor"]), path(&["Docs", "public"]), &env));
}

#[test]
fn rules_with_a_common_prefix_do_not_disturb_each_other() {
    let tree = PermissionTree::from_rules(vec![
        rule(ParsedPermission::Allow, "Editor", vec![literal("docs"), literal("public")]),
        rule(ParsedPermission::Deny, "Editor", vec![literal("docs"), literal("secret")]),
        rule(ParsedPermission::Allow, "Editor", vec![literal("docs"), literal("drafts"), literal("mine")]),
    ]);
    let env = no_environment();
    assert!(tree.has_permission_for(path(&["Editor"]), path(&["docs", "public"]), &env));
    assert!(!tree.has_permission_for(path(&["Editor"]), path(&["docs", "secret"]), &env));
    assert!(tree.has_permission_for(path(&["Editor"]), path(&["docs", "drafts", "mine"]), &env));
    assert!(!tree.has_permission_for(path(&["Editor"]), path(&["docs", "drafts"]), &env));
    assert!(!tree.has_permission_for(path(&["Editor"]), path(&["docs"]), &env));
}

#[test]
fn wildcard_matches_one_segment() {
    let tree = PermissionTree::from_rules(vec![rule(
        ParsedPermission::Allow,
        "Guest",
        vec![PermissionKind::Universal],
    )]);
    let env = no_environment();
    assert!(tree.has_permission_for(path(&["Guest"]), path(&["anything"]), &env));
    assert!(tree.has_permission_for(path(&["Guest"]), path(&["*"]), &env));
    assert!(!tree.has_permission_for(path(&["Guest"]), path(&["a", "b"]), &env));
}

#[test]
fn wildcard_inside_a_pattern() {
    let tree = PermissionTree::from_rules(vec![rule(
        ParsedPermission::Allow,
        "Guest",
        vec![literal("files"), PermissionKind::Universal, literal("read")],
    )]);
    let env = no_environment();
    assert!(tree.has_permission_for(path(&["Guest"]), path(&["files", "7", "read"]), &env));
    assert!(!tree.has_permission_for(path(&["Guest"]), path(&["files", "7", "write"]), &env));
    assert!(!tree.has_permission_for(path(&["Guest"]), path(&["files", "read"]), &env));
}

#[test]
fn variable_matches_its_binding_only() {
    let tree = PermissionTree::from_rules(vec![rule(
        ParsedPermission::Allow,
        "Owner",
        vec![PermissionKind::Variable("user_id".to_string())],
    )]);
    let mut variables = StringMap::new();
    variables.insert("user_id".to_string(), "42".to_string());
    let env = Environment { variables, sets: StringMap::new() };
    assert!(tree.has_permission_for(path(&["Owner"]), path(&["42"]), &env));
    assert!(!tree.has_permission_for(path(&["Owner"]), path(&["43"]), &env));
    assert!(!tree.has_permission_for(path(&["Owner"]), path(&["user_id"]), &env));

    let unbound = no_environment();
    assert!(!tree.has_permission_for(path(&["Owner"]), path(&["42"]), &unbound));
    assert!(!tree.has_permission_for(path(&["Owner"]), path(&["43"]), &unbound));
}

#[test]
fn variable_of_another_name_does_not_bind() {
    let tree = PermissionTree::from_rules(vec![rule(
        ParsedPermission::Allow,
        "Owner",
        vec![PermissionKind::Variable("user_id".to_string())],
    )]);
    let mut variables = StringMap::new();
    variables.insert("group_id".to_string(), "42".to_string());
    let env = Environment { variables, sets: StringMap::new() };
    assert!(!tree.has_permission_for(path(&["Owner"]), path(&["42"]), &env));
}

#[test]
fn set_matches_its_members_only() {
    let tree = PermissionTree::from_rules(vec![rule(
        ParsedPermission::Allow,
        "Staff",
        vec![PermissionKind::NamedSet("staff_ids".to_string())],
    )]);
    let mut sets = StringMap::new();
    sets.insert("staff_ids".to_string(), vec!["7".to_string(), "9".to_string()]);
    let env = Environment { variables: StringMap::new(), sets };
    assert!(tree.has_permission_for(path(&["Staff"]), path(&["9"]), &env));
    assert!(tree.has_permission_for(path(&["Staff"]), path(&["7"]), &env));
    assert!(!tree.has_permission_for(path(&["Staff"]), path(&["8"]), &env));

    let unknown = no_environment();
    assert!(!tree.has_permission_for(path(&["Staff"]), path(&["9"]), &unknown));
}

#[test]
fn empty_set_matches_nothing() {
    let tree = PermissionTree::from_rules(vec![rule(
        ParsedPermission::Allow,
        "Staff",
        vec![PermissionKind::NamedSet("staff_ids".to_string())],
    )]);
    let mut sets = StringMap::new();
    sets.insert("staff_ids".to_string(), Vec::new());
    let env = Environment { variables: StringMap::new(), sets };
    assert!(!tree.has_permission_for(path(&["Staff"]), path(&["9"]), &env));
}

#[test]
fn a_variable_and_a_set_of_one_name_are_apart() {
    let tree = PermissionTree::from_rules(vec![
        rule(ParsedPermission::Allow, "R", vec![PermissionKind::Variable("n".to_string()), literal("v")]),
        rule(ParsedPermission::Allow, "R", vec![PermissionKind::NamedSet("n".to_string()), literal("s")]),
    ]);
    let mut variables = StringMap::new();
    variables.insert("n".to_string(), "one".to_string());
    let mut sets = StringMap::new();
    sets.insert("n".to_string(), vec!["two".to_string()]);
    let env = Environment { variables, sets };
    assert!(tree.has_permission_for(path(&["R"]), path(&["one", "v"]), &env));
    assert!(tree.has_permission_for(path(&["R"]), path(&["two", "s"]), &env));
    assert!(!tree.has_permission_for(path(&["R"]), path(&["one", "s"]), &env));
    assert!(!tree.has_permission_for(path(&["R"]), path(&["two", "v"]), &env));
}

#[test]
fn building_twice_gives_the_same_answers() {
    let rules = || {
        vec![
            rule(ParsedPermission::Allow, "A", vec![literal("x"), PermissionKind::Universal]),
            rule(ParsedPermission::Deny, "A", vec![literal("x"), literal("y")]),
            rule(ParsedPermission::Allow, "B", vec![literal("z")]),
        ]
    };
    let first = PermissionTree::from_rules(rules());
    let second = PermissionTree::from_rules(rules());
    let env = no_environment();
    for role in ["A", "B", "C"] {
        for query in [vec!["x"], vec!["x", "y"], vec!["x", "q"], vec!["z"], vec![]] {
            assert_eq!(
                first.has_permission_for(path(&[role]), path(&query), &env),
                second.has_permission_for(path(&[role]), path(&query), &env)
            );
        }
    }
}
