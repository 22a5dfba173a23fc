use rbac::access_checker::{AccessChecker, Environment};
use rbac::parse::{Permission, PermissionKind, PermissionRule};
use rbac::permissions::PermissionTree;
use rbac::roles::{RoleGraph, Rule};
use rbac::string_map::StringMap;

fn checker(role_rules: Vec<Rule>, permission_rules: Vec<PermissionRule>) -> AccessChecker {
    AccessChecker::new(
        RoleGraph::from_rules(role_rules).unwrap(),
        PermissionTree::from_rules(permission_rules),
    )
}

fn allow(role_name: &str, resource: Vec<PermissionKind>) -> PermissionRule {
    PermissionRule { permission: Permission::Allow, role_name: role_name.to_string(), resource }
}

fn deny(role_name: &str, resource: Vec<PermissionKind>) -> PermissionRule {
    PermissionRule { permission: Permission::Deny, role_name: role_name.to_string(), resource }
}

fn literal(name: &str) -> PermissionKind {
    PermissionKind::Literal(name.to_string())
}

fn path(segments: &[&str]) -> Vec<String> {
    segments.iter().map(|segment| segment.to_string()).collect()
}

#[test]
fn nothing_is_granted_without_rules() {
    let checker = checker(Vec::new(), Vec::new());
    assert!(!checker.has_permission_for("Anyone".to_string(), path(&["anything"])));
    assert!(!checker.has_permission_for("Anyone".to_string(), Vec::new()));
}

#[test]
fn nothing_is_granted_without_an_applicable_rule() {
    let checker = checker(
        vec![Rule::new("Admin", "User")],
        vec![allow("Admin", vec![literal("x")]), allow("Other", vec![literal("y")])],
    );
    assert!(!checker.has_permission_for("User".to_string(), path(&["y"])));
    assert!(!checker.has_permission_for("Admin".to_string(), path(&["y"])));
    assert!(!checker.has_permission_for("Other".to_string(), path(&["x"])));
    assert!(!checker.has_permission_for("Nobody".to_string(), path(&["x"])));
}

#[test]
fn a_role_is_granted_what_its_ancestors_are() {
    let checker = checker(
        vec![Rule::new("Admin", "User")],
        vec![allow("Admin", vec![literal("x")]), deny("User", vec![literal("x")])],
    );
    assert!(checker.has_permission_for("Admin".to_string(), path(&["x"])));
    assert!(checker.has_permission_for("User".to_string(), path(&["x"])));
}

#[test]
fn a_parent_is_not_granted_what_its_child_is() {
    let checker = checker(
        vec![Rule::new("Admin", "User")],
        vec![allow("User", vec![literal("x")])],
    );
    assert!(checker.has_permission_for("User".to_string(), path(&["x"])));
    assert!(!checker.has_permission_for("Admin".to_string(), path(&["x"])));
}

#[test]
fn grants_are_inherited_over_several_steps() {
    let checker = checker(
        vec![Rule::new("Root", "Admin"), Rule::new("Admin", "User")],
        vec![allow("Root", vec![literal("top")]), allow("Admin", vec![literal("mid")])],
    );
    assert!(checker.has_permission_for("User".to_string(), path(&["top"])));
    assert!(checker.has_permission_for("User".to_string(), path(&["mid"])));
    assert!(checker.has_permission_for("Admin".to_string(), path(&["top"])));
    assert!(!checker.has_permission_for("Root".to_string(), path(&["mid"])));
}

#[test]
fn the_environment_starts_empty() {
    let checker = checker(
        Vec::new(),
        vec![
            allow("Owner", vec![PermissionKind::Variable("user_id".to_string())]),
            allow("Staff", vec![PermissionKind::NamedSet("staff_ids".to_string())]),
        ],
    );
    assert!(!checker.has_permission_for("Owner".to_string(), path(&["42"])));
    assert!(!checker.has_permission_for("Staff".to_string(), path(&["9"])));
}

#[test]
fn variable_binding_decides() {
    let mut checker = checker(
        Vec::new(),
        vec![allow("Owner", vec![PermissionKind::Variable("user_id".to_string())])],
    );
    assert!(!checker.has_permission_for("Owner".to_string(), path(&["42"])));
    assert!(!checker.has_permission_for("Owner".to_string(), path(&["43"])));

    let mut variables = StringMap::new();
    variables.insert("user_id".to_string(), "42".to_string());
    checker.set_environment(Environment { variables, sets: StringMap::new() });
    assert!(checker.has_permission_for("Owner".to_string(), path(&["42"])));
    assert!(!checker.has_permission_for("Owner".to_string(), path(&["43"])));
}

#[test]
fn set_membership_decides() {
    let mut checker = checker(
        Vec::new(),
        vec![allow("Staff", vec![PermissionKind::NamedSet("staff_ids".to_string())])],
    );
    let mut sets = StringMap::new();
    sets.insert("staff_ids".to_string(), vec!["7".to_string(), "9".to_string()]);
    checker.set_environment(Environment { variables: StringMap::new(), sets });
    assert!(checker.has_permission_for("Staff".to_string(), path(&["9"])));
    assert!(!checker.has_permission_for("Staff".to_string(), path(&["8"])));
}

#[test]
fn a_new_environment_replaces_the_old_one() {
    let mut checker = checker(
        Vec::new(),
        vec![allow("Owner", vec![PermissionKind::Variable("user_id".to_string())])],
    );
    let mut first = StringMap::new();
    first.insert("user_id".to_string(), "42".to_string());
    checker.set_environment(Environment { variables: first, sets: StringMap::new() });
    assert!(checker.has_permission_for("Owner".to_string(), path(&["42"])));

    let mut second = StringMap::new();
    second.insert("user_id".to_string(), "43".to_string());
    checker.set_environment(Environment { variables: second, sets: StringMap::new() });
    assert!(!checker.has_permission_for("Owner".to_string(), path(&["42"])));
    assert!(checker.has_permission_for("Owner".to_string(), path(&["43"])));

    checker.set_environment(Environment { variables: StringMap::new(), sets: StringMap::new() });
    assert!(!checker.has_permission_for("Owner".to_string(), path(&["43"])));
}

#[test]
fn wildcard_rule_through_the_checker() {
    let checker = checker(Vec::new(), vec![allow("Guest", vec![PermissionKind::Universal])]);
    assert!(checker.has_permission_for("Guest".to_string(), path(&["anything"])));
    assert!(!checker.has_permission_for("Guest".to_string(), path(&["a", "b"])));
}

#[test]
fn literal_rule_through_the_checker() {
    let checker = checker(Vec::new(), vec![allow("Editor", vec![literal("docs"), literal("public")])]);
    assert!(checker.has_permission_for("Editor".to_string(), path(&["docs", "public"])));
    assert!(!checker.has_permission_for("Editor".to_string(), path(&["docs", "private"])));
    assert!(!checker.has_permission_for("Editor".to_string(), path(&["docs"])));
}

#[test]
fn rebuilding_gives_the_same_answers() {
    let build = || {
        checker(
            vec![Rule::new("Admin", "User"), Rule::new("Root", "Admin")],
            vec![
                allow("Admin", vec![literal("x")]),
                deny("User", vec![literal("x")]),
                allow("Root", vec![literal("y"), PermissionKind::Universal]),
            ],
        )
    };
    let first = build();
    let second = build();
    for role in ["User", "Admin", "Root", "Nobody"] {
        for query in [vec!["x"], vec!["y"], vec!["y", "z"], vec![], vec!["x", "y"]] {
            assert_eq!(
                first.has_permission_for(role.to_string(), path(&query)),
                second.has_permission_for(role.to_string(), path(&query))
            );
        }
    }
}

#[test]
fn a_cycle_has_no_answer() {
    let checker = checker(
        vec![Rule::new("A", "B"), Rule::new("B", "A"), Rule::new("C", "D")],
        vec![allow("A", vec![literal("x")]), allow("C", vec![literal("x")])],
    );
    assert_eq!(checker.try_has_permission_for("A".to_string(), path(&["x"])), None);
    assert_eq!(checker.try_has_permission_for("B".to_string(), path(&["x"])), None);
    assert_eq!(checker.try_has_permission_for("D".to_string(), path(&["x"])), Some(true));
    assert_eq!(checker.try_has_permission_for("D".to_string(), path(&["y"])), Some(false));
    assert_eq!(checker.try_has_permission_for("E".to_string(), path(&["x"])), Some(false));
}
