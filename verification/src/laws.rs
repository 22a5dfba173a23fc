//! What holds of every policy: the answers of the engine, stated over the
//! rules that it was built from.

use crate::access_checker::{AccessCheckerView, EnvironmentView};
use crate::parse::{Permission, PermissionKindView, PermissionRuleView};
use crate::permissions::{
    any_grants, chain_node, effect_of, forest_of, have_patterns, permits,
    Permission as Effect, RootNodeView,
};
use crate::roles::{chain_of, graph_of, is_chain, lemma_chain_unique, linked, resolves, RuleView};
use vstd::prelude::*;

verus! {

/// Whether `pattern` matches `path`: they have as many segments, and each
/// segment of the pattern matches the segment of the path in its place.
pub open spec fn pattern_matches(
    pattern: Seq<PermissionKindView>,
    path: Seq<Seq<char>>,
    env: EnvironmentView,
) -> bool {
    &&& pattern.len() == path.len()
    &&& forall|i: int| 0 <= i < pattern.len() ==> (#[trigger] pattern[i]).matches(path[i], env)
}

/// Whether `rule` applies to a query: it is a rule of one of the roles
/// `names`, and its pattern matches `path`.
pub open spec fn applies(
    rule: PermissionRuleView,
    names: Seq<Seq<char>>,
    path: Seq<Seq<char>>,
    env: EnvironmentView,
) -> bool {
    names.contains(rule.role_name) && pattern_matches(rule.resource, path, env)
}

/// Whether the trie of `role` in `forest` grants `path`. A role without a
/// trie is granted nothing.
pub open spec fn grants_own(
    forest: Map<Seq<char>, RootNodeView>,
    role: Seq<char>,
    path: Seq<Seq<char>>,
    env: EnvironmentView,
) -> bool {
    forest.contains_key(role) && forest[role].grants(path, env)
}

/// The chain of nodes of a rule grants exactly the paths that the rule's
/// pattern matches, and only if the rule allows.
pub proof fn lemma_chain_node_grants(
    pattern: Seq<PermissionKindView>,
    effect: Effect,
    path: Seq<Seq<char>>,
    env: EnvironmentView,
)
    requires
        pattern.len() > 0,
    ensures
        chain_node(pattern, effect).grants(path, env) <==> effect is Allow && pattern_matches(
            pattern,
            path,
            env,
        ),
    decreases pattern.len(),
{
    let node = chain_node(pattern, effect);
    if path.len() == 0 {
    } else if pattern.len() == 1 {
        if path.len() == 1 {
            assert(pattern_matches(pattern, path, env) <==> pattern[0].matches(path[0], env));
        } else {
            assert(!any_grants(node.sub_nodes, path.skip(1), env));
        }
    } else {
        let rest = chain_node(pattern.skip(1), effect);
        if path.len() == 1 {
        } else {
            lemma_chain_node_grants(pattern.skip(1), effect, path.skip(1), env);
            assert(node.sub_nodes[0] == rest);
            assert(any_grants(node.sub_nodes, path.skip(1), env) <==> rest.grants(
                path.skip(1),
                env,
            ));
            if pattern_matches(pattern, path, env) {
                assert forall|i: int| 0 <= i < pattern.skip(1).len() implies (
                #[trigger] pattern.skip(1)[i]).matches(path.skip(1)[i], env) by {
                    assert(pattern[i + 1].matches(path[i + 1], env));
                }
            }
            if pattern[0].matches(path[0], env) && pattern_matches(
                pattern.skip(1),
                path.skip(1),
                env,
            ) {
                assert forall|i: int| 0 <= i < pattern.len() implies (
                #[trigger] pattern[i]).matches(path[i], env) by {
                    if i > 0 {
                        assert(pattern.skip(1)[i - 1].matches(path.skip(1)[i - 1], env));
                    }
                }
            }
        }
    }
}

/// The trie of a role grants a path exactly where a rule of that role allows
/// it: some rule names the role, has the effect `Allow`, and matches the
/// path.
pub proof fn lemma_role_grants_follow_rules(
    rules: Seq<PermissionRuleView>,
    role: Seq<char>,
    path: Seq<Seq<char>>,
    env: EnvironmentView,
)
    requires
        have_patterns(rules),
    ensures
        grants_own(forest_of(rules), role, path, env) <==> exists|j: int|
            0 <= j < rules.len() && (#[trigger] rules[j]).role_name == role
                && rules[j].permission is Allow && pattern_matches(rules[j].resource, path, env),
    decreases rules.len(),
{
    if rules.len() > 0 {
        let before = rules.drop_last();
        let rule = rules.last();
        let forest = forest_of(before);
        assert(have_patterns(before)) by {
            assert forall|i: int| 0 <= i < before.len() implies (
            #[trigger] before[i]).resource.len() > 0 by {
                assert(before[i] == rules[i]);
            }
        }
        lemma_role_grants_follow_rules(before, role, path, env);
        let earlier = exists|j: int|
            0 <= j < before.len() && (#[trigger] before[j]).role_name == role
                && before[j].permission is Allow && pattern_matches(before[j].resource, path, env);
        let now = exists|j: int|
            0 <= j < rules.len() && (#[trigger] rules[j]).role_name == role
                && rules[j].permission is Allow && pattern_matches(rules[j].resource, path, env);
        let last_allows = rule.role_name == role && rule.permission is Allow && pattern_matches(
            rule.resource,
            path,
            env,
        );
        assert(now <==> earlier || last_allows) by {
            if earlier {
                let j = choose|j: int|
                    0 <= j < before.len() && (#[trigger] before[j]).role_name == role
                        && before[j].permission is Allow && pattern_matches(
                        before[j].resource,
                        path,
                        env,
                    );
                assert(rules[j] == before[j]);
            }
            if last_allows {
                assert(rules[rules.len() - 1] == rule);
            }
            if now {
                let j = choose|j: int|
                    0 <= j < rules.len() && (#[trigger] rules[j]).role_name == role
                        && rules[j].permission is Allow && pattern_matches(
                        rules[j].resource,
                        path,
                        env,
                    );
                if j < before.len() {
                    assert(before[j] == rules[j]);
                }
            }
        }
        if rule.role_name == role {
            let root = if forest.contains_key(role) {
                forest[role]
            } else {
                RootNodeView::empty()
            };
            let chain = chain_node(rule.resource, effect_of(rule.permission));
            let grown = root.with_sub_node(chain);
            assert(forest_of(rules)[role] == grown);
            lemma_chain_node_grants(rule.resource, effect_of(rule.permission), path, env);
            assert(any_grants(grown.sub_nodes, path, env) <==> any_grants(root.sub_nodes, path, env)
                || chain.grants(path, env)) by {
                if any_grants(root.sub_nodes, path, env) {
                    let i = choose|i: int|
                        0 <= i < root.sub_nodes.len() && (#[trigger] root.sub_nodes[i]).grants(
                            path,
                            env,
                        );
                    assert(grown.sub_nodes[i] == root.sub_nodes[i]);
                }
                if chain.grants(path, env) {
                    assert(grown.sub_nodes[grown.sub_nodes.len() - 1] == chain);
                }
                if any_grants(grown.sub_nodes, path, env) {
                    let i = choose|i: int|
                        0 <= i < grown.sub_nodes.len() && (#[trigger] grown.sub_nodes[i]).grants(
                            path,
                            env,
                        );
                    if i < root.sub_nodes.len() {
                        assert(root.sub_nodes[i] == grown.sub_nodes[i]);
                    }
                }
            }
            assert(effect_of(rule.permission) is Allow <==> rule.permission is Allow);
        } else {
            assert(forest_of(rules).contains_key(role) <==> forest.contains_key(role));
        }
    }
}

/// A query is granted exactly where a rule allows it: some rule with the
/// effect `Allow` applies to it. A `Deny` rule takes nothing back, and what
/// no rule allows is denied.
pub proof fn law_grants_follow_rules(
    rules: Seq<PermissionRuleView>,
    names: Seq<Seq<char>>,
    path: Seq<Seq<char>>,
    env: EnvironmentView,
)
    requires
        have_patterns(rules),
    ensures
        permits(forest_of(rules), names, path, env) <==> exists|j: int|
            0 <= j < rules.len() && (#[trigger] rules[j]).permission is Allow && applies(
                rules[j],
                names,
                path,
                env,
            ),
{
    let forest = forest_of(rules);
    if permits(forest, names, path, env) {
        let i = choose|i: int|
            0 <= i < names.len() && forest.contains_key(#[trigger] names[i])
                && forest[names[i]].grants(path, env);
        lemma_role_grants_follow_rules(rules, names[i], path, env);
        let j = choose|j: int|
            0 <= j < rules.len() && (#[trigger] rules[j]).role_name == names[i]
                && rules[j].permission is Allow && pattern_matches(rules[j].resource, path, env);
        assert(rules[j].permission is Allow && applies(rules[j], names, path, env));
    }
    if exists|j: int|
        0 <= j < rules.len() && (#[trigger] rules[j]).permission is Allow && applies(
            rules[j],
            names,
            path,
            env,
        ) {
        let j = choose|j: int|
            0 <= j < rules.len() && (#[trigger] rules[j]).permission is Allow && applies(
                rules[j],
                names,
                path,
                env,
            );
        let i = choose|i: int| 0 <= i < names.len() && names[i] == rules[j].role_name;
        lemma_role_grants_follow_rules(rules, names[i], path, env);
        assert(forest.contains_key(names[i]) && forest[names[i]].grants(path, env));
    }
}

/// The default is to deny: where no rule applies to the query of a role, be
/// it one of the role itself or of an ancestor, the role is not granted the
/// path.
pub proof fn law_fail_closed(
    roles: Map<Seq<char>, Seq<char>>,
    rules: Seq<PermissionRuleView>,
    environment: EnvironmentView,
    role: Seq<char>,
    path: Seq<Seq<char>>,
)
    requires
        have_patterns(rules),
        forall|j: int|
            0 <= j < rules.len() ==> !applies(
                #[trigger] rules[j],
                chain_of(roles, role),
                path,
                environment,
            ),
    ensures
        !(AccessCheckerView { roles, forest: forest_of(rules), environment }).allows(role, path),
{
    law_grants_follow_rules(rules, chain_of(roles, role), path, environment);
}

/// Building twice from the same rules gives the same answers: two checkers
/// whose graphs and forests were built from one list of role rules and one
/// list of permission rules, and that hold the same environment, agree on
/// every query.
pub proof fn law_rebuild_is_deterministic(
    first: AccessCheckerView,
    second: AccessCheckerView,
    role_rules: Seq<RuleView>,
    permission_rules: Seq<PermissionRuleView>,
    role: Seq<char>,
    path: Seq<Seq<char>>,
)
    requires
        graph_of(role_rules) == Ok::<Map<Seq<char>, Seq<char>>, Seq<char>>(first.roles),
        graph_of(role_rules) == Ok::<Map<Seq<char>, Seq<char>>, Seq<char>>(second.roles),
        first.forest == forest_of(permission_rules),
        second.forest == forest_of(permission_rules),
        first.environment == second.environment,
    ensures
        first == second,
        first.allows(role, path) == second.allows(role, path),
{
}

/// A role no rule gives a parent is its own chain, and is granted what its
/// own trie grants.
pub proof fn law_role_without_parent(
    checker: AccessCheckerView,
    role: Seq<char>,
    path: Seq<Seq<char>>,
)
    requires
        !checker.roles.contains_key(role),
    ensures
        resolves(checker.roles, role),
        chain_of(checker.roles, role) == seq![role],
        checker.allows(role, path) == grants_own(checker.forest, role, path, checker.environment),
{
    let alone = seq![role];
    assert(is_chain(checker.roles, role, alone));
    lemma_chain_unique(checker.roles, role, alone, chain_of(checker.roles, role));
    if grants_own(checker.forest, role, path, checker.environment) {
        assert(alone[0] == role);
    }
}

/// A role inherits from its parent: its chain is itself and then the chain
/// of the parent, and it is granted what its own trie grants and what its
/// parent is granted.
pub proof fn law_role_inherits(checker: AccessCheckerView, child: Seq<char>, path: Seq<Seq<char>>)
    requires
        checker.roles.contains_key(child),
        resolves(checker.roles, child),
    ensures
        resolves(checker.roles, checker.roles[child]),
        chain_of(checker.roles, child) == seq![child] + chain_of(
            checker.roles,
            checker.roles[child],
        ),
        checker.allows(child, path) == (grants_own(
            checker.forest,
            child,
            path,
            checker.environment,
        ) || checker.allows(checker.roles[child], path)),
{
    let roles = checker.roles;
    let parent = roles[child];
    let whole = chain_of(roles, child);
    let rest = whole.skip(1);
    assert(whole.len() > 1);
    assert(linked(roles, whole, 0));
    assert(is_chain(roles, parent, rest)) by {
        assert forall|i: int| 0 <= i < rest.len() - 1 implies #[trigger] linked(roles, rest, i) by {
            assert(linked(roles, whole, i + 1));
        }
    }
    lemma_chain_unique(roles, parent, rest, chain_of(roles, parent));
    assert(whole =~= seq![child] + rest);
    let forest = checker.forest;
    let env = checker.environment;
    if permits(forest, whole, path, env) {
        let i = choose|i: int|
            0 <= i < whole.len() && forest.contains_key(#[trigger] whole[i])
                && forest[whole[i]].grants(path, env);
        if i > 0 {
            assert(rest[i - 1] == whole[i]);
        }
    }
    if permits(forest, rest, path, env) {
        let i = choose|i: int|
            0 <= i < rest.len() && forest.contains_key(#[trigger] rest[i])
                && forest[rest[i]].grants(path, env);
        assert(whole[i + 1] == rest[i]);
    }
    if grants_own(forest, child, path, env) {
        assert(whole[0] == child);
    }
}

/// A role has one parent at most: building the graph fails exactly where two
/// rules name the same child, whether or not they name the same parent. Where
/// it succeeds, the graph holds each rule, and nothing else.
pub proof fn law_single_parent(rules: Seq<RuleView>)
    ensures
        graph_of(rules) is Err <==> exists|i: int, j: int|
            0 <= i < j < rules.len() && (#[trigger] rules[i]).child == (#[trigger] rules[j]).child,
        graph_of(rules) matches Ok(roles) ==> {
            &&& forall|j: int|
                0 <= j < rules.len() ==> roles.contains_key((#[trigger] rules[j]).child)
                    && roles[rules[j].child] == rules[j].parent
            &&& forall|name: Seq<char>| #[trigger]
                roles.contains_key(name) ==> exists|j: int|
                    0 <= j < rules.len() && (#[trigger] rules[j]).child == name
        },
    decreases rules.len(),
{
    if rules.len() > 0 {
        let before = rules.drop_last();
        let rule = rules.last();
        law_single_parent(before);
        let repeated_before = exists|i: int, j: int|
            0 <= i < j < before.len() && (#[trigger] before[i]).child == (
            #[trigger] before[j]).child;
        let repeated = exists|i: int, j: int|
            0 <= i < j < rules.len() && (#[trigger] rules[i]).child == (#[trigger] rules[j]).child;
        if repeated_before {
            let (i, j) = choose|i: int, j: int|
                0 <= i < j < before.len() && (#[trigger] before[i]).child == (
                #[trigger] before[j]).child;
            assert(rules[i].child == rules[j].child);
        }
        match graph_of(before) {
            Err(_) => {},
            Ok(roles) => {
                if roles.contains_key(rule.child) {
                    let i = choose|i: int|
                        0 <= i < before.len() && (#[trigger] before[i]).child == rule.child;
                    assert(rules[i].child == rules[rules.len() - 1].child);
                } else {
                    if repeated {
                        let (i, j) = choose|i: int, j: int|
                            0 <= i < j < rules.len() && (#[trigger] rules[i]).child == (
                            #[trigger] rules[j]).child;
                        assert(before[i] == rules[i]);
                        if j < before.len() {
                            assert(before[j] == rules[j]);
                        }
                    }
                    let grown = roles.insert(rule.child, rule.parent);
                    assert forall|j: int| 0 <= j < rules.len() implies grown.contains_key(
                        (#[trigger] rules[j]).child,
                    ) && grown[rules[j].child] == rules[j].parent by {
                        if j < before.len() {
                            assert(before[j] == rules[j]);
                        }
                    }
                    assert forall|name: Seq<char>| #[trigger]
                        grown.contains_key(name) implies exists|j: int|
                        0 <= j < rules.len() && (#[trigger] rules[j]).child == name by {
                        if name == rule.child {
                            assert(rules[rules.len() - 1].child == name);
                        } else {
                            let j = choose|j: int|
                                0 <= j < before.len() && (#[trigger] before[j]).child == name;
                            assert(rules[j].child == name);
                        }
                    }
                }
            },
        }
    }
}

/// The policy of the one rule `allow role pattern`.
pub open spec fn single_allow(role: Seq<char>, pattern: Seq<PermissionKindView>) -> Seq<
    PermissionRuleView,
> {
    seq![PermissionRuleView { permission: Permission::Allow, role_name: role, resource: pattern }]
}

/// Under the one rule `allow role pattern`, the role is granted exactly the
/// paths that the pattern matches.
pub proof fn law_single_rule(
    role: Seq<char>,
    pattern: Seq<PermissionKindView>,
    path: Seq<Seq<char>>,
    env: EnvironmentView,
)
    requires
        pattern.len() > 0,
    ensures
        permits(forest_of(single_allow(role, pattern)), seq![role], path, env) <==> pattern_matches(
            pattern,
            path,
            env,
        ),
{
    let rules = single_allow(role, pattern);
    let names = seq![role];
    assert(names[0] == role);
    law_grants_follow_rules(rules, names, path, env);
    if pattern_matches(pattern, path, env) {
        assert(rules[0].permission is Allow && applies(rules[0], names, path, env));
    }
}

/// The wildcard matches any one segment: under the one rule `allow role /*`
/// the role is granted every path of one segment, and no other path.
pub proof fn law_wildcard(role: Seq<char>, path: Seq<Seq<char>>, env: EnvironmentView)
    ensures
        permits(
            forest_of(single_allow(role, seq![PermissionKindView::Universal])),
            seq![role],
            path,
            env,
        ) <==> path.len() == 1,
{
    law_single_rule(role, seq![PermissionKindView::Universal], path, env);
}

/// A variable matches its binding only: under the one rule
/// `allow role /[name]` the role is granted the one-segment path that holds
/// the value bound to `name`, and nothing where `name` is not bound.
pub proof fn law_variable(
    role: Seq<char>,
    name: Seq<char>,
    path: Seq<Seq<char>>,
    env: EnvironmentView,
)
    ensures
        permits(
            forest_of(single_allow(role, seq![PermissionKindView::Variable(name)])),
            seq![role],
            path,
            env,
        ) <==> path.len() == 1 && env.variables.contains_key(name) && env.variables[name]
            == path[0],
{
    let pattern = seq![PermissionKindView::Variable(name)];
    law_single_rule(role, pattern, path, env);
    if path.len() == 1 {
        assert(pattern_matches(pattern, path, env) <==> pattern[0].matches(path[0], env));
    }
}

/// A named set matches its members only: under the one rule
/// `allow role /{name}` the role is granted the one-segment paths that hold
/// a member of the set `name`, and nothing where no such set is defined.
pub proof fn law_named_set(
    role: Seq<char>,
    name: Seq<char>,
    path: Seq<Seq<char>>,
    env: EnvironmentView,
)
    ensures
        permits(
            forest_of(single_allow(role, seq![PermissionKindView::NamedSet(name)])),
            seq![role],
            path,
            env,
        ) <==> path.len() == 1 && env.sets.contains_key(name) && env.sets[name].contains(path[0]),
{
    let pattern = seq![PermissionKindView::NamedSet(name)];
    law_single_rule(role, pattern, path, env);
    if path.len() == 1 {
        assert(pattern_matches(pattern, path, env) <==> pattern[0].matches(path[0], env));
    }
}

/// The pattern of literal segments `segments`.
pub open spec fn literals(segments: Seq<Seq<char>>) -> Seq<PermissionKindView> {
    Seq::new(segments.len(), |i: int| PermissionKindView::Literal(segments[i]))
}

/// Literal segments match themselves only: under the one rule
/// `allow role /s1/../sn` the role is granted the path `s1, .., sn` and no
/// other, neither a shorter nor a longer one.
pub proof fn law_literal_path(
    role: Seq<char>,
    segments: Seq<Seq<char>>,
    path: Seq<Seq<char>>,
    env: EnvironmentView,
)
    requires
        segments.len() > 0,
    ensures
        permits(forest_of(single_allow(role, literals(segments))), seq![role], path, env) <==> path
            == segments,
{
    let pattern = literals(segments);
    law_single_rule(role, pattern, path, env);
    if pattern_matches(pattern, path, env) {
        assert forall|i: int| 0 <= i < path.len() implies path[i] == segments[i] by {
            assert(pattern[i].matches(path[i], env));
        }
        assert(path =~= segments);
    }
}

} // verus!
