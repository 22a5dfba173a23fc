//! The evaluation environment and the facade that answers permission queries.

use crate::permissions::{permits, PermissionTree, RootNodeView};
use crate::roles::{chain_of, resolves, RoleGraph, RoleName};
use crate::string_map::StringMap;
use vstd::prelude::*;

verus! {

/// What variable and set patterns are resolved against: a single bound value
/// for each variable name, and a collection of members for each set name.
pub struct Environment {
    pub variables: StringMap<String>,
    pub sets: StringMap<Vec<String>>,
}

/// The mathematical content of an [`Environment`].
pub struct EnvironmentView {
    pub variables: Map<Seq<char>, Seq<char>>,
    pub sets: Map<Seq<char>, Seq<Seq<char>>>,
}

impl View for Environment {
    type V = EnvironmentView;

    open spec fn view(&self) -> EnvironmentView {
        EnvironmentView {
            variables: self.variables@.map_values(|value: String| value@),
            sets: self.sets@.map_values(|members: Vec<String>| members.deep_view()),
        }
    }
}

impl EnvironmentView {
    /// The environment that binds no variable and defines no set.
    pub open spec fn empty() -> EnvironmentView {
        EnvironmentView { variables: Map::empty(), sets: Map::empty() }
    }
}

/// Answers permission queries from a role graph, a permission tree and the
/// environment that it holds.
pub struct AccessChecker {
    role_graph: RoleGraph,
    permission_tree: PermissionTree,
    environment: Environment,
}

/// The mathematical content of an [`AccessChecker`].
pub struct AccessCheckerView {
    pub roles: Map<Seq<char>, Seq<char>>,
    pub forest: Map<Seq<char>, RootNodeView>,
    pub environment: EnvironmentView,
}

impl AccessCheckerView {
    /// Whether `role` may reach `path`: the trie of the role itself or of one
    /// of its ancestors grants it in the environment that is held.
    pub open spec fn allows(self, role: Seq<char>, path: Seq<Seq<char>>) -> bool {
        permits(self.forest, chain_of(self.roles, role), path, self.environment)
    }
}

impl View for AccessChecker {
    type V = AccessCheckerView;

    closed spec fn view(&self) -> AccessCheckerView {
        AccessCheckerView {
            roles: self.role_graph@,
            forest: self.permission_tree@,
            environment: self.environment@,
        }
    }
}

impl AccessChecker {
    /// A checker over `role_graph` and `permission_tree`, with an empty
    /// environment.
    pub fn new(role_graph: RoleGraph, permission_tree: PermissionTree) -> (checker: AccessChecker)
        ensures
            checker@ == (AccessCheckerView {
                roles: role_graph@,
                forest: permission_tree@,
                environment: EnvironmentView::empty(),
            }),
    {
        let environment = Environment { variables: StringMap::new(), sets: StringMap::new() };
        assert(environment@.variables =~= Map::empty());
        assert(environment@.sets =~= Map::empty());
        AccessChecker { role_graph, permission_tree, environment }
    }

    /// Whether the role `name` may reach `resource`. The role's ancestor chain
    /// is resolved first; access is granted where the trie of any role of the
    /// chain grants it, and denied otherwise.
    ///
    /// The caller must not ask for a role that inherits from itself through a
    /// cycle: see [`AccessChecker::try_has_permission_for`].
    pub fn has_permission_for(&self, name: RoleName, resource: Vec<String>) -> (granted: bool)
        requires
            resolves(self@.roles, name@),
        ensures
            granted == self@.allows(name@, resource.deep_view()),
    {
        let names = self.role_graph.get_group_names(name.as_str());
        self.permission_tree.has_permission_for(names, resource, &self.environment)
    }

    /// Whether the role `name` may reach `resource`, or `None` where the
    /// question has no answer because the role inherits from itself through a
    /// cycle.
    pub fn try_has_permission_for(&self, name: RoleName, resource: Vec<String>) -> (answer: Option<
        bool,
    >)
        ensures
            match answer {
                Some(granted) => resolves(self@.roles, name@) && granted == self@.allows(
                    name@,
                    resource.deep_view(),
                ),
                None => !resolves(self@.roles, name@),
            },
    {
        if self.role_graph.chain_ends(name.as_str()) {
            Some(self.has_permission_for(name, resource))
        } else {
            None
        }
    }

    /// Replaces the environment that is held. The graph and the tree stay as
    /// they are.
    pub fn set_environment(&mut self, environment: Environment)
        ensures
            final(self)@ == (AccessCheckerView { environment: environment@, ..old(self)@ }),
    {
        self.environment = environment;
    }
}

} // verus!
