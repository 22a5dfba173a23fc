//! The permission tree: one matching trie for each role.

use crate::access_checker::{Environment, EnvironmentView};
use crate::parse::{
    Permission as ParsedPermission, PermissionKind, PermissionKindView, PermissionRule,
    PermissionRuleView, Resource,
};
use crate::roles::RoleName;
use crate::string_map::StringMap;
use vstd::prelude::*;

verus! {

/// The effect attached to a node of a trie. Only the node that ends a rule's
/// pattern carries `Allow` or `Deny`; the nodes on the way to it are `Unset`.
#[derive(Copy, Clone)]
pub enum Permission {
    Allow,
    Deny,
    Unset,
}

impl From<Permission> for bool {
    /// Whether the effect grants: only `Allow` does.
    fn from(permission: Permission) -> (granted: bool) {
        match permission {
            Permission::Allow => true,
            _ => false,
        }
    }
}

impl vstd::std_specs::convert::FromSpecImpl<Permission> for bool {
    open spec fn obeys_from_spec() -> bool {
        true
    }

    open spec fn from_spec(permission: Permission) -> bool {
        permission is Allow
    }
}

/// The effect that a node takes from the rule that ends in it.
pub open spec fn effect_of(permission: ParsedPermission) -> Permission {
    match permission {
        ParsedPermission::Allow => Permission::Allow,
        ParsedPermission::Deny => Permission::Deny,
    }
}

impl PermissionKindView {
    /// Whether this pattern segment matches one segment of a path in `env`.
    /// A variable without a binding and a set that is not defined match
    /// nothing.
    pub open spec fn matches(self, segment: Seq<char>, env: EnvironmentView) -> bool {
        match self {
            PermissionKindView::Literal(name) => segment == name,
            PermissionKindView::Variable(name) => env.variables.contains_key(name)
                && env.variables[name] == segment,
            PermissionKindView::NamedSet(name) => env.sets.contains_key(name)
                && env.sets[name].contains(segment),
            PermissionKindView::Universal => true,
        }
    }
}

/// A node of a matching trie: the pattern for one segment of a path, the
/// effect of a path that ends here, and the nodes that match the next segment.
pub struct Node {
    kind: PermissionKind,
    permission: Permission,
    sub_nodes: Vec<Node>,
}

/// The mathematical content of a [`Node`].
pub struct NodeView {
    pub kind: PermissionKindView,
    pub permission: Permission,
    pub sub_nodes: Seq<NodeView>,
}

/// The head of the trie of one role. It matches no segment itself.
pub struct RootNode {
    permission: Permission,
    sub_nodes: Vec<Node>,
}

/// The mathematical content of a [`RootNode`].
pub struct RootNodeView {
    pub permission: Permission,
    pub sub_nodes: Seq<NodeView>,
}

/// Whether one of `nodes` grants `path`.
pub open spec fn any_grants(
    nodes: Seq<NodeView>,
    path: Seq<Seq<char>>,
    env: EnvironmentView,
) -> bool
    decreases path.len(), 1nat,
{
    exists|i: int| 0 <= i < nodes.len() && (#[trigger] nodes[i]).grants(path, env)
}

impl NodeView {
    /// Whether the trie under this node grants `path`: the node matches the
    /// first segment, and then either the path ends here and the node's effect
    /// is `Allow`, or some child grants the rest of the path.
    pub open spec fn grants(self, path: Seq<Seq<char>>, env: EnvironmentView) -> bool
        decreases path.len(), 0nat,
    {
        &&& path.len() > 0
        &&& self.kind.matches(path[0], env)
        &&& if path.len() == 1 {
            self.permission is Allow
        } else {
            any_grants(self.sub_nodes, path.skip(1), env)
        }
    }

    /// This node with `node` as its new last child.
    pub open spec fn with_sub_node(self, node: NodeView) -> NodeView {
        NodeView {
            kind: self.kind,
            permission: self.permission,
            sub_nodes: self.sub_nodes.push(node),
        }
    }
}

impl RootNodeView {
    /// The root that a role gets with its first rule: it denies, and has no
    /// children yet.
    pub open spec fn empty() -> RootNodeView {
        RootNodeView { permission: Permission::Deny, sub_nodes: Seq::empty() }
    }

    /// Whether the trie under this root grants `path`: some child does.
    pub open spec fn grants(self, path: Seq<Seq<char>>, env: EnvironmentView) -> bool {
        any_grants(self.sub_nodes, path, env)
    }

    /// This root with `node` as its new last child.
    pub open spec fn with_sub_node(self, node: NodeView) -> RootNodeView {
        RootNodeView { permission: self.permission, sub_nodes: self.sub_nodes.push(node) }
    }
}

/// The chain of nodes that one rule adds to a trie: one node for each segment
/// of `pattern`, each the only child of the one before. The last carries
/// `effect`, the others are `Unset`.
pub open spec fn chain_node(pattern: Seq<PermissionKindView>, effect: Permission) -> NodeView
    recommends
        pattern.len() > 0,
    decreases pattern.len(),
{
    if pattern.len() <= 1 {
        NodeView { kind: pattern[0], permission: effect, sub_nodes: Seq::empty() }
    } else {
        NodeView {
            kind: pattern[0],
            permission: Permission::Unset,
            sub_nodes: seq![chain_node(pattern.skip(1), effect)],
        }
    }
}

/// The views of a list of nodes.
pub open spec fn node_views(nodes: Seq<Node>) -> Seq<NodeView> {
    Seq::new(nodes.len(), |i: int| nodes[i]@)
}

impl Node {
    /// The content of this node: its own fields, and the content of each child.
    closed spec fn content(self) -> NodeView
        decreases self,
    {
        NodeView {
            kind: self.kind@,
            permission: self.permission,
            sub_nodes: Seq::new(
                self.sub_nodes@.len(),
                |i: int|
                    if 0 <= i < self.sub_nodes@.len() {
                        self.sub_nodes@[i].content()
                    } else {
                        arbitrary()
                    },
            ),
        }
    }
}

impl View for Node {
    type V = NodeView;

    closed spec fn view(&self) -> NodeView {
        self.content()
    }
}

impl View for RootNode {
    type V = RootNodeView;

    closed spec fn view(&self) -> RootNodeView {
        RootNodeView { permission: self.permission, sub_nodes: node_views(self.sub_nodes@) }
    }
}

impl Node {
    /// What the view of a node is in terms of its fields.
    proof fn lemma_view(self)
        ensures
            self@.kind == self.kind@,
            self@.permission == self.permission,
            self@.sub_nodes == node_views(self.sub_nodes@),
    {
        assert forall|i: int| 0 <= i < self.sub_nodes@.len() implies self@.sub_nodes[i]
            == node_views(self.sub_nodes@)[i] by {}
    }
}

/// Whether `members` holds `segment`.
fn contains_segment(members: &Vec<String>, segment: &String) -> (found: bool)
    ensures
        found == members.deep_view().contains(segment@),
{
    let mut i: usize = 0;
    while i < members.len()
        invariant
            i <= members@.len(),
            forall|j: int| 0 <= j < i ==> members@[j]@ != segment@,
        decreases members@.len() - i,
    {
        if members[i] == *segment {
            assert(members.deep_view()[i as int] == segment@);
            return true;
        }
        i += 1;
    }
    false
}

/// Whether the pattern `kind` matches `segment` in `environment`.
fn kind_matches(
    kind: &PermissionKind,
    segment: &String,
    environment: &Environment,
) -> (matched: bool)
    ensures
        matched == kind@.matches(segment@, environment@),
{
    match kind {
        PermissionKind::Literal(resource_name) => *segment == *resource_name,
        PermissionKind::Variable(variable_name) => {
            match environment.variables.get(variable_name.as_str()) {
                Some(resource_name) => *segment == *resource_name,
                None => false,
            }
        },
        PermissionKind::NamedSet(set_name) => {
            match environment.sets.get(set_name.as_str()) {
                Some(members) => contains_segment(members, segment),
                None => false,
            }
        },
        PermissionKind::Universal => true,
    }
}

/// Whether one of `nodes` grants `object`.
fn any_has_permission_for(
    nodes: &Vec<Node>,
    object: &[String],
    environment: &Environment,
) -> (granted: bool)
    ensures
        granted == any_grants(node_views(nodes@), object.deep_view(), environment@),
    decreases object@.len(), 1nat,
{
    let mut i: usize = 0;
    while i < nodes.len()
        invariant
            i <= nodes@.len(),
            forall|j: int|
                0 <= j < i ==> !(#[trigger] node_views(nodes@)[j]).grants(
                    object.deep_view(),
                    environment@,
                ),
        decreases nodes@.len() - i,
    {
        if nodes[i].has_permission_for(object, environment) {
            assert(node_views(nodes@)[i as int] == nodes@[i as int]@);
            return true;
        }
        i += 1;
    }
    false
}

impl Node {
    /// Whether the trie under this node grants `object` in `environment`. An
    /// empty path is granted by no node.
    pub fn has_permission_for(
        &self,
        object: &[String],
        environment: &Environment,
    ) -> (granted: bool)
        ensures
            granted == self@.grants(object.deep_view(), environment@),
        decreases object@.len(), 0nat,
    {
        if object.len() == 0 {
            return false;
        }
        if kind_matches(&self.kind, &object[0], environment) {
            if object.len() == 1 {
                self.permission.into()
            } else {
                let rest = &object[1..object.len()];
                assert(rest.deep_view() == object.deep_view().skip(1));
                self.sub_node_has_permission_for(rest, environment)
            }
        } else {
            false
        }
    }

    /// Whether one of this node's children grants `object`.
    pub fn sub_node_has_permission_for(
        &self,
        object: &[String],
        environment: &Environment,
    ) -> (granted: bool)
        ensures
            granted == any_grants(self@.sub_nodes, object.deep_view(), environment@),
        decreases object@.len(), 2nat,
    {
        any_has_permission_for(self.sub_nodes(), object, environment)
    }

    /// Adds `node` as the last child.
    pub fn add_sub_node(&mut self, node: Node)
        ensures
            final(self)@ == old(self)@.with_sub_node(node@),
    {
        self.sub_nodes.push(node);
        proof {
            old(self).lemma_view();
            self.lemma_view();
            assert(self@.sub_nodes =~= old(self)@.sub_nodes.push(node@));
        }
    }

    /// The children, in the order in which they were added.
    pub fn sub_nodes(&self) -> (nodes: &Vec<Node>)
        ensures
            node_views(nodes@) == self@.sub_nodes,
    {
        proof {
            self.lemma_view();
        }
        &self.sub_nodes
    }

    /// The chain of nodes for a rule with effect `parsed_permission` on the
    /// pattern `resource`.
    fn chain(parsed_permission: ParsedPermission, resource: Resource) -> (node: Node)
        requires
            resource@.len() > 0,
        ensures
            node@ == chain_node(resource.deep_view(), effect_of(parsed_permission)),
        decreases resource@.len(), 0nat,
    {
        let mut resource = resource;
        let ghost pattern = resource.deep_view();
        let at_deepest_level = resource.len() == 1;
        let permission = if at_deepest_level {
            match parsed_permission {
                ParsedPermission::Allow => Permission::Allow,
                ParsedPermission::Deny => Permission::Deny,
            }
        } else {
            Permission::Unset
        };
        let permission_kind = resource.remove(0);
        assert(resource.deep_view() == pattern.skip(1));
        let mut new_node = Node { kind: permission_kind, permission, sub_nodes: Vec::new() };
        assert(new_node@.sub_nodes == Seq::<NodeView>::empty());
        if !at_deepest_level {
            new_node.add_permission_rule(parsed_permission, resource);
            assert(new_node@.sub_nodes == seq![
                chain_node(pattern.skip(1), effect_of(parsed_permission)),
            ]);
        }
        new_node
    }

    /// Adds below this node the chain of nodes for a rule with effect
    /// `parsed_permission` on the pattern `resource`. Nodes are not shared
    /// between rules: each rule gets a chain of its own.
    pub fn add_permission_rule(&mut self, parsed_permission: ParsedPermission, resource: Resource)
        requires
            resource@.len() > 0,
        ensures
            final(self)@ == old(self)@.with_sub_node(
                chain_node(resource.deep_view(), effect_of(parsed_permission)),
            ),
        decreases resource@.len(), 1nat,
    {
        let new_node = Node::chain(parsed_permission, resource);
        self.add_sub_node(new_node);
    }
}

impl RootNode {
    /// Whether the trie under this root grants `object` in `environment`.
    pub fn has_permission_for(
        &self,
        object: &[String],
        environment: &Environment,
    ) -> (granted: bool)
        ensures
            granted == self@.grants(object.deep_view(), environment@),
    {
        self.sub_node_has_permission_for(object, environment)
    }

    /// Whether one of this root's children grants `object`.
    pub fn sub_node_has_permission_for(
        &self,
        object: &[String],
        environment: &Environment,
    ) -> (granted: bool)
        ensures
            granted == any_grants(self@.sub_nodes, object.deep_view(), environment@),
    {
        any_has_permission_for(self.sub_nodes(), object, environment)
    }

    /// Adds `node` as the last child.
    pub fn add_sub_node(&mut self, node: Node)
        ensures
            final(self)@ == old(self)@.with_sub_node(node@),
    {
        self.sub_nodes.push(node);
        assert(self@.sub_nodes == old(self)@.sub_nodes.push(node@));
    }

    /// The children, in the order in which they were added.
    pub fn sub_nodes(&self) -> (nodes: &Vec<Node>)
        ensures
            node_views(nodes@) == self@.sub_nodes,
    {
        &self.sub_nodes
    }

    /// Adds below this root the chain of nodes for a rule with effect
    /// `parsed_permission` on the pattern `resource`.
    pub fn add_permission_rule(&mut self, parsed_permission: ParsedPermission, resource: Resource)
        requires
            resource@.len() > 0,
        ensures
            final(self)@ == old(self)@.with_sub_node(
                chain_node(resource.deep_view(), effect_of(parsed_permission)),
            ),
    {
        let new_node = Node::chain(parsed_permission, resource);
        self.add_sub_node(new_node);
    }
}

/// The forest of tries, one for each role that a rule names.
pub struct PermissionTree {
    root_nodes: StringMap<RootNode>,
}

/// The forest that a list of permission rules builds. Each rule, in order,
/// gives its role an empty root if the role has none yet, and then adds its
/// chain of nodes as the last child of that root.
pub open spec fn forest_of(rules: Seq<PermissionRuleView>) -> Map<Seq<char>, RootNodeView>
    decreases rules.len(),
{
    if rules.len() == 0 {
        Map::empty()
    } else {
        let forest = forest_of(rules.drop_last());
        let rule = rules.last();
        let root = if forest.contains_key(rule.role_name) {
            forest[rule.role_name]
        } else {
            RootNodeView::empty()
        };
        forest.insert(
            rule.role_name,
            root.with_sub_node(chain_node(rule.resource, effect_of(rule.permission))),
        )
    }
}

/// Whether each of `rules` has a pattern of at least one segment.
pub open spec fn have_patterns(rules: Seq<PermissionRuleView>) -> bool {
    forall|i: int| 0 <= i < rules.len() ==> (#[trigger] rules[i]).resource.len() > 0
}

/// Whether `forest` grants `path` to one of the roles `names`.
pub open spec fn permits(
    forest: Map<Seq<char>, RootNodeView>,
    names: Seq<Seq<char>>,
    path: Seq<Seq<char>>,
    env: EnvironmentView,
) -> bool {
    exists|i: int|
        0 <= i < names.len() && forest.contains_key(#[trigger] names[i]) && forest[names[i]].grants(
            path,
            env,
        )
}

/// The views of the roots of a forest.
pub open spec fn root_views(roots: Map<Seq<char>, RootNode>) -> Map<Seq<char>, RootNodeView> {
    Map::new(|name: Seq<char>| roots.contains_key(name), |name: Seq<char>| roots[name]@)
}

impl View for PermissionTree {
    type V = Map<Seq<char>, RootNodeView>;

    closed spec fn view(&self) -> Map<Seq<char>, RootNodeView> {
        root_views(self.root_nodes@)
    }
}

impl PermissionTree {
    /// Builds the forest for `rules`. A rule with an empty pattern is no rule:
    /// the caller must not hand one in.
    pub fn from_rules(rules: Vec<PermissionRule>) -> (tree: PermissionTree)
        requires
            have_patterns(rules.deep_view()),
        ensures
            tree@ == forest_of(rules.deep_view()),
    {
        let mut roots: StringMap<RootNode> = StringMap::new();
        let ghost all = rules.deep_view();
        for rule in it: rules.into_iter()
            invariant
                it.seq() == rules@,
                all == rules.deep_view(),
                have_patterns(all),
                root_views(roots@) == forest_of(all.take(it.index())),
        {
            assert(all[it.index()] == rule@);
            if !roots.contains_key(rule.role_name.as_str()) {
                let root = RootNode { permission: Permission::Deny, sub_nodes: Vec::new() };
                assert(root@.sub_nodes =~= Seq::<NodeView>::empty());
                roots.insert(rule.role_name.clone(), root);
            }
            roots.get_mut(rule.role_name.as_str()).unwrap().add_permission_rule(
                rule.permission,
                rule.resource,
            );
            assert(all.take(it.index() + 1).drop_last() == all.take(it.index()));
        }
        assert(all.take(rules@.len() as int) == all);
        PermissionTree { root_nodes: roots }
    }

    /// Whether the forest grants `resource` to one of the roles `names` in
    /// `environment`. A role without a root is granted nothing.
    pub fn has_permission_for(
        &self,
        names: Vec<RoleName>,
        resource: Vec<String>,
        environment: &Environment,
    ) -> (granted: bool)
        ensures
            granted == permits(self@, names.deep_view(), resource.deep_view(), environment@),
    {
        let mut i: usize = 0;
        while i < names.len()
            invariant
                i <= names@.len(),
                forall|j: int|
                    0 <= j < i ==> !(self@.contains_key(#[trigger] names.deep_view()[j])
                        && self@[names.deep_view()[j]].grants(
                        resource.deep_view(),
                        environment@,
                    )),
            decreases names@.len() - i,
        {
            let granted = match self.root_nodes.get(names[i].as_str()) {
                Some(root) => root.has_permission_for(resource.as_slice(), environment),
                None => false,
            };
            if granted {
                assert(names.deep_view()[i as int] == names@[i as int]@);
                return true;
            }
            i += 1;
        }
        false
    }
}

} // verus!
