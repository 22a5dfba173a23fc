//! Role inheritance: which role is the parent of which, and the chain of
//! ancestors of a role.

use crate::string_map::StringMap;
use vstd::prelude::*;
use vstd::string::*;

verus! {

pub type RoleName = String;

/// A role-inheritance rule: `child` inherits from `parent`.
pub struct Rule {
    pub parent: RoleName,
    pub child: RoleName,
}

/// The mathematical content of a [`Rule`].
pub struct RuleView {
    pub parent: Seq<char>,
    pub child: Seq<char>,
}

impl View for Rule {
    type V = RuleView;

    open spec fn view(&self) -> RuleView {
        RuleView { parent: self.parent@, child: self.child@ }
    }
}

impl DeepView for Rule {
    type V = RuleView;

    open spec fn deep_view(&self) -> RuleView {
        self@
    }
}

impl Rule {
    /// The rule that makes `parent` the parent of `child`.
    pub fn new(parent: &str, child: &str) -> (rule: Rule)
        ensures
            rule@ == (RuleView { parent: parent@, child: child@ }),
    {
        Rule { parent: parent.to_string(), child: child.to_string() }
    }
}

/// The parent of each role that has one.
pub struct RoleGraph {
    roles: StringMap<String>,
    /// No more roles have a parent than this.
    count: usize,
}

/// What is reported of a rule whose child already has a parent.
pub open spec fn duplicate_parent_message(rule: RuleView) -> Seq<char> {
    "Child \""@ + rule.child + "\" already has parent \""@ + rule.parent + "\""@
}

/// The graph that a list of rules builds: each rule, in order, registers the
/// parent of its child. A rule whose child has a parent already is an error,
/// and the first such rule decides which.
pub open spec fn graph_of(rules: Seq<RuleView>) -> Result<Map<Seq<char>, Seq<char>>, Seq<char>>
    decreases rules.len(),
{
    if rules.len() == 0 {
        Ok(Map::empty())
    } else {
        match graph_of(rules.drop_last()) {
            Err(message) => Err(message),
            Ok(roles) => if roles.contains_key(rules.last().child) {
                Err(duplicate_parent_message(rules.last()))
            } else {
                Ok(roles.insert(rules.last().child, rules.last().parent))
            },
        }
    }
}

/// Whether `names[i + 1]` is the registered parent of `names[i]`.
pub open spec fn linked(roles: Map<Seq<char>, Seq<char>>, names: Seq<Seq<char>>, i: int) -> bool {
    roles.contains_key(names[i]) && roles[names[i]] == names[i + 1]
}

/// Whether `names` is the ancestor chain of `role`: it starts with `role`,
/// each further name is the parent of the one before, and the last has no
/// parent.
pub open spec fn is_chain(
    roles: Map<Seq<char>, Seq<char>>,
    role: Seq<char>,
    names: Seq<Seq<char>>,
) -> bool {
    &&& names.len() > 0
    &&& names[0] == role
    &&& forall|i: int| 0 <= i < names.len() - 1 ==> #[trigger] linked(roles, names, i)
    &&& !roles.contains_key(names.last())
}

/// Whether `role` has an ancestor chain: whether walking from `role` from
/// parent to parent ends.
pub open spec fn resolves(roles: Map<Seq<char>, Seq<char>>, role: Seq<char>) -> bool {
    exists|names: Seq<Seq<char>>| is_chain(roles, role, names)
}

/// The ancestor chain of `role`, where it has one.
pub open spec fn chain_of(roles: Map<Seq<char>, Seq<char>>, role: Seq<char>) -> Seq<Seq<char>> {
    choose|names: Seq<Seq<char>>| is_chain(roles, role, names)
}

/// Whether each name of `names` but the last has the next one as its parent:
/// `names` is a walk from parent to parent, which may go on after its end.
pub open spec fn is_walk(roles: Map<Seq<char>, Seq<char>>, names: Seq<Seq<char>>) -> bool {
    forall|i: int| 0 <= i < names.len() - 1 ==> #[trigger] linked(roles, names, i)
}

/// Two walks from one role agree as far as both go.
proof fn lemma_walks_agree(
    roles: Map<Seq<char>, Seq<char>>,
    first: Seq<Seq<char>>,
    second: Seq<Seq<char>>,
    i: int,
)
    requires
        is_walk(roles, first),
        is_walk(roles, second),
        0 <= i < first.len(),
        i < second.len(),
        first[0] == second[0],
    ensures
        first[i] == second[i],
    decreases i,
{
    if i > 0 {
        lemma_walks_agree(roles, first, second, i - 1);
        assert(linked(roles, first, i - 1));
        assert(linked(roles, second, i - 1));
    }
}

/// A role has at most one ancestor chain.
pub proof fn lemma_chain_unique(
    roles: Map<Seq<char>, Seq<char>>,
    role: Seq<char>,
    first: Seq<Seq<char>>,
    second: Seq<Seq<char>>,
)
    requires
        is_chain(roles, role, first),
        is_chain(roles, role, second),
    ensures
        first == second,
{
    if first.len() < second.len() {
        lemma_walks_agree(roles, first, second, first.len() - 1);
        assert(linked(roles, second, first.len() - 1));
    }
    if second.len() < first.len() {
        lemma_walks_agree(roles, first, second, second.len() - 1);
        assert(linked(roles, first, second.len() - 1));
    }
    assert forall|i: int| 0 <= i < first.len() implies first[i] == second[i] by {
        lemma_walks_agree(roles, first, second, i);
    }
}

/// A walk that comes back to a name repeats from there on.
proof fn lemma_walk_repeats(
    roles: Map<Seq<char>, Seq<char>>,
    names: Seq<Seq<char>>,
    i: int,
    j: int,
    k: int,
)
    requires
        is_walk(roles, names),
        0 <= i < j,
        0 <= k,
        j + k < names.len(),
        names[i] == names[j],
    ensures
        names[i + k] == names[j + k],
    decreases k,
{
    if k > 0 {
        lemma_walk_repeats(roles, names, i, j, k - 1);
        assert(linked(roles, names, i + k - 1));
        assert(linked(roles, names, j + k - 1));
    }
}

/// No name occurs twice in an ancestor chain.
pub proof fn lemma_chain_has_no_duplicates(
    roles: Map<Seq<char>, Seq<char>>,
    role: Seq<char>,
    names: Seq<Seq<char>>,
)
    requires
        is_chain(roles, role, names),
    ensures
        names.no_duplicates(),
{
    assert forall|i: int, j: int|
        0 <= i < names.len() && 0 <= j < names.len() && i != j implies names[i] != names[j] by {
        if names[i] == names[j] {
            let low = if i < j { i } else { j };
            let high = if i < j { j } else { i };
            let k = names.len() - 1 - high;
            lemma_walk_repeats(roles, names, low, high, k);
            assert(linked(roles, names, low + k));
        }
    }
}

/// An ancestor chain is no longer than the number of roles with a parent,
/// and one more.
pub proof fn lemma_chain_is_short(
    roles: Map<Seq<char>, Seq<char>>,
    role: Seq<char>,
    names: Seq<Seq<char>>,
)
    requires
        is_chain(roles, role, names),
        roles.dom().finite(),
    ensures
        names.len() <= roles.dom().len() + 1,
{
    lemma_chain_has_no_duplicates(roles, role, names);
    let inner = names.drop_last();
    inner.unique_seq_to_set();
    assert(inner.to_set().subset_of(roles.dom())) by {
        assert forall|name: Seq<char>| inner.to_set().contains(name) implies roles.dom().contains(
            name,
        ) by {
            let i = choose|i: int| 0 <= i < inner.len() && inner[i] == name;
            assert(linked(roles, names, i));
        }
    }
    vstd::set_lib::lemma_len_subset(inner.to_set(), roles.dom());
}

/// Once a rule has failed, the rules after it change nothing.
proof fn lemma_error_stays(rules: Seq<RuleView>, n: int)
    requires
        0 <= n <= rules.len(),
        graph_of(rules.take(n)) is Err,
    ensures
        graph_of(rules) == graph_of(rules.take(n)),
    decreases rules.len() - n,
{
    if n < rules.len() {
        assert(rules.take(n + 1).drop_last() == rules.take(n));
        lemma_error_stays(rules, n + 1);
    } else {
        assert(rules.take(n) == rules);
    }
}

/// The parents as sequences of characters.
pub open spec fn parents(roles: Map<Seq<char>, String>) -> Map<Seq<char>, Seq<char>> {
    Map::new(|name: Seq<char>| roles.contains_key(name), |name: Seq<char>| roles[name]@)
}

impl View for RoleGraph {
    type V = Map<Seq<char>, Seq<char>>;

    closed spec fn view(&self) -> Map<Seq<char>, Seq<char>> {
        parents(self.roles@)
    }
}

/// The text reported of `rule`, whose child already has a parent.
fn duplicate_parent(rule: &Rule) -> (message: String)
    ensures
        message@ == duplicate_parent_message(rule@),
{
    let mut message = "Child \"".to_string();
    message.append(rule.child.as_str());
    message.append("\" already has parent \"");
    message.append(rule.parent.as_str());
    message.append("\"");
    message
}

impl RoleGraph {
    /// The roles with a parent are finitely many, and no more than counted.
    #[verifier::type_invariant]
    spec fn counted(self) -> bool {
        self.roles@.dom().finite() && self.roles@.dom().len() <= self.count
    }

    /// Builds the graph for `rules`. A role may have one parent only: the
    /// first rule that names a child a second time fails the construction,
    /// whether or not it names the same parent.
    pub fn from_rules(rules: Vec<Rule>) -> (result: Result<RoleGraph, String>)
        ensures
            match graph_of(rules.deep_view()) {
                Ok(roles) => result matches Ok(graph) && graph@ == roles,
                Err(message) => result matches Err(text) && text@ == message,
            },
    {
        let mut roles: StringMap<String> = StringMap::new();
        let mut count: usize = 0;
        let total = rules.len();
        let ghost all = rules.deep_view();
        for rule in it: rules.into_iter()
            invariant
                it.seq() == rules@,
                all == rules.deep_view(),
                count <= it.index() <= total == rules@.len(),
                roles@.dom().finite(),
                roles@.dom().len() <= count,
                graph_of(all.take(it.index())) matches Ok(built) && built == parents(roles@),
        {
            let ghost done = all.take(it.index() + 1);
            assert(done.drop_last() == all.take(it.index()));
            if roles.contains_key(rule.child.as_str()) {
                proof {
                    lemma_error_stays(all, it.index() + 1);
                }
                return Err(duplicate_parent(&rule));
            } else {
                roles.insert(rule.child, rule.parent);
                count += 1;
            }
        }
        proof {
            assert(all.take(rules@.len() as int) == all);
        }
        Ok(RoleGraph { roles, count })
    }

    /// Whether the walk from `first_name` from parent to parent ends:
    /// whether the role has an ancestor chain. The walk is given up after as
    /// many steps as there are roles with a parent: no ancestor chain is
    /// longer.
    pub fn chain_ends(&self, first_name: &str) -> (ends: bool)
        ensures
            ends == resolves(self@, first_name@),
    {
        proof {
            use_type_invariant(self);
            assert(self@.dom() =~= self.roles@.dom());
        }
        let ghost mut walked: Seq<Seq<char>> = seq![first_name@];
        let mut to_resolve = first_name;
        let mut steps: usize = 0;
        loop
            invariant
                self@.dom().finite(),
                self@.dom().len() <= self.count,
                steps <= self.count,
                walked.len() == steps + 1,
                walked[0] == first_name@,
                walked.last() == to_resolve@,
                is_walk(self@, walked),
            decreases self.count - steps,
        {
            match self.roles.get(to_resolve) {
                Some(name) => {
                    if steps == self.count {
                        proof {
                            if resolves(self@, first_name@) {
                                let chain = chain_of(self@, first_name@);
                                lemma_chain_is_short(self@, first_name@, chain);
                                lemma_walks_agree(self@, chain, walked, chain.len() - 1);
                                if chain.len() - 1 < steps {
                                    assert(linked(self@, walked, chain.len() - 1));
                                }
                            }
                        }
                        return false;
                    }
                    proof {
                        let ghost before = walked;
                        walked = walked.push(name@);
                        assert forall|i: int| 0 <= i < walked.len() - 1 implies #[trigger] linked(
                            self@,
                            walked,
                            i,
                        ) by {
                            if i < before.len() - 1 {
                                assert(linked(self@, before, i));
                            }
                        }
                    }
                    to_resolve = name.as_str();
                    steps += 1;
                },
                None => {
                    assert(is_chain(self@, first_name@, walked));
                    return true;
                },
            }
        }
    }

    /// The ancestor chain of `first_name`, or `None` where the role has
    /// none because it inherits from itself through a cycle.
    pub fn try_get_group_names(&self, first_name: &str) -> (found: Option<Vec<RoleName>>)
        ensures
            match found {
                Some(names) => resolves(self@, first_name@) && names.deep_view() == chain_of(
                    self@,
                    first_name@,
                ),
                None => !resolves(self@, first_name@),
            },
    {
        if self.chain_ends(first_name) {
            Some(self.get_group_names(first_name))
        } else {
            None
        }
    }

    /// The ancestor chain of `first_name`, most specific first: the role
    /// itself, its parent, the parent of that, and so on to a role without a
    /// parent. A role that no rule names resolves to itself alone.
    ///
    /// The walk ends only where the chain does: the caller must not ask for a
    /// role that inherits from itself through a cycle. See
    /// [`RoleGraph::try_get_group_names`].
    pub fn get_group_names(&self, first_name: &str) -> (names: Vec<RoleName>)
        requires
            resolves(self@, first_name@),
        ensures
            is_chain(self@, first_name@, names.deep_view()),
            names.deep_view() == chain_of(self@, first_name@),
    {
        let ghost target = chain_of(self@, first_name@);
        let mut names: Vec<String> = Vec::new();
        names.push(first_name.to_string());
        let mut to_resolve = first_name;
        loop
            invariant
                is_chain(self@, first_name@, target),
                0 < names@.len() <= target.len(),
                names.deep_view() == target.take(names@.len() as int),
                to_resolve@ == target[names@.len() - 1],
            ensures
                names.deep_view() == target,
            decreases target.len() - names@.len(),
        {
            let ghost reached = names@.len() as int;
            match self.roles.get(to_resolve) {
                Some(name) => {
                    proof {
                        if reached < target.len() {
                            assert(linked(self@, target, reached - 1));
                        }
                    }
                    names.push(name.clone());
                    to_resolve = name.as_str();
                },
                None => {
                    proof {
                        if reached < target.len() {
                            assert(linked(self@, target, reached - 1));
                        }
                    }
                    break;
                },
            }
        }
        names
    }
}

} // verus!
