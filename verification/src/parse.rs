//! The structured rules of a policy, and the reader that turns policy text
//! into them.

use crate::access_checker::{AccessChecker, AccessCheckerView, EnvironmentView};
use crate::permissions::{forest_of, have_patterns, PermissionTree};
use crate::roles::{graph_of, RoleGraph, Rule as RoleRule, RuleView as RoleRuleView};
use crate::text::{
    chars_of, lemma_split_by_nonempty, lines, lines_of, pieces, pieces_of, same_text, split_by,
    text_of, words, words_of, Separator,
};
use vstd::prelude::*;
use vstd::string::*;

verus! {

pub type RoleName = String;

pub type Resource = Vec<PermissionKind>;

/// The effect that a permission rule asks for.
#[derive(Copy, Clone, Debug, Eq, PartialEq)]
pub enum Permission {
    Allow,
    Deny,
}

/// How one segment of a resource pattern matches a segment of a path.
#[derive(Debug, Eq, PartialEq)]
pub enum PermissionKind {
    Literal(String),
    Variable(String),
    NamedSet(String),
    Universal,
}

/// The mathematical content of a [`PermissionKind`].
pub enum PermissionKindView {
    Literal(Seq<char>),
    Variable(Seq<char>),
    NamedSet(Seq<char>),
    Universal,
}

impl View for PermissionKind {
    type V = PermissionKindView;

    open spec fn view(&self) -> PermissionKindView {
        match self {
            PermissionKind::Literal(name) => PermissionKindView::Literal(name@),
            PermissionKind::Variable(name) => PermissionKindView::Variable(name@),
            PermissionKind::NamedSet(name) => PermissionKindView::NamedSet(name@),
            PermissionKind::Universal => PermissionKindView::Universal,
        }
    }
}

impl DeepView for PermissionKind {
    type V = PermissionKindView;

    open spec fn deep_view(&self) -> PermissionKindView {
        self@
    }
}

/// A permission rule: `role_name` is allowed or denied what `resource`
/// matches.
pub struct PermissionRule {
    pub permission: Permission,
    pub role_name: RoleName,
    pub resource: Resource,
}

/// The mathematical content of a [`PermissionRule`].
pub struct PermissionRuleView {
    pub permission: Permission,
    pub role_name: Seq<char>,
    pub resource: Seq<PermissionKindView>,
}

impl View for PermissionRule {
    type V = PermissionRuleView;

    open spec fn view(&self) -> PermissionRuleView {
        PermissionRuleView {
            permission: self.permission,
            role_name: self.role_name@,
            resource: self.resource.deep_view(),
        }
    }
}

impl DeepView for PermissionRule {
    type V = PermissionRuleView;

    open spec fn deep_view(&self) -> PermissionRuleView {
        self@
    }
}

/// One line of a policy, read: a role rule (parent, child) or a permission
/// rule (effect, role, pattern).
#[derive(Debug, Eq, PartialEq)]
pub enum Rule {
    Role(RoleName, RoleName),
    Permission(Permission, RoleName, Resource),
}

/// The mathematical content of a [`Rule`].
pub enum RuleView {
    Role(Seq<char>, Seq<char>),
    Permission(Permission, Seq<char>, Seq<PermissionKindView>),
}

impl View for Rule {
    type V = RuleView;

    open spec fn view(&self) -> RuleView {
        match self {
            Rule::Role(parent, child) => RuleView::Role(parent@, child@),
            Rule::Permission(permission, role_name, resource) => RuleView::Permission(
                *permission,
                role_name@,
                resource.deep_view(),
            ),
        }
    }
}

impl DeepView for Rule {
    type V = RuleView;

    open spec fn deep_view(&self) -> RuleView {
        self@
    }
}

/// What `{:?}` prints for a list of string slices.
pub uninterp spec fn debug_of_words(words: Seq<Seq<char>>) -> Seq<char>;

/// What `{:?}` prints for a string slice.
pub uninterp spec fn debug_of_text(text: Seq<char>) -> Seq<char>;

/// Formats `words` with `{:?}` by `format!`, which gives the `Debug` form of a
/// `Vec<&str>`. That form is decided by the characters of the slices alone;
/// it is named [`debug_of_words`], and nothing more is claimed of it.
#[verifier::external_body]
fn debug_words(words: &Vec<&str>) -> (printed: String)
    ensures
        printed@ == debug_of_words(words.deep_view()),
{
    format!("{:?}", words)
}

/// Formats `text` with `{:?}` by `format!`, which gives the `Debug` form of a
/// `str`. That form is decided by the characters of the slice alone; it is
/// named [`debug_of_text`], and nothing more is claimed of it.
#[verifier::external_body]
fn debug_text(text: &str) -> (printed: String)
    ensures
        printed@ == debug_of_text(text@),
{
    format!("{:?}", text)
}

/// What is reported of a line that has the form of no rule; `printed` is the
/// `Debug` form of its words.
pub open spec fn unknown_format_message(printed: Seq<char>) -> Seq<char> {
    "Parsing line \""@ + printed + "\" failed: unknown format."@
}

/// What is reported of a permission rule whose effect is neither `allow` nor
/// `deny`.
pub open spec fn unknown_permission_message(permission: Seq<char>) -> Seq<char> {
    "Permission type \""@ + permission + "\" not known."@
}

/// What is reported of a policy with a line that is no rule; `printed` is the
/// `Debug` form of what was reported of the line.
pub open spec fn not_converted_message(printed: Seq<char>) -> Seq<char> {
    "Could not convert line \""@ + printed + "\" to a rule."@
}

/// The report of a line that has the form of no rule.
pub fn unknown_format(printed: &str) -> (message: String)
    ensures
        message@ == unknown_format_message(printed@),
{
    let mut message = "Parsing line \"".to_string();
    message.append(printed);
    message.append("\" failed: unknown format.");
    message
}

/// The report of a permission rule with an unknown effect.
pub fn unknown_permission(permission: &str) -> (message: String)
    ensures
        message@ == unknown_permission_message(permission@),
{
    let mut message = "Permission type \"".to_string();
    message.append(permission);
    message.append("\" not known.");
    message
}

/// The report of a policy with a line that is no rule.
pub fn not_converted(printed: &str) -> (message: String)
    ensures
        message@ == not_converted_message(printed@),
{
    let mut message = "Could not convert line \"".to_string();
    message.append(printed);
    message.append("\" to a rule.");
    message
}

/// The pattern that one segment of a resource stands for: `[name]` is a
/// variable, `{name}` a named set, `*` the wildcard, and anything else the
/// literal segment itself.
pub open spec fn kind_of(segment: Seq<char>) -> PermissionKindView {
    if segment.len() >= 2 && segment.first() == '[' && segment.last() == ']' {
        PermissionKindView::Variable(segment.subrange(1, segment.len() - 1))
    } else if segment.len() >= 2 && segment.first() == '{' && segment.last() == '}' {
        PermissionKindView::NamedSet(segment.subrange(1, segment.len() - 1))
    } else if segment.len() == 1 && segment[0] == '*' {
        PermissionKindView::Universal
    } else {
        PermissionKindView::Literal(segment)
    }
}

/// The pattern of each of `segments`.
pub open spec fn kinds_of(segments: Seq<Seq<char>>) -> Seq<PermissionKindView> {
    Seq::new(segments.len(), |k: int| kind_of(segments[k]))
}

/// The pattern that a resource stands for. The resource starts with a slash;
/// what follows is cut at each further slash, and each piece is one segment.
pub open spec fn pattern_of(resource: Seq<char>) -> Seq<PermissionKindView> {
    kinds_of(split_by(resource.skip(1), Separator::Slash))
}

/// The rule that the words of one line stand for, or what is reported of
/// them. Three words with `>` in the middle are a role rule. Three words
/// whose last starts with a slash are a permission rule, if the first is
/// `allow` or `deny`. Nothing else is a rule.
pub open spec fn rule_of(line: Seq<Seq<char>>) -> Result<RuleView, Seq<char>> {
    if line.len() == 3 && line[1] == ">"@ {
        Ok(RuleView::Role(line[0], line[2]))
    } else if line.len() == 3 && line[2].len() > 0 && line[2][0] == '/' {
        if line[0] == "allow"@ {
            Ok(RuleView::Permission(Permission::Allow, line[1], pattern_of(line[2])))
        } else if line[0] == "deny"@ {
            Ok(RuleView::Permission(Permission::Deny, line[1], pattern_of(line[2])))
        } else {
            Err(unknown_permission_message(line[0]))
        }
    } else {
        Err(unknown_format_message(debug_of_words(line)))
    }
}

/// The pattern for the segment `chars[from..to]`.
fn kind_for(chars: &Vec<char>, from: usize, to: usize) -> (kind: PermissionKind)
    requires
        from <= to <= chars@.len(),
    ensures
        kind@ == kind_of(chars@.subrange(from as int, to as int)),
{
    let ghost segment = chars@.subrange(from as int, to as int);
    if to - from >= 2 && chars[from] == '[' && chars[to - 1] == ']' {
        assert(segment.subrange(1, segment.len() - 1) =~= chars@.subrange(from + 1, to - 1));
        PermissionKind::Variable(text_of(chars, from + 1, to - 1))
    } else if to - from >= 2 && chars[from] == '{' && chars[to - 1] == '}' {
        assert(segment.subrange(1, segment.len() - 1) =~= chars@.subrange(from + 1, to - 1));
        PermissionKind::NamedSet(text_of(chars, from + 1, to - 1))
    } else if to - from == 1 && chars[from] == '*' {
        PermissionKind::Universal
    } else {
        PermissionKind::Literal(text_of(chars, from, to))
    }
}

/// The pattern for the resource `chars`, which starts with a slash.
fn pattern(chars: &Vec<char>) -> (resource: Resource)
    requires
        chars@.len() > 0,
    ensures
        resource.deep_view() == pattern_of(chars@),
{
    let ranges = pieces(chars, 1, Separator::Slash);
    let ghost segments = split_by(chars@.skip(1), Separator::Slash);
    proof {
        lemma_split_by_nonempty(chars@.skip(1), Separator::Slash);
    }
    let mut resource: Vec<PermissionKind> = Vec::new();
    let mut k: usize = 0;
    while k < ranges.len()
        invariant
            k <= ranges@.len(),
            pieces_of(chars@, ranges@) == segments,
            forall|j: int|
                0 <= j < ranges@.len() ==> (#[trigger] ranges@[j]).0 <= ranges@[j].1
                    <= chars@.len(),
            resource@.len() == k,
            forall|j: int| 0 <= j < k ==> (#[trigger] resource@[j])@ == kind_of(segments[j]),
        decreases ranges@.len() - k,
    {
        let from = ranges[k].0;
        let to = ranges[k].1;
        resource.push(kind_for(chars, from, to));
        k += 1;
    }
    resource
}

/// Reads the words of one line as a rule.
pub fn to_rule(line: Vec<&str>) -> (result: Result<Rule, String>)
    ensures
        match rule_of(line.deep_view()) {
            Ok(rule) => result matches Ok(read) && read@ == rule,
            Err(message) => result matches Err(text) && text@ == message,
        },
{
    if line.len() == 3 {
        if same_text(line[1], ">") {
            return Ok(Rule::Role(line[0].to_string(), line[2].to_string()));
        }
        let chars = chars_of(line[2]);
        if chars.len() > 0 && chars[0] == '/' {
            let permission = if same_text(line[0], "allow") {
                Permission::Allow
            } else if same_text(line[0], "deny") {
                Permission::Deny
            } else {
                return Err(unknown_permission(line[0]));
            };
            let name = line[1].to_string();
            let resource = pattern(&chars);
            return Ok(Rule::Permission(permission, name, resource));
        }
    }
    let printed = debug_words(&line);
    Err(unknown_format(printed.as_str()))
}

/// The role rules among `mixed`, in order.
pub open spec fn role_rules_of(mixed: Seq<RuleView>) -> Seq<RoleRuleView>
    decreases mixed.len(),
{
    if mixed.len() == 0 {
        Seq::empty()
    } else {
        match mixed.last() {
            RuleView::Role(parent, child) => role_rules_of(mixed.drop_last()).push(
                RoleRuleView { parent, child },
            ),
            RuleView::Permission(_, _, _) => role_rules_of(mixed.drop_last()),
        }
    }
}

/// The permission rules among `mixed`, in order.
pub open spec fn permission_rules_of(mixed: Seq<RuleView>) -> Seq<PermissionRuleView>
    decreases mixed.len(),
{
    if mixed.len() == 0 {
        Seq::empty()
    } else {
        match mixed.last() {
            RuleView::Role(_, _) => permission_rules_of(mixed.drop_last()),
            RuleView::Permission(permission, role_name, resource) => permission_rules_of(
                mixed.drop_last(),
            ).push(PermissionRuleView { permission, role_name, resource }),
        }
    }
}

/// Parts the role rules from the permission rules, keeping the order of each.
pub fn split_rules(mixed: Vec<Rule>) -> (split: (Vec<RoleRule>, Vec<PermissionRule>))
    ensures
        split.0.deep_view() == role_rules_of(mixed.deep_view()),
        split.1.deep_view() == permission_rules_of(mixed.deep_view()),
{
    let mut role_rules: Vec<RoleRule> = Vec::new();
    let mut permission_rules: Vec<PermissionRule> = Vec::new();
    let ghost all = mixed.deep_view();
    for rule in it: mixed.into_iter()
        invariant
            it.seq() == mixed@,
            all == mixed.deep_view(),
            role_rules.deep_view() == role_rules_of(all.take(it.index())),
            permission_rules.deep_view() == permission_rules_of(all.take(it.index())),
    {
        let ghost done = all.take(it.index() + 1);
        assert(done.drop_last() == all.take(it.index()));
        let ghost old_roles = role_rules.deep_view();
        let ghost old_permissions = permission_rules.deep_view();
        match rule {
            Rule::Role(parent, child) => {
                role_rules.push(RoleRule { parent, child });
                assert(role_rules.deep_view() =~= old_roles.push(
                    RoleRuleView { parent: parent@, child: child@ },
                ));
            },
            Rule::Permission(permission, role_name, resource) => {
                permission_rules.push(PermissionRule { permission, role_name, resource });
                assert(permission_rules.deep_view() =~= old_permissions.push(
                    PermissionRuleView {
                        permission,
                        role_name: role_name@,
                        resource: resource.deep_view(),
                    },
                ));
            },
        }
    }
    proof {
        assert(all.take(mixed@.len() as int) == all);
    }
    (role_rules, permission_rules)
}

/// Whether `line` is a comment: it starts with `#`.
pub open spec fn is_comment(line: Seq<char>) -> bool {
    line.len() > 0 && line[0] == '#'
}

/// The rules that the lines of a policy stand for, in order, or what is
/// reported of the first line that is no rule. A comment stands for nothing;
/// every other line, an empty one too, must be a rule.
pub open spec fn rules_of(lines: Seq<Seq<char>>) -> Result<Seq<RuleView>, Seq<char>>
    decreases lines.len(),
{
    if lines.len() == 0 {
        Ok(Seq::empty())
    } else {
        match rules_of(lines.drop_last()) {
            Err(message) => Err(message),
            Ok(rules) => if is_comment(lines.last()) {
                Ok(rules)
            } else {
                match rule_of(words_of(lines.last())) {
                    Ok(rule) => Ok(rules.push(rule)),
                    Err(message) => Err(not_converted_message(debug_of_text(message))),
                }
            },
        }
    }
}

/// The checker that a policy text describes, or what is reported of the text.
/// The lines are read as rules; the role rules build the graph, which fails
/// where a child has two parents; the permission rules build the forest. The
/// environment is empty.
pub open spec fn policy_of(description: Seq<char>) -> Result<AccessCheckerView, Seq<char>> {
    match rules_of(lines_of(description)) {
        Err(message) => Err(message),
        Ok(rules) => match graph_of(role_rules_of(rules)) {
            Err(message) => Err(message),
            Ok(roles) => Ok(
                AccessCheckerView {
                    roles,
                    forest: forest_of(permission_rules_of(rules)),
                    environment: EnvironmentView::empty(),
                },
            ),
        },
    }
}

/// Whether each permission rule among `rules` has a pattern of at least one
/// segment.
pub open spec fn patterns_present(rules: Seq<RuleView>) -> bool {
    forall|i: int|
        0 <= i < rules.len() ==> (#[trigger] rules[i] matches RuleView::Permission(_, _, resource)
            ==> resource.len() > 0)
}

/// A permission rule that was read from a line has a pattern of at least one
/// segment.
pub proof fn lemma_rule_of_has_pattern(line: Seq<Seq<char>>)
    ensures
        rule_of(line) matches Ok(RuleView::Permission(_, _, resource)) ==> resource.len() > 0,
{
    if line.len() == 3 {
        lemma_split_by_nonempty(line[2].skip(1), Separator::Slash);
    }
}

/// Parting the rules keeps the patterns of the permission rules.
proof fn lemma_permission_rules_have_patterns(rules: Seq<RuleView>)
    requires
        patterns_present(rules),
    ensures
        have_patterns(permission_rules_of(rules)),
    decreases rules.len(),
{
    if rules.len() > 0 {
        assert forall|i: int| 0 <= i < rules.drop_last().len() implies (
        #[trigger] rules.drop_last()[i] matches RuleView::Permission(_, _, resource)
            ==> resource.len() > 0) by {
            assert(rules.drop_last()[i] == rules[i]);
        }
        lemma_permission_rules_have_patterns(rules.drop_last());
        let _ = rules[rules.len() - 1];
    }
}

/// Once a line has failed, the lines after it change nothing.
proof fn lemma_failure_stays(lines: Seq<Seq<char>>, n: int)
    requires
        0 <= n <= lines.len(),
        rules_of(lines.take(n)) is Err,
    ensures
        rules_of(lines) == rules_of(lines.take(n)),
    decreases lines.len() - n,
{
    if n < lines.len() {
        assert(lines.take(n + 1).drop_last() == lines.take(n));
        lemma_failure_stays(lines, n + 1);
    } else {
        assert(lines.take(n) == lines);
    }
}

/// Whether `line` is a comment.
fn comment(line: &str) -> (found: bool)
    ensures
        found == is_comment(line@),
{
    !line.is_empty() && line.get_char(0) == '#'
}

/// The words of a line as slices.
fn as_slices<'a>(words: &'a Vec<String>) -> (slices: Vec<&'a str>)
    ensures
        slices.deep_view() == words.deep_view(),
{
    let mut slices: Vec<&'a str> = Vec::new();
    let mut i: usize = 0;
    while i < words.len()
        invariant
            i <= words@.len(),
            slices@.len() == i,
            forall|j: int| 0 <= j < i ==> (#[trigger] slices@[j])@ == words@[j]@,
        decreases words@.len() - i,
    {
        slices.push(words[i].as_str());
        i += 1;
    }
    slices
}

/// Reads a policy text and builds the checker for it.
///
/// Each line holds one rule: `parent > child` for role inheritance, or
/// `allow role /path` and `deny role /path` for a permission. A line that
/// starts with `#` is a comment and is passed over. Any other line that is no
/// rule, an empty one too, fails the reading, and so does a child with two
/// parents; the first failure is the one reported.
pub fn parse(description: String) -> (result: Result<AccessChecker, String>)
    ensures
        match policy_of(description@) {
            Ok(policy) => result matches Ok(checker) && checker@ == policy,
            Err(message) => result matches Err(text) && text@ == message,
        },
{
    let text_lines = lines(description.as_str());
    let ghost all = text_lines.deep_view();
    let mut rules: Vec<Rule> = Vec::new();
    let mut k: usize = 0;
    assert(rules.deep_view() =~= Seq::empty());
    while k < text_lines.len()
        invariant
            k <= text_lines@.len(),
            all == text_lines.deep_view(),
            all == lines_of(description@),
            rules_of(all.take(k as int)) == Ok::<Seq<RuleView>, Seq<char>>(rules.deep_view()),
            patterns_present(rules.deep_view()),
        decreases text_lines@.len() - k,
    {
        let line = text_lines[k].as_str();
        proof {
            assert(all.take(k + 1).drop_last() == all.take(k as int));
            lemma_rule_of_has_pattern(words_of(line@));
        }
        if !comment(line) {
            let line_words = words(line);
            let ghost before = rules.deep_view();
            match to_rule(as_slices(&line_words)) {
                Ok(rule) => {
                    rules.push(rule);
                    assert(rules.deep_view() =~= before.push(rule@));
                },
                Err(message) => {
                    proof {
                        assert(rules_of(all.take(k + 1)) == Err::<Seq<RuleView>, Seq<char>>(
                            not_converted_message(debug_of_text(message@)),
                        ));
                        lemma_failure_stays(all, k + 1);
                    }
                    let printed = debug_text(message.as_str());
                    return Err(not_converted(printed.as_str()));
                },
            }
        }
        k += 1;
    }
    assert(all.take(k as int) == all);
    let (role_rules, permission_rules) = split_rules(rules);
    let role_graph = match RoleGraph::from_rules(role_rules) {
        Ok(role_graph) => role_graph,
        Err(message) => {
            return Err(message);
        },
    };
    proof {
        lemma_permission_rules_have_patterns(rules.deep_view());
    }
    let permission_tree = PermissionTree::from_rules(permission_rules);
    Ok(AccessChecker::new(role_graph, permission_tree))
}

} // verus!
