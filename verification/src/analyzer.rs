//! The rule engine: what a rule is handed, what it hands back, and the
//! pass that runs the rules over a tree.
//!
//! A rule is a pure function of a node and the semantic model. The set of
//! rules is closed, and the engine picks the nodes for each rule by the
//! kind of node the rule asks for, visiting each such node once and in
//! source order.

use vstd::prelude::*;
use crate::diagnostic::{Diagnostic, DiagnosticView};
use crate::kind::NodeKind;
use crate::mutation::{BatchMutation, EditView};
use crate::semantic::{model_of, BindingView, SemanticModel};
use crate::syntax::{SyntaxNode, Tree};
use crate::no_for_each::{calls_for_each, no_for_each_diagnostic, NoForEach};
use crate::no_shouty_constants::{
    shouty_action, shouty_diagnostic, shouty_state, NoShoutyConstants,
};
use crate::traverse::{
    collect, copy_path, descendants, lemma_descendants_resolve, paths_view, Filter, FilterView,
};

verus! {

/// The mathematical value of what a rule is handed.
pub struct ContextView {
    pub root: Tree,
    pub query: Seq<usize>,
    pub model: Seq<BindingView>,
}

impl ContextView {
    /// The node that the rule is asked about.
    pub open spec fn node(self) -> Tree {
        self.root.at(self.query).unwrap()
    }

    /// The tree is well formed and its text no longer than an offset can
    /// say, the query names one of its nodes, and the model is that of
    /// the tree.
    pub open spec fn wf(self) -> bool {
        &&& self.root.wf()
        &&& self.root.text().len() <= usize::MAX
        &&& self.root.at(self.query) matches Some(t) && t is Node
        &&& self.model == model_of(self.root)
    }
}

/// What a rule is handed: the tree, the path of the node it is asked
/// about, and the semantic model of the tree.
pub struct RuleContext<'a> {
    root: &'a SyntaxNode,
    query: Vec<usize>,
    model: &'a SemanticModel,
}

impl<'a> View for RuleContext<'a> {
    type V = ContextView;

    closed spec fn view(&self) -> ContextView {
        ContextView { root: self.root@, query: self.query@, model: self.model@ }
    }
}

impl<'a> RuleContext<'a> {
    /// The context is well formed.
    pub open spec fn wf(&self) -> bool {
        self@.wf()
    }

    /// The context for the node at `query`. `None` where the path names
    /// no node of the tree.
    pub fn new(root: &'a SyntaxNode, query: &[usize], model: &'a SemanticModel) -> (ctx: Option<
        RuleContext<'a>,
    >)
        requires
            root@.wf(),
            root@.text().len() <= usize::MAX,
            model@ == model_of(root@),
        ensures
            ctx is Some <==> (root@.at(query@) matches Some(t) && t is Node),
            ctx matches Some(c) ==> c.wf() && c@ == (ContextView {
                root: root@,
                query: query@,
                model: model@,
            }),
    {
        if root.node_at(query).is_none() {
            return None;
        }
        Some(RuleContext { root, query: copy_path(query), model })
    }

    /// The root of the tree.
    pub fn root(&self) -> (root: &'a SyntaxNode)
        ensures
            root@ == self@.root,
    {
        self.root
    }

    /// The path of the node that the rule is asked about.
    pub fn query_path(&self) -> (path: &Vec<usize>)
        ensures
            path@ == self@.query,
    {
        &self.query
    }

    /// The node that the rule is asked about.
    pub fn query(&self) -> (node: &'a SyntaxNode)
        requires
            self.wf(),
        ensures
            node@ == self@.node(),
            node@.wf(),
    {
        proof {
            crate::syntax::lemma_at_wf(self@.root, self@.query);
        }
        match self.root.node_at(self.query.as_slice()) {
            Some(node) => node,
            None => vstd::pervasive::unreached(),
        }
    }

    /// The semantic model of the tree.
    pub fn model(&self) -> (model: &'a SemanticModel)
        ensures
            model@ == self@.model,
    {
        self.model
    }
}

/// What kind of change a fix makes.
#[derive(Clone, Copy, Debug, PartialEq, Eq, Structural)]
pub enum ActionCategory {
    QuickFix,
    Refactor,
}

/// How safe it is to apply a fix without looking.
#[derive(Clone, Copy, Debug, PartialEq, Eq, Structural)]
pub enum Applicability {
    Always,
    MaybeIncorrect,
    Unspecified,
}

/// The mathematical value of a proposed fix.
pub struct ActionView {
    pub category: ActionCategory,
    pub applicability: Applicability,
    pub message: Seq<char>,
    pub mutation: Seq<EditView>,
}

/// A proposed fix: what it is, how far it can be trusted, and the edits
/// that carry it out.
#[derive(Debug)]
pub struct RuleAction {
    category: ActionCategory,
    applicability: Applicability,
    message: String,
    mutation: BatchMutation,
}

impl View for RuleAction {
    type V = ActionView;

    closed spec fn view(&self) -> ActionView {
        ActionView {
            category: self.category,
            applicability: self.applicability,
            message: self.message@,
            mutation: self.mutation@,
        }
    }
}

impl RuleAction {
    /// A fix of the given category and applicability.
    pub fn new(
        category: ActionCategory,
        applicability: Applicability,
        message: &str,
        mutation: BatchMutation,
    ) -> (action: RuleAction)
        ensures
            action@ == (ActionView {
                category,
                applicability,
                message: message@,
                mutation: mutation@,
            }),
    {
        RuleAction { category, applicability, message: message.to_owned(), mutation }
    }

    /// What kind of change the fix makes.
    pub fn category(&self) -> (category: ActionCategory)
        ensures
            category == self@.category,
    {
        self.category
    }

    /// How safe it is to apply the fix without looking.
    pub fn applicability(&self) -> (applicability: Applicability)
        ensures
            applicability == self@.applicability,
    {
        self.applicability
    }

    /// What the fix does, in words.
    pub fn message(&self) -> (message: &String)
        ensures
            message@ == self@.message,
    {
        &self.message
    }

    /// The edits that carry the fix out.
    pub fn mutation(&self) -> (mutation: &BatchMutation)
        ensures
            mutation@ == self@.mutation,
    {
        &self.mutation
    }
}

/// The rules that the engine knows.
#[derive(Clone, Copy, Debug, PartialEq, Eq, Structural)]
pub enum Rule {
    NoForEach,
    NoShoutyConstants,
}

/// What a rule is known by.
#[derive(Clone, Copy, Debug, PartialEq, Eq)]
pub struct RuleMetadata {
    /// The version in which the rule was added.
    pub version: &'static str,
    /// The name of the rule.
    pub name: &'static str,
    /// Whether the rule is on by default.
    pub recommended: bool,
}

impl Rule {
    /// What the rule is known by.
    pub fn metadata(self) -> (metadata: RuleMetadata)
        ensures
            metadata.recommended,
            metadata.name@ == match self {
                Rule::NoForEach => "noForEach"@,
                Rule::NoShoutyConstants => "noShoutyConstants"@,
            },
            metadata.version@ == match self {
                Rule::NoForEach => "1.0.0"@,
                Rule::NoShoutyConstants => "0.7.0"@,
            },
    {
        match self {
            Rule::NoForEach => RuleMetadata {
                version: "1.0.0",
                name: "noForEach",
                recommended: true,
            },
            Rule::NoShoutyConstants => RuleMetadata {
                version: "0.7.0",
                name: "noShoutyConstants",
                recommended: true,
            },
        }
    }

    /// The kind of node the rule asks for.
    pub open spec fn spec_query_kind(self) -> NodeKind {
        match self {
            Rule::NoForEach => NodeKind::JsCallExpression,
            Rule::NoShoutyConstants => NodeKind::JsVariableDeclarator,
        }
    }

    /// The kind of node the rule asks for.
    #[verifier::when_used_as_spec(spec_query_kind)]
    pub fn query_kind(self) -> (kind: NodeKind)
        ensures
            kind == self.spec_query_kind(),
    {
        match self {
            Rule::NoForEach => NoForEach::query_kind(),
            Rule::NoShoutyConstants => NoShoutyConstants::query_kind(),
        }
    }
}

/// The mathematical value of a signal.
pub struct SignalView {
    pub rule: Rule,
    pub node: Seq<usize>,
    pub diagnostic: Option<DiagnosticView>,
    pub action: Option<ActionView>,
}

/// What one rule has to say about one node: the diagnostic and, where
/// the rule offers one, the fix.
#[derive(Debug)]
pub struct Signal {
    rule: Rule,
    node: Vec<usize>,
    diagnostic: Option<Diagnostic>,
    action: Option<RuleAction>,
}

impl View for Signal {
    type V = SignalView;

    closed spec fn view(&self) -> SignalView {
        SignalView {
            rule: self.rule,
            node: self.node@,
            diagnostic: match self.diagnostic {
                Some(d) => Some(d@),
                None => None,
            },
            action: match self.action {
                Some(a) => Some(a@),
                None => None,
            },
        }
    }
}

impl Signal {
    /// The rule that signalled.
    pub fn rule(&self) -> (rule: Rule)
        ensures
            rule == self@.rule,
    {
        self.rule
    }

    /// The path of the node the signal is about.
    pub fn node(&self) -> (path: &Vec<usize>)
        ensures
            path@ == self@.node,
    {
        &self.node
    }

    /// The diagnostic of the signal.
    pub fn diagnostic(&self) -> (diagnostic: &Option<Diagnostic>)
        ensures
            match diagnostic {
                Some(d) => self@.diagnostic == Some(d@),
                None => self@.diagnostic is None,
            },
    {
        &self.diagnostic
    }

    /// The fix that the signal offers.
    pub fn action(&self) -> (action: &Option<RuleAction>)
        ensures
            match action {
                Some(a) => self@.action == Some(a@),
                None => self@.action is None,
            },
    {
        &self.action
    }
}

/// The values of a run of signals.
pub open spec fn signals_view(signals: Seq<Signal>) -> Seq<SignalView> {
    signals.map_values(|s: Signal| s@)
}

/// What `rule` has to say about the node at `query`, if anything.
pub open spec fn signal_at(root: Tree, rule: Rule, query: Seq<usize>) -> Option<SignalView> {
    match rule {
        Rule::NoForEach => if calls_for_each(root.at(query).unwrap()) {
            Some(
                SignalView {
                    rule,
                    node: query,
                    diagnostic: Some(no_for_each_diagnostic(root, query)),
                    action: None,
                },
            )
        } else {
            None
        },
        Rule::NoShoutyConstants => match shouty_state(root, query) {
            Some(state) => Some(
                SignalView {
                    rule,
                    node: query,
                    diagnostic: shouty_diagnostic(root, query, state),
                    action: shouty_action(root, query, state),
                },
            ),
            None => None,
        },
    }
}

/// The signals of `rule` for the first `n` of the given nodes.
pub open spec fn signals_among(root: Tree, rule: Rule, nodes: Seq<Seq<usize>>, n: nat) -> Seq<
    SignalView,
>
    decreases n,
{
    if n == 0 || n > nodes.len() {
        Seq::empty()
    } else {
        let before = signals_among(root, rule, nodes, (n - 1) as nat);
        match signal_at(root, rule, nodes[n - 1]) {
            Some(signal) => before.push(signal),
            None => before,
        }
    }
}

/// The nodes that `rule` is run on: those of the kind it asks for, in
/// source order.
pub open spec fn queried_nodes(root: Tree, rule: Rule) -> Seq<Seq<usize>> {
    descendants(root, Seq::empty(), FilterView { kind: rule.spec_query_kind(), name: None })
}

/// The signals of `rule` for the whole tree.
pub open spec fn rule_signals(root: Tree, rule: Rule) -> Seq<SignalView> {
    signals_among(root, rule, queried_nodes(root, rule), queried_nodes(root, rule).len())
}

/// The signals of the first `n` rules, rule by rule.
pub open spec fn all_signals(root: Tree, rules: Seq<Rule>, n: nat) -> Seq<SignalView>
    decreases n,
{
    if n == 0 || n > rules.len() {
        Seq::empty()
    } else {
        all_signals(root, rules, (n - 1) as nat) + rule_signals(root, rules[n - 1])
    }
}

/// Runs `rule` on the node of `ctx`.
pub fn run_rule(rule: Rule, ctx: &RuleContext) -> (signal: Option<Signal>)
    requires
        ctx.wf(),
    ensures
        match signal {
            Some(s) => signal_at(ctx@.root, rule, ctx@.query) == Some(s@),
            None => signal_at(ctx@.root, rule, ctx@.query) is None,
        },
{
    match rule {
        Rule::NoForEach => match NoForEach::run(ctx) {
            Some(state) => Some(
                Signal {
                    rule,
                    node: copy_path(ctx.query_path().as_slice()),
                    diagnostic: NoForEach::diagnostic(ctx, &state),
                    action: None,
                },
            ),
            None => None,
        },
        Rule::NoShoutyConstants => match NoShoutyConstants::run(ctx) {
            Some(state) => Some(
                Signal {
                    rule,
                    node: copy_path(ctx.query_path().as_slice()),
                    diagnostic: NoShoutyConstants::diagnostic(ctx, &state),
                    action: NoShoutyConstants::action(ctx, &state),
                },
            ),
            None => None,
        },
    }
}

/// One analysis pass: runs every rule, in the order given, on every node
/// of the kind it asks for, in source order, and returns what they
/// signal.
pub fn analyze(root: &SyntaxNode, rules: &[Rule]) -> (signals: Vec<Signal>)
    requires
        root@.wf(),
        root@.text().len() <= usize::MAX,
    ensures
        signals_view(signals@) == all_signals(root@, rules@, rules@.len()),
{
    let model = SemanticModel::build(root);
    let mut signals: Vec<Signal> = Vec::new();
    proof {
        assert(signals_view(signals@) =~= Seq::<SignalView>::empty());
    }
    let mut r: usize = 0;
    while r < rules.len()
        invariant
            r <= rules.len(),
            root@.wf(),
            root@.text().len() <= usize::MAX,
            model@ == model_of(root@),
            signals_view(signals@) == all_signals(root@, rules@, r as nat),
        decreases rules.len() - r,
    {
        let rule = rules[r];
        let nodes = collect(root, &Filter::of_kind(rule.query_kind()));
        let ghost wanted = queried_nodes(root@, rule);
        let ghost before = signals_view(signals@);
        proof {
            assert(before + Seq::<SignalView>::empty() =~= before);
        }
        let mut i: usize = 0;
        while i < nodes.len()
            invariant
                i <= nodes.len(),
                root@.wf(),
                root@.text().len() <= usize::MAX,
                model@ == model_of(root@),
                paths_view(nodes@) == wanted,
                wanted == queried_nodes(root@, rule),
                signals_view(signals@) == before + signals_among(root@, rule, wanted, i as nat),
            decreases nodes.len() - i,
        {
            let query = &nodes[i];
            proof {
                assert(paths_view(nodes@)[i as int] == query@);
                crate::syntax::lemma_node_countable(root);
                lemma_descendants_resolve(
                    root@,
                    Seq::empty(),
                    root@,
                    FilterView { kind: rule.spec_query_kind(), name: None },
                    i as int,
                );
            }
            if let Some(ctx) = RuleContext::new(root, query.as_slice(), &model) {
                if let Some(signal) = run_rule(rule, &ctx) {
                    proof {
                        assert(signals_view(signals@.push(signal)) =~= signals_view(
                            signals@,
                        ).push(signal@));
                        assert(before + signals_among(root@, rule, wanted, i as nat).push(
                            signal@,
                        ) =~= (before + signals_among(root@, rule, wanted, i as nat)).push(
                            signal@,
                        ));
                    }
                    signals.push(signal);
                }
            }
            i += 1;
        }
        r += 1;
    }
    signals
}

} // verus!
