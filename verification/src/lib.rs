pub mod ast;
pub mod command;
pub mod errors;
pub mod redirect;
pub mod syntax;
pub mod text;
pub mod theorems;

use crate::ast::validate_ast;
use crate::ast::walk_script;
use crate::command::REASONABLE_BINARIES;
use crate::command::REASONABLE_BUILTINS;
use crate::errors::Error;
use crate::errors::ErrorView;
use crate::syntax::Script;
use crate::text::views;
use vstd::prelude::*;

verus! {

/// A predicate that decides, once a whole script has been walked, whether a
/// deferred finding is reported.
#[derive(Debug)]
pub enum FindingCondition {
    /// Holds when no valid declaration of the named function was seen.
    FunctionUndeclared(String),
}

/// The mathematical value of a [`FindingCondition`].
pub enum ConditionView {
    FunctionUndeclared(Seq<char>),
}

/// A message with the conditions under which it is reported.
pub struct FindingView {
    pub message: Seq<char>,
    pub conditions: Seq<ConditionView>,
}

/// The mathematical value of a [`Context`].
pub struct ContextView {
    pub findings: Seq<FindingView>,
    pub trusted_commands: Set<Seq<char>>,
    pub declared_functions: Set<Seq<char>>,
    pub inside_compound: nat,
}

/// A context and the error that stopped the walk, if one did.
pub struct Walk {
    pub ctx: ContextView,
    pub error: Option<ErrorView>,
}

/// The state of one audit: the trust catalog, the functions declared so far,
/// the depth of compound commands around the current position, and the
/// findings in the order of their discovery. The catalog and the declared
/// functions are sets, each held as a list in which no name occurs twice.
pub struct Context {
    findings: Vec<(String, Vec<FindingCondition>)>,
    trusted_commands: Vec<String>,
    declared_functions: Vec<String>,
    inside_compound: usize,
}

impl View for FindingCondition {
    type V = ConditionView;

    open spec fn view(&self) -> ConditionView {
        match self {
            FindingCondition::FunctionUndeclared(name) => ConditionView::FunctionUndeclared(name@),
        }
    }
}

impl PartialEq for FindingCondition {
    /// Two conditions are equal when they name the same function.
    fn eq(&self, other: &Self) -> (r: bool) {
        match (self, other) {
            (
                FindingCondition::FunctionUndeclared(name),
                FindingCondition::FunctionUndeclared(other_name),
            ) => *name == *other_name,
        }
    }
}

impl vstd::std_specs::cmp::PartialEqSpecImpl for FindingCondition {
    open spec fn obeys_eq_spec() -> bool {
        true
    }

    open spec fn eq_spec(&self, other: &Self) -> bool {
        self@ == other@
    }
}

impl ConditionView {
    /// Whether the condition is true of a context.
    pub open spec fn holds(self, ctx: ContextView) -> bool {
        match self {
            ConditionView::FunctionUndeclared(name) => !ctx.declared_functions.contains(name),
        }
    }
}

impl FindingView {
    /// Whether the finding is reported: every condition holds of the final context.
    pub open spec fn reported(self, ctx: ContextView) -> bool {
        forall|i: int| 0 <= i < self.conditions.len() ==> (#[trigger] self.conditions[i]).holds(ctx)
    }
}

impl ContextView {
    /// The context with one more finding, reported under all of `conditions`.
    pub open spec fn record(
        self,
        message: Seq<char>,
        conditions: Seq<ConditionView>,
    ) -> ContextView {
        ContextView {
            findings: self.findings.push(FindingView { message, conditions }),
            ..self
        }
    }

    /// The context with `name` among the declared functions.
    pub open spec fn declare(self, name: Seq<char>) -> ContextView {
        ContextView { declared_functions: self.declared_functions.insert(name), ..self }
    }

    /// The context one compound command deeper.
    pub open spec fn enter(self) -> ContextView {
        ContextView { inside_compound: self.inside_compound + 1, ..self }
    }

    /// The context one compound command less deep; at depth zero it stays.
    pub open spec fn leave(self) -> ContextView {
        if self.inside_compound > 0 {
            ContextView { inside_compound: (self.inside_compound - 1) as nat, ..self }
        } else {
            self
        }
    }

    /// The messages of the first `n` findings that are reported when the walk
    /// ended in the context `last`, in the order of their discovery.
    pub open spec fn resolve(self, last: ContextView, n: nat) -> Seq<Seq<char>>
        decreases n,
    {
        if n == 0 || n > self.findings.len() {
            Seq::empty()
        } else if self.findings[n - 1].reported(last) {
            self.resolve(last, (n - 1) as nat).push(self.findings[n - 1].message)
        } else {
            self.resolve(last, (n - 1) as nat)
        }
    }

    /// The messages that the audit reports when the walk ended in this context.
    pub open spec fn report(self) -> Seq<Seq<char>> {
        self.resolve(self, self.findings.len())
    }
}

impl Walk {
    /// A walk that goes on from `ctx`.
    pub open spec fn ok(ctx: ContextView) -> Walk {
        Walk { ctx, error: None }
    }

    /// A walk that stopped in `ctx` with `error`.
    pub open spec fn stopped(ctx: ContextView, error: ErrorView) -> Walk {
        Walk { ctx, error: Some(error) }
    }

    /// The walk that a function made, from the context it left and its result.
    pub open spec fn of(ctx: ContextView, result: Result<(), Error>) -> Walk {
        match result {
            Ok(_) => Walk::ok(ctx),
            Err(error) => Walk::stopped(ctx, error@),
        }
    }
}

/// The set of the strings in a list.
pub open spec fn name_set(names: Seq<String>) -> Set<Seq<char>> {
    Set::new(|name: Seq<char>| exists|i: int| 0 <= i < names.len() && (#[trigger] names[i])@ == name)
}

/// The values of a list of conditions.
pub open spec fn condition_views(conditions: Seq<FindingCondition>) -> Seq<ConditionView> {
    conditions.map_values(|c: FindingCondition| c@)
}

/// The set of the names in a list of string slices.
pub open spec fn names_of(names: Seq<&'static str>) -> Set<Seq<char>> {
    Set::new(|name: Seq<char>| exists|i: int| 0 <= i < names.len() && (#[trigger] names[i])@ == name)
}

/// The names that an audit trusts unless it is told otherwise: every
/// reasonable binary and every reasonable builtin.
pub open spec fn default_catalog() -> Set<Seq<char>> {
    names_of(REASONABLE_BINARIES@).union(names_of(REASONABLE_BUILTINS@))
}

/// The context in which an audit starts: nothing found, nothing declared,
/// outside every compound command.
pub open spec fn fresh(trusted_commands: Set<Seq<char>>) -> ContextView {
    ContextView {
        findings: Seq::empty(),
        trusted_commands,
        declared_functions: Set::empty(),
        inside_compound: 0,
    }
}

/// What the audit of a script gives when it starts in `ctx`: the reported
/// messages in the order of their discovery, or the error that stopped it.
pub open spec fn audit(script: Script, ctx: ContextView) -> Result<Seq<Seq<char>>, ErrorView> {
    let walk = walk_script(script, Seq::empty(), ctx);
    match walk.error {
        Some(error) => Err(error),
        None => Ok(walk.ctx.report()),
    }
}

/// Whether `result` is what the specification `expected` says.
pub open spec fn agrees(
    result: Result<Vec<String>, Error>,
    expected: Result<Seq<Seq<char>>, ErrorView>,
) -> bool {
    match result {
        Ok(messages) => expected == Ok::<Seq<Seq<char>>, ErrorView>(views(messages@)),
        Err(error) => expected == Err::<Seq<Seq<char>>, ErrorView>(error@),
    }
}

/// Whether no string occurs twice in a list.
pub open spec fn distinct(names: Seq<String>) -> bool {
    forall|i: int, j: int| 0 <= i < j < names.len() ==> (#[trigger] names[i])@ != (#[trigger] names[j])@
}

/// What one more string at the end of a list does to the set of its
/// strings, and when the list stays free of repetitions.
proof fn lemma_push_name(names: Seq<String>, name: String)
    ensures
        name_set(names.push(name)) == name_set(names).insert(name@),
        name_set(names).contains(name@) ==> name_set(names).insert(name@) == name_set(names),
        distinct(names) && !name_set(names).contains(name@) ==> distinct(names.push(name)),
{
    let longer = names.push(name);
    assert forall|n: Seq<char>| name_set(longer).contains(n) <==> name_set(names).insert(
        name@,
    ).contains(n) by {
        if name_set(longer).contains(n) {
            let i = choose|i: int| 0 <= i < longer.len() && (#[trigger] longer[i])@ == n;
            if i < names.len() {
                assert(names[i]@ == n);
            }
        }
        if name_set(names).contains(n) {
            let i = choose|i: int| 0 <= i < names.len() && (#[trigger] names[i])@ == n;
            assert(longer[i]@ == n);
        }
        if n == name@ {
            assert(longer[names.len() as int]@ == n);
        }
    }
    assert(name_set(longer) =~= name_set(names).insert(name@));
    if name_set(names).contains(name@) {
        assert(name_set(names).insert(name@) =~= name_set(names));
    }
    if distinct(names) && !name_set(names).contains(name@) {
        assert forall|i: int, j: int| 0 <= i < j < longer.len() implies (#[trigger] longer[i])@ != (
        #[trigger] longer[j])@ by {
            if j == names.len() {
                assert(names[i]@ != name@);
            } else {
                assert(names[i]@ != names[j]@);
            }
        }
    }
}

/// Adds a string to a list that holds a set, unless the list holds it.
fn insert_name(names: &mut Vec<String>, name: String)
    requires
        distinct(old(names)@),
    ensures
        distinct(final(names)@),
        name_set(final(names)@) == name_set(old(names)@).insert(name@),
{
    proof {
        lemma_push_name(names@, name);
    }
    if !contains_name(names, &name) {
        names.push(name);
    }
}

fn contains_name(names: &Vec<String>, name: &String) -> (r: bool)
    ensures
        r == name_set(names@).contains(name@),
{
    let mut i: usize = 0;
    while i < names.len()
        invariant
            i <= names.len(),
            forall|j: int| 0 <= j < i ==> (#[trigger] names@[j])@ != name@,
        decreases names.len() - i,
    {
        if names[i] == *name {
            return true;
        }
        i = i + 1;
    }
    false
}

impl FindingCondition {
    /// Whether the condition is true of `ctx`.
    pub fn holds(&self, ctx: &Context) -> (r: bool)
        ensures
            r == self@.holds(ctx@),
    {
        match self {
            FindingCondition::FunctionUndeclared(name) => !contains_name(
                &ctx.declared_functions,
                name,
            ),
        }
    }
}

impl View for Context {
    type V = ContextView;

    closed spec fn view(&self) -> ContextView {
        ContextView {
            findings: Seq::new(
                self.findings@.len(),
                |i: int|
                    FindingView {
                        message: self.findings@[i].0@,
                        conditions: condition_views(self.findings@[i].1@),
                    },
            ),
            trusted_commands: name_set(self.trusted_commands@),
            declared_functions: name_set(self.declared_functions@),
            inside_compound: self.inside_compound as nat,
        }
    }
}

impl Context {
    /// The two lists hold sets: no name occurs twice in either.
    #[verifier::type_invariant]
    spec fn no_name_twice(self) -> bool {
        distinct(self.trusted_commands@) && distinct(self.declared_functions@)
    }

    /// A context that trusts no command.
    pub fn empty() -> (r: Context)
        ensures
            r@.findings == Seq::<FindingView>::empty(),
            r@.trusted_commands == Set::<Seq<char>>::empty(),
            r@.declared_functions == Set::<Seq<char>>::empty(),
            r@.inside_compound == 0,
    {
        let ctx = Context {
            findings: Vec::new(),
            trusted_commands: Vec::new(),
            declared_functions: Vec::new(),
            inside_compound: 0,
        };
        assert(ctx@.findings =~= Seq::<FindingView>::empty());
        assert(ctx@.trusted_commands =~= Set::<Seq<char>>::empty());
        assert(ctx@.declared_functions =~= Set::<Seq<char>>::empty());
        ctx
    }

    /// The names in the trust catalog.
    pub fn trusted_commands(&self) -> (r: &Vec<String>)
        ensures
            name_set(r@) == self@.trusted_commands,
            distinct(r@),
    {
        proof {
            use_type_invariant(self);
        }
        &self.trusted_commands
    }

    /// The functions that were validly declared so far.
    pub fn declared_functions(&self) -> (r: &Vec<String>)
        ensures
            name_set(r@) == self@.declared_functions,
            distinct(r@),
    {
        proof {
            use_type_invariant(self);
        }
        &self.declared_functions
    }

    /// The number of compound commands around the current position.
    pub fn inside_compound(&self) -> (r: usize)
        ensures
            r == self@.inside_compound,
    {
        self.inside_compound
    }

    /// Sets the number of compound commands around the current position.
    pub fn set_inside_compound(&mut self, depth: usize)
        ensures
            final(self)@ == (ContextView { inside_compound: depth as nat, ..old(self)@ }),
    {
        proof {
            use_type_invariant(&*self);
        }
        self.inside_compound = depth;
    }

    /// Whether the current position is inside a compound command.
    pub fn is_inside_compound(&self) -> (r: bool)
        ensures
            r == (self@.inside_compound != 0),
    {
        self.inside_compound != 0
    }

    /// Records a finding that is always reported.
    pub fn finding(&mut self, finding: String)
        ensures
            final(self)@ == old(self)@.record(finding@, Seq::empty()),
    {
        self.finding_conditional(finding, Vec::new());
        assert(condition_views(Seq::<FindingCondition>::empty()) =~= Seq::<ConditionView>::empty());
    }

    /// Records a finding that is reported only if every one of `conditions`
    /// holds when the walk has ended.
    pub fn finding_conditional(&mut self, finding: String, conditions: Vec<FindingCondition>)
        ensures
            final(self)@ == old(self)@.record(finding@, condition_views(conditions@)),
    {
        proof {
            use_type_invariant(&*self);
        }
        let mut findings: Vec<(String, Vec<FindingCondition>)> = Vec::new();
        core::mem::swap(&mut self.findings, &mut findings);
        findings.push((finding, conditions));
        core::mem::swap(&mut self.findings, &mut findings);
        assert(final(self)@.findings =~= old(self)@.record(
            finding@,
            condition_views(conditions@),
        ).findings);
    }

    /// Whether `name` is in the trust catalog.
    pub fn trusts(&self, name: &String) -> (r: bool)
        ensures
            r == self@.trusted_commands.contains(name@),
    {
        contains_name(&self.trusted_commands, name)
    }

    /// Adds `name` to the trust catalog.
    pub fn trust(&mut self, name: &str)
        ensures
            final(self)@ == (ContextView {
                trusted_commands: old(self)@.trusted_commands.insert(name@),
                ..old(self)@
            }),
    {
        proof {
            use_type_invariant(&*self);
        }
        let mut names: Vec<String> = Vec::new();
        core::mem::swap(&mut self.trusted_commands, &mut names);
        insert_name(&mut names, name.to_owned());
        core::mem::swap(&mut self.trusted_commands, &mut names);
    }

    /// Registers a function that was validly declared.
    pub fn declare_function(&mut self, name: String)
        ensures
            final(self)@ == old(self)@.declare(name@),
    {
        proof {
            use_type_invariant(&*self);
        }
        let mut names: Vec<String> = Vec::new();
        core::mem::swap(&mut self.declared_functions, &mut names);
        insert_name(&mut names, name);
        core::mem::swap(&mut self.declared_functions, &mut names);
    }

    /// Enters a compound command. Fails, and leaves the context as it was,
    /// when the depth counter is at its maximum.
    pub fn enter_compound(&mut self) -> (r: Result<(), Error>)
        ensures
            old(self)@.inside_compound < usize::MAX ==> r is Ok && final(self)@ == old(self)@.enter(),
            old(self)@.inside_compound >= usize::MAX ==> r == Err::<(), Error>(Error::Depth)
                && final(self)@ == old(self)@,
    {
        proof {
            use_type_invariant(&*self);
        }
        if self.inside_compound == usize::MAX {
            return Err(Error::Depth);
        }
        self.inside_compound = self.inside_compound + 1;
        Ok(())
    }

    /// Leaves a compound command.
    pub fn leave_compound(&mut self)
        ensures
            final(self)@ == old(self)@.leave(),
    {
        proof {
            use_type_invariant(&*self);
        }
        if self.inside_compound > 0 {
            self.inside_compound = self.inside_compound - 1;
        }
    }

    /// Adds every name of `names` to the trust catalog.
    pub fn trust_all(&mut self, names: &[&'static str])
        ensures
            final(self)@ == (ContextView {
                trusted_commands: old(self)@.trusted_commands.union(names_of(names@)),
                ..old(self)@
            }),
    {
        let mut i: usize = 0;
        while i < names.len()
            invariant
                i <= names.len(),
                self@.findings == old(self)@.findings,
                self@.declared_functions == old(self)@.declared_functions,
                self@.inside_compound == old(self)@.inside_compound,
                self@.trusted_commands == old(self)@.trusted_commands.union(
                    names_of(names@.subrange(0, i as int)),
                ),
            decreases names.len() - i,
        {
            let ghost before = self@;
            self.trust(names[i]);
            proof {
                let grown = names@.subrange(0, i + 1);
                let short = names@.subrange(0, i as int);
                assert(names_of(grown) =~= names_of(short).insert(names@[i as int]@)) by {
                    assert forall|n: Seq<char>|
                        names_of(grown).contains(n) <==> names_of(short).insert(
                            names@[i as int]@,
                        ).contains(n) by {
                        if names_of(grown).contains(n) {
                            let j = choose|j: int| 0 <= j < grown.len() && (#[trigger] grown[j])@ == n;
                            if j < i {
                                assert(short[j]@ == n);
                            }
                        }
                        if names_of(short).contains(n) {
                            let j = choose|j: int| 0 <= j < short.len() && (#[trigger] short[j])@ == n;
                            assert(grown[j]@ == n);
                        }
                        if n == names@[i as int]@ {
                            assert(grown[i as int]@ == n);
                        }
                    }
                }
                assert(self@.trusted_commands =~= old(self)@.trusted_commands.union(
                    names_of(grown),
                ));
            }
            i = i + 1;
        }
        proof {
            assert(names@.subrange(0, names@.len() as int) =~= names@);
        }
    }

    /// The messages of the findings that are reported in this context, in
    /// the order of their discovery.
    pub fn resolve(&self) -> (r: Vec<String>)
        ensures
            views(r@) == self@.report(),
    {
        let mut messages: Vec<String> = Vec::new();
        let mut i: usize = 0;
        while i < self.findings.len()
            invariant
                i <= self.findings.len(),
                views(messages@) == self@.resolve(self@, i as nat),
            decreases self.findings.len() - i,
        {
            let conditions = &self.findings[i].1;
            let mut reported = true;
            let mut j: usize = 0;
            while j < conditions.len()
                invariant
                    j <= conditions.len(),
                    reported == (forall|k: int|
                        0 <= k < j ==> (#[trigger] condition_views(conditions@)[k]).holds(self@)),
                decreases conditions.len() - j,
            {
                if !conditions[j].holds(self) {
                    reported = false;
                    assert(!condition_views(conditions@)[j as int].holds(self@));
                }
                j = j + 1;
            }
            assert(self@.findings[i as int].conditions == condition_views(conditions@));
            assert(condition_views(conditions@).len() == conditions@.len());
            assert(reported == self@.findings[i as int].reported(self@));
            if reported {
                messages.push(self.findings[i].0.clone());
                assert(views(messages@) =~= self@.resolve(self@, (i + 1) as nat));
            }
            i = i + 1;
        }
        messages
    }

    /// Audits a script from this context: walks it with no function around
    /// it, then reports the findings whose conditions hold at the end. An
    /// error stops the audit, and nothing is reported.
    pub fn validate(self, script: &Script) -> (r: Result<Vec<String>, Error>)
        ensures
            agrees(r, audit(*script, self@)),
    {
        let stack: Vec<String> = Vec::new();
        proof {
            assert(views(stack@) =~= Seq::<Seq<char>>::empty());
        }
        let mut ctx = self;
        match validate_ast(&mut ctx, script, stack.as_slice()) {
            Ok(_) => Ok(ctx.resolve()),
            Err(error) => Err(error),
        }
    }
}

impl Default for Context {
    /// A context that trusts the reasonable binaries and builtins.
    fn default() -> (r: Context)
        ensures
            r@ == fresh(default_catalog()),
    {
        let mut ctx = Context::empty();
        ctx.trust_all(REASONABLE_BINARIES.as_slice());
        ctx.trust_all(REASONABLE_BUILTINS.as_slice());
        proof {
            assert(ctx@.trusted_commands =~= default_catalog());
        }
        ctx
    }
}

/// Audits a script with the default trust catalog.
pub fn validate(script: &Script) -> (r: Result<Vec<String>, Error>)
    ensures
        agrees(r, audit(*script, fresh(default_catalog()))),
{
    Context::default().validate(script)
}

} // verus!
