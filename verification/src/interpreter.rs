//! Interpreter pattern: the control part of program execution.
//!
//! A `Machine` walks the command tree one step at a time.  It keeps the
//! procedure table and the work still to do; it decides which command comes
//! next, stores procedure definitions, looks up procedure calls and counts
//! loop iterations.  Each drawing, variable or printing command it hands to
//! its caller (`Step::Perform`), which evaluates the command's expressions and
//! acts on the turtle; a loop's count it asks of its caller too
//! (`Step::Count`, answered with `enter_loop`).
//!
//! Procedures are global in scope: a `to` definition, wherever it runs, takes
//! effect at once for every later call.  A call runs the body that the
//! procedure had when the call was made.
use vstd::prelude::*;
use crate::ast::{lemma_commands_model, command_model, commands_model, duplicate_commands, Command, Expr, SpecCommand, SpecExpr, expr_model};

verus! {

// ── Procedure table ───────────────────────────────────────────────────────────

/// The procedure table: procedure name → body.
pub struct ProcTable {
    names: Vec<String>,
    bodies: Vec<Vec<Command>>,
}

/// The map that a list of (name, body) entries with distinct names stands for.
pub open spec fn entries_map(names: Seq<String>, bodies: Seq<Vec<Command>>) -> Map<Seq<char>, Seq<SpecCommand>>
    decreases names.len(),
{
    if names.len() == 0 || bodies.len() == 0 {
        Map::empty()
    } else {
        entries_map(names.drop_last(), bodies.drop_last()).insert(
            names.last()@,
            commands_model(bodies.last()@),
        )
    }
}

/// No name occurs twice.
pub open spec fn distinct_names(names: Seq<String>) -> bool {
    forall|i: int, j: int| 0 <= i < j < names.len() ==> names[i]@ != names[j]@
}

proof fn lemma_entries_lookup(names: Seq<String>, bodies: Seq<Vec<Command>>, i: int)
    requires
        names.len() == bodies.len(),
        distinct_names(names),
        0 <= i < names.len(),
    ensures
        entries_map(names, bodies).dom().contains(names[i]@),
        entries_map(names, bodies)[names[i]@] == commands_model(bodies[i]@),
    decreases names.len(),
{
    if i < names.len() - 1 {
        lemma_entries_lookup(names.drop_last(), bodies.drop_last(), i);
        assert(names.drop_last()[i] == names[i]);
        assert(names[i]@ != names.last()@);
    }
}

proof fn lemma_entries_absent(names: Seq<String>, bodies: Seq<Vec<Command>>, k: Seq<char>)
    requires
        names.len() == bodies.len(),
        forall|i: int| 0 <= i < names.len() ==> names[i]@ != k,
    ensures
        !entries_map(names, bodies).dom().contains(k),
    decreases names.len(),
{
    if names.len() > 0 {
        lemma_entries_absent(names.drop_last(), bodies.drop_last(), k);
        assert(names.last() == names[names.len() - 1]);
    }
}

proof fn lemma_entries_update(
    names: Seq<String>,
    bodies: Seq<Vec<Command>>,
    i: int,
    b: Vec<Command>,
)
    requires
        names.len() == bodies.len(),
        distinct_names(names),
        0 <= i < names.len(),
    ensures
        entries_map(names, bodies.update(i, b)) == entries_map(names, bodies).insert(
            names[i]@,
            commands_model(b@),
        ),
    decreases names.len(),
{
    let nb = bodies.update(i, b);
    if i == names.len() - 1 {
        assert(nb.drop_last() =~= bodies.drop_last());
        assert(entries_map(names, nb) =~= entries_map(names, bodies).insert(
            names[i]@,
            commands_model(b@),
        ));
    } else {
        lemma_entries_update(names.drop_last(), bodies.drop_last(), i, b);
        assert(nb.drop_last() =~= bodies.drop_last().update(i, b));
        assert(names.drop_last()[i] == names[i]);
        assert(names[i]@ != names.last()@);
        assert(entries_map(names, nb) =~= entries_map(names, bodies).insert(
            names[i]@,
            commands_model(b@),
        ));
    }
}

impl ProcTable {
    /// The table as a map from procedure names to body models.
    pub closed spec fn view(&self) -> Map<Seq<char>, Seq<SpecCommand>> {
        entries_map(self.names@, self.bodies@)
    }

    /// One body per name, and no name twice.
    pub closed spec fn wf(&self) -> bool {
        &&& self.names@.len() == self.bodies@.len()
        &&& distinct_names(self.names@)
    }

    /// An empty table.
    pub fn new() -> (t: Self)
        ensures
            t.wf(),
            t.view() == Map::<Seq<char>, Seq<SpecCommand>>::empty(),
    {
        ProcTable { names: Vec::new(), bodies: Vec::new() }
    }

    /// The index of the entry for `name`, if there is one.
    fn find(&self, name: &String) -> (r: Option<usize>)
        ensures
            match r {
                Some(i) => i < self.names@.len() && self.names@[i as int]@ == name@,
                None => forall|i: int| 0 <= i < self.names@.len() ==> self.names@[i]@ != name@,
            },
    {
        let mut i: usize = 0;
        while i < self.names.len()
            invariant
                i <= self.names@.len(),
                forall|j: int| 0 <= j < i ==> self.names@[j]@ != name@,
            decreases self.names@.len() - i,
        {
            if self.names[i] == *name {
                return Some(i);
            }
            i += 1;
        }
        None
    }

    /// Whether a procedure named `name` is defined.
    pub fn contains_key(&self, name: &str) -> (b: bool)
        requires
            self.wf(),
        ensures
            b == self.view().dom().contains(name@),
    {
        let key = String::from_str(name);
        match self.find(&key) {
            Some(i) => {
                proof {
                    lemma_entries_lookup(self.names@, self.bodies@, i as int);
                }
                true
            },
            None => {
                proof {
                    lemma_entries_absent(self.names@, self.bodies@, name@);
                }
                false
            },
        }
    }

    /// A copy of the body of the procedure named `name`, if it is defined.
    pub fn get(&self, name: &String) -> (r: Option<Vec<Command>>)
        requires
            self.wf(),
        ensures
            match r {
                Some(b) => self.view().dom().contains(name@) && commands_model(b@) == self.view()[name@],
                None => !self.view().dom().contains(name@),
            },
    {
        match self.find(name) {
            Some(i) => {
                proof {
                    lemma_entries_lookup(self.names@, self.bodies@, i as int);
                }
                Some(duplicate_commands(&self.bodies[i]))
            },
            None => {
                proof {
                    lemma_entries_absent(self.names@, self.bodies@, name@);
                }
                None
            },
        }
    }

    /// Define (or redefine) the procedure `name`.
    pub fn insert(&mut self, name: String, body: Vec<Command>)
        requires
            old(self).wf(),
        ensures
            final(self).wf(),
            final(self).view() == old(self).view().insert(name@, commands_model(body@)),
    {
        match self.find(&name) {
            Some(i) => {
                proof {
                    lemma_entries_update(self.names@, self.bodies@, i as int, body);
                }
                self.bodies.set(i, body);
            },
            None => {
                let ghost old_names = self.names@;
                let ghost old_bodies = self.bodies@;
                let ghost key = name@;
                self.names.push(name);
                self.bodies.push(body);
                proof {
                    assert(self.names@.drop_last() =~= old_names);
                    assert(self.bodies@.drop_last() =~= old_bodies);
                    assert forall|i: int, j: int| 0 <= i < j < self.names@.len() implies self.names@[i]@
                        != self.names@[j]@ by {
                        if j == self.names@.len() - 1 {
                            assert(self.names@[i] == old_names[i]);
                        } else {
                            assert(self.names@[i] == old_names[i]);
                            assert(self.names@[j] == old_names[j]);
                        }
                    }
                }
            },
        }
    }
}

// ── The machine ───────────────────────────────────────────────────────────────

/// One item of work still to do.
pub enum Work {
    /// Run this command.
    Run(Command),
    /// A loop whose count the caller is evaluating.
    Pending(Vec<Command>),
    /// Run this body so many more times.
    Repeat(Vec<Command>, u64),
}

/// The model of a work item.
pub enum SpecWork {
    Run(SpecCommand),
    Pending(Seq<SpecCommand>),
    Repeat(Seq<SpecCommand>, nat),
}

pub open spec fn work_model(w: Work) -> SpecWork {
    match w {
        Work::Run(c) => SpecWork::Run(command_model(c)),
        Work::Pending(b) => SpecWork::Pending(commands_model(b@)),
        Work::Repeat(b, n) => SpecWork::Repeat(commands_model(b@), n as nat),
    }
}

/// The model of a machine: the procedure table, and the work still to do,
/// the next item last.
pub struct MachineView {
    pub procs: Map<Seq<char>, Seq<SpecCommand>>,
    pub work: Seq<SpecWork>,
}

/// What one step asks of the caller.
pub enum Step {
    /// Evaluate this drawing, variable or printing command.
    Perform(Command),
    /// Evaluate this loop count and hand it back with `enter_loop`.
    Count(Expr),
    /// Nothing to do; step again.
    Continue,
    /// The program has finished.
    Done,
    /// The program failed with this message.
    Failed(String),
}

/// The model of a step; a failure carries the unknown procedure's name.
pub enum SpecStep {
    Perform(SpecCommand),
    Count(SpecExpr),
    Continue,
    Done,
    Failed(Seq<char>),
}

/// The message for a call of the undefined procedure `name`.
pub open spec fn unknown_procedure_text(name: Seq<char>) -> Seq<char> {
    "Unknown procedure '"@ + name + "'"@
}

/// Whether the exec step `s` is the step `t` of the model.
pub open spec fn step_matches(s: Step, t: SpecStep) -> bool {
    match (s, t) {
        (Step::Perform(c), SpecStep::Perform(d)) => command_model(c) == d,
        (Step::Count(e), SpecStep::Count(f)) => expr_model(e) == f,
        (Step::Continue, SpecStep::Continue) => true,
        (Step::Done, SpecStep::Done) => true,
        (Step::Failed(m), SpecStep::Failed(name)) => m@ == unknown_procedure_text(name),
        _ => false,
    }
}

/// Commands that the caller evaluates.
pub open spec fn is_leaf(c: SpecCommand) -> bool {
    match c {
        SpecCommand::Forward(_) | SpecCommand::Turn(_) | SpecCommand::Pen(_) | SpecCommand::Color(
            ..,
        ) | SpecCommand::SetVar(..) | SpecCommand::Print(_) => true,
        _ => false,
    }
}

/// The work items that run `cs` in order, the first command last (next).
pub open spec fn runs_of(cs: Seq<SpecCommand>) -> Seq<SpecWork> {
    Seq::new(cs.len(), |i: int| SpecWork::Run(cs[cs.len() - 1 - i]))
}

/// Whether the machine waits for a loop count.
pub open spec fn awaits_count(m: MachineView) -> bool {
    m.work.len() > 0 && m.work.last() is Pending
}

/// One step of the machine.
pub open spec fn machine_step(m: MachineView) -> (MachineView, SpecStep) {
    if m.work.len() == 0 {
        (m, SpecStep::Done)
    } else {
        let rest = m.work.drop_last();
        match m.work.last() {
            SpecWork::Run(c) => match c {
                SpecCommand::Block(cs) => (
                    MachineView { work: rest + runs_of(cs), ..m },
                    SpecStep::Continue,
                ),
                SpecCommand::Procedure(name, body) => (
                    MachineView { procs: m.procs.insert(name, body), work: rest },
                    SpecStep::Continue,
                ),
                SpecCommand::Call(name) => if m.procs.dom().contains(name) {
                    (MachineView { work: rest + runs_of(m.procs[name]), ..m }, SpecStep::Continue)
                } else {
                    (MachineView { work: rest, ..m }, SpecStep::Failed(name))
                },
                SpecCommand::DoTimes(e, body) => (
                    MachineView { work: rest.push(SpecWork::Pending(body)), ..m },
                    SpecStep::Count(e),
                ),
                _ => (MachineView { work: rest, ..m }, SpecStep::Perform(c)),
            },
            SpecWork::Pending(_) => (m, SpecStep::Continue),
            SpecWork::Repeat(body, n) => if n == 0 {
                (MachineView { work: rest, ..m }, SpecStep::Continue)
            } else {
                (
                    MachineView {
                        work: rest.push(SpecWork::Repeat(body, (n - 1) as nat)) + runs_of(body),
                        ..m
                    },
                    SpecStep::Continue,
                )
            },
        }
    }
}

/// The machine once the caller has handed back the loop count `n`.
pub open spec fn machine_enter_loop(m: MachineView, n: nat) -> MachineView {
    match m.work.last() {
        SpecWork::Pending(body) => MachineView {
            work: m.work.drop_last().push(SpecWork::Repeat(body, n)),
            ..m
        },
        _ => m,
    }
}

/// Runs a program one step at a time.
pub struct Machine {
    procs: ProcTable,
    work: Vec<Work>,
}

impl Machine {
    pub closed spec fn view(&self) -> MachineView {
        MachineView {
            procs: self.procs.view(),
            work: self.work@.map_values(|w: Work| work_model(w)),
        }
    }

    pub closed spec fn wf(&self) -> bool {
        self.procs.wf()
    }

    /// A machine that will run `program` with the procedures of `procs`.
    pub fn new(program: Command, procs: ProcTable) -> (m: Self)
        requires
            procs.wf(),
        ensures
            m.wf(),
            m.view() == (MachineView {
                procs: procs.view(),
                work: seq![SpecWork::Run(command_model(program))],
            }),
    {
        let mut work: Vec<Work> = Vec::new();
        work.push(Work::Run(program));
        let m = Machine { procs, work };
        assert(m.view().work =~= seq![SpecWork::Run(command_model(program))]);
        m
    }

    /// The procedure table, once the machine is no longer needed.
    pub fn into_procs(self) -> (t: ProcTable)
        requires
            self.wf(),
        ensures
            t.wf(),
            t.view() == self.view().procs,
    {
        self.procs
    }

    /// Whether the machine waits for a loop count (`enter_loop`).
    pub fn awaiting_count(&self) -> (b: bool)
        ensures
            b == awaits_count(self.view()),
    {
        match self.work.last() {
            Some(Work::Pending(_)) => true,
            _ => false,
        }
    }

    /// Push work items that run `cs` in order.
    fn push_runs(&mut self, cs: Vec<Command>)
        requires
            old(self).wf(),
        ensures
            final(self).wf(),
            final(self).view() == (MachineView {
                work: old(self).view().work + runs_of(commands_model(cs@)),
                ..old(self).view()
            }),
    {
        let ghost start = self.view();
        let ghost all = commands_model(cs@);
        proof {
            lemma_commands_model(cs@);
            assert(all.take(cs@.len() as int) =~= all);
        }
        let mut cs = cs;
        while cs.len() > 0
            invariant
                self.wf(),
                self.view().procs == start.procs,
                cs@.len() <= all.len(),
                commands_model(cs@) == all.take(cs@.len() as int),
                self.view().work == start.work + runs_of(all).take(all.len() - cs@.len()),
            decreases cs@.len(),
        {
            let ghost before = cs@;
            let ghost wbefore = self.view().work;
            let c = cs.pop().unwrap();
            proof {
                assert(before.drop_last() =~= cs@);
                assert(commands_model(before) == commands_model(cs@).push(command_model(c)));
                lemma_commands_model(cs@);
                assert(all.take(before.len() as int).drop_last() =~= all.take(cs@.len() as int));
            }
            self.work.push(Work::Run(c));
            proof {
                let k = all.len() - before.len();
                assert(runs_of(all)[k] == SpecWork::Run(all[all.len() - 1 - k]));
                assert(all[all.len() - 1 - k] == all.take(before.len() as int)[before.len() - 1]);
                assert(self.view().work =~= wbefore.push(SpecWork::Run(command_model(c))));
                assert(runs_of(all).take(k + 1) =~= runs_of(all).take(k).push(runs_of(all)[k]));
            }
        }
        assert(runs_of(all).take(all.len() as int) =~= runs_of(all));
    }

    /// Take one step.  The caller performs what the step asks for; after
    /// `Step::Count` it hands the count back with `enter_loop`.
    pub fn next(&mut self) -> (s: Step)
        requires
            old(self).wf(),
            !awaits_count(old(self).view()),
        ensures
            final(self).wf(),
            final(self).view() == machine_step(old(self).view()).0,
            step_matches(s, machine_step(old(self).view()).1),
    {
        let ghost m = self.view();
        let ghost wold = self.work@;
        let top = self.work.pop();
        proof {
            if wold.len() > 0 {
                assert(self.work@ =~= wold.drop_last());
                assert(self.view().work =~= m.work.drop_last());
            }
        }
        match top {
            None => Step::Done,
            Some(Work::Run(c)) => match c {
                Command::Block(cs) => {
                    self.push_runs(cs);
                    Step::Continue
                },
                Command::Procedure(name, body) => {
                    self.procs.insert(name, body);
                    Step::Continue
                },
                Command::Call(name) => match self.procs.get(&name) {
                    Some(body) => {
                        self.push_runs(body);
                        Step::Continue
                    },
                    None => {
                        let mut msg = String::from_str("Unknown procedure '");
                        msg.append(name.as_str());
                        msg.append("'");
                        Step::Failed(msg)
                    },
                },
                Command::DoTimes(e, body) => {
                    self.work.push(Work::Pending(body));
                    proof {
                        assert(self.view().work =~= m.work.drop_last().push(
                            SpecWork::Pending(commands_model(body@)),
                        ));
                    }
                    Step::Count(e)
                },
                other => Step::Perform(other),
            },
            Some(Work::Pending(body)) => {
                // ruled out by the precondition
                self.work.push(Work::Pending(body));
                Step::Continue
            },
            Some(Work::Repeat(body, n)) => {
                if n == 0 {
                    Step::Continue
                } else {
                    let copy = duplicate_commands(&body);
                    self.work.push(Work::Repeat(body, n - 1));
                    proof {
                        assert(self.view().work =~= m.work.drop_last().push(
                            SpecWork::Repeat(commands_model(body@), (n - 1) as nat),
                        ));
                    }
                    self.push_runs(copy);
                    Step::Continue
                }
            },
        }
    }

    /// Hand back the count of the loop that `Step::Count` asked for.
    pub fn enter_loop(&mut self, n: u64)
        requires
            old(self).wf(),
            awaits_count(old(self).view()),
        ensures
            final(self).wf(),
            final(self).view() == machine_enter_loop(old(self).view(), n as nat),
    {
        let ghost m = self.view();
        let top = self.work.pop();
        match top {
            Some(Work::Pending(body)) => {
                self.work.push(Work::Repeat(body, n));
                proof {
                    assert(self.view().work =~= m.work.drop_last().push(
                        SpecWork::Repeat(commands_model(body@), n as nat),
                    ));
                }
            },
            _ => {},
        }
    }
}

// ── Runs of several steps ────────────────────────────────────────────────────

/// How a run of the machine ended.
pub enum RunEnd {
    /// The program finished.
    Finished,
    /// A call named an undefined procedure.
    Failed(Seq<char>),
    /// A loop count was asked for and none was left.
    NeedsCount,
    /// The step budget ran out first.
    OutOfSteps,
}

/// What a run yields: the machine at its end, the commands handed to the
/// caller in order, the loop counts left unused, and how it ended.
pub struct RunResult {
    pub machine: MachineView,
    pub performed: Seq<SpecCommand>,
    pub counts_left: Seq<nat>,
    pub end: RunEnd,
}

/// At most `fuel` steps from `m`, the caller answering loop counts from `counts` in order.
pub open spec fn run(m: MachineView, counts: Seq<nat>, fuel: nat) -> RunResult
    decreases fuel,
{
    if fuel == 0 {
        RunResult { machine: m, performed: Seq::empty(), counts_left: counts, end: RunEnd::OutOfSteps }
    } else {
        let (m2, s) = machine_step(m);
        match s {
            SpecStep::Done => RunResult {
                machine: m,
                performed: Seq::empty(),
                counts_left: counts,
                end: RunEnd::Finished,
            },
            SpecStep::Failed(name) => RunResult {
                machine: m2,
                performed: Seq::empty(),
                counts_left: counts,
                end: RunEnd::Failed(name),
            },
            SpecStep::Perform(c) => {
                let r = run(m2, counts, (fuel - 1) as nat);
                RunResult { performed: seq![c] + r.performed, ..r }
            },
            SpecStep::Count(_) => if counts.len() == 0 {
                RunResult {
                    machine: m2,
                    performed: Seq::empty(),
                    counts_left: counts,
                    end: RunEnd::NeedsCount,
                }
            } else {
                run(machine_enter_loop(m2, counts[0]), counts.drop_first(), (fuel - 1) as nat)
            },
            SpecStep::Continue => run(m2, counts, (fuel - 1) as nat),
        }
    }
}

/// `r` with the commands `cs` performed before its own.
pub open spec fn performed_first(cs: Seq<SpecCommand>, r: RunResult) -> RunResult {
    RunResult { performed: cs + r.performed, ..r }
}

/// Every command of `cs` is one that the caller evaluates.
pub open spec fn all_leaves(cs: Seq<SpecCommand>) -> bool {
    forall|i: int| 0 <= i < cs.len() ==> is_leaf(#[trigger] cs[i])
}

/// `cs` repeated `n` times.
pub open spec fn repeated(cs: Seq<SpecCommand>, n: nat) -> Seq<SpecCommand>
    decreases n,
{
    if n == 0 {
        Seq::empty()
    } else {
        cs + repeated(cs, (n - 1) as nat)
    }
}

/// Running commands that the caller evaluates hands them over in order,
/// one step each, and then goes on with the rest of the work.
pub proof fn lemma_run_leaves(m: MachineView, cs: Seq<SpecCommand>, counts: Seq<nat>, fuel: nat)
    requires
        all_leaves(cs),
    ensures
        run(MachineView { work: m.work + runs_of(cs), ..m }, counts, fuel + cs.len())
            == performed_first(cs, run(m, counts, fuel)),
    decreases cs.len(),
{
    let m1 = MachineView { work: m.work + runs_of(cs), ..m };
    if cs.len() == 0 {
        assert(m1.work =~= m.work);
        assert(m1 == m);
        assert(Seq::<SpecCommand>::empty() + run(m, counts, fuel).performed =~= run(m, counts, fuel).performed);
    } else {
        let tail = cs.drop_first();
        assert(all_leaves(tail)) by {
            assert forall|i: int| 0 <= i < tail.len() implies is_leaf(#[trigger] tail[i]) by {
                assert(tail[i] == cs[i + 1]);
            }
        }
        assert(is_leaf(cs[0]));
        assert(m1.work.last() == SpecWork::Run(cs[0]));
        let m2 = MachineView { work: m.work + runs_of(tail), ..m };
        assert(m1.work.drop_last() =~= m2.work);
        assert(machine_step(m1) == (m2, SpecStep::Perform(cs[0])));
        lemma_run_leaves(m, tail, counts, fuel);
        assert((fuel + cs.len() - 1) as nat == fuel + tail.len());
        let r = run(m, counts, fuel);
        assert(seq![cs[0]] + (tail + r.performed) =~= cs + r.performed);
    }
}

/// A loop entered with count `n` over a body of caller-evaluated commands
/// hands over the body `n` times, in `n * (len + 1) + 1` steps, then goes on.
pub proof fn lemma_run_repeat(
    m: MachineView,
    body: Seq<SpecCommand>,
    n: nat,
    counts: Seq<nat>,
    fuel: nat,
)
    requires
        all_leaves(body),
    ensures
        run(
            MachineView { work: m.work.push(SpecWork::Repeat(body, n)), ..m },
            counts,
            fuel + n * (body.len() + 1) + 1,
        ) == performed_first(repeated(body, n), run(m, counts, fuel)),
    decreases n,
{
    let m1 = MachineView { work: m.work.push(SpecWork::Repeat(body, n)), ..m };
    if n == 0 {
        assert(m1.work.drop_last() =~= m.work);
        assert(machine_step(m1).0 == m);
        let r = run(m, counts, fuel);
        assert(Seq::<SpecCommand>::empty() + r.performed =~= r.performed);
    } else {
        let mr = MachineView { work: m.work.push(SpecWork::Repeat(body, (n - 1) as nat)), ..m };
        assert(m1.work.drop_last() =~= m.work);
        assert(machine_step(m1) == (
            MachineView { work: mr.work + runs_of(body), ..mr },
            SpecStep::Continue,
        ));
        let f2 = fuel + (n - 1) * (body.len() + 1) + 1;
        assert(fuel + n * (body.len() + 1) + 1 - 1 == f2 + body.len()) by (nonlinear_arith)
            requires
                f2 == fuel + (n - 1) * (body.len() + 1) + 1,
                n >= 1,
        ;
        lemma_run_leaves(mr, body, counts, f2 as nat);
        lemma_run_repeat(m, body, (n - 1) as nat, counts, fuel);
        let r = run(m, counts, fuel);
        assert(body + (repeated(body, (n - 1) as nat) + r.performed) =~= repeated(body, n)
            + r.performed);
    }
}

// ── Laws ──────────────────────────────────────────────────────────────────────

/// The machine that starts on `program` with the procedures `procs`.
pub open spec fn start(program: SpecCommand, procs: Map<Seq<char>, Seq<SpecCommand>>) -> MachineView {
    MachineView { procs, work: seq![SpecWork::Run(program)] }
}

/// A block hands its commands over in order, then the program finishes.
pub proof fn law_block_runs_in_order(
    cs: Seq<SpecCommand>,
    procs: Map<Seq<char>, Seq<SpecCommand>>,
    counts: Seq<nat>,
)
    requires
        all_leaves(cs),
    ensures
        run(start(SpecCommand::Block(cs), procs), counts, cs.len() + 2) == (RunResult {
            machine: MachineView { procs, work: Seq::empty() },
            performed: cs,
            counts_left: counts,
            end: RunEnd::Finished,
        }),
{
    let m0 = start(SpecCommand::Block(cs), procs);
    let e = MachineView { procs, work: Seq::empty() };
    assert(m0.work.drop_last() =~= Seq::<SpecWork>::empty());
    assert(machine_step(m0).0 == MachineView { work: e.work + runs_of(cs), ..e });
    lemma_run_leaves(e, cs, counts, 1);
    assert((cs.len() + 2 - 1) as nat == 1 + cs.len());
    assert(cs + Seq::<SpecCommand>::empty() =~= cs);
}

/// `dotimes` with count `n` hands its body over `n` times, then finishes.
pub proof fn law_loop_repeats_body(
    count: SpecExpr,
    body: Seq<SpecCommand>,
    n: nat,
    procs: Map<Seq<char>, Seq<SpecCommand>>,
)
    requires
        all_leaves(body),
    ensures
        run(start(SpecCommand::DoTimes(count, body), procs), seq![n], n * (body.len() + 1) + 3) == (
        RunResult {
            machine: MachineView { procs, work: Seq::empty() },
            performed: repeated(body, n),
            counts_left: Seq::empty(),
            end: RunEnd::Finished,
        }),
{
    let m0 = start(SpecCommand::DoTimes(count, body), procs);
    let e = MachineView { procs, work: Seq::empty() };
    assert(m0.work.drop_last() =~= Seq::<SpecWork>::empty());
    let m2 = machine_step(m0).0;
    assert(m2.work =~= seq![SpecWork::Pending(body)]);
    let m3 = machine_enter_loop(m2, n);
    assert(m3 == MachineView { work: e.work.push(SpecWork::Repeat(body, n)), ..e }) by {
        assert(m3.work =~= e.work.push(SpecWork::Repeat(body, n)));
    }
    assert(seq![n].drop_first() =~= Seq::<nat>::empty());
    lemma_run_repeat(e, body, n, Seq::empty(), 1);
    assert((n * (body.len() + 1) + 3 - 1) as nat == 1 + n * (body.len() + 1) + 1);
    assert(repeated(body, n) + Seq::<SpecCommand>::empty() =~= repeated(body, n));
}

/// A procedure defined with `to` takes effect at once: a later call hands
/// its body over, and the table keeps the definition.
pub proof fn law_definition_then_call(
    name: Seq<char>,
    body: Seq<SpecCommand>,
    procs: Map<Seq<char>, Seq<SpecCommand>>,
    counts: Seq<nat>,
)
    requires
        all_leaves(body),
    ensures
        run(
            start(
                SpecCommand::Block(
                    seq![SpecCommand::Procedure(name, body), SpecCommand::Call(name)],
                ),
                procs,
            ),
            counts,
            body.len() + 4,
        ) == (RunResult {
            machine: MachineView { procs: procs.insert(name, body), work: Seq::empty() },
            performed: body,
            counts_left: counts,
            end: RunEnd::Finished,
        }),
{
    let prog = seq![SpecCommand::Procedure(name, body), SpecCommand::Call(name)];
    let m0 = start(SpecCommand::Block(prog), procs);
    assert(m0.work.drop_last() =~= Seq::<SpecWork>::empty());
    let m1 = machine_step(m0).0;
    assert(m1.work =~= seq![SpecWork::Run(SpecCommand::Call(name)), SpecWork::Run(SpecCommand::Procedure(name, body))]);
    let m2 = machine_step(m1).0;
    assert(m1.work.drop_last() =~= seq![SpecWork::Run(SpecCommand::Call(name))]);
    assert(m2.work =~= seq![SpecWork::Run(SpecCommand::Call(name))]);
    let p2 = procs.insert(name, body);
    assert(m2.procs == p2);
    let m3 = machine_step(m2).0;
    let e = MachineView { procs: p2, work: Seq::empty() };
    assert(m2.work.drop_last() =~= Seq::<SpecWork>::empty());
    assert(m3 == MachineView { work: e.work + runs_of(body), ..e });
    lemma_run_leaves(e, body, counts, 1);
    let f = body.len() + 4;
    assert(run(m0, counts, f as nat) == run(m1, counts, (f - 1) as nat));
    assert(run(m1, counts, (f - 1) as nat) == run(m2, counts, (f - 2) as nat));
    assert(run(m2, counts, (f - 2) as nat) == run(m3, counts, (f - 3) as nat));
    assert((f - 3) as nat == 1 + body.len());
    assert(body + Seq::<SpecCommand>::empty() =~= body);
}

/// A call of an undefined procedure fails, naming it, before anything is handed over.
pub proof fn law_unknown_procedure_fails(
    name: Seq<char>,
    procs: Map<Seq<char>, Seq<SpecCommand>>,
    counts: Seq<nat>,
    fuel: nat,
)
    requires
        !procs.dom().contains(name),
        fuel >= 1,
    ensures
        run(start(SpecCommand::Call(name), procs), counts, fuel).end == RunEnd::Failed(name),
        run(start(SpecCommand::Call(name), procs), counts, fuel).performed.len() == 0,
{
}


// ── Composition ───────────────────────────────────────────────────────────────

/// `m` with the work items `below` underneath its own.
pub open spec fn stacked(below: Seq<SpecWork>, m: MachineView) -> MachineView {
    MachineView { procs: m.procs, work: below + m.work }
}

/// The number of steps that a run of at most `fuel` steps from `m` takes
/// before it stops.
pub open spec fn steps_used(m: MachineView, counts: Seq<nat>, fuel: nat) -> nat
    decreases fuel,
{
    if fuel == 0 {
        0
    } else {
        let (m2, s) = machine_step(m);
        match s {
            SpecStep::Done => 0,
            SpecStep::Failed(_) => 1,
            SpecStep::Perform(_) => 1 + steps_used(m2, counts, (fuel - 1) as nat),
            SpecStep::Count(_) => if counts.len() == 0 {
                1
            } else {
                1 + steps_used(
                    machine_enter_loop(m2, counts[0]),
                    counts.drop_first(),
                    (fuel - 1) as nat,
                )
            },
            SpecStep::Continue => 1 + steps_used(m2, counts, (fuel - 1) as nat),
        }
    }
}

proof fn lemma_step_stacked(below: Seq<SpecWork>, m: MachineView, n: nat)
    requires
        m.work.len() > 0,
    ensures
        machine_step(stacked(below, m)) == (stacked(below, machine_step(m).0), machine_step(m).1),
        machine_step(m).1 is Count ==> machine_step(m).0.work.len() > 0 && machine_enter_loop(
            stacked(below, machine_step(m).0),
            n,
        ) == stacked(below, machine_enter_loop(machine_step(m).0, n)),
{
    let sm = stacked(below, m);
    let rest = m.work.drop_last();
    assert(sm.work.drop_last() =~= below + rest);
    assert(sm.work.last() == m.work.last());
    match m.work.last() {
        SpecWork::Run(c) => match c {
            SpecCommand::Block(cs) => {
                assert(below + rest + runs_of(cs) =~= below + (rest + runs_of(cs)));
            },
            SpecCommand::Call(name) => {
                if m.procs.dom().contains(name) {
                    assert(below + rest + runs_of(m.procs[name]) =~= below + (rest + runs_of(
                        m.procs[name],
                    )));
                }
            },
            SpecCommand::DoTimes(e, body) => {
                let w2 = rest.push(SpecWork::Pending(body));
                assert((below + rest).push(SpecWork::Pending(body)) =~= below + w2);
                assert(w2.last() == SpecWork::Pending(body));
                assert((below + w2).last() == SpecWork::Pending(body));
                assert((below + w2).drop_last() =~= below + rest);
                assert(w2.drop_last() =~= rest);
                assert((below + rest).push(SpecWork::Repeat(body, n)) =~= below + rest.push(
                    SpecWork::Repeat(body, n),
                ));
            },
            _ => {},
        },
        SpecWork::Pending(_) => {},
        SpecWork::Repeat(body, k) => {
            if k > 0 {
                let w2 = rest.push(SpecWork::Repeat(body, (k - 1) as nat)) + runs_of(body);
                assert((below + rest).push(SpecWork::Repeat(body, (k - 1) as nat)) + runs_of(body)
                    =~= below + w2);
            }
        },
    }
}

/// Work put on top of other work runs as it would alone; once it has
/// finished, the work underneath runs, with the procedures and loop counts
/// that the first left.
pub proof fn lemma_run_stacked(below: Seq<SpecWork>, m: MachineView, counts: Seq<nat>, fuel: nat)
    requires
        run(m, counts, fuel).end == RunEnd::Finished,
    ensures
        ({
            let r = run(m, counts, fuel);
            &&& steps_used(m, counts, fuel) < fuel
            &&& r.machine.work.len() == 0
            &&& forall|g: nat|
                #![trigger run(stacked(below, m), counts, steps_used(m, counts, fuel) + g)]
                run(stacked(below, m), counts, steps_used(m, counts, fuel) + g) == performed_first(
                    r.performed,
                    run(MachineView { procs: r.machine.procs, work: below }, r.counts_left, g),
                )
        }),
    decreases fuel,
{
    let r = run(m, counts, fuel);
    let (m2, s) = machine_step(m);
    if m.work.len() == 0 {
        assert(stacked(below, m) == MachineView { procs: r.machine.procs, work: below }) by {
            assert(below + m.work =~= below);
        }
        assert forall|g: nat|
            #![trigger run(stacked(below, m), counts, steps_used(m, counts, fuel) + g)]
            run(stacked(below, m), counts, steps_used(m, counts, fuel) + g) == performed_first(
                r.performed,
                run(MachineView { procs: r.machine.procs, work: below }, r.counts_left, g),
            ) by {
            let q = run(stacked(below, m), counts, g);
            assert(Seq::<SpecCommand>::empty() + q.performed =~= q.performed);
        }
    } else {
        let f1 = (fuel - 1) as nat;
        match s {
            SpecStep::Perform(c) => {
                lemma_step_stacked(below, m, 0);
                lemma_run_stacked(below, m2, counts, f1);
                let r2 = run(m2, counts, f1);
                assert forall|g: nat|
                    #![trigger run(stacked(below, m), counts, steps_used(m, counts, fuel) + g)]
                    run(stacked(below, m), counts, steps_used(m, counts, fuel) + g)
                        == performed_first(
                        r.performed,
                        run(MachineView { procs: r.machine.procs, work: below }, r.counts_left, g),
                    ) by {
                    let u = steps_used(m2, counts, f1);
                    assert(run(stacked(below, m2), counts, u + g) == performed_first(
                        r2.performed,
                        run(MachineView { procs: r2.machine.procs, work: below }, r2.counts_left, g),
                    ));
                    assert((steps_used(m, counts, fuel) + g - 1) as nat == u + g);
                    let q = run(MachineView { procs: r2.machine.procs, work: below }, r2.counts_left, g);
                    assert(seq![c] + (r2.performed + q.performed) =~= (seq![c] + r2.performed)
                        + q.performed);
                }
            },
            SpecStep::Count(e) => {
                lemma_step_stacked(below, m, counts[0]);
                let m3 = machine_enter_loop(m2, counts[0]);
                let c2 = counts.drop_first();
                lemma_run_stacked(below, m3, c2, f1);
                assert forall|g: nat|
                    #![trigger run(stacked(below, m), counts, steps_used(m, counts, fuel) + g)]
                    run(stacked(below, m), counts, steps_used(m, counts, fuel) + g)
                        == performed_first(
                        r.performed,
                        run(MachineView { procs: r.machine.procs, work: below }, r.counts_left, g),
                    ) by {
                    let u = steps_used(m3, c2, f1);
                    assert(run(stacked(below, m3), c2, u + g) == performed_first(
                        r.performed,
                        run(MachineView { procs: r.machine.procs, work: below }, r.counts_left, g),
                    ));
                    assert((steps_used(m, counts, fuel) + g - 1) as nat == u + g);
                }
            },
            SpecStep::Continue => {
                lemma_step_stacked(below, m, 0);
                lemma_run_stacked(below, m2, counts, f1);
                assert forall|g: nat|
                    #![trigger run(stacked(below, m), counts, steps_used(m, counts, fuel) + g)]
                    run(stacked(below, m), counts, steps_used(m, counts, fuel) + g)
                        == performed_first(
                        r.performed,
                        run(MachineView { procs: r.machine.procs, work: below }, r.counts_left, g),
                    ) by {
                    let u = steps_used(m2, counts, f1);
                    assert(run(stacked(below, m2), counts, u + g) == performed_first(
                        r.performed,
                        run(MachineView { procs: r.machine.procs, work: below }, r.counts_left, g),
                    ));
                    assert((steps_used(m, counts, fuel) + g - 1) as nat == u + g);
                }
            },
            _ => {},
        }
    }
}

/// A block runs its first command to the end as that command would run
/// alone, and then the rest of the block, with the procedures and loop counts
/// that the first command left.  `steps_used` is how many steps the first
/// command took; `h` is the step budget left for the rest.
pub proof fn law_block_runs_first_then_rest(
    first: SpecCommand,
    rest: Seq<SpecCommand>,
    procs: Map<Seq<char>, Seq<SpecCommand>>,
    counts: Seq<nat>,
    fuel: nat,
)
    requires
        run(start(first, procs), counts, fuel).end == RunEnd::Finished,
    ensures
        ({
            let r1 = run(start(first, procs), counts, fuel);
            let u = steps_used(start(first, procs), counts, fuel);
            forall|h: nat|
                h >= 1 ==> run(start(SpecCommand::Block(seq![first] + rest), procs), counts, u + h)
                    == performed_first(
                    r1.performed,
                    #[trigger] run(start(SpecCommand::Block(rest), r1.machine.procs), r1.counts_left, h),
                )
        }),
{
    let m0 = start(first, procs);
    let r1 = run(m0, counts, fuel);
    let u = steps_used(m0, counts, fuel);
    let below = runs_of(rest);
    lemma_run_stacked(below, m0, counts, fuel);
    assert forall|h: nat|
        h >= 1 implies run(start(SpecCommand::Block(seq![first] + rest), procs), counts, u + h)
            == performed_first(
            r1.performed,
            #[trigger] run(start(SpecCommand::Block(rest), r1.machine.procs), r1.counts_left, h),
        ) by {
        let g = (h - 1) as nat;
        let b = start(SpecCommand::Block(seq![first] + rest), procs);
        assert(b.work.drop_last() =~= Seq::<SpecWork>::empty());
        assert(runs_of(seq![first] + rest) =~= below + m0.work);
        assert(machine_step(b).0 == stacked(below, m0));
        assert(run(b, counts, u + h) == run(stacked(below, m0), counts, u + g));
        let b2 = start(SpecCommand::Block(rest), r1.machine.procs);
        assert(b2.work.drop_last() =~= Seq::<SpecWork>::empty());
        assert(machine_step(b2).0.work =~= below);
        assert(run(b2, r1.counts_left, h) == run(
            MachineView { procs: r1.machine.procs, work: below },
            r1.counts_left,
            g,
        ));
    }
}

/// A loop with `n` iterations left over `body`.
pub open spec fn looping(procs: Map<Seq<char>, Seq<SpecCommand>>, body: Seq<SpecCommand>, n: nat) -> MachineView {
    MachineView { procs, work: seq![SpecWork::Repeat(body, n)] }
}

/// `dotimes` asks for its count first, and with count `n` runs as a loop
/// with `n` iterations left.
pub proof fn law_loop_takes_count(
    count: SpecExpr,
    body: Seq<SpecCommand>,
    n: nat,
    procs: Map<Seq<char>, Seq<SpecCommand>>,
    counts: Seq<nat>,
    g: nat,
)
    ensures
        machine_step(start(SpecCommand::DoTimes(count, body), procs)).1 == SpecStep::Count(count),
        run(start(SpecCommand::DoTimes(count, body), procs), seq![n] + counts, 1 + g) == run(
            looping(procs, body, n),
            counts,
            g,
        ),
{
    let m0 = start(SpecCommand::DoTimes(count, body), procs);
    assert(m0.work.drop_last() =~= Seq::<SpecWork>::empty());
    let m2 = machine_step(m0).0;
    assert(m2.work =~= seq![SpecWork::Pending(body)]);
    assert(machine_enter_loop(m2, n).work =~= looping(procs, body, n).work);
    assert((seq![n] + counts)[0] == n);
    assert((seq![n] + counts).drop_first() =~= counts);
}

/// A loop with no iterations left finishes in one step and hands nothing over.
pub proof fn law_loop_done(
    body: Seq<SpecCommand>,
    procs: Map<Seq<char>, Seq<SpecCommand>>,
    counts: Seq<nat>,
)
    ensures
        run(looping(procs, body, 0), counts, 2) == (RunResult {
            machine: MachineView { procs, work: Seq::empty() },
            performed: Seq::empty(),
            counts_left: counts,
            end: RunEnd::Finished,
        }),
{
    let m = looping(procs, body, 0);
    let e = MachineView { procs, work: Seq::empty() };
    assert(m.work.drop_last() =~= Seq::<SpecWork>::empty());
    assert(machine_step(m).0 == e);
    assert(run(m, counts, 2) == run(e, counts, 1));
}

/// Each iteration of a loop runs its body to the end, whatever the body
/// holds (nested loops, definitions, calls), as the block of the body would
/// run alone; then the loop goes on with one iteration fewer, with the
/// procedures and loop counts that the iteration left.
pub proof fn law_loop_iteration(
    body: Seq<SpecCommand>,
    n: nat,
    procs: Map<Seq<char>, Seq<SpecCommand>>,
    counts: Seq<nat>,
    fuel: nat,
)
    requires
        n >= 1,
        run(start(SpecCommand::Block(body), procs), counts, fuel).end == RunEnd::Finished,
    ensures
        ({
            let r1 = run(start(SpecCommand::Block(body), procs), counts, fuel);
            let u = steps_used(start(SpecCommand::Block(body), procs), counts, fuel);
            forall|g: nat|
                run(looping(procs, body, n), counts, u + g) == performed_first(
                    r1.performed,
                    #[trigger] run(looping(r1.machine.procs, body, (n - 1) as nat), r1.counts_left, g),
                )
        }),
{
    let b = start(SpecCommand::Block(body), procs);
    let r1 = run(b, counts, fuel);
    let u = steps_used(b, counts, fuel);
    assert(b.work.drop_last() =~= Seq::<SpecWork>::empty());
    let mb = MachineView { procs, work: runs_of(body) };
    assert(machine_step(b).0 == mb) by {
        assert(machine_step(b).0.work =~= runs_of(body));
    }
    let f1 = (fuel - 1) as nat;
    assert(r1 == run(mb, counts, f1));
    assert(u == 1 + steps_used(mb, counts, f1));
    let below = seq![SpecWork::Repeat(body, (n - 1) as nat)];
    lemma_run_stacked(below, mb, counts, f1);
    assert forall|g: nat|
        run(looping(procs, body, n), counts, u + g) == performed_first(
            r1.performed,
            #[trigger] run(looping(r1.machine.procs, body, (n - 1) as nat), r1.counts_left, g),
        ) by {
        let l = looping(procs, body, n);
        assert(l.work.drop_last() =~= Seq::<SpecWork>::empty());
        assert(machine_step(l).0 == stacked(below, mb)) by {
            assert(machine_step(l).0.work =~= below + runs_of(body));
        }
        assert((u + g - 1) as nat == steps_used(mb, counts, f1) + g);
        assert(run(l, counts, u + g) == run(stacked(below, mb), counts, steps_used(mb, counts, f1) + g));
        assert(MachineView { procs: r1.machine.procs, work: below } == looping(
            r1.machine.procs,
            body,
            (n - 1) as nat,
        ));
    }
}

/// A call of a defined procedure runs exactly as the procedure's body,
/// written in its place as a block, would run (given at least one step);
/// so a body that calls other procedures runs their bodies in turn.
pub proof fn law_call_runs_body(
    name: Seq<char>,
    procs: Map<Seq<char>, Seq<SpecCommand>>,
    counts: Seq<nat>,
    fuel: nat,
)
    requires
        procs.dom().contains(name),
        fuel >= 1,
    ensures
        run(start(SpecCommand::Call(name), procs), counts, fuel) == run(
            start(SpecCommand::Block(procs[name]), procs),
            counts,
            fuel,
        ),
{
    let c = start(SpecCommand::Call(name), procs);
    let b = start(SpecCommand::Block(procs[name]), procs);
    assert(c.work.drop_last() =~= Seq::<SpecWork>::empty());
    assert(b.work.drop_last() =~= Seq::<SpecWork>::empty());
    assert(machine_step(c) == machine_step(b)) by {
        assert(machine_step(c).0.work =~= machine_step(b).0.work);
    }
    let m1 = machine_step(c).0;
    assert(run(c, counts, fuel) == run(m1, counts, (fuel - 1) as nat));
    assert(run(b, counts, fuel) == run(m1, counts, (fuel - 1) as nat));
}

/// Work put on top of other work that does not finish (it fails, waits for
/// a loop count, or runs out of steps) ends the same way with the other work
/// still underneath.
pub proof fn lemma_run_stacked_stops(below: Seq<SpecWork>, m: MachineView, counts: Seq<nat>, fuel: nat)
    requires
        run(m, counts, fuel).end != RunEnd::Finished,
    ensures
        run(stacked(below, m), counts, fuel) == (RunResult {
            machine: stacked(below, run(m, counts, fuel).machine),
            ..run(m, counts, fuel)
        }),
    decreases fuel,
{
    if fuel > 0 {
        let (m2, s) = machine_step(m);
        let f1 = (fuel - 1) as nat;
        if m.work.len() > 0 {
            match s {
                SpecStep::Perform(c) => {
                    lemma_step_stacked(below, m, 0);
                    lemma_run_stacked_stops(below, m2, counts, f1);
                },
                SpecStep::Count(e) => {
                    if counts.len() > 0 {
                        lemma_step_stacked(below, m, counts[0]);
                        lemma_run_stacked_stops(below, machine_enter_loop(m2, counts[0]), counts.drop_first(), f1);
                    } else {
                        lemma_step_stacked(below, m, 0);
                    }
                },
                SpecStep::Continue => {
                    lemma_step_stacked(below, m, 0);
                    lemma_run_stacked_stops(below, m2, counts, f1);
                },
                _ => {
                    lemma_step_stacked(below, m, 0);
                },
            }
        }
    }
}

/// A block `a ++ b` runs `a` as the block `a` would run alone.  If that
/// run fails, waits for a count or runs out of steps, the block `a ++ b`
/// ends the same way, with the commands of `b` still to do.  If it finishes,
/// in `u` steps, the rest runs as the block `b` would, with the procedures
/// and loop counts that `a` left; opening one block in place of two saves a
/// step.
pub proof fn law_block_split(
    a: Seq<SpecCommand>,
    b: Seq<SpecCommand>,
    procs: Map<Seq<char>, Seq<SpecCommand>>,
    counts: Seq<nat>,
    fuel: nat,
)
    requires
        fuel >= 1,
    ensures
        ({
            let ra = run(start(SpecCommand::Block(a), procs), counts, fuel);
            let u = steps_used(start(SpecCommand::Block(a), procs), counts, fuel);
            &&& ra.end != RunEnd::Finished ==> run(start(SpecCommand::Block(a + b), procs), counts, fuel)
                == (RunResult {
                machine: MachineView {
                    procs: ra.machine.procs,
                    work: runs_of(b) + ra.machine.work,
                },
                ..ra
            })
            &&& ra.end == RunEnd::Finished ==> u >= 1 && forall|h: nat|
                h >= 1 ==> run(start(SpecCommand::Block(a + b), procs), counts, (u - 1 + h) as nat)
                    == performed_first(
                    ra.performed,
                    #[trigger] run(start(SpecCommand::Block(b), ra.machine.procs), ra.counts_left, h),
                )
        }),
{
    let ba = start(SpecCommand::Block(a), procs);
    let bab = start(SpecCommand::Block(a + b), procs);
    let ma = MachineView { procs, work: runs_of(a) };
    let below = runs_of(b);
    let f1 = (fuel - 1) as nat;
    assert(ba.work.drop_last() =~= Seq::<SpecWork>::empty());
    assert(bab.work.drop_last() =~= Seq::<SpecWork>::empty());
    assert(machine_step(ba).0 == ma) by {
        assert(machine_step(ba).0.work =~= runs_of(a));
    }
    assert(machine_step(bab).0 == stacked(below, ma)) by {
        assert(runs_of(a + b) =~= below + runs_of(a));
        assert(machine_step(bab).0.work =~= below + runs_of(a));
    }
    let ra = run(ba, counts, fuel);
    assert(ra == run(ma, counts, f1));
    assert(run(bab, counts, fuel) == run(stacked(below, ma), counts, f1));
    if ra.end != RunEnd::Finished {
        lemma_run_stacked_stops(below, ma, counts, f1);
    } else {
        lemma_run_stacked(below, ma, counts, f1);
        let u = steps_used(ba, counts, fuel);
        assert(u == 1 + steps_used(ma, counts, f1));
        assert forall|h: nat|
            h >= 1 implies run(bab, counts, (u - 1 + h) as nat) == performed_first(
            ra.performed,
            #[trigger] run(start(SpecCommand::Block(b), ra.machine.procs), ra.counts_left, h),
        ) by {
            let g = (h - 1) as nat;
            assert((u - 1 + h) as nat == 1 + (steps_used(ma, counts, f1) + g));
            assert(run(bab, counts, (u - 1 + h) as nat) == run(
                stacked(below, ma),
                counts,
                steps_used(ma, counts, f1) + g,
            ));
            let bb = start(SpecCommand::Block(b), ra.machine.procs);
            assert(bb.work.drop_last() =~= Seq::<SpecWork>::empty());
            assert(machine_step(bb).0.work =~= below);
            assert(run(bb, ra.counts_left, h) == run(
                MachineView { procs: ra.machine.procs, work: below },
                ra.counts_left,
                g,
            ));
        }
    }
}

} // verus!
