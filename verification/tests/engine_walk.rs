//! The engine, driven entirely by recorded replies. No model, no network, no
//! memory pressure — so these results never vary.

use std::collections::BTreeMap;

use minions_core::agent::{
    can_read, patch_call, patch_result, tool_node, tool_result, AgentRun, Answered, Assignment,
};
use minions_core::backend::ReplayBackend;
use minions_core::clarify::{append_knowledge, ClarificationAuthority};
use minions_core::context::assemble;
use minions_core::dispatcher::{Dispatched, Dispatcher, GateAuthority, GateDecision, Outcome};
use minions_core::document::{parse, Artifact, Document};
use minions_core::engine::{can_measure, errand, Engine, Errand, Route};
use minions_core::floor::GateReason;
use minions_core::graph::{Condition, Edge, Graph, Node, NodeKind, Numbers, Op};
use minions_core::journal::{Entry, Journal};
use minions_core::ladder::{pair_up, rerun_prompt, rewrite, settle, show_procedure, Ladder, Rung, Settled};
use minions_core::paths::FilePath;
use minions_core::report::compose_report;
use minions_core::run::{NodeState, RoleSpec, RunState, TestBaseline};
use minions_core::sandbox::{PermissionMode, Survey, ToolCall};
use minions_core::table::Table;
use minions_core::tokens::CharRatioTokenizer;
use minions_core::walk::{Stride, Walk};
use minions_core::work::{Progress, Reply, Work};
use minions_core::worker::{Act, Shift, Worker};

const NOW: &str = "2026-08-19T12:00:00";

fn doc(artifact: &str, results: &[(&str, &str)], body: &str) -> String {
    let mut r = String::new();
    for (k, v) in results {
        r.push_str(&format!("  {k}: {v}\n"));
    }
    format!(
        "---\nartifact: {artifact}\nrun: x\nnode: x\nattempt: 1\nmodel: m\ncreated: c\ninputs: []\nresults:\n{r}digest: |\n  A short digest of substance.\n---\n\n{body}\n"
    )
}

/// A body with the sections that requirements have.
fn required(statement: &str) -> String {
    format!("Statement: {statement}\n\nRequirements:\n1. One.\n\nOut of scope:\n- Nothing.")
}

fn agent(id: &str, role: &str, out: &str) -> Node {
    Node {
        id: id.into(),
        kind: NodeKind::Agent,
        role: Some(role.into()),
        slot: Some("reasoning".into()),
        output: Some(out.into()),
        loop_limit: None,
        command: None,
        gate: false,
    }
}
fn plain(id: &str, kind: NodeKind) -> Node {
    Node { id: id.into(), kind, role: None, slot: None, output: None, loop_limit: None, command: None, gate: false }
}
fn edge(a: &str, b: &str) -> Edge {
    Edge { from: a.into(), to: b.into(), when: None }
}

fn role(name: &str, artifact: &str) -> RoleSpec {
    RoleSpec {
        name: name.into(),
        slot: "reasoning".into(),
        window: 8192,
        artifact: artifact.into(),
        system: format!("You are the {name}."),
        primary_inputs: vec![],
        tools: false,
        skill: None,
        max_steps: None,
        max_output: None,
        clarifies: false,
        must_write: false,
    }
}

fn roles() -> Table<RoleSpec> {
    let mut m = Table::new();
    for (name, artifact) in [("analyst", "Requirements"), ("inspector", "Findings")] {
        m.insert(name.to_string(), role(name, artifact));
    }
    m
}

fn slots() -> Table<String> {
    let mut m = Table::new();
    m.insert("reasoning".to_string(), "stub-model".to_string());
    m
}

struct Approve;
impl GateAuthority for Approve {
    fn ask(&self, _c: &ToolCall, _r: GateReason, _consentable: bool) -> GateDecision {
        GateDecision::Approve
    }
}

/// Everything around the engine: the run's directory, the project, the model
/// and the journal.
struct World<'a> {
    engine: Engine,
    backend: ReplayBackend,
    tok: CharRatioTokenizer,
    documents: BTreeMap<String, String>,
    project: BTreeMap<String, String>,
    known: String,
    dispatcher: Option<Dispatcher<'a>>,
    clarifier: Option<&'a dyn ClarificationAuthority>,
    entries: Vec<Entry>,
    notes: Vec<String>,
    /// The states as they were saved, each time.
    saved: Vec<Vec<(String, NodeState)>>,
    /// What was announced, and how often the state was saved before that.
    announced: Vec<(String, NodeState, usize)>,
    failure: Option<String>,
    /// What a command prints, and the code it ends with.
    prints: Vec<(i32, String)>,
    ran: usize,
}

fn number(text: &str) -> Option<f64> {
    text.trim().parse().ok()
}

fn numbers(actual: &str, wanted: &str) -> Option<Numbers> {
    let (a, b) = (number(actual)?, number(wanted)?);
    Some(Numbers { close: (a - b).abs() < f64::EPSILON, greater: a > b, less: a < b })
}

impl<'a> World<'a> {
    fn new(graph: &Graph, roles: Table<RoleSpec>, replies: Vec<String>) -> Self {
        World {
            engine: Engine::new(graph.clone(), roles, slots()),
            backend: ReplayBackend::new(replies),
            tok: CharRatioTokenizer::default(),
            documents: BTreeMap::new(),
            project: BTreeMap::new(),
            known: String::new(),
            dispatcher: None,
            clarifier: None,
            entries: vec![],
            notes: vec![],
            saved: vec![],
            announced: vec![],
            failure: None,
            prints: vec![],
            ran: 0,
        }
    }

    fn with_tools(mut self, authority: &'a Approve) -> Self {
        let root = FilePath::new("/p");
        let journal = Journal::create(&root.join(".minions/runs/r1"));
        self.dispatcher =
            Some(Dispatcher::new(&root, PermissionMode::AskForEverything, vec![], authority, journal));
        self
    }

    fn save(&mut self, run: &RunState) {
        self.saved.push((0..run.states.len()).map(|i| (run.states.key_at(i).clone(), *run.states.value_at(i))).collect());
        self.failure = run.failure.clone();
    }

    fn texts(&self, run: &RunState) -> Vec<String> {
        (0..run.documents.len()).map(|i| self.documents[run.documents.value_at(i)].clone()).collect()
    }

    fn work(&mut self, work: &Work) -> Reply {
        match work {
            Work::Read { path } | Work::BeforeReplace { path, .. } => match self.project.get(path.as_str()) {
                Some(t) => Reply::Text(t.clone()),
                None => Reply::Failed("no such file".into()),
            },
            Work::BeforeWrite { path, .. } | Work::BeforeDelete { path } => {
                Reply::There(self.project.contains_key(path.as_str()))
            }
            Work::BeforeAppend { path, .. } => {
                let text = self.project.get(path.as_str());
                Reply::Held { there: text.is_some(), text: text.cloned().unwrap_or_default() }
            }
            Work::BeforePatch { paths, .. } => {
                Reply::Which(paths.iter().map(|p| self.project.contains_key(p.as_str())).collect())
            }
            Work::Store { path, content, .. } => {
                self.project.insert(path.as_str().to_string(), content.clone());
                Reply::Done
            }
            Work::Remove { path } => {
                self.project.remove(path.as_str());
                Reply::Done
            }
            Work::Patch { .. } | Work::Run { .. } => {
                let (code, stdout) =
                    self.prints.get(self.ran).cloned().unwrap_or((127, "command not found".to_string()));
                self.ran += 1;
                Reply::Exited { code: Some(code), stdout, stderr: String::new() }
            }
        }
    }

    fn dispatch(&mut self, node: &str, attempt: u32, call: ToolCall, gate: bool) -> Result<Outcome, String> {
        let survey = Survey::new();
        let mut d = self.dispatcher.take().expect("a dispatcher");
        d.for_node(node, attempt);
        let came = match d.dispatch(call, gate, &survey, NOW) {
            Dispatched::Refused { entry, why } => {
                self.entries.push(entry);
                Ok(Outcome::Refused(why))
            }
            Dispatched::Perform { call, verdict } => {
                let mut progress = d.begin(call, verdict, &survey, NOW);
                loop {
                    match progress {
                        Progress::Do(work) => {
                            let reply = self.work(&work);
                            assert!(work.suits(&reply));
                            progress = d.proceed(work, reply, verdict, NOW);
                        }
                        Progress::End { entry, outcome } => {
                            self.entries.extend(entry);
                            break outcome;
                        }
                    }
                }
            }
        };
        self.dispatcher = Some(d);
        came
    }

    fn run_tests(&mut self) -> Option<Outcome> {
        let call = self.engine.test_call()?;
        let outcome = self.dispatch("baseline", 1, call, false).ok()?;
        assert!(can_measure(&outcome));
        Some(outcome)
    }

    fn take_baseline(&mut self, run: &mut RunState) {
        if self.engine.test_command.is_some() {
            let measured = self.run_tests().and_then(|outcome| Engine::measure_tests(&outcome));
            self.notes.extend(self.engine.take_baseline(run, measured));
        }
    }

    fn run(&mut self, run: &mut RunState) -> Result<(), String> {
        let mut walk = Walk::begin();
        let mut stride = walk.go_on(&self.engine, run, NOW);
        loop {
            stride = match stride {
                Stride::Save => {
                    self.save(run);
                    walk.go_on(&self.engine, run, NOW)
                }
                Stride::Announce { id, state } => {
                    self.announced.push((id, state, self.saved.len()));
                    walk.go_on(&self.engine, run, NOW)
                }
                Stride::Execute { id } => {
                    let node = self.engine.graph.node(&id).cloned().expect("a ready node is a node");
                    let came = self.execute(&node, run);
                    walk.executed(run, &came)
                }
                Stride::Stop { why: None } => return Ok(()),
                Stride::Stop { why: Some(why) } => return Err(why),
            };
        }
    }

    fn execute(&mut self, node: &Node, run: &mut RunState) -> Result<(), String> {
        match errand(node.kind) {
            Errand::Nothing => Ok(()),
            Errand::Report => {
                let report = compose_report(run, &self.texts(run), NOW, &self.tok);
                self.documents.insert("report.md".into(), report);
                Ok(())
            }
            Errand::Branch => self.branch(node, run),
            Errand::Tool => self.tool(node, run),
            Errand::Agent => {
                let engine = self.engine.clone();
                let who = engine.assign(node)?;
                if who.role.tools {
                    self.steps(node, &who, run)
                } else {
                    self.agent(node, &who, run)
                }
            }
        }
    }

    fn branch(&mut self, node: &Node, run: &mut RunState) -> Result<(), String> {
        let mut route = self.engine.route(&node.id, run, 0);
        loop {
            match route {
                Route::Read { edge, file } => {
                    let d = parse(&self.documents[&file], &self.tok).map_err(|e| e.message())?;
                    let actual = self.engine.field_for(edge, &d.header.results);
                    let wanted = self.engine.graph.edges[edge].when.as_ref().unwrap().value.clone();
                    route = self.engine.route_by(&node.id, run, edge, &actual, numbers(&actual, &wanted));
                }
                Route::Take { to, note } => {
                    self.notes.push(note);
                    self.engine.take(&node.id, run, &to);
                    return Ok(());
                }
                Route::Stuck(why) => return Err(why),
            }
        }
    }

    fn tool(&mut self, node: &Node, run: &mut RunState) -> Result<(), String> {
        let task = tool_node(node)?;
        self.notes.push(task.note.clone());
        let outcome = self.dispatch(&node.id, 1, task.call.clone(), node.gate)?;
        assert!(can_read(&outcome));
        let (text, note) = tool_result(run, &node.id, &task, &outcome, &format!("{outcome:?}"), NOW)?;
        self.documents.insert(task.output.clone(), text);
        run.produced(&node.id, &task.output);
        self.notes.push(note);
        Ok(())
    }

    fn agent(&mut self, node: &Node, who: &Assignment<'_>, run: &mut RunState) -> Result<(), String> {
        let mut trial = AgentRun::begin(run, &node.id);
        loop {
            run.attempted(&node.id, trial.attempt());
            let context = assemble(
                who.role,
                run,
                trial.attempt(),
                who.model,
                who.artifact,
                &self.known,
                &self.texts(run),
                &self.tok,
            );
            self.notes.push(context.size_note(&node.id, who.role.window, &self.tok));
            self.notes.push(trial.note(&node.id, who.model));
            let reply = self.backend.generate(&trial.prompt(&context.text()), who.role.answer_room())?;
            let answered =
                trial.receive(&node.id, &run.run_id, who, &reply.text, reply.truncated, NOW, &self.tok);
            match answered {
                Answered::Wrote { doc, file, text, note } => {
                    self.documents.insert(file.clone(), text);
                    run.produced(&node.id, &file);
                    self.notes.push(note);
                    if who.role.clarifies {
                        self.climb(node, who, &file, run)?;
                    }
                    if who.artifact != Artifact::Patch {
                        return Ok(());
                    }
                    match self.patch(node, &doc) {
                        Ok(()) => return Ok(()),
                        Err(why) => match trial.patch_failed(&node.id, &why) {
                            Answered::Again { note } => self.notes.push(note),
                            Answered::Failed { note, why } => {
                                self.notes.push(note);
                                return Err(why);
                            }
                            Answered::Wrote { .. } => unreachable!(),
                        },
                    }
                }
                Answered::Again { note } => self.notes.push(note),
                Answered::Failed { note, why } => {
                    self.notes.push(note);
                    return Err(why);
                }
            }
        }
    }

    fn patch(&mut self, node: &Node, doc: &Document) -> Result<(), String> {
        let call = patch_call(&node.id, &doc.body)?;
        let outcome = self.dispatch(&node.id, 1, call, true)?;
        let note = patch_result(&node.id, &outcome, &format!("{outcome:?}"))?;
        self.notes.push(note);
        Ok(())
    }

    fn rerun(&mut self, node: &Node, who: &Assignment<'_>, file: &str, instruction: &str, run: &RunState) -> Result<(), String> {
        let context =
            assemble(who.role, run, 1, who.model, who.artifact, &self.known, &self.texts(run), &self.tok);
        let prompt = rerun_prompt(&context.text(), &show_procedure(&None), instruction);
        let reply = self.backend.generate(&prompt, who.role.answer_room())?;
        let written = rewrite(
            &node.id,
            &run.run_id,
            who.model,
            &reply.text,
            reply.truncated,
            who.role.answer_room(),
            NOW,
            &self.tok,
        );
        match written {
            Ok(text) => {
                self.documents.insert(file.to_string(), text);
            }
            Err(note) => self.notes.push(note),
        }
        Ok(())
    }

    fn climb(&mut self, node: &Node, who: &Assignment<'_>, file: &str, run: &RunState) -> Result<(), String> {
        let mut ladder = Ladder::new();
        loop {
            let d = parse(&self.documents[file], &self.tok).map_err(|e| e.message())?;
            match ladder.climb(&node.id, file, &d, self.clarifier.is_some()) {
                Rung::Stop { note } => {
                    self.notes.extend(note);
                    return Ok(());
                }
                Rung::Rerun { note, instruction } => {
                    self.notes.push(note);
                    self.rerun(node, who, file, &instruction, run)?;
                }
                Rung::Ask { note, questions } => {
                    self.notes.push(note);
                    let answers = self.clarifier.unwrap().ask(&node.id, &questions);
                    let pairs = pair_up(&questions, &answers);
                    match settle(&node.id, &pairs, true) {
                        Settled::Unanswered { note } => {
                            self.notes.push(note);
                            return Ok(());
                        }
                        Settled::Answered { note, instruction } => {
                            let known = append_knowledge(Some(&self.known), &pairs);
                            self.known = known.unwrap_or_default();
                            self.notes.extend(note);
                            return self.rerun(node, who, file, &instruction, run);
                        }
                    }
                }
            }
        }
    }

    fn steps(&mut self, node: &Node, who: &Assignment<'_>, run: &mut RunState) -> Result<(), String> {
        let context =
            assemble(who.role, run, 1, who.model, who.artifact, &self.known, &self.texts(run), &self.tok);
        self.notes.push(context.size_note(&node.id, who.role.window, &self.tok));
        let shift = Shift {
            id: &node.id,
            run_id: &run.run_id.clone(),
            role: who.role,
            model: who.model,
            output: who.output,
            baseline: run.baseline,
            has_tests: self.engine.test_command.is_some(),
        };
        let mut worker =
            Worker::begin(who.role, &show_procedure(&None), &context.text(), &self.engine.test_command);
        let mut turned = worker.next_step(&node.id, vec![]);
        loop {
            self.notes.extend(turned.notes.drain(..));
            turned = match turned.act {
                Act::Speak => {
                    self.notes.push(worker.announce(&node.id, who.model));
                    let reply = self.backend.chat(&worker.messages, who.role.step_room())?;
                    worker.hear(&shift, reply, NOW, &self.tok)
                }
                Act::Dispatch(call) => {
                    let outcome = self.dispatch(&node.id, worker.step, call, node.gate);
                    worker.came(&shift, &outcome, &self.tok)
                }
                Act::CountWrites => worker.count(&shift, Journal::writes_by(&self.entries, &node.id), NOW),
                Act::MeasureTests => {
                    let counts = self.run_tests().and_then(|outcome| Engine::measure_again(run, &outcome));
                    worker.measure(&shift, counts, NOW)
                }
                Act::Write { text, note } => {
                    self.documents.insert(who.output.to_string(), text);
                    run.produced(&node.id, who.output);
                    run.attempted(&node.id, worker.step);
                    self.notes.push(note);
                    return Ok(());
                }
                Act::Fail(why) => return Err(why),
            };
        }
    }
}

fn line_of(id: &str, role: &str, out: &str) -> Graph {
    Graph {
        nodes: vec![plain("in", NodeKind::Input), agent(id, role, out), plain("out", NodeKind::Output)],
        edges: vec![edge("in", id), edge(id, "out")],
    }
}

fn findings(breaking: &str, risky: &str, unmet: &str, body: &str) -> String {
    doc(
        "Findings",
        &[("breaking", breaking), ("risky", risky), ("minor", "0"), ("unmet_requirements", unmet)],
        body,
    )
}

fn requirements(n: &str, unknowns: &str, body: &str) -> String {
    doc("Requirements", &[("requirements", n), ("unknowns", unknowns)], body)
}

#[test]
fn a_linear_run_writes_documents_and_finishes() {
    let g = line_of("a", "analyst", "01_req.md");
    assert_eq!(g.validate(), vec![]);

    let mut w = World::new(&g, roles(), vec![requirements("3", "0", &required("Body."))]);
    let mut run = RunState::new("r1", "test", &g);
    w.run(&mut run).unwrap();

    assert_eq!(run.state("a"), NodeState::Done);
    assert_eq!(run.state("out"), NodeState::Done);
    assert!(run.finished.is_some());
    assert_eq!(run.documents.get("a").unwrap(), "01_req.md");
    assert!(w.documents.contains_key("01_req.md"));
    assert!(w.notes.iter().any(|n| n.contains("wrote 01_req.md")), "{:?}", w.notes);

    let report = &w.documents["report.md"];
    assert!(report.starts_with("# Run report — r1\n\nWorkflow: test\n"), "{report}");
    assert!(report.contains("### a — `01_req.md`\n\nA short digest of substance.\n\n`requirements: 3 · unknowns: 0`"), "{report}");
    assert!(report.contains("- Documents produced: 1\n- Repeated attempts: 0\n"), "{report}");
}

#[test]
fn run_json_is_written_before_the_transition_it_describes() {
    // A crash between writing and announcing must re-execute, never skip.
    let g = line_of("a", "analyst", "01_req.md");
    let mut w = World::new(&g, roles(), vec![requirements("1", "0", &required("B."))]);
    let mut run = RunState::new("r2", "test", &g);
    w.run(&mut run).unwrap();

    let seen = w.announced.iter().find(|(id, state, _)| id == "a" && *state == NodeState::Running);
    let (_, _, saves) = seen.expect("the node was announced");
    assert!(
        w.saved[saves - 1].contains(&("a".to_string(), NodeState::Running)),
        "the transition was announced before it was persisted"
    );
    for (id, state, saves) in &w.announced {
        assert!(w.saved[saves - 1].contains(&(id.clone(), *state)), "{id} was announced as {state:?} unsaved");
    }
    assert_eq!(w.announced.len(), 6);
    assert!(w.saved.last().unwrap().contains(&("a".to_string(), NodeState::Done)));
}

#[test]
fn a_malformed_reply_is_retried_with_guidance_then_accepted() {
    let g = line_of("a", "analyst", "01_req.md");
    let mut w = World::new(
        &g,
        roles(),
        vec![
            "I think the requirements are these.".to_string(), // no header at all
            requirements("2", "0", &required("Body.")),
        ],
    );
    let mut run = RunState::new("r3", "test", &g);
    w.run(&mut run).unwrap();

    assert_eq!(run.state("a"), NodeState::Done);
    assert_eq!(run.attempts.get("a"), Some(&2), "the retry should be counted");
    // Attempt 2 must not overwrite attempt 1's filename.
    assert!(w.documents.contains_key("01_req.a2.md"), "a repeat attempt must write its own file");

    let prompts = w.backend.prompts();
    assert_eq!(prompts.len(), 2);
    assert!(prompts[1].contains("CORRECTION"), "the retry carried no guidance");
    assert!(prompts[1].contains("rejected"), "the guidance did not say what happened");
}

#[test]
fn a_node_fails_after_three_malformed_replies() {
    let g = line_of("a", "analyst", "01_req.md");
    let mut w = World::new(&g, roles(), vec!["junk".into(), "junk".into(), "junk".into()]);
    let mut run = RunState::new("r4", "test", &g);

    let err = w.run(&mut run).unwrap_err();
    assert!(err.contains("no valid document"), "{err}");
    assert_eq!(run.state("a"), NodeState::Failed);
    assert_eq!(run.state("out"), NodeState::Idle, "downstream must not run");
    assert!(w.failure.is_some(), "the failure must survive on disk");
    let (id, state, saves) = w.announced.last().unwrap();
    assert_eq!((id.as_str(), *state), ("a", NodeState::Failed));
    assert_eq!(*saves, w.saved.len(), "nothing happens after the failure is announced");
}

fn forked() -> Graph {
    let mut g = Graph {
        nodes: vec![
            plain("in", NodeKind::Input),
            agent("rev", "inspector", "04_findings.md"),
            plain("br", NodeKind::Branch),
            agent("fix", "analyst", "05_fix.md"),
            agent("ship", "analyst", "05_ship.md"),
            plain("out", NodeKind::Output),
        ],
        edges: vec![edge("in", "rev"), edge("rev", "br")],
    };
    g.edges.push(Edge {
        from: "br".into(),
        to: "fix".into(),
        when: Some(Condition {
            document: "04_findings.md".into(),
            field: "breaking".into(),
            op: Op::Gt,
            value: "0".into(),
        }),
    });
    g.edges.push(edge("br", "ship"));
    g.edges.push(edge("fix", "out"));
    g.edges.push(edge("ship", "out"));
    g
}

#[test]
fn a_branch_routes_on_the_results_block_and_skips_the_other_way() {
    let g = forked();
    // No breaking findings -> the fallback (ship) is taken, fix is skipped.
    let mut w = World::new(
        &g,
        roles(),
        vec![findings("0", "1", "0", "Nothing serious."), requirements("1", "0", &required("Shipping."))],
    );
    let mut run = RunState::new("r5", "test", &g);
    w.run(&mut run).unwrap();

    assert_eq!(run.state("ship"), NodeState::Done);
    assert_eq!(run.state("fix"), NodeState::Skipped, "the untaken branch must be skipped, not left idle");
    assert_eq!(run.state("out"), NodeState::Done, "the merge point must still run");
    assert!(w.notes.iter().any(|n| n.contains("fallback")), "{:?}", w.notes);
    assert!(w.documents["report.md"].contains("- Not taken: fix\n"));
}

#[test]
fn a_branch_takes_the_conditional_way_when_the_field_says_so() {
    let g = forked();
    let mut w = World::new(
        &g,
        roles(),
        vec![findings("2", "0", "1", "Two breakages."), requirements("1", "0", &required("Fixing."))],
    );
    let mut run = RunState::new("r6", "test", &g);
    w.run(&mut run).unwrap();

    assert_eq!(run.state("fix"), NodeState::Done, "breaking > 0 must route to the fix");
    assert_eq!(run.state("ship"), NodeState::Skipped);
}

#[test]
fn a_branch_leaves_nothing_waiting_whatever_the_order_of_its_edges() {
    let when = |to: &str, field: &str| Edge {
        from: "br".into(),
        to: to.into(),
        when: Some(Condition {
            document: "04_findings.md".into(),
            field: field.into(),
            op: Op::Gt,
            value: "0".into(),
        }),
    };
    let fix_first = vec![when("fix", "breaking"), when("verify", "unmet_requirements"), edge("br", "ship")];
    let fix_last = vec![when("verify", "unmet_requirements"), edge("br", "ship"), when("fix", "breaking")];
    for ways in [fix_first, fix_last] {
        let mut g = forked();
        g.nodes.push(agent("verify", "analyst", "06_verify.md"));
        g.edges = vec![edge("in", "rev"), edge("rev", "br")];
        g.edges.extend(ways);
        g.edges.extend([edge("fix", "verify"), edge("verify", "out"), edge("ship", "out")]);
        let mut w = World::new(
            &g,
            roles(),
            vec![findings("0", "1", "0", "Nothing serious."), requirements("1", "0", &required("Shipping."))],
        );
        let mut run = RunState::new("r", "test", &g);
        w.run(&mut run).unwrap();

        assert_eq!(run.state("ship"), NodeState::Done);
        assert_eq!(run.state("fix"), NodeState::Skipped);
        assert_eq!(run.state("verify"), NodeState::Skipped, "its one way left comes from a skipped node");
        assert_eq!(run.state("out"), NodeState::Done);
    }
}

#[test]
fn a_node_with_a_live_way_left_is_not_skipped_by_a_branch() {
    let mut g = forked();
    g.edges.push(edge("ship", "fix"));
    let mut w = World::new(
        &g,
        roles(),
        vec![
            findings("0", "1", "0", "Nothing serious."),
            requirements("1", "0", &required("Shipping.")),
            requirements("1", "0", &required("Mending after all.")),
        ],
    );
    let mut run = RunState::new("r", "test", &g);
    w.run(&mut run).unwrap();
    assert_eq!(run.state("ship"), NodeState::Done);
    assert_eq!(run.state("fix"), NodeState::Done);
}

#[test]
fn a_branch_with_no_way_to_take_is_stuck() {
    let mut g = forked();
    g.edges.retain(|e| e.to != "ship");
    let mut w = World::new(&g, roles(), vec![findings("0", "0", "0", "Nothing serious.")]);
    let mut run = RunState::new("r", "test", &g);
    let err = w.run(&mut run).unwrap_err();
    assert!(err.contains("`br`") && err.contains("no fallback"), "{err}");
}

#[test]
fn later_nodes_receive_digests_and_not_whole_bodies() {
    // The claim the whole file bus rests on: context does not grow by carrying
    // every earlier document in full.
    let g = Graph {
        nodes: vec![
            plain("in", NodeKind::Input),
            agent("a", "analyst", "01_req.md"),
            agent("b", "inspector", "04_findings.md"),
            plain("out", NodeKind::Output),
        ],
        edges: vec![edge("in", "a"), edge("a", "b"), edge("b", "out")],
    };
    let long_body = "This sentence is part of a deliberately long body. ".repeat(80);
    let replies = || vec![requirements("9", "0", &required(&long_body)), findings("0", "0", "0", "Fine.")];
    let mut w = World::new(&g, roles(), replies());
    let mut run = RunState::new("r7", "test", &g);
    w.run(&mut run).unwrap();

    let second = &w.backend.prompts()[1];
    assert!(second.contains("digests only"), "the digest section is missing");
    assert!(second.contains("A short digest of substance"), "the digest itself is missing");
    assert!(
        !second.contains(&long_body),
        "the second node received the first document in full, which is what digests exist to prevent"
    );

    // A role that declares the document reads it in full.
    let mut all = roles();
    let mut reads = role("inspector", "Findings");
    reads.primary_inputs = vec!["01_req.md".into()];
    all.insert("inspector".into(), reads);
    let mut w = World::new(&g, all, replies());
    let mut run = RunState::new("r7", "test", &g);
    w.run(&mut run).unwrap();
    assert!(w.backend.prompts()[1].contains(long_body.trim()), "a declared input arrives in full");
}

#[test]
fn accumulated_answers_reach_the_next_run() {
    // The ladder keeps every answer. If nothing read it back, the same questions
    // would be asked every day and the ladder would be a tax rather than a
    // safeguard.
    let known = append_knowledge(
        None,
        &[("Which runtime?".to_string(), "Our own interpreter, written in Rust.".to_string())],
    )
    .unwrap();
    let g = line_of("a", "analyst", "01_req.md");
    let mut w = World::new(&g, roles(), vec![requirements("1", "0", &required("Body."))]);
    w.known = known;
    let mut run = RunState::new("r-knowledge", "test", &g);
    w.run(&mut run).unwrap();

    let prompt = &w.backend.prompts()[0];
    assert!(prompt.contains("Our own interpreter"), "the accumulated answer never reached the model");
    assert!(prompt.contains("Do not ask them again"), "the model was not told these are settled");
}

fn worker_roles(max_steps: u32) -> Table<RoleSpec> {
    let mut all = roles();
    let mut worker = role("worker", "Findings");
    worker.tools = true;
    worker.max_steps = Some(max_steps);
    all.insert("worker".into(), worker);
    all
}

/// A tool-using node has to see its own calls on the next step: an assistant
/// turn without them is shown as a call to nothing, and the model then asks
/// again for what it already has.
#[test]
fn an_assistant_turn_carries_the_calls_it_made() {
    let authority = Approve;
    let g = line_of("worker", "worker", "01_findings.md");
    assert_eq!(g.validate(), vec![]);

    let mut w = World::new(
        &g,
        worker_roles(4),
        vec![
            "NATIVE:{\"name\":\"read_file\",\"arguments\":{\"path\":\"a.txt\"}}".to_string(),
            findings("0", "0", "0", "Nothing is wrong with a file that says hello."),
        ],
    )
    .with_tools(&authority);
    w.project.insert("/p/a.txt".into(), "hello from the file\n".into());
    let mut run = RunState::new("r1", "test", &g);
    w.run(&mut run).unwrap();

    assert_eq!(run.state("worker"), NodeState::Done);
    let prompts = w.backend.prompts();
    assert_eq!(prompts.len(), 2, "the node should have taken two steps");
    assert!(
        prompts[1].contains("<calls: read_file>"),
        "the second step must show the call the first step made:\n{}",
        prompts[1]
    );
    assert!(
        prompts[1].contains("hello from the file"),
        "and the result that came back for it:\n{}",
        prompts[1]
    );
}

#[test]
fn calls_made_line_by_line_are_performed() {
    let authority = Approve;
    let g = line_of("worker", "worker", "01_findings.md");
    let mut w = World::new(
        &g,
        worker_roles(4),
        vec![
            "I will look first.\nTOOL read a.txt\nTOOL write b.txt\n<<<FILE\nnew\nFILE>>>\nTOOL done\nTOOL read c.txt\n"
                .to_string(),
            findings("0", "0", "0", "The next agent may write:\nTOOL read a.txt\n"),
        ],
    )
    .with_tools(&authority);
    w.project.insert("/p/a.txt".into(), "hello from the file\n".into());
    let mut run = RunState::new("r1", "test", &g);
    w.run(&mut run).unwrap();

    assert_eq!(run.state("worker"), NodeState::Done, "{:?}", w.notes);
    assert_eq!(w.project["/p/b.txt"], "new\n");
    assert!(
        w.notes.iter().any(|n| n == "worker: the call came as LineSyntax rather than through the tool channel"),
        "{:?}",
        w.notes
    );
    let prompts = w.backend.prompts();
    assert_eq!(prompts.len(), 2, "a document that speaks of such lines is a document");
    assert!(prompts[1].contains("<calls: read_file, write_file>"), "{}", prompts[1]);
    assert!(prompts[1].contains("hello from the file"), "{}", prompts[1]);
    assert_eq!(w.entries.len(), 2, "nothing after `done` is performed: {:?}", w.entries);
}

#[test]
fn the_run_log_says_how_big_the_prompt_was_and_of_what() {
    // "It will probably fit" is no measurement: an overflow could only be
    // guessed at from how the model behaved.
    let g = line_of("a", "analyst", "01_req.md");
    let mut w = World::new(&g, roles(), vec![requirements("3", "0", &required("Body."))]);
    let mut run = RunState::new("r1", "test", &g);
    w.run(&mut run).unwrap();

    let line = w
        .notes
        .iter()
        .find(|n| n.starts_with("a: context "))
        .unwrap_or_else(|| panic!("no context measurement in the log: {:?}", w.notes));

    // The line has to carry the parts, a total and the budget it is measured
    // against — a number with nothing to compare it to says nothing.
    assert!(line.contains("system "), "{line}");
    assert!(line.contains("contract "), "{line}");
    assert!(line.contains(" tokens of a "), "{line}");
    assert!(line.ends_with(" token budget"), "{line}");

    let total: usize = line
        .split_once("= ")
        .and_then(|(_, t)| t.split_once(" tokens"))
        .and_then(|(n, _)| n.parse().ok())
        .unwrap_or_else(|| panic!("no total in {line}"));
    assert!(total > 0, "an empty measurement is not a measurement: {line}");
}

#[test]
fn a_cut_off_answer_is_named_as_one_and_the_role_says_how_much_room_it_needs() {
    // The failure this prevents: a reply that ran out of room parses as nothing,
    // the node reports "no valid document", and the correction it sends back is
    // advice about the format — which was never the problem.
    let g = line_of("a", "analyst", "01_req.md");
    let mut all = roles();
    let mut analyst = role("analyst", "Requirements");
    analyst.max_output = Some(64);
    all.insert("analyst".into(), analyst);
    let mut w = World::new(
        &g,
        all,
        vec![
            // What a cut-off answer looks like: the beginning of a document.
            "CUT:---\nartifact: Requirements\nrun: x\nnode: x\nattempt: 1\nmodel: m\ncreated: c\ninputs: []\nresults:\n  requi".to_string(),
            requirements("3", "0", &required("Body.")),
        ],
    );
    let mut run = RunState::new("r1", "test", &g);
    w.run(&mut run).unwrap();

    assert!(
        w.notes.iter().any(|n| n.contains("cut off at 64 tokens")),
        "the cut-off was not named: {:?}",
        w.notes
    );
    assert!(
        !w.notes.iter().any(|n| n.contains("rejected")),
        "the model was blamed for the format instead: {:?}",
        w.notes
    );
    assert_eq!(run.state("a"), NodeState::Done, "the next attempt must still be allowed to succeed");

    // The role's number is what was actually asked for, both times.
    assert_eq!(w.backend.predicts(), vec![64, 64], "num_predict did not come from the role");
}

fn unittest() -> Option<Vec<String>> {
    Some(vec!["bash".into(), "-lc".into(), "python3 -m unittest discover -s tests".into()])
}

/// The harness measures the baseline with one command, and a role that guesses
/// at another one spends its steps on it.
#[test]
fn a_tool_role_is_told_the_command_the_harness_measures_with() {
    let authority = Approve;
    let g = line_of("worker", "worker", "01_findings.md");
    let mut w = World::new(&g, worker_roles(4), vec![findings("0", "0", "0", "Nothing to change.")])
        .with_tools(&authority);
    // The shape a run stores: the harness's own shell wrapper around the command.
    w.engine.test_command = unittest();
    let mut run = RunState::new("r1", "test", &g);
    w.run(&mut run).unwrap();

    let first = &w.backend.prompts()[0];
    assert!(
        first.contains("python3 -m unittest discover -s tests"),
        "the role was never told the command the harness measures with:\n{first}"
    );
    assert!(
        !first.contains("bash -lc"),
        "the agent was shown the harness's own shell wrapper, which run_command adds itself:\n{first}"
    );
}

/// A repeated call that failed the same way will not start working, and the
/// harness is the only party that can see the repetition.
#[test]
fn a_call_that_keeps_failing_the_same_way_is_named_out_loud() {
    let authority = Approve;
    let g = line_of("worker", "worker", "01_findings.md");
    let wrong = "NATIVE:{\"name\":\"run_command\",\"arguments\":{\"command\":\"unittest-runner-that-does-not-exist -s tests\"}}"
        .to_string();
    let mut w = World::new(
        &g,
        worker_roles(6),
        vec![wrong.clone(), wrong.clone(), wrong.clone(), findings("0", "0", "0", "Gave up on that command.")],
    )
    .with_tools(&authority);
    w.engine.test_command = unittest();
    let mut run = RunState::new("r1", "test", &g);
    w.run(&mut run).unwrap();

    assert_eq!(run.state("worker"), NodeState::Done);
    let prompts = w.backend.prompts();
    assert_eq!(prompts.len(), 4, "the node should have taken four steps");
    assert!(
        !prompts[1].contains("same call has now failed"),
        "one failure is not a repetition:\n{}",
        prompts[1]
    );
    assert!(
        prompts[3].contains("same call has now failed 3 times"),
        "the third identical failure was not put to the model:\n{}",
        prompts[3]
    );
    assert!(
        w.notes.iter().any(|n| n.contains("same call has now failed 3 times")),
        "and it was not said out loud in the log: {:?}",
        w.notes
    );
}

fn coder_roles() -> Table<RoleSpec> {
    let mut all = roles();
    let mut worker = role("worker", "Findings");
    worker.tools = true;
    worker.must_write = true;
    worker.max_steps = Some(4);
    all.insert("worker".into(), worker);
    all
}

#[test]
fn a_role_that_must_write_is_refused_until_the_journal_shows_it_wrote() {
    let authority = Approve;
    let g = line_of("worker", "worker", "01_findings.md");
    let finished = findings("0", "0", "0", "All done.");
    let mut w = World::new(
        &g,
        coder_roles(),
        vec![
            finished.clone(),
            "NATIVE:{\"name\":\"write_file\",\"arguments\":{\"path\":\"a.txt\",\"content\":\"new\"}}".to_string(),
            finished,
        ],
    )
    .with_tools(&authority);
    let mut run = RunState::new("r1", "test", &g);
    w.run(&mut run).unwrap();
    assert_eq!(run.state("worker"), NodeState::Done);
    assert_eq!(run.attempts.get("worker"), Some(&3));
    assert_eq!(w.project.get("/p/a.txt").map(String::as_str), Some("new"));
    assert!(w.notes.iter().any(|n| n.contains("refused")), "{:?}", w.notes);
    assert!(w.backend.prompts()[1].contains("no file has been written"));
}

#[test]
fn a_run_that_loses_tests_is_refused() {
    let authority = Approve;
    let g = line_of("worker", "worker", "01_findings.md");
    let finished = findings("0", "0", "0", "All done.");
    let mut w = World::new(&g, worker_roles(3), vec![finished.clone(), finished]).with_tools(&authority);
    w.engine.test_command = unittest();
    w.prints = vec![
        (0, "Ran 6 tests in 0.1s\n\nOK\n".into()),
        (0, "Ran 2 tests in 0.1s\n\nOK\n".into()),
        (0, "Ran 7 tests in 0.1s\n\nOK\n".into()),
    ];
    let mut run = RunState::new("r1", "test", &g);
    w.take_baseline(&mut run);
    assert_eq!(run.baseline, Some(TestBaseline { total: 6, failed: 0 }));
    assert!(w.notes.contains(&"baseline: 6 tests, 0 failing".to_string()), "{:?}", w.notes);
    w.run(&mut run).unwrap();
    assert_eq!(run.attempts.get("worker"), Some(&2));
    assert!(w.notes.iter().any(|n| n.contains("6 tests before, 2 now")), "{:?}", w.notes);
    assert_eq!(run.measured, Some(TestBaseline { total: 7, failed: 0 }));
    let report = &w.documents["report.md"];
    assert!(report.contains("- Tests: was 6/6 passing, now 7/7 passing\n"), "{report}");
}

#[test]
fn a_role_that_must_write_is_refused_while_the_tests_fail() {
    let authority = Approve;
    let g = line_of("worker", "worker", "01_findings.md");
    let finished = findings("0", "0", "0", "All done.");
    let mut w = World::new(
        &g,
        coder_roles(),
        vec![
            "NATIVE:{\"name\":\"write_file\",\"arguments\":{\"path\":\"a.txt\",\"content\":\"new\"}}".to_string(),
            finished.clone(),
            finished,
        ],
    )
    .with_tools(&authority);
    w.engine.test_command = unittest();
    w.prints = vec![
        (0, "Ran 6 tests in 0.1s\n\nOK\n".into()),
        (1, "Ran 6 tests in 0.1s\n\nFAILED (failures=1)\n".into()),
        (0, "Ran 6 tests in 0.1s\n\nOK\n".into()),
    ];
    let mut run = RunState::new("r1", "test", &g);
    w.take_baseline(&mut run);
    w.run(&mut run).unwrap();
    assert_eq!(run.attempts.get("worker"), Some(&3), "{:?}", w.notes);
}

#[test]
fn a_node_that_never_writes_its_document_fails_when_its_steps_are_used() {
    let authority = Approve;
    let g = line_of("worker", "worker", "01_findings.md");
    let mut w = World::new(&g, worker_roles(2), vec!["Let me think.".into(), "Still thinking.".into()])
        .with_tools(&authority);
    let mut run = RunState::new("r1", "test", &g);
    let err = w.run(&mut run).unwrap_err();
    assert_eq!(err, "`worker` used all 2 steps without producing its document");
    assert_eq!(run.failure.as_deref(), Some("worker: `worker` used all 2 steps without producing its document"));
}

#[test]
fn a_tool_node_makes_a_document_of_what_its_command_printed() {
    let authority = Approve;
    let mut tool = plain("tests", NodeKind::Tool);
    tool.output = Some("03_tests.md".into());
    tool.command = unittest();
    let g = Graph {
        nodes: vec![plain("in", NodeKind::Input), tool, plain("out", NodeKind::Output)],
        edges: vec![edge("in", "tests"), edge("tests", "out")],
    };
    let mut w = World::new(&g, roles(), vec![]).with_tools(&authority);
    w.prints = vec![(1, "Ran 5 tests in 0.1s\n\nFAILED (failures=2)\n".into())];
    let mut run = RunState::new("r1", "test", &g);
    w.run(&mut run).unwrap();
    let d = parse(&w.documents["03_tests.md"], &w.tok).unwrap();
    assert_eq!(d.header.results.get("total").map(String::as_str), Some("5"));
    assert_eq!(d.header.results.get("passed").map(String::as_str), Some("3"));
    assert_eq!(d.header.results.get("failed").map(String::as_str), Some("2"));
    assert_eq!(d.header.results.get("conclusive").map(String::as_str), Some("yes"));
    assert!(w.notes.contains(&"tests wrote 03_tests.md (exit 1)".to_string()), "{:?}", w.notes);

    let bare = plain("tests", NodeKind::Tool);
    assert!(tool_node(&bare).unwrap_err().contains("no command"));
}

#[test]
fn a_patch_that_does_not_apply_is_a_correctable_mistake() {
    let authority = Approve;
    let g = line_of("a", "coder", "03_changes.diff");
    let mut all = roles();
    all.insert("coder".into(), role("coder", "Patch"));
    let diff = "```diff\n--- a/a.txt\n+++ b/a.txt\n@@ -1 +1 @@\n-old\n+new\n```";
    let results = [("files", "1"), ("added", "1"), ("removed", "1"), ("steps_done", "1"), ("steps_skipped", "0")];
    let patch = doc("Patch", &results, diff);
    let mut w = World::new(&g, all, vec![patch.clone(), patch]).with_tools(&authority);
    w.prints = vec![(1, "error: patch failed".into()), (0, String::new())];
    let mut run = RunState::new("r1", "test", &g);
    w.run(&mut run).unwrap();
    assert_eq!(run.documents.get("a").map(String::as_str), Some("03_changes.a2.diff"));
    assert!(w.backend.prompts()[1].contains("the diff did not apply"), "{}", w.backend.prompts()[1]);
    assert!(w.notes.contains(&"a: patch applied to the working tree".to_string()), "{:?}", w.notes);

    assert!(patch_call("a", "\n").unwrap_err().contains("no diff"));
    assert!(patch_result("a", &Outcome::Refused("no".into()), "").unwrap_err().contains("refused: no"));
}

struct Owner;
impl ClarificationAuthority for Owner {
    fn ask(&self, _node: &str, questions: &[String]) -> Vec<String> {
        questions.iter().map(|_| "Rust.".to_string()).collect()
    }
}

#[test]
fn the_human_is_asked_after_two_passes_and_the_answer_is_kept() {
    let owner = Owner;
    let g = line_of("a", "analyst", "01_req.md");
    let mut all = roles();
    let mut analyst = role("analyst", "Requirements");
    analyst.clarifies = true;
    all.insert("analyst".into(), analyst);
    let open = requirements("1", "1", &format!("{}\n\nUnknowns:\n1. Which runtime?\n", required("Body.")));
    let settled = requirements("1", "0", &required("It runs in Rust."));
    let mut w = World::new(&g, all, vec![open.clone(), open.clone(), "nonsense".into(), settled]);
    w.clarifier = Some(&owner);
    let mut run = RunState::new("r1", "test", &g);
    w.run(&mut run).unwrap();
    assert_eq!(w.backend.prompts().len(), 4);
    assert!(w.notes.iter().any(|n| n.contains("self-resolution pass 1 of 2")), "{:?}", w.notes);
    assert!(w.notes.iter().any(|n| n.contains("keeping the previous document")), "{:?}", w.notes);
    assert!(w.notes.iter().any(|n| n.contains("asking the human 1 question(s)")), "{:?}", w.notes);
    assert!(w.known.contains("Rust."));
    assert!(w.documents["01_req.md"].contains("It runs in Rust."));
}

#[test]
fn an_assignment_that_cannot_be_made_says_what_is_missing() {
    let e = Engine::new(Graph::default(), roles(), slots());
    let why = |n: &Node| e.assign(n).map(|_| ()).unwrap_err();
    assert_eq!(why(&plain("x", NodeKind::Agent)), "`x` names no role");
    assert_eq!(why(&agent("x", "poet", "o.md")), "no role `poet`");
    let mut unbound = agent("x", "analyst", "o.md");
    unbound.slot = Some("dreaming".into());
    assert_eq!(why(&unbound), "slot `dreaming` is not bound to a model");
    let mut silent = agent("x", "analyst", "o.md");
    silent.output = None;
    assert_eq!(why(&silent), "`x` declares no output");
}

#[test]
fn a_long_conversation_is_compacted_and_keeps_the_task() {
    let authority = Approve;
    let g = line_of("worker", "worker", "01_findings.md");
    let mut all = worker_roles(6);
    let mut worker = role("worker", "Findings");
    worker.tools = true;
    worker.window = 2000;
    all.insert("worker".into(), worker);
    let read = |f: &str| format!("NATIVE:{{\"name\":\"read_file\",\"arguments\":{{\"path\":\"{f}\"}}}}");
    let mut w = World::new(&g, all, vec![read("a.txt"), read("b.txt"), findings("0", "0", "0", "Fine.")])
        .with_tools(&authority);
    w.project.insert("/p/a.txt".into(), "alpha ".repeat(600));
    w.project.insert("/p/b.txt".into(), "beta ".repeat(600));
    let mut run = RunState::new("r1", "test", &g);
    w.run(&mut run).unwrap();
    let prompts = w.backend.prompts();
    assert!(prompts[1].contains("alpha alpha"), "nothing is dropped before it has to be");
    assert!(prompts[2].starts_with("[System] You are the worker."), "{}", prompts[2]);
    assert!(prompts[2].contains("[earlier steps were compacted away]"), "{}", prompts[2]);
    assert!(!prompts[2].contains("alpha alpha") && prompts[2].contains("beta beta"), "{}", prompts[2]);
    assert!(w.notes.contains(&"worker compacted its step history".to_string()), "{:?}", w.notes);
}

#[test]
fn the_report_gives_the_tests_as_they_were_last_measured() {
    let authority = Approve;
    let mut first = plain("z_first", NodeKind::Tool);
    first.output = Some("03_tests.md".into());
    first.command = unittest();
    let mut second = plain("a_second", NodeKind::Tool);
    second.output = Some("05_tests.md".into());
    second.command = unittest();
    let g = Graph {
        nodes: vec![plain("in", NodeKind::Input), first, second, plain("out", NodeKind::Output)],
        edges: vec![edge("in", "z_first"), edge("z_first", "a_second"), edge("a_second", "out")],
    };
    let mut w = World::new(&g, roles(), vec![]).with_tools(&authority);
    w.engine.test_command = unittest();
    w.prints = vec![
        (1, "Ran 4 tests in 0.1s\n\nFAILED (failures=1)\n".into()),
        (1, "Ran 4 tests in 0.1s\n\nFAILED (failures=2)\n".into()),
        (0, "Ran 4 tests in 0.1s\n\nOK\n".into()),
    ];
    let mut run = RunState::new("r1", "test", &g);
    w.take_baseline(&mut run);
    w.run(&mut run).unwrap();
    let report = &w.documents["report.md"];
    assert!(report.contains("- Tests: was 3/4 passing, now 4/4 passing\n"), "{report}");
}
