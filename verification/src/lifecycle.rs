//! Lifecycle decisions.
//!
//! A step moves through five staged lifecycles, from planned to committed.
//! The library decides which step runs next, under which lifecycle and
//! model, with which tool command and prompt; the caller performs the runs
//! and reports their outcomes back through the state file.

use vstd::prelude::*;

use crate::config::Config;
use crate::config::GateCommand;
use crate::config::ToolType;
use crate::config::programs_spec;
use crate::config::effective_tool;
use crate::plan::PlanStep;
use crate::state::state_for_spec;
use crate::state::StateFile;
use crate::state::StepState;
use crate::steps::StepsFile;
use crate::text::dec_str;
use crate::text::trim_spec;
use crate::text::trim_str;
use crate::text::u64_to_string;
use crate::text::views_of;

verus! {

/// Runtime options for a lifecycle execution.
pub struct RunOptions {
    pub plan_path: String,
    pub state_path: String,
    pub workdir: String,
}

/// The step to run next and the lifecycle to run it under.
#[derive(Debug)]
pub struct NextAction {
    pub step: PlanStep,
    pub lifecycle: u8,
}

/// What one agent invocation is about.
pub struct ActionContext {
    pub step: PlanStep,
    pub model: String,
    pub action: String,
    pub lifecycle: u8,
    pub diff_path: Option<String>,
    pub resume_prompt: Option<String>,
}

/// A lifecycle stage the state file holds that no lifecycle matches.
#[derive(Debug)]
pub struct InvalidStage {
    pub stage: u8,
}

// ---------------------------------------------------------------------------
// The five lifecycles
// ---------------------------------------------------------------------------
/// The state a lifecycle consumes, the state it produces, and its label.
pub open spec fn mapping_spec(lifecycle: u8) -> Option<(StepState, StepState, Seq<char>)> {
    if lifecycle == 1 {
        Option::Some((StepState::Planned, StepState::Implemented, "implement"@))
    } else if lifecycle == 2 {
        Option::Some((StepState::Implemented, StepState::ImplementedChecked, "validate"@))
    } else if lifecycle == 3 {
        Option::Some((StepState::ImplementedChecked, StepState::ImplementedTested, "test"@))
    } else if lifecycle == 4 {
        Option::Some(
            (StepState::ImplementedTested, StepState::ImplementedFinalized, "finalize"@),
        )
    } else if lifecycle == 5 {
        Option::Some(
            (StepState::ImplementedFinalized, StepState::ImplementedCommitted, "commit"@),
        )
    } else {
        Option::None
    }
}

/// The two states and the action label of a lifecycle; `None` off 1 to 5.
pub fn lifecycle_mapping(lifecycle: u8) -> (r: Option<(StepState, StepState, String)>)
    ensures
        r is Some <==> mapping_spec(lifecycle) is Some,
        r is Some ==> {
            let (cur, next, label) = r->Some_0;
            let (scur, snext, slabel) = mapping_spec(lifecycle)->Some_0;
            cur == scur && next == snext && label@ == slabel
        },
{
    if lifecycle == 1 {
        Some((StepState::Planned, StepState::Implemented, "implement".to_owned()))
    } else if lifecycle == 2 {
        Some((StepState::Implemented, StepState::ImplementedChecked, "validate".to_owned()))
    } else if lifecycle == 3 {
        Some((StepState::ImplementedChecked, StepState::ImplementedTested, "test".to_owned()))
    } else if lifecycle == 4 {
        Some(
            (StepState::ImplementedTested, StepState::ImplementedFinalized, "finalize".to_owned()),
        )
    } else if lifecycle == 5 {
        Some(
            (StepState::ImplementedFinalized, StepState::ImplementedCommitted, "commit".to_owned()),
        )
    } else {
        None
    }
}

/// The lifecycle a pending state calls for; committed steps call for none.
pub open spec fn lifecycle_of_state(s: StepState) -> Option<u8> {
    match s {
        StepState::Planned => Option::Some(1u8),
        StepState::Implemented => Option::Some(2u8),
        StepState::ImplementedChecked => Option::Some(3u8),
        StepState::ImplementedTested => Option::Some(4u8),
        StepState::ImplementedFinalized => Option::Some(5u8),
        StepState::ImplementedCommitted => Option::None,
        StepState::LifecycleError(stage) => Option::Some(stage),
    }
}

/// Picks the next step to run.
///
/// With an override, the first step standing in the overridden lifecycle's
/// current state runs under that lifecycle.  Without one, the first step
/// not yet committed runs under the lifecycle its state calls for; a
/// recorded error stage off 1 to 5 is refused.
pub fn next_action(
    steps: &StepsFile,
    state: &StateFile,
    lifecycle_override: Option<u8>,
) -> (r: Result<Option<NextAction>, InvalidStage>)
    ensures
        match lifecycle_override {
            Option::Some(l) => {
                &&& (mapping_spec(l) is None <==> r is Err)
                &&& r is Err ==> r->Err_0.stage == l
                &&& (r matches Result::Ok(Option::Some(a)) ==> a.lifecycle == l && exists|x: int|
                    0 <= x < steps.steps@.len() && #[trigger] steps.steps@[x] == a.step
                        && state_for_spec(state@, a.step.id@) == mapping_spec(l)->Some_0.0)
                &&& (r matches Result::Ok(Option::None) ==> forall|x: int|
                    0 <= x < steps.steps@.len() ==> state_for_spec(
                        state@,
                        (#[trigger] steps.steps@[x]).id@,
                    ) != mapping_spec(l)->Some_0.0)
            },
            Option::None => {
                &&& (r matches Result::Ok(Option::None) ==> forall|x: int|
                    0 <= x < steps.steps@.len() ==> state_for_spec(
                        state@,
                        (#[trigger] steps.steps@[x]).id@,
                    ) == StepState::ImplementedCommitted)
                &&& (r matches Result::Ok(Option::Some(a)) ==> exists|x: int|
                    0 <= x < steps.steps@.len() && #[trigger] steps.steps@[x] == a.step
                        && Option::Some(a.lifecycle) == lifecycle_of_state(
                        state_for_spec(state@, a.step.id@),
                    ) && mapping_spec(a.lifecycle) is Some)
                &&& (r is Err ==> exists|x: int|
                    0 <= x < steps.steps@.len() && state_for_spec(
                        state@,
                        (#[trigger] steps.steps@[x]).id@,
                    ) == StepState::LifecycleError(r->Err_0.stage) && mapping_spec(
                        r->Err_0.stage,
                    ) is None)
            },
        },
{
    if let Some(l) = lifecycle_override {
        let mapping = match lifecycle_mapping(l) {
            Some(m) => m,
            None => {
                return Err(InvalidStage { stage: l });
            },
        };
        let current = mapping.0;
        let mut x: usize = 0;
        while x < steps.steps.len()
            invariant
                0 <= x <= steps.steps@.len(),
                lifecycle_override == Option::Some(l),
                mapping_spec(l) is Some,
                current == mapping_spec(l)->Some_0.0,
                forall|y: int|
                    0 <= y < x ==> state_for_spec(
                        state@,
                        (#[trigger] steps.steps@[y]).id@,
                    ) != current,
            decreases steps.steps@.len() - x,
        {
            if state.state_for(steps.steps[x].id.as_str()) == current {
                return Ok(
                    Some(NextAction { step: steps.steps[x].clone(), lifecycle: l }),
                );
            }
            x = x + 1;
        }
        return Ok(None);
    }
    let mut x: usize = 0;
    while x < steps.steps.len()
        invariant
            0 <= x <= steps.steps@.len(),
            lifecycle_override is None,
            forall|y: int|
                0 <= y < x ==> state_for_spec(
                    state@,
                    (#[trigger] steps.steps@[y]).id@,
                ) == StepState::ImplementedCommitted,
        decreases steps.steps@.len() - x,
    {
        let st = state.state_for(steps.steps[x].id.as_str());
        match st {
            StepState::Planned => {
                return Ok(Some(NextAction { step: steps.steps[x].clone(), lifecycle: 1 }));
            },
            StepState::Implemented => {
                return Ok(Some(NextAction { step: steps.steps[x].clone(), lifecycle: 2 }));
            },
            StepState::ImplementedChecked => {
                return Ok(Some(NextAction { step: steps.steps[x].clone(), lifecycle: 3 }));
            },
            StepState::ImplementedTested => {
                return Ok(Some(NextAction { step: steps.steps[x].clone(), lifecycle: 4 }));
            },
            StepState::ImplementedFinalized => {
                return Ok(Some(NextAction { step: steps.steps[x].clone(), lifecycle: 5 }));
            },
            StepState::LifecycleError(stage) => {
                if stage < 1 || stage > 5 {
                    return Err(InvalidStage { stage });
                }
                return Ok(
                    Some(NextAction { step: steps.steps[x].clone(), lifecycle: stage }),
                );
            },
            StepState::ImplementedCommitted => {
            },
        }
        x = x + 1;
    }
    Ok(None)
}

// ---------------------------------------------------------------------------
// Prompts and tool commands
// ---------------------------------------------------------------------------
/// The line naming the diff file, if one was captured.
pub open spec fn diff_info_spec(diff_path: Option<Seq<char>>) -> Seq<char> {
    match diff_path {
        Option::Some(p) => "Diff file: "@ + p,
        Option::None => "Diff file: none"@,
    }
}

/// The resume block of a prompt, when an earlier run failed.
pub open spec fn resume_text_spec(resume: Option<Seq<char>>) -> Seq<char> {
    match resume {
        Option::Some(p) => "\nResume analysis:\n"@ + p + "\n"@,
        Option::None => Seq::empty(),
    }
}

/// The prompt one agent action runs with.
pub open spec fn prompt_spec(
    step: PlanStep,
    action: Seq<char>,
    plan_path: Seq<char>,
    diff_path: Option<Seq<char>>,
    lifecycle: u8,
    resume: Option<Seq<char>>,
) -> Seq<char> {
    "You are running non-interactively. Do not ask for confirmation. Action: "@ + action
        + "\nLifecycle: "@ + dec_str(lifecycle as nat) + "\nPlan file: "@ + plan_path
        + "\nStep ID: "@ + step.id@ + "\nStep text: "@ + step.text@ + "\n"@ + diff_info_spec(
        diff_path,
    ) + "\n"@ + resume_text_spec(resume)
        + "Execute the step, apply necessary changes, and exit."@
}

fn opt_str_view(o: &Option<String>) -> (r: Option<&str>)
    ensures
        match r {
            Option::Some(s) => o is Some && s@ == o->0@,
            Option::None => o is None,
        },
{
    match o {
        Some(s) => Some(s.as_str()),
        None => None,
    }
}

/// Builds the line naming the diff file.
fn diff_info_string(diff_path: Option<&str>) -> (r: String)
    ensures
        r@ == diff_info_spec(match diff_path {
            Option::Some(p) => Option::Some(p@),
            Option::None => Option::None,
        }),
{
    match diff_path {
        Some(p) => {
            let mut s = "Diff file: ".to_owned();
            s.append(p);
            s
        },
        None => "Diff file: none".to_owned(),
    }
}

/// Builds the prompt of one agent action.
pub fn build_prompt(
    step: &PlanStep,
    action: &str,
    options: &RunOptions,
    diff_path: Option<&str>,
    lifecycle: u8,
    resume_prompt: Option<&str>,
) -> (r: String)
    ensures
        r@ == prompt_spec(
            *step,
            action@,
            options.plan_path@,
            match diff_path {
                Option::Some(p) => Option::Some(p@),
                Option::None => Option::None,
            },
            lifecycle,
            match resume_prompt {
                Option::Some(p) => Option::Some(p@),
                Option::None => Option::None,
            },
        ),
{
    let mut s = "You are running non-interactively. Do not ask for confirmation. Action: "
        .to_owned();
    s.append(action);
    s.append("\nLifecycle: ");
    let stage = u64_to_string(lifecycle as u64);
    s.append(stage.as_str());
    s.append("\nPlan file: ");
    s.append(options.plan_path.as_str());
    s.append("\nStep ID: ");
    s.append(step.id.as_str());
    s.append("\nStep text: ");
    s.append(step.text.as_str());
    s.append("\n");
    let diff = diff_info_string(diff_path);
    s.append(diff.as_str());
    s.append("\n");
    match resume_prompt {
        Some(p) => {
            s.append("\nResume analysis:\n");
            s.append(p);
            s.append("\n");
        },
        None => {
        },
    }
    s.append("Execute the step, apply necessary changes, and exit.");
    s
}

/// The argument list one agent action runs with.
pub open spec fn args_spec(c: Config, o: RunOptions, a: ActionContext) -> Seq<Seq<char>> {
    let prompt = prompt_spec(
        a.step,
        a.action@,
        o.plan_path@,
        match a.diff_path {
            Option::Some(p) => Option::Some(p@),
            Option::None => Option::None,
        },
        a.lifecycle,
        match a.resume_prompt {
            Option::Some(p) => Option::Some(p@),
            Option::None => Option::None,
        },
    );
    match effective_tool(c) {
        ToolType::Cursor => views_of(c.cli_args@) + seq![
            "--print"@,
            "--output-format"@,
            "text"@,
            "--model"@,
            a.model@,
            "--workspace"@,
            o.workdir@,
            "--force"@,
            "agent"@,
            prompt,
        ],
        ToolType::Opencode => views_of(c.cli_args@) + seq!["run"@, "--model"@, a.model@]
            + (match a.diff_path {
            Option::Some(p) => seq!["--file"@, p@],
            Option::None => Seq::empty(),
        }) + seq!["--file"@, o.plan_path@, prompt],
    }
}

/// Builds the program candidates and arguments of one agent action.
pub fn build_tool_command(config: &Config, options: &RunOptions, action: &ActionContext) -> (r: (
    Vec<String>,
    Vec<String>,
))
    ensures
        views_of(r.0@) == programs_spec(*config),
        views_of(r.1@) == args_spec(*config, *options, *action),
{
    let programs = config.resolve_programs();
    let prompt = build_prompt(
        &action.step,
        action.action.as_str(),
        options,
        opt_str_view(&action.diff_path),
        action.lifecycle,
        opt_str_view(&action.resume_prompt),
    );
    let mut args = config.cli_args.clone();
    let ghost base = views_of(args@);
    proof {
        assert(base =~= views_of(config.cli_args@));
    }
    let tool = match config.tool_type {
        Some(t) => t,
        None => ToolType::Cursor,
    };
    match tool {
        ToolType::Cursor => {
            args.push("--print".to_owned());
            args.push("--output-format".to_owned());
            args.push("text".to_owned());
            args.push("--model".to_owned());
            args.push(action.model.clone());
            args.push("--workspace".to_owned());
            args.push(options.workdir.clone());
            args.push("--force".to_owned());
            args.push("agent".to_owned());
            args.push(prompt);
            proof {
                assert(views_of(args@) =~= args_spec(*config, *options, *action));
            }
        },
        ToolType::Opencode => {
            args.push("run".to_owned());
            args.push("--model".to_owned());
            args.push(action.model.clone());
            match &action.diff_path {
                Some(d) => {
                    args.push("--file".to_owned());
                    args.push(d.clone());
                },
                None => {
                },
            }
            args.push("--file".to_owned());
            args.push(options.plan_path.clone());
            args.push(prompt);
            proof {
                assert(views_of(args@) =~= args_spec(*config, *options, *action));
            }
        },
    }
    (programs, args)
}

/// The analysis prompt asked of the agent after a failed run.
pub open spec fn analysis_prompt_spec(
    step: PlanStep,
    action: Seq<char>,
    plan_path: Seq<char>,
    diff_path: Option<Seq<char>>,
    lifecycle: u8,
    log_tail: Seq<char>,
) -> Seq<char> {
    "You are analyzing a failed agent run. Do not modify files. Summarize the failure and output a short restart prompt.\nLifecycle: "@
        + dec_str(lifecycle as nat) + "\nAction: "@ + action + "\nPlan file: "@ + plan_path
        + "\nStep ID: "@ + step.id@ + "\nStep text: "@ + step.text@ + "\n"@ + diff_info_spec(
        diff_path,
    ) + "\nLog tail:\n"@ + log_tail + "\nRespond with only the restart prompt text."@
}

/// Builds the analysis prompt asked of the agent after a failed run.
pub fn build_analysis_prompt(
    step: &PlanStep,
    action: &str,
    options: &RunOptions,
    diff_path: Option<&str>,
    lifecycle: u8,
    log_tail: &str,
) -> (r: String)
    ensures
        r@ == analysis_prompt_spec(
            *step,
            action@,
            options.plan_path@,
            match diff_path {
                Option::Some(p) => Option::Some(p@),
                Option::None => Option::None,
            },
            lifecycle,
            log_tail@,
        ),
{
    let mut s =
        "You are analyzing a failed agent run. Do not modify files. Summarize the failure and output a short restart prompt.\nLifecycle: ".to_owned();
    let stage = u64_to_string(lifecycle as u64);
    s.append(stage.as_str());
    s.append("\nAction: ");
    s.append(action);
    s.append("\nPlan file: ");
    s.append(options.plan_path.as_str());
    s.append("\nStep ID: ");
    s.append(step.id.as_str());
    s.append("\nStep text: ");
    s.append(step.text.as_str());
    s.append("\n");
    let diff = diff_info_string(diff_path);
    s.append(diff.as_str());
    s.append("\nLog tail:\n");
    s.append(log_tail);
    s.append("\nRespond with only the restart prompt text.");
    s
}

// ---------------------------------------------------------------------------
// Output truncation and gates
// ---------------------------------------------------------------------------
/// The tail of an output, at most `max_chars` characters, trimmed.
pub open spec fn truncate_spec(t: Seq<char>, max_chars: int) -> Seq<char> {
    if t.len() <= max_chars {
        trim_spec(t)
    } else {
        trim_spec(t.skip(t.len() - max_chars))
    }
}

/// Keeps at most the last `max_chars` characters of an output, trimmed.
pub fn truncate_output(output: &str, max_chars: usize) -> (r: String)
    ensures
        r@ == truncate_spec(output@, max_chars as int),
{
    let n = output.unicode_len();
    if n <= max_chars {
        trim_str(output)
    } else {
        let tail = output.substring_char(n - max_chars, n);
        proof {
            assert(tail@ =~= output@.skip(output@.len() - max_chars));
        }
        trim_str(tail)
    }
}

/// The default gates run in a cargo workspace: format check, lints, build,
/// tests; none without a manifest.
pub fn default_gates(has_manifest: bool) -> (r: Vec<GateCommand>)
    ensures
        !has_manifest ==> r@.len() == 0,
        has_manifest ==> {
            &&& r@.len() == 4
            &&& r@[0].command@ == "cargo"@ && views_of(r@[0].args@) =~= seq![
                "fmt"@,
                "--check"@,
            ]
            &&& r@[1].command@ == "cargo"@ && views_of(r@[1].args@) =~= seq![
                "clippy"@,
                "--"@,
                "-D"@,
                "warnings"@,
            ]
            &&& r@[2].command@ == "cargo"@ && views_of(r@[2].args@) =~= seq!["build"@]
            &&& r@[3].command@ == "cargo"@ && views_of(r@[3].args@) =~= seq!["test"@]
        },
{
    let mut r: Vec<GateCommand> = Vec::new();
    if !has_manifest {
        return r;
    }
    let mut fmt_args: Vec<String> = Vec::new();
    fmt_args.push("fmt".to_owned());
    fmt_args.push("--check".to_owned());
    proof {
        assert(views_of(fmt_args@) =~= seq!["fmt"@, "--check"@]);
    }
    r.push(
        GateCommand {
            name: Some("fmt-check".to_owned()),
            command: "cargo".to_owned(),
            args: fmt_args,
        },
    );
    let mut clippy_args: Vec<String> = Vec::new();
    clippy_args.push("clippy".to_owned());
    clippy_args.push("--".to_owned());
    clippy_args.push("-D".to_owned());
    clippy_args.push("warnings".to_owned());
    proof {
        assert(views_of(clippy_args@) =~= seq!["clippy"@, "--"@, "-D"@, "warnings"@]);
    }
    r.push(
        GateCommand {
            name: Some("clippy".to_owned()),
            command: "cargo".to_owned(),
            args: clippy_args,
        },
    );
    let mut build_args: Vec<String> = Vec::new();
    build_args.push("build".to_owned());
    proof {
        assert(views_of(build_args@) =~= seq!["build"@]);
    }
    r.push(
        GateCommand {
            name: Some("build".to_owned()),
            command: "cargo".to_owned(),
            args: build_args,
        },
    );
    let mut test_args: Vec<String> = Vec::new();
    test_args.push("test".to_owned());
    proof {
        assert(views_of(test_args@) =~= seq!["test"@]);
    }
    r.push(
        GateCommand {
            name: Some("test".to_owned()),
            command: "cargo".to_owned(),
            args: test_args,
        },
    );
    r
}

} // verus!
