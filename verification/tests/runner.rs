use prime_agent::cli::expand_skill_args;
use prime_agent::cli::parse_config_overrides;
use prime_agent::cli::should_print_banner;
use prime_agent::cli::Cli;
use prime_agent::cli::Command;
use prime_agent::config::Config;
use prime_agent::config::LifecycleConfig;
use prime_agent::config::LifecycleEntry;
use prime_agent::config::ToolPath;
use prime_agent::config::ToolType;
use prime_agent::error::AgentError;
use prime_agent::lifecycle::build_prompt;
use prime_agent::lifecycle::default_gates;
use prime_agent::lifecycle::lifecycle_mapping;
use prime_agent::lifecycle::next_action;
use prime_agent::lifecycle::truncate_output;
use prime_agent::lifecycle::RunOptions;
use prime_agent::plan::parse_plan;
use prime_agent::state::StateFile;
use prime_agent::state::StepState;
use prime_agent::steps::StepsFile;
use prime_agent::text::parse_u64;
use prime_agent::version::Version;

fn lifecycles(entries: &[(&str, Option<&str>)]) -> Vec<LifecycleEntry> {
    entries
        .iter()
        .map(|(key, model)| LifecycleEntry {
            key: key.to_string(),
            config: LifecycleConfig { model: model.map(str::to_string) },
        })
        .collect()
}

#[test]
fn model_for_uses_override() {
    let config = Config {
        cli_program: "cursor".to_string(),
        tool_type: None,
        tool_paths: Vec::new(),
        cli_args: Vec::new(),
        lifecycles: lifecycles(&[("1", Some("custom-model"))]),
        gates: Vec::new(),
    };
    assert_eq!(config.model_for(1), "custom-model");
    assert_eq!(config.model_for(2), "opus 4.5 max mode");
}

#[test]
fn resolves_tool_type_program() {
    let config = Config {
        cli_program: "default-cli".to_string(),
        tool_type: Some(ToolType::Cursor),
        tool_paths: vec![
            ToolPath { tool: ToolType::Cursor, path: "/tmp/cursor-cli".to_string() },
            ToolPath { tool: ToolType::Opencode, path: "/tmp/opencode".to_string() },
        ],
        cli_args: Vec::new(),
        lifecycles: Vec::new(),
        gates: Vec::new(),
    };
    assert_eq!(
        config.resolve_programs().first().map(String::as_str),
        Some("/tmp/cursor-cli")
    );
}

#[test]
fn default_config_uses_cursor_agent() {
    let config = Config::default();
    assert!(
        config
            .resolve_programs()
            .iter()
            .any(|program| program == "cursor-agent")
    );
}

#[test]
fn resolve_programs_drops_duplicates() {
    let config = Config {
        cli_program: "cursor-agent".to_string(),
        tool_type: Some(ToolType::Cursor),
        tool_paths: Vec::new(),
        cli_args: Vec::new(),
        lifecycles: Vec::new(),
        gates: Vec::new(),
    };
    assert_eq!(
        config.resolve_programs(),
        vec!["cursor-agent".to_string(), "agent".to_string(), "cursor".to_string()]
    );
}

#[test]
fn parses_numbered_steps() {
    let plan = parse_plan("1. First step\n2. Second step\n").expect("load plan");
    assert_eq!(plan.steps.len(), 2);
    assert_eq!(plan.steps[0].text, "First step");
    assert_eq!(plan.steps[1].id, "2");
}

#[test]
fn plan_skips_unnumbered_lines() {
    let plan = parse_plan("# Title\n\n  12.  Indented step  \nprose\n").expect("load plan");
    assert_eq!(plan.steps.len(), 1);
    assert_eq!(plan.steps[0].number, 12);
    assert_eq!(plan.steps[0].id, "12");
    assert_eq!(plan.steps[0].text, "Indented step");
}

#[test]
fn plan_rejects_duplicates_and_emptiness() {
    assert!(matches!(
        parse_plan("1. One\n1. Again\n"),
        Err(AgentError::MalformedDocument)
    ));
    assert!(matches!(parse_plan("no steps here\n"), Err(AgentError::MalformedDocument)));
}

#[test]
fn saves_and_loads_state() {
    let mut state = StateFile::new();
    state.set_state("1", StepState::Implemented);
    assert_eq!(state.state_for("1"), StepState::Implemented);
    assert_eq!(state.state_for("2"), StepState::Planned);
}

#[test]
fn serializes_error_state() {
    let state = StepState::LifecycleError(3);
    assert_eq!(state.label(), "lifecycle-error-3");
    assert_eq!(StepState::from_label("lifecycle-error-3"), Some(StepState::LifecycleError(3)));
    assert_eq!(StepState::from_label("implemented-checked"), Some(StepState::ImplementedChecked));
    assert_eq!(StepState::from_label("lifecycle-error-300"), None);
    assert_eq!(StepState::from_label("unknown"), None);
}

#[test]
fn next_action_walks_the_lifecycles_in_order() {
    let plan = parse_plan("1. First\n2. Second\n").expect("load plan");
    let steps = StepsFile::from_steps(plan.steps);
    let mut state = StateFile::new();
    state.set_state("1", StepState::ImplementedCommitted);
    let action = next_action(&steps, &state, None)
        .expect("valid states")
        .expect("one step pending");
    assert_eq!(action.step.id, "2");
    assert_eq!(action.lifecycle, 1);

    state.set_state("2", StepState::ImplementedTested);
    let action = next_action(&steps, &state, None)
        .expect("valid states")
        .expect("one step pending");
    assert_eq!(action.lifecycle, 4);

    state.set_state("2", StepState::ImplementedCommitted);
    assert!(next_action(&steps, &state, None).expect("valid states").is_none());
}

#[test]
fn next_action_honours_the_override() {
    let plan = parse_plan("1. First\n2. Second\n").expect("load plan");
    let steps = StepsFile::from_steps(plan.steps);
    let mut state = StateFile::new();
    state.set_state("2", StepState::Implemented);
    let action = next_action(&steps, &state, Some(2))
        .expect("valid override")
        .expect("a step stands in implemented");
    assert_eq!(action.step.id, "2");
    assert_eq!(action.lifecycle, 2);
    assert!(next_action(&steps, &state, Some(9)).is_err());
}

#[test]
fn next_action_refuses_a_bad_error_stage() {
    let plan = parse_plan("1. First\n").expect("load plan");
    let steps = StepsFile::from_steps(plan.steps);
    let mut state = StateFile::new();
    state.set_state("1", StepState::LifecycleError(9));
    let err = next_action(&steps, &state, None).expect_err("stage 9 is invalid");
    assert_eq!(err.stage, 9);
}

#[test]
fn lifecycle_mapping_covers_the_five_stages() {
    let (cur, next, label) = lifecycle_mapping(1).expect("stage 1");
    assert_eq!(cur, StepState::Planned);
    assert_eq!(next, StepState::Implemented);
    assert_eq!(label, "implement");
    let (_, next5, label5) = lifecycle_mapping(5).expect("stage 5");
    assert_eq!(next5, StepState::ImplementedCommitted);
    assert_eq!(label5, "commit");
    assert!(lifecycle_mapping(0).is_none());
    assert!(lifecycle_mapping(6).is_none());
}

#[test]
fn prompt_names_the_step_and_the_diff() {
    let plan = parse_plan("1. Do the thing\n").expect("load plan");
    let options = RunOptions {
        plan_path: "plans/plan.md".to_string(),
        state_path: "plans/state.json".to_string(),
        workdir: "/work".to_string(),
    };
    let prompt = build_prompt(&plan.steps[0], "implement", &options, Some("/tmp/d.patch"), 1, None);
    assert!(prompt.contains("Action: implement"));
    assert!(prompt.contains("Lifecycle: 1"));
    assert!(prompt.contains("Plan file: plans/plan.md"));
    assert!(prompt.contains("Step ID: 1"));
    assert!(prompt.contains("Step text: Do the thing"));
    assert!(prompt.contains("Diff file: /tmp/d.patch"));
    let bare = build_prompt(&plan.steps[0], "implement", &options, None, 1, None);
    assert!(bare.contains("Diff file: none"));
}

#[test]
fn truncate_keeps_the_tail_and_trims() {
    assert_eq!(truncate_output("  hello  ", 100), "hello");
    assert_eq!(truncate_output("abcdef", 3), "def");
    assert_eq!(truncate_output("abc   ", 3), "");
}

#[test]
fn default_gates_follow_the_manifest() {
    assert!(default_gates(false).is_empty());
    let gates = default_gates(true);
    assert_eq!(gates.len(), 4);
    assert_eq!(gates[0].name.as_deref(), Some("fmt-check"));
    assert_eq!(gates[0].command, "cargo");
    assert_eq!(gates[3].args, vec!["test".to_string()]);
}

#[test]
fn expand_skill_args_splits_and_trims() {
    let names = expand_skill_args(vec!["alpha,beta".to_string()]).expect("names");
    assert_eq!(names, vec!["alpha".to_string(), "beta".to_string()]);
    let spaced = expand_skill_args(vec![" alpha ".to_string(), ", beta,".to_string()])
        .expect("names");
    assert_eq!(spaced, vec!["alpha".to_string(), "beta".to_string()]);
    assert!(matches!(expand_skill_args(Vec::new()), Err(AgentError::InvalidName)));
    assert!(matches!(
        expand_skill_args(vec![" , ".to_string()]),
        Err(AgentError::InvalidName)
    ));
}

#[test]
fn config_overrides_split_on_the_first_colon() {
    let parsed = parse_config_overrides(&vec!["skills-dir:~/x:y".to_string()]).expect("parses");
    assert_eq!(parsed.len(), 1);
    assert_eq!(parsed[0].key, "skills-dir");
    assert_eq!(parsed[0].value, "~/x:y");
    assert!(matches!(
        parse_config_overrides(&vec!["nocolon".to_string()]),
        Err(AgentError::InvalidName)
    ));
    assert!(matches!(
        parse_config_overrides(&vec![" :value".to_string()]),
        Err(AgentError::InvalidName)
    ));
}

#[test]
fn banner_is_suppressed_for_filtered_lists() {
    let filtered = Cli {
        command: Command::List { fragment: Some("zephyr".to_string()) },
        config_overrides: Vec::new(),
        skills_dir: None,
        agents_path: None,
    };
    assert!(!should_print_banner(&filtered));
    let plain = Cli {
        command: Command::List { fragment: None },
        config_overrides: Vec::new(),
        skills_dir: None,
        agents_path: None,
    };
    assert!(should_print_banner(&plain));
}

#[test]
fn version_parses_and_bumps() {
    let v = Version::parse(" 1.2.3\n").expect("well-formed version");
    assert_eq!((v.major, v.minor, v.patch), (1, 2, 3));
    assert_eq!(v.as_string(), "1.2.3");
    let next = v.bump_patch();
    assert_eq!(next.as_string(), "1.2.4");
    assert!(Version::parse("1.2").is_none());
    assert!(Version::parse("1.2.3.4").is_none());
    assert!(Version::parse("a.b.c").is_none());
    assert!(Version::parse("1..3").is_none());
}

#[test]
fn steps_file_sits_beside_the_plan() {
    assert_eq!(StepsFile::path_for("dir/plan.md"), "dir/steps.json");
    assert_eq!(StepsFile::path_for("plan.md"), "steps.json");
    assert_eq!(StepsFile::path_for("/plan.md"), "/steps.json");
}

#[test]
fn decimal_parsing_guards_the_limits() {
    assert_eq!(parse_u64("0"), Some(0));
    assert_eq!(parse_u64("18446744073709551615"), Some(u64::MAX));
    assert_eq!(parse_u64("18446744073709551616"), None);
    assert_eq!(parse_u64(""), None);
    assert_eq!(parse_u64("12a"), None);
}
