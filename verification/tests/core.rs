use prime_agent::agents_md::AgentSection;
use prime_agent::agents_md::AgentsDoc;
use prime_agent::agents_md::render_sections;
use prime_agent::conflict::diff_conflict;
use prime_agent::conflict::count_hunks;
use prime_agent::conflict::render_hunk;
use prime_agent::conflict::resolve_with_choices;
use prime_agent::conflict::Choice;
use prime_agent::error::AgentError;
use prime_agent::skills::validate_name;
use prime_agent::skills::skill_rel_path;
use prime_agent::skills::SkillSet;
use prime_agent::sync::compute_sync_status;
use prime_agent::sync::normalized_eq;
use prime_agent::sync::sync_actions;
use prime_agent::sync::SyncAction;
use prime_agent::sync::SyncStatus;

fn store_with(entries: &[(&str, &str)]) -> SkillSet {
    let mut s = SkillSet::new();
    for (name, content) in entries {
        s.save_skill(name, content);
    }
    s
}

fn agents_text(body: &[&str]) -> String {
    let mut t = String::new();
    for line in body {
        t.push_str(line);
        t.push('\n');
    }
    t
}

#[test]
fn round_trip_preserves_unmutated_document() {
    let text = agents_text(&[
        "# My Personal Notes",
        "Use this workspace carefully.",
        "",
        "<!-- prime-agent(Start beta) -->",
        "## beta",
        "Beta rules",
        "<!-- prime-agent(End beta) -->",
        "",
        "Trailing notes stay here.",
    ]);
    let doc = AgentsDoc::parse(&text).expect("well-formed document");
    assert_eq!(doc.render(), text);
}

#[test]
fn round_trip_without_final_newline() {
    let text = "free text\n<!-- prime-agent(Start a) -->\n## a\nbody\n<!-- prime-agent(End a) -->";
    let doc = AgentsDoc::parse(text).expect("well-formed document");
    assert_eq!(doc.render(), text);
}

#[test]
fn removal_deletes_exactly_the_marker_block() {
    let before = "intro line\n";
    let block =
        "<!-- prime-agent(Start alpha) -->\n## alpha\nAgent rules\n<!-- prime-agent(End alpha) -->\n";
    let after = "outro line\n";
    let text = format!("{before}{block}{after}");
    let mut doc = AgentsDoc::parse(&text).expect("well-formed document");
    assert!(doc.remove_section("alpha"));
    assert_eq!(doc.render(), format!("{before}{after}"));
}

#[test]
fn removal_of_absent_section_changes_nothing() {
    let text = "just notes\n";
    let mut doc = AgentsDoc::parse(text).expect("well-formed document");
    assert!(!doc.remove_section("alpha"));
    assert_eq!(doc.render(), text);
}

#[test]
fn mismatched_end_marker_is_rejected() {
    let text = agents_text(&[
        "<!-- prime-agent(Start alpha) -->",
        "## alpha",
        "Broken section",
        "<!-- prime-agent(End beta) -->",
    ]);
    assert!(matches!(AgentsDoc::parse(&text), Err(AgentError::MalformedDocument)));
}

#[test]
fn stray_end_marker_is_rejected() {
    let text = "notes\n<!-- prime-agent(End alpha) -->\n";
    assert!(matches!(AgentsDoc::parse(text), Err(AgentError::MalformedDocument)));
}

#[test]
fn unterminated_section_is_rejected() {
    let text = "<!-- prime-agent(Start alpha) -->\n## alpha\nbody\n";
    assert!(matches!(AgentsDoc::parse(text), Err(AgentError::MalformedDocument)));
}

#[test]
fn sync_fails_on_broken_markers() {
    let text = agents_text(&[
        "<!-- prime-agent(Start alpha) -->",
        "## alpha",
        "Broken section",
        "<!-- prime-agent(End beta) -->",
    ]);
    assert!(AgentsDoc::parse(&text).is_err());
}

#[test]
fn get_builds_agents_from_skills() {
    let sections = vec![
        AgentSection::from_content("alpha".to_string(), "Alpha instructions\n"),
        AgentSection::from_content("beta".to_string(), "Beta instructions\n"),
    ];
    let agents = render_sections(&sections);
    assert!(agents.contains("<!-- prime-agent(Start alpha) -->"));
    assert!(agents.contains("## alpha"));
    assert!(agents.contains("Alpha instructions"));
    assert!(agents.contains("<!-- prime-agent(End alpha) -->"));
    assert!(agents.contains("<!-- prime-agent(Start beta) -->"));
    // a rendered fresh document parses back with both sections
    let doc = AgentsDoc::parse(&agents).expect("rendered document parses");
    let names = doc.section_names();
    assert_eq!(names, vec!["alpha".to_string(), "beta".to_string()]);
}

#[test]
fn status_covers_union_of_names_exactly_once() {
    let store = store_with(&[("alpha", "same\n"), ("gamma", "store only\n")]);
    let text = agents_text(&[
        "<!-- prime-agent(Start alpha) -->",
        "## alpha",
        "same",
        "<!-- prime-agent(End alpha) -->",
        "<!-- prime-agent(Start beta) -->",
        "## beta",
        "doc only",
        "<!-- prime-agent(End beta) -->",
    ]);
    let doc = AgentsDoc::parse(&text).expect("well-formed document");
    let statuses = compute_sync_status(&store, Some(&doc));
    let summary: Vec<(String, SyncStatus)> =
        statuses.into_iter().map(|e| (e.name, e.status)).collect();
    assert_eq!(
        summary,
        vec![
            ("alpha".to_string(), SyncStatus::InSync),
            ("beta".to_string(), SyncStatus::Remote),
            ("gamma".to_string(), SyncStatus::Local),
        ]
    );
}

#[test]
fn status_marks_conflict_on_changed_content() {
    let store = store_with(&[("alpha", "Alpha\n")]);
    let text = agents_text(&[
        "<!-- prime-agent(Start alpha) -->",
        "## alpha",
        "Changed",
        "<!-- prime-agent(End alpha) -->",
    ]);
    let doc = AgentsDoc::parse(&text).expect("well-formed document");
    let statuses = compute_sync_status(&store, Some(&doc));
    assert_eq!(statuses.len(), 1);
    assert_eq!(statuses[0].name, "alpha");
    assert_eq!(statuses[0].status, SyncStatus::Conflict);
}

#[test]
fn status_without_document_lists_store_names_as_local() {
    let store = store_with(&[("alpha", "Alpha\n")]);
    let statuses = compute_sync_status(&store, None);
    assert_eq!(statuses.len(), 1);
    assert_eq!(statuses[0].status, SyncStatus::Local);
}

#[test]
fn normalization_ignores_line_endings_and_trailing_newlines() {
    assert!(normalized_eq("a\r\nb\n\n", "a\nb"));
    assert!(normalized_eq("", "\n"));
    assert!(!normalized_eq("a", "b"));
    assert!(!normalized_eq("a b", "a  b"));
}

#[test]
fn conflict_presents_exactly_one_hunk() {
    let changes = diff_conflict("Old content\n", "Updated content");
    assert_eq!(count_hunks(&changes), 1);
    let chosen_remote = resolve_with_choices(&changes, &vec![Choice::Agents]);
    assert_eq!(chosen_remote, "Updated content");
    let chosen_local = resolve_with_choices(&changes, &vec![Choice::Skill]);
    assert_eq!(chosen_local, "Old content\n");
}

#[test]
fn hunk_view_shows_both_sides() {
    let changes = diff_conflict("Old content\n", "Updated content\n");
    assert_eq!(count_hunks(&changes), 1);
    let view = render_hunk(&changes, 0);
    assert!(view.contains("-Old content"));
    assert!(view.contains("+Updated content"));
}

#[test]
fn far_apart_changes_form_two_hunks() {
    let local = "a1\nsame\nsame\nsame\nsame\nsame\nsame\nsame\nsame\nz1\n";
    let remote = "a2\nsame\nsame\nsame\nsame\nsame\nsame\nsame\nsame\nz2\n";
    let changes = diff_conflict(local, remote);
    assert_eq!(count_hunks(&changes), 2);
    let mixed = resolve_with_choices(&changes, &vec![Choice::Skill, Choice::Agents]);
    assert_eq!(mixed, "a1\nsame\nsame\nsame\nsame\nsame\nsame\nsame\nsame\nz2\n");
}

#[test]
fn equal_contents_resolve_without_choices() {
    let changes = diff_conflict("same\n", "same\n");
    assert_eq!(count_hunks(&changes), 0);
    let resolved = resolve_with_choices(&changes, &Vec::new());
    assert_eq!(resolved, "same\n");
}

#[test]
fn sync_adopts_document_only_sections() {
    let store = store_with(&[("alpha", "Skill content\n")]);
    let text = agents_text(&[
        "# My Personal Notes",
        "",
        "<!-- prime-agent(Start beta) -->",
        "## beta",
        "Beta rules",
        "<!-- prime-agent(End beta) -->",
    ]);
    let doc = AgentsDoc::parse(&text).expect("well-formed document");
    let actions = sync_actions(&store, &doc).expect("valid names");
    assert_eq!(actions.len(), 1);
    match &actions[0] {
        SyncAction::Adopt { name, content } => {
            assert_eq!(name, "beta");
            assert_eq!(content, "Beta rules\n");
        }
        SyncAction::Resolve { .. } => panic!("expected adoption"),
    }
    // applying the adoption stores the section and leaves the document alone
    let mut store = store;
    store.save_skill("beta", "Beta rules\n");
    assert!(store.skill_exists("beta"));
    assert_eq!(doc.render(), text);
    let again = sync_actions(&store, &doc).expect("valid names");
    assert!(again.is_empty());
}

#[test]
fn sync_does_not_add_missing_skills_to_agents() {
    let store = store_with(&[("alpha", "From skill\n")]);
    let doc = AgentsDoc::parse("# Notes\n").expect("well-formed document");
    let actions = sync_actions(&store, &doc).expect("valid names");
    assert!(actions.is_empty());
    assert_eq!(doc.render(), "# Notes\n");
}

#[test]
fn sync_prefers_skill_update_when_selected() {
    let mut store = store_with(&[("alpha", "Skill version\n")]);
    let text = agents_text(&[
        "<!-- prime-agent(Start alpha) -->",
        "## alpha",
        "Agents version",
        "<!-- prime-agent(End alpha) -->",
    ]);
    let mut doc = AgentsDoc::parse(&text).expect("well-formed document");
    let actions = sync_actions(&store, &doc).expect("valid names");
    assert_eq!(actions.len(), 1);
    let (name, local, remote) = match &actions[0] {
        SyncAction::Resolve { name, local, remote } => (name.clone(), local.clone(), remote.clone()),
        SyncAction::Adopt { .. } => panic!("expected a conflict"),
    };
    let changes = diff_conflict(&local, &remote);
    let choices = vec![Choice::Skill; count_hunks(&changes)];
    let resolved = resolve_with_choices(&changes, &choices);
    assert_eq!(resolved, "Skill version\n");
    store.save_skill(&name, &resolved);
    doc.upsert_section(AgentSection::from_content(name, &resolved));
    let updated = doc.render();
    assert!(updated.contains("Skill version"));
}

#[test]
fn sync_prefers_agents_update_when_selected() {
    let mut store = store_with(&[("alpha", "Skill version\n")]);
    let text = agents_text(&[
        "<!-- prime-agent(Start alpha) -->",
        "## alpha",
        "Agents version",
        "<!-- prime-agent(End alpha) -->",
    ]);
    let mut doc = AgentsDoc::parse(&text).expect("well-formed document");
    let actions = sync_actions(&store, &doc).expect("valid names");
    let (name, local, remote) = match &actions[0] {
        SyncAction::Resolve { name, local, remote } => (name.clone(), local.clone(), remote.clone()),
        SyncAction::Adopt { .. } => panic!("expected a conflict"),
    };
    let changes = diff_conflict(&local, &remote);
    let choices = vec![Choice::Agents; count_hunks(&changes)];
    let resolved = resolve_with_choices(&changes, &choices);
    store.save_skill(&name, &resolved);
    doc.upsert_section(AgentSection::from_content(name, &resolved));
    let skill = store.load_skill("alpha").expect("skill exists");
    assert!(skill.contains("Agents version"));
}

#[test]
fn second_sync_pass_has_nothing_to_do() {
    let mut store = store_with(&[("alpha", "Skill version\n")]);
    let text = agents_text(&[
        "notes before",
        "<!-- prime-agent(Start alpha) -->",
        "## alpha",
        "Agents version",
        "<!-- prime-agent(End alpha) -->",
        "notes after",
    ]);
    let mut doc = AgentsDoc::parse(&text).expect("well-formed document");
    let actions = sync_actions(&store, &doc).expect("valid names");
    assert_eq!(actions.len(), 1);
    for action in &actions {
        match action {
            SyncAction::Adopt { name, content } => store.save_skill(name, content),
            SyncAction::Resolve { name, local, remote } => {
                let changes = diff_conflict(local, remote);
                let choices = vec![Choice::Agents; count_hunks(&changes)];
                let resolved = resolve_with_choices(&changes, &choices);
                store.save_skill(name, &resolved);
                doc.upsert_section(AgentSection::from_content(name.clone(), &resolved));
            }
        }
    }
    // the second pass: re-parse what would be written, recompute, expect rest
    let written = doc.render();
    let doc2 = AgentsDoc::parse(&written).expect("rendered document parses");
    let again = sync_actions(&store, &doc2).expect("valid names");
    assert!(again.is_empty());
    assert_eq!(doc2.render(), written);
    let statuses = compute_sync_status(&store, Some(&doc2));
    for entry in statuses {
        assert_eq!(entry.status, SyncStatus::InSync);
    }
}

#[test]
fn personal_instructions_are_preserved() {
    let store = store_with(&[("alpha", "Skill content\n")]);
    let text = agents_text(&[
        "# My Personal Notes",
        "Use this workspace carefully.",
        "",
        "<!-- prime-agent(Start beta) -->",
        "## beta",
        "Beta rules",
        "<!-- prime-agent(End beta) -->",
        "",
        "Trailing notes stay here.",
    ]);
    let doc = AgentsDoc::parse(&text).expect("well-formed document");
    let actions = sync_actions(&store, &doc).expect("valid names");
    // only the adoption of beta is pending; the document is not rewritten
    assert_eq!(actions.len(), 1);
    let updated = doc.render();
    assert!(updated.contains("My Personal Notes"));
    assert!(updated.contains("Trailing notes stay here."));
    assert!(!updated.contains("<!-- prime-agent(Start alpha) -->"));
}

#[test]
fn delete_removes_only_agents_section() {
    let store = store_with(&[("alpha", "Skill content\n")]);
    let text = agents_text(&[
        "<!-- prime-agent(Start alpha) -->",
        "## alpha",
        "Agent rules",
        "<!-- prime-agent(End alpha) -->",
    ]);
    let mut doc = AgentsDoc::parse(&text).expect("well-formed document");
    assert!(doc.remove_section("alpha"));
    let updated = doc.render();
    assert!(!updated.contains("prime-agent(Start alpha)"));
    assert!(store.skill_exists("alpha"));
}

#[test]
fn delete_globally_removes_agents_and_skill_file() {
    let mut store = store_with(&[("alpha", "Skill content\n")]);
    let text = agents_text(&[
        "<!-- prime-agent(Start alpha) -->",
        "## alpha",
        "Agent rules",
        "<!-- prime-agent(End alpha) -->",
    ]);
    let mut doc = AgentsDoc::parse(&text).expect("well-formed document");
    assert!(doc.remove_section("alpha"));
    store.delete_skill("alpha");
    let updated = doc.render();
    assert!(!updated.contains("prime-agent(Start alpha)"));
    assert!(!store.skill_exists("alpha"));
}

#[test]
fn upsert_appends_new_section_after_blank_line() {
    let mut doc = AgentsDoc::parse("# Notes\n").expect("well-formed document");
    doc.upsert_section(AgentSection::from_content("alpha".to_string(), "Body\n"));
    assert_eq!(
        doc.render(),
        "# Notes\n\n<!-- prime-agent(Start alpha) -->\n## alpha\nBody\n<!-- prime-agent(End alpha) -->\n"
    );
}

#[test]
fn upsert_replaces_section_in_place() {
    let text = agents_text(&[
        "before",
        "<!-- prime-agent(Start alpha) -->",
        "## alpha",
        "old body",
        "<!-- prime-agent(End alpha) -->",
        "after",
    ]);
    let mut doc = AgentsDoc::parse(&text).expect("well-formed document");
    doc.upsert_section(AgentSection::from_content("alpha".to_string(), "new body\n"));
    assert_eq!(
        doc.render(),
        "before\n<!-- prime-agent(Start alpha) -->\n## alpha\nnew body\n<!-- prime-agent(End alpha) -->\nafter\n"
    );
}

#[test]
fn get_section_strips_the_heading_line() {
    let text = agents_text(&[
        "<!-- prime-agent(Start alpha) -->",
        "## alpha",
        "line one",
        "line two",
        "<!-- prime-agent(End alpha) -->",
    ]);
    let doc = AgentsDoc::parse(&text).expect("well-formed document");
    let section = doc.get_section("alpha").expect("section exists");
    assert_eq!(section.content_string(), "line one\nline two\n");
    assert!(doc.get_section("beta").is_none());
}

#[test]
fn get_section_keeps_unconventional_interior() {
    let text = agents_text(&[
        "<!-- prime-agent(Start alpha) -->",
        "no heading here",
        "<!-- prime-agent(End alpha) -->",
    ]);
    let doc = AgentsDoc::parse(&text).expect("well-formed document");
    let section = doc.get_section("alpha").expect("section exists");
    assert_eq!(section.content_string(), "no heading here\n");
}

#[test]
fn validate_name_guards_the_store_root() {
    assert!(validate_name("alpha").is_ok());
    assert!(validate_name("a-b_c.d").is_ok());
    assert!(validate_name("A0").is_ok());
    assert_eq!(validate_name(""), Err(AgentError::InvalidName));
    assert_eq!(validate_name("a/b"), Err(AgentError::InvalidName));
    assert_eq!(validate_name("a\\b"), Err(AgentError::InvalidName));
    assert_eq!(validate_name(".."), Err(AgentError::InvalidName));
    assert_eq!(validate_name("a..b"), Err(AgentError::InvalidName));
    assert_eq!(validate_name("a b"), Err(AgentError::InvalidName));
    assert_eq!(validate_name("."), Err(AgentError::InvalidName));
}

#[test]
fn skill_paths_live_under_their_name() {
    assert_eq!(skill_rel_path("alpha"), "alpha/SKILL.md");
}

#[test]
fn loading_an_absent_skill_is_not_found() {
    let store = store_with(&[("alpha", "Alpha\n")]);
    assert_eq!(store.load_skill("beta"), Err(AgentError::NotFound));
    assert_eq!(store.load_skill("alpha"), Ok("Alpha\n".to_string()));
}

#[test]
fn list_outputs_skill_names() {
    let store = store_with(&[("beta", "Beta\n"), ("alpha", "Alpha\n")]);
    assert_eq!(store.list_skill_names(), vec!["alpha".to_string(), "beta".to_string()]);
}

#[test]
fn list_with_fragment_outputs_single_line() {
    let store = store_with(&[("zephyr-a", "A\n"), ("zephyr-b", "B\n"), ("other", "C\n")]);
    let filtered: Vec<String> = store
        .list_skill_names()
        .into_iter()
        .filter(|n| n.contains("zephyr"))
        .collect();
    assert_eq!(filtered.join(" "), "zephyr-a zephyr-b");
}

#[test]
fn invalid_section_name_fails_sync() {
    let text = agents_text(&[
        "<!-- prime-agent(Start bad/name) -->",
        "## bad/name",
        "body",
        "<!-- prime-agent(End bad/name) -->",
    ]);
    let doc = AgentsDoc::parse(&text).expect("well-formed document");
    let store = SkillSet::new();
    assert!(matches!(sync_actions(&store, &doc), Err(AgentError::InvalidName)));
}
