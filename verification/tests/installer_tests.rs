use ast_outline::agent::{hook_path, shadowed_subagents, under_home, AgentInstaller, Scope};
use ast_outline::installers::{
    install_plain_file_in, install_prompt_in, install_prompts_in, prompt_body, status_for, status_for_prompt_only,
    uninstall_plain_file_in, uninstall_plans, uninstall_prompt_in, ApplyOutcome, Change, FileAction, InstallOpts, Plan,
    PromptInstall,
};
use ast_outline::json::{hook_entry_for, matches_entry, Json};

fn opts() -> InstallOpts {
    InstallOpts::default()
}

fn dry() -> InstallOpts {
    InstallOpts { dry_run: true, ..Default::default() }
}

fn skipped(path: &str) -> Change {
    Change::Skipped { path: path.to_string(), reason: "already up to date".to_string() }
}

fn acme() -> AgentInstaller {
    AgentInstaller {
        name: "acme-agent".to_string(),
        prompt_file: "AGENT.md".to_string(),
        config_dir: ".acme".to_string(),
        binary: "acme".to_string(),
    }
}

const BLOCK: &str = "<!-- ast-outline:begin v1 -->\n## Prefer `ast-outline` over full reads\n<!-- ast-outline:end -->\n";

#[test]
fn prompt_body_ends_with_exactly_one_newline() {
    assert_eq!(prompt_body("snippet\n\n\n"), "snippet\n");
    assert_eq!(prompt_body("snippet"), "snippet\n");
    assert_eq!(prompt_body(""), "\n");
}

#[test]
fn install_prompt_in_creates_file_with_merged_block() {
    let plan = install_prompt_in("/p/AGENT.md", "", BLOCK.to_string(), ApplyOutcome::Applied, &opts()).unwrap();
    assert_eq!(plan.change, Change::Created("/p/AGENT.md".to_string()));
    match plan.action {
        FileAction::Write(w) => {
            assert!(w.contains("<!-- ast-outline:begin"));
            assert!(w.contains("ast-outline"));
        }
        other => panic!("expected a write, got {:?}", other),
    }
}

#[test]
fn install_prompt_in_skips_when_merge_changes_nothing() {
    let first = install_prompt_in("/p/AGENT.md", "", BLOCK.to_string(), ApplyOutcome::Applied, &opts()).unwrap();
    let written = match first.action {
        FileAction::Write(w) => w,
        other => panic!("expected a write, got {:?}", other),
    };
    let second = install_prompt_in("/p/AGENT.md", &written, written.clone(), ApplyOutcome::Applied, &opts()).unwrap();
    assert_eq!(second, Plan { change: skipped("/p/AGENT.md"), action: FileAction::Leave });
}

#[test]
fn install_prompt_updates_existing_file() {
    let existing = "# My notes\n";
    let merged = format!("{}{}", existing, BLOCK);
    let plan = install_prompt_in("/p/AGENT.md", existing, merged.clone(), ApplyOutcome::Applied, &opts()).unwrap();
    assert_eq!(plan, Plan { change: Change::Updated("/p/AGENT.md".to_string()), action: FileAction::Write(merged) });
}

#[test]
fn install_prompt_refuses_user_edits() {
    let r = install_prompt_in(
        "/p/AGENT.md",
        "old",
        "old".to_string(),
        ApplyOutcome::UserEditsBlocked("- a\n+ b\n".to_string()),
        &opts(),
    );
    assert_eq!(
        r,
        Err("/p/AGENT.md: user edits inside marker block; pass --force to overwrite\n- a\n+ b\n".to_string())
    );
}

#[test]
fn install_prompt_in_dry_run_leaves_file() {
    let plan = install_prompt_in("/p/AGENT.md", "", BLOCK.to_string(), ApplyOutcome::Applied, &dry()).unwrap();
    assert_eq!(plan, Plan { change: Change::Created("/p/AGENT.md".to_string()), action: FileAction::Leave });
}

#[test]
fn subagent_prompt_dry_run_leaves_files() {
    let inst = acme();
    let scope = Scope::Local("/p".to_string());
    let paths = inst.subagent_paths(&scope, &None).unwrap();
    assert_eq!(paths, vec!["/p/.acme/agents/Explore.md".to_string()]);
    for p in paths.iter() {
        let plan = install_prompt_in(p, "", BLOCK.to_string(), ApplyOutcome::Applied, &dry()).unwrap();
        assert_eq!(plan.action, FileAction::Leave);
        assert_eq!(plan.change, Change::Created(p.clone()));
    }
}

#[test]
fn uninstall_prompt_removes_block() {
    let plan = uninstall_prompt_in("/p/AGENT.md", Some(("# My notes\n".to_string(), true)), &opts());
    assert_eq!(
        plan,
        Some(Plan {
            change: Change::Removed("/p/AGENT.md".to_string()),
            action: FileAction::Write("# My notes\n".to_string())
        })
    );
    let dry_plan = uninstall_prompt_in("/p/AGENT.md", Some(("".to_string(), true)), &dry());
    assert_eq!(dry_plan.unwrap().action, FileAction::Leave);
}

#[test]
fn uninstall_prompt_in_without_file_is_noop() {
    let inst = acme();
    let path = inst.subagent_path(&Scope::Local("/p".to_string()), &None, "Explore").unwrap();
    assert!(path.ends_with("Explore.md"));
    assert_eq!(uninstall_prompt_in(&path, None, &opts()), None);
}

#[test]
fn uninstall_prompt_without_block_is_noop() {
    assert_eq!(uninstall_prompt_in("/p/AGENT.md", Some(("text\n".to_string(), false)), &opts()), None);
}

#[test]
fn plain_file_install_creates_updates_and_skips() {
    let created = install_plain_file_in("/s/SKILL.md", "body", None, &opts());
    assert_eq!(created, Plan { change: Change::Created("/s/SKILL.md".to_string()), action: FileAction::Write("body".to_string()) });
    let updated = install_plain_file_in("/s/SKILL.md", "body", Some("old".to_string()), &opts());
    assert_eq!(updated, Plan { change: Change::Updated("/s/SKILL.md".to_string()), action: FileAction::Write("body".to_string()) });
    let same = install_plain_file_in("/s/SKILL.md", "body", Some("body".to_string()), &opts());
    assert_eq!(same, Plan { change: skipped("/s/SKILL.md"), action: FileAction::Leave });
    let dry_plan = install_plain_file_in("/s/SKILL.md", "body", None, &dry());
    assert_eq!(dry_plan.action, FileAction::Leave);
}

#[test]
fn plain_file_install_twice_is_skipped() {
    let first = install_plain_file_in("/s/SKILL.md", "v2", Some("v1".to_string()), &opts());
    let written = match first.action {
        FileAction::Write(w) => w,
        other => panic!("expected a write, got {:?}", other),
    };
    let second = install_plain_file_in("/s/SKILL.md", "v2", Some(written), &opts());
    assert_eq!(second, Plan { change: skipped("/s/SKILL.md"), action: FileAction::Leave });
}

#[test]
fn plain_file_uninstall_checks_first_line() {
    let ours = "---\nname: ast-outline skill\n---\nbody\n".to_string();
    let marker = "---";
    let r = uninstall_plain_file_in("/s/SKILL.md", marker, Some(ours.clone()), &opts());
    assert_eq!(r, Some(Plan { change: Change::Removed("/s/SKILL.md".to_string()), action: FileAction::Delete }));
    let r = uninstall_plain_file_in("/s/SKILL.md", marker, Some(ours), &dry());
    assert_eq!(r, Some(Plan { change: Change::Removed("/s/SKILL.md".to_string()), action: FileAction::Leave }));
    let theirs = "my own skill\n---\n".to_string();
    assert_eq!(uninstall_plain_file_in("/s/SKILL.md", marker, Some(theirs), &opts()), None);
    assert_eq!(uninstall_plain_file_in("/s/SKILL.md", marker, None, &opts()), None);
}

#[test]
fn status_for_reports_version_and_hook() {
    let s0 = status_for(None, false);
    assert!(!s0.prompt_installed);
    assert!(!s0.hook_installed);
    let s1 = status_for(Some("0.4.1".to_string()), true);
    assert!(s1.prompt_installed);
    assert!(s1.hook_installed);
    assert_eq!(s1.prompt_version.as_deref(), Some("0.4.1"));
}

#[test]
fn status_for_prompt_only_never_reports_hook() {
    let s = status_for_prompt_only(Some("1.0.0".to_string()));
    assert!(s.prompt_installed);
    assert!(!s.hook_installed);
    assert_eq!(s.prompt_version, Some("1.0.0".to_string()));
    assert_eq!(status_for_prompt_only(None).prompt_installed, false);
}

#[test]
fn agent_paths_local_and_global() {
    let inst = acme();
    let local = Scope::Local("/p".to_string());
    let home = Some("/home/u".to_string());
    assert_eq!(inst.name(), "acme-agent");
    assert_eq!(inst.prompt_path(&local, &None), Ok("/p/AGENT.md".to_string()));
    assert_eq!(inst.prompt_path(&Scope::Global, &home), Ok("/home/u/.acme/AGENT.md".to_string()));
    assert_eq!(inst.settings_path(&local, &None), Ok("/p/.acme/settings.json".to_string()));
    assert_eq!(inst.settings_path(&Scope::Global, &home), Ok("/home/u/.acme/settings.json".to_string()));
    assert_eq!(inst.subagent_path(&local, &None, "Explore"), Ok("/p/.acme/agents/Explore.md".to_string()));
    assert_eq!(
        inst.subagent_path(&Scope::Global, &home, "Explore"),
        Ok("/home/u/.acme/agents/Explore.md".to_string())
    );
}

#[test]
fn agent_global_paths_need_home() {
    let inst = acme();
    let err = Err("could not determine home directory".to_string());
    assert_eq!(inst.prompt_path(&Scope::Global, &None), err);
    assert_eq!(inst.settings_path(&Scope::Global, &None), err);
    assert_eq!(inst.subagent_paths(&Scope::Global, &None), Err("could not determine home directory".to_string()));
    assert_eq!(under_home(&Some("/h".to_string()), "x/y"), Ok("/h/x/y".to_string()));
}

#[test]
fn agent_detect_dir_is_prompt_parent() {
    let inst = acme();
    assert_eq!(inst.detect_dir(&Scope::Local("/p".to_string()), &None), Some("/p".to_string()));
    assert_eq!(inst.detect_dir(&Scope::Global, &Some("/h".to_string())), Some("/h/.acme".to_string()));
    assert_eq!(inst.detect_dir(&Scope::Global, &None), None);
}

#[test]
fn shadowed_subagents_is_explore() {
    assert_eq!(shadowed_subagents(), vec!["Explore"]);
}

#[test]
fn hook_command_carries_protocol_and_options() {
    let inst = acme();
    let o = InstallOpts { min_lines: 200, ..Default::default() };
    assert_eq!(inst.hook_command(&o), "ast-outline hook --protocol acme-agent --min-lines 200");
    let a = InstallOpts { min_lines: 0, always: true, ..Default::default() };
    assert_eq!(inst.hook_command(&a), "ast-outline hook --protocol acme-agent --min-lines 0 --always");
}

fn s(t: &str) -> Json {
    Json::Str(t.to_string())
}

fn entry(matcher: &str, command: &str) -> Json {
    Json::Object(vec![
        ("matcher".to_string(), s(matcher)),
        (
            "hooks".to_string(),
            Json::Array(vec![Json::Object(vec![
                ("type".to_string(), s("command")),
                ("command".to_string(), s(command)),
            ])]),
        ),
    ])
}

#[test]
fn hook_entry_has_expected_shape_and_is_recognised() {
    let inst = acme();
    let e = inst.hook_entry(&InstallOpts { min_lines: 50, ..Default::default() });
    assert_eq!(e, entry("Read", "ast-outline hook --protocol acme-agent --min-lines 50"));
    assert!(matches_entry(&e, "ast-outline hook"));
    assert!(!matches_entry(&e, "other-tool"));
}

#[test]
fn matches_entry_rejects_foreign_entries() {
    assert!(!matches_entry(&entry("Edit", "ast-outline hook --x"), "ast-outline hook"));
    assert!(!matches_entry(&entry("Read", "echo hi"), "ast-outline hook"));
    assert!(!matches_entry(&Json::Null, "ast-outline hook"));
    let no_hooks = Json::Object(vec![("matcher".to_string(), s("Read"))]);
    assert!(!matches_entry(&no_hooks, "ast-outline hook"));
    let empty_hooks = Json::Object(vec![("matcher".to_string(), s("Read")), ("hooks".to_string(), Json::Array(vec![]))]);
    assert!(!matches_entry(&empty_hooks, "ast-outline hook"));
    let numeric_command = Json::Object(vec![
        ("matcher".to_string(), s("Read")),
        (
            "hooks".to_string(),
            Json::Array(vec![Json::Object(vec![("command".to_string(), Json::Number("7".to_string()))])]),
        ),
    ]);
    assert!(!matches_entry(&numeric_command, "ast-outline hook"));
    assert!(matches_entry(&entry("Read", "ast-outline hook --protocol x"), "ast-outline hook"));
}

#[test]
fn json_get_finds_first_member() {
    let v = Json::Object(vec![("a".to_string(), s("1")), ("a".to_string(), s("2"))]);
    assert_eq!(v.get("a"), Some(&s("1")));
    assert_eq!(v.get("b"), None);
    assert_eq!(s("x").as_str(), Some("x"));
    assert_eq!(Json::Bool(true).as_str(), None);
    assert_eq!(Json::Array(vec![s("q")]).first(), Some(&s("q")));
    assert_eq!(hook_entry_for("run".to_string()), entry("Read", "run"));
}

#[test]
fn plain_file_uninstall_undoes_install() {
    let contents = "<!-- ast-outline skill -->\nbody\n";
    let install = install_plain_file_in("/s/SKILL.md", contents, None, &opts());
    let written = match install.action {
        FileAction::Write(w) => w,
        other => panic!("expected a write, got {:?}", other),
    };
    let removal = uninstall_plain_file_in("/s/SKILL.md", "ast-outline", Some(written), &opts());
    assert_eq!(removal, Some(Plan { change: Change::Removed("/s/SKILL.md".to_string()), action: FileAction::Delete }));
}

#[test]
fn subagent_prompt_install_creates_explore_file() {
    let inst = acme();
    let scope = Scope::Local("/p".to_string());
    let paths = inst.subagent_paths(&scope, &None).unwrap();
    assert_eq!(paths.len(), shadowed_subagents().len());
    let plan = install_prompt_in(&paths[0], "", BLOCK.to_string(), ApplyOutcome::Applied, &opts()).unwrap();
    assert!(matches!(plan.change, Change::Created(_)));
    assert!(paths[0].ends_with(".acme/agents/Explore.md"));
    match plan.action {
        FileAction::Write(w) => {
            assert!(w.contains("<!-- ast-outline:begin"));
            assert!(w.contains("ast-outline"));
        }
        other => panic!("expected a write, got {:?}", other),
    }
}

#[test]
fn subagent_prompt_reinstall_is_skipped() {
    let inst = acme();
    let path = inst.subagent_path(&Scope::Local("/p".to_string()), &None, "Explore").unwrap();
    let first = install_prompt_in(&path, "", BLOCK.to_string(), ApplyOutcome::Applied, &opts()).unwrap();
    let after_first = match first.action {
        FileAction::Write(w) => w,
        other => panic!("expected a write, got {:?}", other),
    };
    let second = install_prompt_in(&path, &after_first, after_first.clone(), ApplyOutcome::Applied, &opts()).unwrap();
    assert!(matches!(second.change, Change::Skipped { .. }));
    assert_eq!(second.action, FileAction::Leave);
}

#[test]
fn subagent_prompt_uninstall_writes_remaining_text() {
    let inst = acme();
    let path = inst.subagent_path(&Scope::Local("/p".to_string()), &None, "Explore").unwrap();
    let custom = "---\nname: Explore\n---\nKeep me.\n".to_string();
    let plan = uninstall_prompt_in(&path, Some((custom.clone(), true)), &opts()).unwrap();
    assert!(matches!(&plan.change, Change::Removed(p) if p.ends_with("Explore.md")));
    match plan.action {
        FileAction::Write(w) => {
            assert!(!w.contains("ast-outline:begin"));
            assert!(w.contains("Keep me."));
        }
        other => panic!("expected a write, got {:?}", other),
    }
}

#[test]
fn hook_path_is_pre_tool_use_under_hooks() {
    assert_eq!(hook_path(), vec!["hooks", "PreToolUse"]);
}

fn install(path: &str, existing: &str, merged: &str, outcome: ApplyOutcome) -> PromptInstall {
    PromptInstall { path: path.to_string(), existing: existing.to_string(), merged: merged.to_string(), outcome }
}

#[test]
fn install_prompts_in_plans_each_file_in_order() {
    let (plans, blocked) = install_prompts_in(
        vec![install("/a.md", "", BLOCK, ApplyOutcome::Applied), install("/b.md", BLOCK, BLOCK, ApplyOutcome::Applied)],
        &opts(),
    );
    assert_eq!(blocked, None);
    assert_eq!(
        plans,
        vec![
            Plan { change: Change::Created("/a.md".to_string()), action: FileAction::Write(BLOCK.to_string()) },
            Plan { change: skipped("/b.md"), action: FileAction::Leave },
        ]
    );
}

#[test]
fn install_prompts_in_stops_at_first_blocked_file() {
    let (plans, blocked) = install_prompts_in(
        vec![
            install("/a.md", "", BLOCK, ApplyOutcome::Applied),
            install("/b.md", "x", "x", ApplyOutcome::UserEditsBlocked("d1".to_string())),
            install("/c.md", "y", "y", ApplyOutcome::UserEditsBlocked("d2".to_string())),
        ],
        &opts(),
    );
    assert_eq!(plans, vec![Plan { change: Change::Created("/a.md".to_string()), action: FileAction::Write(BLOCK.to_string()) }]);
    assert_eq!(blocked, Some("/b.md: user edits inside marker block; pass --force to overwrite\nd1".to_string()));
    assert_eq!(install_prompts_in(vec![], &opts()), (vec![], None));
}

#[test]
fn uninstall_plans_keep_order_and_drop_nothing_to_do() {
    let removed = |p: &str| Plan { change: Change::Removed(p.to_string()), action: FileAction::Leave };
    assert_eq!(
        uninstall_plans(Some(removed("/p")), None, vec![None, Some(removed("/s1")), Some(removed("/s2"))]),
        vec![removed("/p"), removed("/s1"), removed("/s2")]
    );
    assert_eq!(
        uninstall_plans(Some(removed("/p")), Some(removed("/h")), vec![]),
        vec![removed("/p"), removed("/h")]
    );
    assert!(uninstall_plans(None, None, vec![None]).is_empty());
}
