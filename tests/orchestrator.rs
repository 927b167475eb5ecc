use springfield::harness::{
    after_iteration, clamp_iterations, exit_code, parse_bool, resolve_actor, sanitize_lines,
    should_recover, AfterIteration,
};
use springfield::scaffold::{
    apply_hooks, merge_deny_rules, merge_ignore_text, plan_hooks, HookPlan, HookShapeError, HooksView,
    RepoView, ReposView,
};
use springfield::orchestrate::loop_id_at;
use springfield::prompt::replace_all;
use springfield::{
    build_ralph_args, exit_message, find_unresolved_tokens, generate_loop_id, resolve_ralph_binary,
    stage_spec, substitute, LoopConfig, DOCKERFILE,
};

fn config(stage: &str, spec: Option<&str>, afk: bool, no_push: bool, iterations: u32) -> LoopConfig {
    LoopConfig {
        stage: stage.to_string(),
        spec: spec.map(|s| s.to_string()),
        afk,
        no_push,
        iterations,
        ralph_binary: None,
        skip_preflight: false,
        prompt_template: None,
    }
}

#[test]
fn build_args_build_afk_no_push() {
    let c = config("build", Some("auth"), true, true, 10);
    let args = build_ralph_args(&c, "build-auth-20260226T143000", "/tmp/prompt.md");
    assert_eq!(
        args,
        vec![
            "-a",
            "--loop-id",
            "build-auth-20260226T143000",
            "--template",
            "ralph-sandbox:latest",
            "--auto-push",
            "false",
            "--max-iterations",
            "30",
            "10",
            "/tmp/prompt.md",
        ]
    );
}

#[test]
fn build_args_verify_interactive() {
    let c = config("verify", None, false, false, 30);
    let args = build_ralph_args(&c, "verify-20260226T150000", "/tmp/verify.md");
    assert!(!args.contains(&"-a".to_string()));
    assert!(args.contains(&"--auto-push".to_string()));
    let auto_push_idx = args.iter().position(|a| a == "--auto-push").unwrap();
    assert_eq!(args[auto_push_idx + 1], "true");
}

#[test]
fn build_args_spec_one_iteration() {
    let c = config("spec", None, false, false, 1);
    let args = build_ralph_args(&c, "spec-20260226T160000", "/tmp/spec_stage.md");
    assert!(!args.contains(&"-a".to_string()));
    assert!(args.contains(&"1".to_string()));
}

#[test]
fn build_args_default_iterations() {
    let c = config("build", Some("auth"), false, false, 30);
    let args = build_ralph_args(&c, "build-auth-20260226T143000", "/tmp/prompt.md");
    assert!(args.contains(&"30".to_string()));
    assert!(args.contains(&"--max-iterations".to_string()));
    let max_idx = args.iter().position(|a| a == "--max-iterations").unwrap();
    assert_eq!(args[max_idx + 1], "30");
}

#[test]
fn exit_messages() {
    assert_eq!(exit_message(0), "loop completed successfully");
    assert_eq!(exit_message(1), "ralph exited with error");
    assert_eq!(exit_message(2), "iterations exhausted — re-launch to continue or stop");
    assert_eq!(exit_message(130), "interrupted");
    assert_eq!(exit_message(42), "ralph exited with unexpected code");
}

#[test]
fn resolve_binary_from_config() {
    let mut c = config("build", None, false, false, 30);
    c.ralph_binary = Some("/custom/ralph".to_string());
    assert_eq!(resolve_ralph_binary(&c, Some("/env/ralph".into())), "/custom/ralph");
    c.ralph_binary = None;
    assert_eq!(resolve_ralph_binary(&c, Some("/env/ralph".into())), "/env/ralph");
    assert_eq!(resolve_ralph_binary(&c, None), "ralph");
}

#[test]
fn stage_defaults() {
    let s = stage_spec("issues-log").unwrap();
    assert_eq!(s.template, "issues");
    assert!(!s.afk);
    assert_eq!(s.iterations, 1);
    let b = stage_spec("build").unwrap();
    assert!(b.afk && b.takes_spec);
    assert_eq!(b.iterations, 30);
    assert!(!stage_spec("test-plan").unwrap().takes_spec);
    assert!(stage_spec("deploy").is_none());
}

#[test]
fn loop_id_with_spec() {
    let id = generate_loop_id("build", Some("auth"));
    assert!(id.starts_with("build-auth-"));
    let ts = &id["build-auth-".len()..];
    assert_eq!(ts.len(), 15);
    assert_eq!(&ts[8..9], "T");
}

#[test]
fn loop_id_without_spec() {
    let id = generate_loop_id("verify", None);
    assert!(id.starts_with("verify-"));
    assert_eq!(id["verify-".len()..].len(), 15);
}

#[test]
fn loop_id_compound_stage() {
    let id = generate_loop_id("issues-plan", None);
    assert!(id.starts_with("issues-plan-"));
    assert_eq!(id["issues-plan-".len()..].len(), 15);
}

#[test]
fn loop_id_at_fixed_time() {
    assert_eq!(loop_id_at("build", Some("auth"), "20260226T143000"), "build-auth-20260226T143000");
    assert_eq!(loop_id_at("verify", None, "20260226T150000"), "verify-20260226T150000");
}

#[test]
fn substitution_replaces_every_token() {
    let vars = vec![("spec".to_string(), "auth".to_string())];
    assert_eq!(substitute("Build {{spec}} now; {{spec}}!", &vars), "Build auth now; auth!");
    assert_eq!(substitute("Verify everything.", &vars), "Verify everything.");
    assert_eq!(replace_all("aaa", "aa", "b"), "ba");
}

#[test]
fn unresolved_tokens_are_listed() {
    assert_eq!(find_unresolved_tokens("a {{x}} b {{}} c {{y\nz}} d {{w}}"), vec!["{{x}}", "{{w}}"]);
    assert!(find_unresolved_tokens("no tokens {{ here").is_empty());
    let vars = vec![("spec".to_string(), "auth".to_string())];
    assert!(find_unresolved_tokens(&substitute("Build {{spec}}", &vars)).is_empty());
}

#[test]
fn dockerfile_is_embedded() {
    assert!(DOCKERFILE.contains("COPY pn /usr/local/bin/pn"));
    assert!(DOCKERFILE.contains("rustc --version"));
}

#[test]
fn dockerfile_contains_rust_install() {
    assert!(DOCKERFILE.contains("rustup default stable"));
    assert!(DOCKERFILE.contains("rustup component add rustfmt clippy"));
}

#[test]
fn dockerfile_contains_tauri_deps() {
    assert!(DOCKERFILE.contains("libwebkit2gtk-4.1-dev"));
    assert!(DOCKERFILE.contains("cargo install tauri-cli"));
}

#[test]
fn dockerfile_contains_pnpm_setup() {
    assert!(DOCKERFILE.contains("corepack enable"));
    assert!(DOCKERFILE.contains("pnpm setup"));
}

#[test]
fn dockerfile_sets_agent_user() {
    assert!(DOCKERFILE.contains("USER agent"));
    assert!(DOCKERFILE.contains("WORKDIR /home/agent"));
}

#[test]
fn ignore_merge_is_idempotent() {
    let first = merge_ignore_text("target\n/target").unwrap();
    assert!(first.starts_with("target\n/target\n\n# Springfield\n.pensa/db.sqlite\n"));
    assert!(!first.contains("\n/target\n\n# Springfield\n.pensa/db.sqlite\n.sgf/logs/\n.sgf/run/\n.sgf/prompts/.assembled/\n.ralph-complete\n.ralph-ding\n/target"));
    assert!(merge_ignore_text(&first).is_none());
    let fresh = merge_ignore_text("").unwrap();
    assert!(merge_ignore_text(&fresh).is_none());
    assert!(merge_ignore_text("  .env  \n").unwrap().contains(".env.local\n"));
}

#[test]
fn deny_rules_merge_is_idempotent() {
    let once = merge_deny_rules(&vec!["Write .sgf/**".to_string(), "Read x".to_string()]);
    assert_eq!(
        once,
        vec!["Write .sgf/**", "Read x", "Edit .sgf/**", "Bash rm .sgf/**", "Bash mv .sgf/**"]
    );
    assert_eq!(merge_deny_rules(&once), once);
}

#[test]
fn harness_decisions() {
    assert_eq!(parse_bool("YES"), Ok(true));
    assert_eq!(parse_bool("0"), Ok(false));
    assert_eq!(
        parse_bool("Maybe"),
        Err("invalid boolean value 'maybe': expected true/false, 1/0, or yes/no".to_string())
    );
    assert_eq!(clamp_iterations(50, 30), (30, true));
    assert_eq!(clamp_iterations(5, 30), (5, false));
    assert_eq!(after_iteration(1, 3, true, true, true), (AfterIteration::Complete, true));
    assert_eq!(after_iteration(3, 3, false, false, true), (AfterIteration::Exhausted, false));
    assert_eq!(after_iteration(2, 3, false, true, false), (AfterIteration::Continue, false));
    assert_eq!(exit_code(AfterIteration::Exhausted, false), 2);
    assert_eq!(exit_code(AfterIteration::Complete, true), 130);
    assert!(should_recover(&vec![false, false]));
    assert!(!should_recover(&vec![]));
    assert!(!should_recover(&vec![false, true]));
    assert_eq!(sanitize_lines("a\nb"), "\r\x1B[2Ka\n\r\x1B[2Kb");
    assert_eq!(resolve_actor(None, Some("h".into())), "h");
    assert_eq!(resolve_actor(Some("b".into()), Some("h".into())), "b");
    assert_eq!(resolve_actor(None, None), "unknown");
}

fn repo(name: Option<&str>, hooks: HooksView) -> RepoView {
    RepoView { is_mapping: true, repo: name.map(|n| n.to_string()), hooks }
}

fn ids(v: &[&str]) -> HooksView {
    HooksView::Items(v.iter().map(|s| Some(s.to_string())).collect())
}

#[test]
fn hook_plan_decisions() {
    assert_eq!(
        plan_hooks(true, &ReposView::Absent),
        Ok(Some(HookPlan { add_export: true, add_import: true, target: None }))
    );
    let rs = ReposView::Items(vec![
        repo(Some("https://example.com/x"), ids(&["fmt"])),
        repo(Some("local"), ids(&["pensa-export"])),
        repo(Some("local"), HooksView::Absent),
    ]);
    assert_eq!(plan_hooks(true, &rs), Ok(Some(HookPlan { add_export: false, add_import: true, target: Some(1) })));
    let both = ReposView::Items(vec![repo(Some("other"), ids(&["pensa-import", "pensa-export"]))]);
    assert_eq!(plan_hooks(false, &both), Ok(None));
    assert_eq!(plan_hooks(false, &ReposView::Absent), Err(HookShapeError::RootNotMapping));
    assert_eq!(plan_hooks(true, &ReposView::NotSequence), Err(HookShapeError::ReposNotSequence));
    let bad = ReposView::Items(vec![repo(Some("local"), HooksView::NotSequence)]);
    assert_eq!(plan_hooks(true, &bad), Err(HookShapeError::HooksNotSequence));
}

#[test]
fn hook_merge_is_idempotent() {
    let mut rs = vec![repo(Some("local"), ids(&["pensa-import"])), repo(None, HooksView::Absent)];
    let plan = plan_hooks(true, &ReposView::Items(rs)).unwrap().unwrap();
    assert_eq!(plan, HookPlan { add_export: true, add_import: false, target: Some(0) });
    rs = vec![repo(Some("local"), ids(&["pensa-import"])), repo(None, HooksView::Absent)];
    apply_hooks(&mut rs, &plan);
    assert_eq!(plan_hooks(true, &ReposView::Items(rs)), Ok(None));
    let mut none: Vec<RepoView> = vec![];
    let plan = plan_hooks(true, &ReposView::Items(vec![])).unwrap().unwrap();
    apply_hooks(&mut none, &plan);
    assert_eq!(none.len(), 1);
    assert_eq!(plan_hooks(true, &ReposView::Items(none)), Ok(None));
}
