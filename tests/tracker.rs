use springfield::{
    CountOutcome, CreateIssueParams, Db, Issue, IssueType, ListFilters, PensaError, Priority,
    Status, UpdateFields,
};

const NOW: i64 = 1_772_000_000;

fn params(title: &str, issue_type: IssueType, priority: Priority) -> CreateIssueParams {
    CreateIssueParams {
        title: title.into(),
        issue_type,
        priority,
        description: None,
        spec: None,
        fixes: None,
        assignee: None,
        deps: vec![],
        actor: "test-agent".into(),
    }
}

fn create_task(db: &mut Db, title: &str) -> Issue {
    db.create_issue(&params(title, IssueType::Task, Priority::P2), NOW).unwrap()
}

fn create_issue_with(db: &mut Db, title: &str, issue_type: IssueType, priority: Priority) -> Issue {
    db.create_issue(&params(title, issue_type, priority), NOW).unwrap()
}

#[test]
fn create_and_get() {
    let mut db = Db::new();
    let issue = db
        .create_issue(
            &CreateIssueParams {
                title: "login crash".into(),
                issue_type: IssueType::Bug,
                priority: Priority::P0,
                description: Some("crashes on empty password".into()),
                spec: None,
                fixes: None,
                assignee: Some("alice".into()),
                deps: vec![],
                actor: "test-agent".into(),
            },
            NOW,
        )
        .unwrap();

    assert!(issue.id.starts_with("pn-"));
    assert_eq!(issue.title, "login crash");
    assert_eq!(issue.issue_type, IssueType::Bug);
    assert_eq!(issue.priority, Priority::P0);
    assert_eq!(issue.status, Status::Open);
    assert_eq!(issue.description.as_deref(), Some("crashes on empty password"));
    assert_eq!(issue.assignee.as_deref(), Some("alice"));
    assert!(issue.spec.is_none());
    assert!(issue.fixes.is_none());
    assert!(issue.closed_at.is_none());
    assert!(issue.close_reason.is_none());

    let detail = db.get_issue(&issue.id).unwrap();
    assert_eq!(detail.issue.id, issue.id);
    assert_eq!(detail.issue.title, "login crash");
    assert!(detail.deps.is_empty());
    assert!(detail.comments.is_empty());
}

#[test]
fn get_nonexistent() {
    let db = Db::new();
    let result = db.get_issue("pn-00000000");
    assert!(matches!(result, Err(PensaError::NotFound(_))));
}

#[test]
fn update_fields() {
    let mut db = Db::new();
    let mut p = params("original title", IssueType::Task, Priority::P2);
    p.description = Some("original desc".into());
    let issue = db.create_issue(&p, NOW).unwrap();

    let updated = db
        .update_issue(
            &issue.id,
            &UpdateFields {
                title: Some("new title".to_string()),
                priority: Some(Priority::P1),
                ..Default::default()
            },
            "test-agent",
            NOW,
        )
        .unwrap();

    assert_eq!(updated.title, "new title");
    assert_eq!(updated.priority, Priority::P1);
    assert_eq!(updated.description.as_deref(), Some("original desc"));
    assert_eq!(updated.issue_type, IssueType::Task);
}

#[test]
fn update_logs_event() {
    let mut db = Db::new();
    let issue = create_task(&mut db, "test issue");
    db.update_issue(
        &issue.id,
        &UpdateFields { title: Some("updated title".into()), ..Default::default() },
        "test-agent",
        NOW,
    )
    .unwrap();
    let history = db.issue_history(&issue.id).unwrap();
    assert_eq!(history.len(), 2);
    assert_eq!(history[1].event_type, "created");
    assert_eq!(history[0].event_type, "updated");
    assert_eq!(history[0].detail.as_deref(), Some(r#"{"title":"updated title"}"#));
}

#[test]
fn update_detail_lists_fields_in_key_order() {
    let mut db = Db::new();
    let issue = create_task(&mut db, "t");
    db.update_issue(
        &issue.id,
        &UpdateFields {
            title: Some("say \"hi\"".into()),
            priority: Some(Priority::P0),
            assignee: Some("bob".into()),
            ..Default::default()
        },
        "a",
        NOW,
    )
    .unwrap();
    let history = db.issue_history(&issue.id).unwrap();
    assert_eq!(
        history[0].detail.as_deref(),
        Some(r#"{"assignee":"bob","priority":"p0","title":"say \"hi\""}"#)
    );
}

#[test]
fn update_into_progress_without_assignee_is_refused() {
    let mut db = Db::new();
    let issue = create_task(&mut db, "t");
    let r = db.update_issue(
        &issue.id,
        &UpdateFields { status: Some(Status::InProgress), ..Default::default() },
        "a",
        NOW,
    );
    match r {
        Err(PensaError::InvalidStatusTransition { from, to }) => {
            assert_eq!(from, "open");
            assert_eq!(to, "in_progress");
        }
        _ => panic!("expected invalid_status_transition"),
    }
}

#[test]
fn update_to_closed_sets_closed_at() {
    let mut db = Db::new();
    let issue = create_task(&mut db, "t");
    let u = db
        .update_issue(
            &issue.id,
            &UpdateFields { status: Some(Status::Closed), ..Default::default() },
            "a",
            NOW + 5,
        )
        .unwrap();
    assert_eq!(u.closed_at, Some(NOW + 5));
    assert_eq!(u.updated_at, NOW + 5);
}

#[test]
fn claim_sets_in_progress() {
    let mut db = Db::new();
    let issue = create_task(&mut db, "implement auth");
    let claimed = db.claim_issue(&issue.id, "agent-1", NOW).unwrap();
    assert_eq!(claimed.status, Status::InProgress);
    assert_eq!(claimed.assignee.as_deref(), Some("agent-1"));
}

#[test]
fn double_claim_fails() {
    let mut db = Db::new();
    let issue = create_task(&mut db, "implement auth");
    db.claim_issue(&issue.id, "agent-1", NOW).unwrap();
    let result = db.claim_issue(&issue.id, "agent-2", NOW);
    assert!(matches!(result, Err(PensaError::AlreadyClaimed { .. })));
    if let Err(PensaError::AlreadyClaimed { holder, .. }) = result {
        assert_eq!(holder, "agent-1");
    }
}

#[test]
fn release_clears() {
    let mut db = Db::new();
    let issue = create_task(&mut db, "implement auth");
    db.claim_issue(&issue.id, "agent-1", NOW).unwrap();
    let released = db.release_issue(&issue.id, "agent-1", NOW).unwrap();
    assert_eq!(released.status, Status::Open);
    assert!(released.assignee.is_none());
}

#[test]
fn close_reopen_cycle() {
    let mut db = Db::new();
    let issue = create_task(&mut db, "implement auth");
    let closed = db.close_issue(&issue.id, Some("done"), false, "agent-1", NOW).unwrap();
    assert_eq!(closed.status, Status::Closed);
    assert_eq!(closed.close_reason.as_deref(), Some("done"));
    assert!(closed.closed_at.is_some());

    let reopened = db.reopen_issue(&issue.id, Some("not done"), "agent-1", NOW).unwrap();
    assert_eq!(reopened.status, Status::Open);
    assert!(reopened.closed_at.is_none());
    assert!(reopened.close_reason.is_none());

    let closed_again = db.close_issue(&issue.id, None, false, "agent-1", NOW).unwrap();
    assert_eq!(closed_again.status, Status::Closed);
}

#[test]
fn closing_closed_issue_needs_force() {
    let mut db = Db::new();
    let issue = create_task(&mut db, "t");
    db.close_issue(&issue.id, None, false, "a", NOW).unwrap();
    match db.close_issue(&issue.id, None, false, "a", NOW) {
        Err(PensaError::InvalidStatusTransition { from, to }) => {
            assert_eq!(from, "closed");
            assert_eq!(to, "closed");
        }
        _ => panic!("expected invalid_status_transition"),
    }
    assert!(db.close_issue(&issue.id, Some("again"), true, "a", NOW).is_ok());
}

#[test]
fn db_fixes_auto_close() {
    let mut db = Db::new();
    let bug = create_issue_with(&mut db, "login crash", IssueType::Bug, Priority::P0);
    let mut p = params("fix login", IssueType::Task, Priority::P1);
    p.fixes = Some(bug.id.clone());
    let task = db.create_issue(&p, NOW).unwrap();

    db.close_issue(&task.id, Some("implemented"), false, "agent-1", NOW).unwrap();

    let bug_after = db.get_issue_only(&bug.id).unwrap();
    assert_eq!(bug_after.status, Status::Closed);
    assert!(bug_after.close_reason.as_ref().unwrap().contains(&format!("fixed by {}", task.id)));
    let history = db.issue_history(&bug.id).unwrap();
    assert_eq!(history[0].event_type, "closed");
    assert_eq!(history[0].created_at, NOW);
}

#[test]
fn delete_requires_force() {
    let mut db = Db::new();
    let issue = create_task(&mut db, "implement auth");
    db.add_comment_with_id(&issue.id, "pn-comment01".into(), "agent", "note", NOW).unwrap();
    let result = db.delete_issue(&issue.id, false);
    assert!(matches!(result, Err(PensaError::DeleteRequiresForce(_))));
}

#[test]
fn force_delete_cascades() {
    let mut db = Db::new();
    let a = create_task(&mut db, "task A");
    let b = create_task(&mut db, "task B");
    db.add_dep(&b.id, &a.id, "agent", NOW).unwrap();
    db.add_comment_with_id(&a.id, "pn-comment01".into(), "agent", "note", NOW).unwrap();

    db.delete_issue(&a.id, true).unwrap();

    assert!(db.deps.iter().all(|d| d.issue_id != a.id && d.depends_on_id != a.id));
    assert!(db.comments.iter().all(|c| c.issue_id != a.id));
    assert!(db.events.iter().all(|e| e.issue_id != a.id));
    assert!(matches!(db.get_issue(&a.id), Err(PensaError::NotFound(_))));
}

#[test]
fn list_with_filters() {
    let mut db = Db::new();
    create_issue_with(&mut db, "task p0", IssueType::Task, Priority::P0);
    create_issue_with(&mut db, "task p2", IssueType::Task, Priority::P2);
    create_issue_with(&mut db, "bug p1", IssueType::Bug, Priority::P1);
    let closed = create_task(&mut db, "closed task");
    db.close_issue(&closed.id, None, false, "test-agent", NOW).unwrap();

    let all = db.list_issues(&ListFilters::default()).unwrap();
    assert_eq!(all.len(), 4);
    assert_eq!(all[0].priority, Priority::P0);

    let open = db
        .list_issues(&ListFilters { status: Some(Status::Open), ..Default::default() })
        .unwrap();
    assert_eq!(open.len(), 3);
    assert!(open.iter().all(|i| i.status == Status::Open));

    let bugs = db
        .list_issues(&ListFilters { issue_type: Some(IssueType::Bug), ..Default::default() })
        .unwrap();
    assert_eq!(bugs.len(), 1);
    assert_eq!(bugs[0].title, "bug p1");

    let p0s = db
        .list_issues(&ListFilters { priority: Some(Priority::P0), ..Default::default() })
        .unwrap();
    assert_eq!(p0s.len(), 1);
    assert_eq!(p0s[0].title, "task p0");

    let limited = db.list_issues(&ListFilters { limit: Some(2), ..Default::default() }).unwrap();
    assert_eq!(limited.len(), 2);

    let by_title = db
        .list_issues(&ListFilters { sort: Some("title".into()), ..Default::default() })
        .unwrap();
    assert_eq!(by_title[0].title, "bug p1");
}

#[test]
fn filtered_listing_is_within_full_listing() {
    let mut db = Db::new();
    create_issue_with(&mut db, "x", IssueType::Task, Priority::P1);
    create_issue_with(&mut db, "y", IssueType::Bug, Priority::P1);
    create_issue_with(&mut db, "z", IssueType::Task, Priority::P3);
    let all = db.list_issues(&ListFilters::default()).unwrap();
    let some = db
        .list_issues(&ListFilters {
            priority: Some(Priority::P1),
            issue_type: Some(IssueType::Task),
            ..Default::default()
        })
        .unwrap();
    assert_eq!(some.len(), 1);
    for i in &some {
        assert!(all.iter().any(|a| a.id == i.id));
        assert_eq!(i.priority, Priority::P1);
        assert_eq!(i.issue_type, IssueType::Task);
    }
}

#[test]
fn db_ready_excludes_bugs() {
    let mut db = Db::new();
    create_issue_with(&mut db, "a bug", IssueType::Bug, Priority::P0);
    create_issue_with(&mut db, "a task", IssueType::Task, Priority::P1);
    let ready = db.ready_issues(&ListFilters::default()).unwrap();
    assert_eq!(ready.len(), 1);
    assert_eq!(ready[0].title, "a task");
}

#[test]
fn ready_excludes_blocked() {
    let mut db = Db::new();
    let a = create_task(&mut db, "task A");
    let b = create_task(&mut db, "task B");
    db.add_dep(&b.id, &a.id, "agent", NOW).unwrap();
    let ready = db.ready_issues(&ListFilters::default()).unwrap();
    let ready_ids: Vec<&str> = ready.iter().map(|i| i.id.as_str()).collect();
    assert!(ready_ids.contains(&a.id.as_str()));
    assert!(!ready_ids.contains(&b.id.as_str()));
}

#[test]
fn ready_and_blocked_scenario() {
    let mut db = Db::new();
    let bx = create_issue_with(&mut db, "Bx", IssueType::Bug, Priority::P2);
    let t1 = create_task(&mut db, "T1");
    let t2 = create_task(&mut db, "T2");
    db.add_dep(&t2.id, &t1.id, "a", NOW).unwrap();
    let ready = db.ready_issues(&ListFilters::default()).unwrap();
    assert_eq!(ready.len(), 1);
    assert_eq!(ready[0].id, t1.id);
    let blocked = db.blocked_issues().unwrap();
    assert!(blocked.iter().all(|b| ready.iter().all(|r| r.id != b.id)));
    assert!(!ready.iter().any(|r| r.id == bx.id));
    db.close_issue(&t1.id, None, false, "a", NOW).unwrap();
    let ready = db.ready_issues(&ListFilters::default()).unwrap();
    assert_eq!(ready.len(), 1);
    assert_eq!(ready[0].id, t2.id);
}

#[test]
fn blocked_returns_blocked() {
    let mut db = Db::new();
    let a = create_task(&mut db, "task A");
    let b = create_task(&mut db, "task B");
    db.add_dep(&b.id, &a.id, "agent", NOW).unwrap();
    let blocked = db.blocked_issues().unwrap();
    assert_eq!(blocked.len(), 1);
    assert_eq!(blocked[0].id, b.id);
}

#[test]
fn search_case_insensitive() {
    let mut db = Db::new();
    let mut p = params("login crash on Safari", IssueType::Bug, Priority::P0);
    p.description = Some("user sees blank screen".into());
    db.create_issue(&p, NOW).unwrap();
    create_task(&mut db, "implement auth");

    let results = db.search_issues("LOGIN").unwrap();
    assert_eq!(results.len(), 1);
    assert_eq!(results[0].title, "login crash on Safari");
    let results = db.search_issues("blank screen").unwrap();
    assert_eq!(results.len(), 1);
    let results = db.search_issues("nonexistent").unwrap();
    assert!(results.is_empty());
}

#[test]
fn count_basic() {
    let mut db = Db::new();
    create_task(&mut db, "task 1");
    create_task(&mut db, "task 2");
    let closed = create_task(&mut db, "task 3");
    db.close_issue(&closed.id, None, false, "test-agent", NOW).unwrap();

    match db.count_issues(&vec![]).unwrap() {
        CountOutcome::Total(c) => assert_eq!(c.count, 2),
        _ => panic!("expected a total"),
    }
    match db.count_issues(&vec!["status".to_string()]).unwrap() {
        CountOutcome::Grouped(g) => {
            assert_eq!(g.total, 3);
            assert!(!g.groups.is_empty());
            let open = g.groups.iter().find(|x| x.key == "open").unwrap();
            assert_eq!(open.count, 2);
        }
        _ => panic!("expected groups"),
    }
}

#[test]
fn count_groups_join_keys_and_reject_unknown_fields() {
    let mut db = Db::new();
    create_issue_with(&mut db, "a", IssueType::Bug, Priority::P0);
    create_issue_with(&mut db, "b", IssueType::Bug, Priority::P0);
    create_issue_with(&mut db, "c", IssueType::Task, Priority::P1);
    match db.count_issues(&vec!["issue_type".to_string(), "priority".to_string()]).unwrap() {
        CountOutcome::Grouped(g) => {
            let keys: Vec<(&str, i64)> = g.groups.iter().map(|x| (x.key.as_str(), x.count)).collect();
            assert_eq!(keys, vec![("bug/p0", 2), ("task/p1", 1)]);
        }
        _ => panic!("expected groups"),
    }
    assert!(matches!(db.count_issues(&vec!["title".to_string()]), Err(PensaError::Internal(_))));
}

#[test]
fn project_status_counts_per_type() {
    let mut db = Db::new();
    let t = create_task(&mut db, "t");
    create_issue_with(&mut db, "b", IssueType::Bug, Priority::P1);
    db.claim_issue(&t.id, "a", NOW).unwrap();
    let st = db.project_status().unwrap();
    assert_eq!(st.len(), 2);
    assert_eq!(st[0].issue_type, IssueType::Bug);
    assert_eq!((st[0].open, st[0].in_progress, st[0].closed), (1, 0, 0));
    assert_eq!(st[1].issue_type, IssueType::Task);
    assert_eq!((st[1].open, st[1].in_progress, st[1].closed), (0, 1, 0));
}

#[test]
fn history_newest_first() {
    let mut db = Db::new();
    let issue = create_task(&mut db, "lifecycle test");
    db.update_issue(
        &issue.id,
        &UpdateFields { title: Some("updated title".into()), ..Default::default() },
        "test-agent",
        NOW,
    )
    .unwrap();
    db.close_issue(&issue.id, Some("done"), false, "test-agent", NOW).unwrap();
    let history = db.issue_history(&issue.id).unwrap();
    assert_eq!(history.len(), 3);
    assert_eq!(history[0].event_type, "closed");
    assert_eq!(history[1].event_type, "updated");
    assert_eq!(history[2].event_type, "created");
}

#[test]
fn add_and_list_deps() {
    let mut db = Db::new();
    let a = create_task(&mut db, "task A");
    let b = create_task(&mut db, "task B");
    db.add_dep(&b.id, &a.id, "test-agent", NOW).unwrap();
    let deps = db.list_deps(&b.id).unwrap();
    assert_eq!(deps.len(), 1);
    assert_eq!(deps[0].id, a.id);
}

#[test]
fn cycle_detection_rejects() {
    let mut db = Db::new();
    let a = create_task(&mut db, "task A");
    let b = create_task(&mut db, "task B");
    let c = create_task(&mut db, "task C");
    db.add_dep(&b.id, &a.id, "test-agent", NOW).unwrap();
    db.add_dep(&c.id, &b.id, "test-agent", NOW).unwrap();
    let result = db.add_dep(&a.id, &c.id, "test-agent", NOW);
    assert!(matches!(result, Err(PensaError::CycleDetected)));
}

#[test]
fn self_dependency_is_a_cycle() {
    let mut db = Db::new();
    let a = create_task(&mut db, "task A");
    assert!(matches!(db.add_dep(&a.id, &a.id, "x", NOW), Err(PensaError::CycleDetected)));
}

#[test]
fn dep_tree_down() {
    let mut db = Db::new();
    let a = create_task(&mut db, "task A");
    let b = create_task(&mut db, "task B");
    let c = create_task(&mut db, "task C");
    db.add_dep(&b.id, &a.id, "test-agent", NOW).unwrap();
    db.add_dep(&c.id, &b.id, "test-agent", NOW).unwrap();
    let tree = db.dep_tree(&a.id, "down").unwrap();
    assert_eq!(tree.len(), 2);
    assert_eq!(tree[0].id, b.id);
    assert_eq!(tree[0].depth, 1);
    assert_eq!(tree[1].id, c.id);
    assert_eq!(tree[1].depth, 2);
}

#[test]
fn dep_tree_up() {
    let mut db = Db::new();
    let a = create_task(&mut db, "task A");
    let b = create_task(&mut db, "task B");
    let c = create_task(&mut db, "task C");
    db.add_dep(&b.id, &a.id, "test-agent", NOW).unwrap();
    db.add_dep(&c.id, &b.id, "test-agent", NOW).unwrap();
    let tree = db.dep_tree(&c.id, "up").unwrap();
    assert_eq!(tree.len(), 2);
    assert_eq!(tree[0].id, b.id);
    assert_eq!(tree[0].depth, 1);
    assert_eq!(tree[1].id, a.id);
    assert_eq!(tree[1].depth, 2);
}

#[test]
fn remove_dep_works() {
    let mut db = Db::new();
    let a = create_task(&mut db, "task A");
    let b = create_task(&mut db, "task B");
    db.add_dep(&b.id, &a.id, "test-agent", NOW).unwrap();
    assert_eq!(db.list_deps(&b.id).unwrap().len(), 1);
    db.remove_dep(&b.id, &a.id, "test-agent", NOW).unwrap();
    assert!(db.list_deps(&b.id).unwrap().is_empty());
}

#[test]
fn removing_missing_edge_is_not_found() {
    let mut db = Db::new();
    let a = create_task(&mut db, "task A");
    let b = create_task(&mut db, "task B");
    match db.remove_dep(&b.id, &a.id, "x", NOW) {
        Err(PensaError::NotFound(m)) => assert_eq!(m, format!("dep {} -> {}", b.id, a.id)),
        _ => panic!("expected not_found"),
    }
}

#[test]
fn detect_cycles_empty() {
    let mut db = Db::new();
    let a = create_task(&mut db, "task A");
    let b = create_task(&mut db, "task B");
    let c = create_task(&mut db, "task C");
    db.add_dep(&b.id, &a.id, "test-agent", NOW).unwrap();
    db.add_dep(&c.id, &b.id, "test-agent", NOW).unwrap();
    let _ = db.add_dep(&a.id, &c.id, "test-agent", NOW);
    db.remove_dep(&c.id, &b.id, "test-agent", NOW).unwrap();
    db.add_dep(&a.id, &c.id, "test-agent", NOW).unwrap();
    assert!(db.detect_cycles().unwrap().is_empty());
}

#[test]
fn comments_listed_oldest_first() {
    let mut db = Db::new();
    let a = create_task(&mut db, "c");
    db.add_comment_with_id(&a.id, "pn-c2".into(), "x", "second", NOW + 10).unwrap();
    db.add_comment_with_id(&a.id, "pn-c1".into(), "x", "first", NOW).unwrap();
    let cs = db.list_comments(&a.id).unwrap();
    assert_eq!(cs.len(), 2);
    assert_eq!(cs[0].text, "first");
    assert_eq!(cs[1].text, "second");
    assert!(matches!(
        db.add_comment_with_id("pn-missing", "pn-c3".into(), "x", "t", NOW),
        Err(PensaError::NotFound(_))
    ));
}

#[test]
fn export_import_round_trip() {
    let mut db = Db::new();
    let a = create_task(&mut db, "setup db");
    let b = create_task(&mut db, "add auth");
    let c = create_issue_with(&mut db, "font bug", IssueType::Bug, Priority::P1);
    db.add_dep(&b.id, &a.id, "x", NOW).unwrap();
    db.add_comment_with_id(&a.id, "pn-k1".into(), "x", "started schema work", NOW).unwrap();
    db.add_comment_with_id(&c.id, "pn-k2".into(), "x", "repro steps: open page", NOW).unwrap();
    let before = db.list_issues(&ListFilters::default()).unwrap();

    let snap = db.export();
    let back = Db::restore(snap).unwrap();

    let after = back.list_issues(&ListFilters::default()).unwrap();
    assert_eq!(before.len(), after.len());
    for (x, y) in before.iter().zip(after.iter()) {
        assert_eq!(x.id, y.id);
        assert_eq!(x.title, y.title);
        assert_eq!(x.issue_type, y.issue_type);
        assert_eq!(x.status, y.status);
        assert_eq!(x.priority, y.priority);
        assert_eq!(x.assignee, y.assignee);
        assert_eq!(x.description, y.description);
        assert_eq!(x.spec, y.spec);
    }
    assert_eq!(back.deps.len(), 1);
    assert_eq!(back.comments.len(), 2);
    assert_eq!(back.next_event_id, db.next_event_id);
}

#[test]
fn restore_rejects_dangling_edges() {
    let mut db = Db::new();
    let a = create_task(&mut db, "a");
    let mut snap = db.export();
    snap.deps.push(springfield::Dep { issue_id: a.id.clone(), depends_on_id: "pn-nowhere".into() });
    assert!(matches!(Db::restore(snap), Err(PensaError::Internal(_))));
}

#[test]
fn enum_text_round_trip() {
    for t in [IssueType::Bug, IssueType::Task, IssueType::Test, IssueType::Chore] {
        assert_eq!(IssueType::parse(t.as_str()).unwrap(), t);
    }
    for s in [Status::Open, Status::InProgress, Status::Closed] {
        assert_eq!(Status::parse(s.as_str()).unwrap(), s);
    }
    for p in [Priority::P0, Priority::P1, Priority::P2, Priority::P3] {
        assert_eq!(Priority::parse(p.as_str()).unwrap(), p);
    }
    assert_eq!(Status::InProgress.as_str(), "in_progress");
    assert_eq!(IssueType::parse("epic").unwrap_err().0, "epic");
}

#[test]
fn error_codes_and_messages() {
    let e = PensaError::AlreadyClaimed { id: "pn-1".into(), holder: "a1".into() };
    assert_eq!(e.code(), Some("already_claimed"));
    assert_eq!(e.message(), "issue pn-1 already claimed by a1");
    assert_eq!(e.http_status(), 409);
    assert_eq!(PensaError::NotFound("x".into()).http_status(), 404);
    assert_eq!(PensaError::DeleteRequiresForce("r".into()).code(), None);
    assert_eq!(PensaError::Internal("boom".into()).http_status(), 500);
    let r = springfield::ErrorResponse::from_error(&PensaError::CycleDetected);
    assert_eq!(r.error, "adding this dependency would create a cycle");
    assert_eq!(r.code.as_deref(), Some("cycle_detected"));
}

#[test]
fn format_is_correct() {
    let id = springfield::generate_id();
    assert!(id.starts_with("pn-"));
    assert_eq!(id.len(), 11);
    assert!(id[3..].chars().all(|c| c.is_ascii_hexdigit()));
}

#[test]
fn ids_are_unique() {
    let a = springfield::generate_id();
    let b = springfield::generate_id();
    assert_ne!(a, b);
}

#[test]
fn id_from_bits_uses_low_word() {
    assert_eq!(springfield::id::id_from_bits(0x1234_5678_9abc_def0_0fed_cba9), "pn-0fedcba9");
}

#[test]
fn export_orders_edges_by_child_then_parent() {
    let mut db = Db::new();
    let mut ids = Vec::new();
    for t in ["a", "b", "c"] {
        ids.push(create_task(&mut db, t).id);
    }
    db.add_dep(&ids[2], &ids[1], "x", NOW).unwrap();
    db.add_dep(&ids[1], &ids[0], "x", NOW).unwrap();
    db.add_dep(&ids[2], &ids[0], "x", NOW).unwrap();
    let snap = db.export();
    let pairs: Vec<(String, String)> =
        snap.deps.iter().map(|d| (d.issue_id.clone(), d.depends_on_id.clone())).collect();
    let mut sorted = pairs.clone();
    sorted.sort();
    assert_eq!(pairs, sorted);
}

#[test]
fn doctor_reports_and_fixes_stale_claims_and_orphans() {
    let mut db = Db::new();
    let a = create_task(&mut db, "stale-1");
    let b = create_task(&mut db, "fresh");
    db.claim_issue(&a.id, "agent", NOW).unwrap();
    db.claim_issue(&b.id, "agent", NOW + 90_000).unwrap();
    let bug = create_issue_with(&mut db, "bug", IssueType::Bug, Priority::P1);
    let mut p = params("fixer", IssueType::Task, Priority::P1);
    p.fixes = Some(bug.id.clone());
    let fixer = db.create_issue(&p, NOW).unwrap();
    db.delete_issue(&bug.id, true).unwrap();

    let report = db.doctor(false, NOW + 100_000);
    assert_eq!(report.findings.len(), 2);
    assert_eq!(report.findings[0].check, "stale_claims");
    assert_eq!(report.findings[0].ids, vec![a.id.clone()]);
    assert_eq!(report.findings[1].check, "orphaned_fixes");
    assert_eq!(report.findings[1].ids, vec![fixer.id.clone()]);

    let fixed = db.doctor(true, NOW + 100_000);
    assert_eq!(fixed.fixes_applied, 2);
    assert_eq!(db.get_issue_only(&a.id).unwrap().status, Status::Open);
    assert!(db.get_issue_only(&fixer.id).unwrap().fixes.is_none());
    assert!(db.doctor(false, NOW + 100_000).findings.is_empty());
}

#[test]
fn request_defaults() {
    assert_eq!(springfield::default_priority(), Priority::P2);
    assert_eq!(springfield::default_direction(), "down");
}

#[test]
fn doctor_on_healthy_tracker_reports_nothing() {
    let mut db = Db::new();
    let a = create_task(&mut db, "a");
    db.claim_issue(&a.id, "agent", NOW).unwrap();
    let report = db.doctor(true, NOW + 10);
    assert!(report.findings.is_empty());
    assert_eq!(report.fixes_applied, 0);
    assert_eq!(db.get_issue_only(&a.id).unwrap().status, Status::InProgress);
}

#[test]
fn update_detail_escapes_controls() {
    let mut db = Db::new();
    let issue = create_task(&mut db, "t");
    db.update_issue(
        &issue.id,
        &UpdateFields { title: Some("a\tb\\c\u{1}".into()), ..Default::default() },
        "a",
        NOW,
    )
    .unwrap();
    let history = db.issue_history(&issue.id).unwrap();
    assert_eq!(history[0].detail.as_deref(), Some(r#"{"title":"a\tb\\c\u0001"}"#));
}

#[test]
fn count_groups_only_combinations_present() {
    let mut db = Db::new();
    let a = create_task(&mut db, "a");
    create_task(&mut db, "b");
    db.claim_issue(&a.id, "x/y", NOW).unwrap();
    match db.count_issues(&vec!["assignee".to_string(), "status".to_string()]).unwrap() {
        CountOutcome::Grouped(g) => {
            assert_eq!(g.total, 2);
            assert_eq!(g.groups.len(), 2);
            assert!(g.groups.iter().all(|x| x.count >= 1));
            let keys: Vec<&str> = g.groups.iter().map(|x| x.key.as_str()).collect();
            assert_eq!(keys, vec!["x/y/in_progress", "/open"]);
        }
        _ => panic!("expected groups"),
    }
}
