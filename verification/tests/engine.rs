use ci_dashboard::document::{Content, Document, Patch, VisualNode};
use ci_dashboard::dom::{Dom, Job, Pipeline, PipelineDetail};
use ci_dashboard::failure::Failure;
use ci_dashboard::status::Status;

const ALL: [Status; 8] = [
    Status::CREATED,
    Status::PENDING,
    Status::RUNNING,
    Status::SUCCESS,
    Status::FAILED,
    Status::SKIPPED,
    Status::CANCELED,
    Status::MANUAL,
];

fn pipeline(id: i32, status: Status) -> Pipeline {
    Pipeline { id, status }
}

fn job(name: &str, status: Status, link: &str) -> Job {
    Job { name: name.to_string(), status, link: link.to_string() }
}

fn detail(id: i32, status: Status, git_ref: &str, duration: i32) -> PipelineDetail {
    PipelineDetail { id, status, git_ref: git_ref.to_string(), duration }
}

fn node(key: &str, parent: &str, class: &str, content: Content) -> VisualNode {
    VisualNode { key: key.to_string(), parent: parent.to_string(), class: class.to_string(), content }
}

fn snapshot(document: &Document) -> Vec<VisualNode> {
    document.keys().iter().map(|key| document.get(key).unwrap()).collect()
}

#[test]
fn statuses_map_to_background_classes() {
    assert_eq!(Dom::map_status_to_bg(&Status::SUCCESS), "bg-success");
    assert_eq!(Dom::map_status_to_bg(&Status::FAILED), "bg-fail");
    assert_eq!(Dom::map_status_to_bg(&Status::RUNNING), "bg-running");
    assert_eq!(Dom::map_status_to_bg(&Status::MANUAL), "bg-running");
    assert_eq!(Dom::map_status_to_bg(&Status::CREATED), "bg-skipped");
    assert_eq!(Dom::map_status_to_bg(&Status::CANCELED), "bg-skipped");
    assert_eq!(Dom::map_status_to_bg(&Status::SKIPPED), "bg-skipped");
    assert_eq!(Dom::map_status_to_bg(&Status::PENDING), "bg-skipped");
}

#[test]
fn a_project_has_four_classes() {
    let mut classes: Vec<&str> = ALL.iter().map(Dom::map_status_to_bg).collect();
    classes.sort();
    classes.dedup();
    assert_eq!(classes, vec!["bg-fail", "bg-running", "bg-skipped", "bg-success"]);
    assert_eq!(Dom::map_status_to_bg(&Status::MANUAL), Dom::map_status_to_bg(&Status::RUNNING));
}

#[test]
fn statuses_map_to_the_background_classes_of_a_pipeline() {
    assert_eq!(Dom::map_status_to_pipeline_bg(&Status::SUCCESS), "bg-success");
    assert_eq!(Dom::map_status_to_pipeline_bg(&Status::FAILED), "bg-fail");
    assert_eq!(Dom::map_status_to_pipeline_bg(&Status::RUNNING), "bg-running");
    assert_eq!(Dom::map_status_to_pipeline_bg(&Status::MANUAL), "bg-manual");
    assert_eq!(Dom::map_status_to_pipeline_bg(&Status::CREATED), "bg-skipped");
    assert_eq!(Dom::map_status_to_pipeline_bg(&Status::CANCELED), "bg-skipped");
    assert_eq!(Dom::map_status_to_pipeline_bg(&Status::SKIPPED), "bg-skipped");
    assert_eq!(Dom::map_status_to_pipeline_bg(&Status::PENDING), "bg-skipped");
}

#[test]
fn statuses_map_to_job_classes_and_icons() {
    let expected = [
        ("job job-skipped", "<i class=\"fas fa-minus-circle\"></i>"),
        ("job job-skipped", "<i class=\"fas fa-minus-circle\"></i>"),
        ("job job-running", "<i class=\"fas fa-cog fa-spin\"></i>"),
        ("job job-success", "<i class=\"fas fa-check\"></i>"),
        ("job job-fail", "<i class=\"fas fa-times-circle\"></i>"),
        ("job job-skipped", "<i class=\"fas fa-minus-circle\"></i>"),
        ("job job-skipped", "<i class=\"fas fa-stop-circle\"></i>"),
        ("job job-manual", "<i class=\"fas fa-play\"></i>"),
    ];
    for (status, (class, icon)) in ALL.iter().zip(expected) {
        assert_eq!(Dom::map_status_to_job_class(status), class);
        assert_eq!(Dom::map_status_to_icon(status), icon);
    }
}

#[test]
fn a_new_document_has_no_nodes() {
    let document = Document::new();
    assert_eq!(document.len(), 0);
    assert!(!document.contains("pr1"));
    assert!(!document.contains("Content"));
    assert_eq!(document.get("pr1"), None);
    assert!(document.keys().is_empty());
}

#[test]
fn a_project_is_created_hidden_and_then_styled() {
    let mut document = Document::new();
    let patches =
        Dom::update_project(&mut document, 1, "app", "team", &vec![pipeline(100, Status::SUCCESS)]);
    assert_eq!(
        patches,
        vec![
            Patch::Create {
                node: node(
                    "pr1",
                    "Content",
                    "project hidden",
                    Content::Heading("team/app".to_string())
                )
            },
            Patch::SetClass { key: "pr1".to_string(), class: "project bg-success".to_string() },
        ]
    );
    assert_eq!(
        document.get("pr1"),
        Some(node(
            "pr1",
            "Content",
            "project bg-success",
            Content::Heading("team/app".to_string())
        ))
    );
    assert_eq!(document.len(), 1);
}

#[test]
fn a_project_shows_the_state_of_its_first_pipeline() {
    let expected = [
        "project bg-skipped",
        "project bg-skipped",
        "project bg-running",
        "project bg-success",
        "project bg-fail",
        "project bg-skipped",
        "project bg-skipped",
        "project bg-running",
    ];
    let mut document = Document::new();
    for (status, class) in ALL.iter().zip(expected) {
        let pipelines = vec![pipeline(9, *status), pipeline(8, Status::SUCCESS)];
        Dom::update_project(&mut document, 3, "lib", "core", &pipelines);
        assert_eq!(document.get("pr3").unwrap().class, class);
    }
    assert_eq!(document.len(), 1);
}

#[test]
fn a_project_without_pipelines_is_hidden() {
    let mut document = Document::new();
    let patches = Dom::update_project(&mut document, 4, "empty", "team", &vec![]);
    assert_eq!(patches.len(), 2);
    assert_eq!(document.get("pr4").unwrap().class, "project hidden");
    Dom::update_project(&mut document, 4, "empty", "team", &vec![pipeline(1, Status::FAILED)]);
    assert_eq!(document.get("pr4").unwrap().class, "project bg-fail");
    let patches = Dom::update_project(&mut document, 4, "empty", "team", &vec![]);
    assert_eq!(
        patches,
        vec![Patch::SetClass { key: "pr4".to_string(), class: "project hidden".to_string() }]
    );
    assert_eq!(document.get("pr4").unwrap().class, "project hidden");
}

#[test]
fn the_heading_of_a_project_is_written_once() {
    let mut document = Document::new();
    Dom::update_project(&mut document, 1, "app", "team", &vec![]);
    Dom::update_project(&mut document, 1, "renamed", "moved", &vec![]);
    assert_eq!(document.get("pr1").unwrap().content, Content::Heading("team/app".to_string()));
}

#[test]
fn ensuring_a_project_leaves_its_class_alone() {
    let mut document = Document::new();
    let patches = Dom::ensure_project(&mut document, 1, "app", "team");
    assert_eq!(patches.len(), 1);
    assert_eq!(document.get("pr1").unwrap().class, "project hidden");
    Dom::update_project(&mut document, 1, "app", "team", &vec![pipeline(1, Status::RUNNING)]);
    let patches = Dom::ensure_project(&mut document, 1, "app", "team");
    assert!(patches.is_empty());
    assert_eq!(document.get("pr1").unwrap().class, "project bg-running");
}

#[test]
fn upserting_a_project_twice_is_upserting_it_once() {
    let mut once = Document::new();
    let mut twice = Document::new();
    let pipelines = vec![pipeline(5, Status::MANUAL)];
    Dom::update_project(&mut once, 1, "app", "team", &pipelines);
    Dom::update_project(&mut twice, 1, "app", "team", &pipelines);
    let patches = Dom::update_project(&mut twice, 1, "app", "team", &pipelines);
    assert_eq!(
        patches,
        vec![Patch::SetClass { key: "pr1".to_string(), class: "project bg-running".to_string() }]
    );
    assert_eq!(snapshot(&once), snapshot(&twice));
}

#[test]
fn upserting_a_pipeline_twice_is_upserting_it_once() {
    let mut once = Document::new();
    let mut twice = Document::new();
    Dom::update_project(&mut once, 1, "app", "team", &vec![]);
    Dom::update_project(&mut twice, 1, "app", "team", &vec![]);
    Dom::update_pipeline(&mut once, 1, &pipeline(100, Status::RUNNING)).unwrap();
    Dom::update_pipeline(&mut twice, 1, &pipeline(100, Status::RUNNING)).unwrap();
    let patches = Dom::update_pipeline(&mut twice, 1, &pipeline(100, Status::RUNNING)).unwrap();
    assert!(patches.is_empty());
    assert_eq!(snapshot(&once), snapshot(&twice));
    assert_eq!(twice.len(), 4);
}

#[test]
fn upserting_a_job_twice_is_upserting_it_once() {
    let mut once = Document::new();
    let mut twice = Document::new();
    for document in [&mut once, &mut twice] {
        Dom::update_project(document, 1, "app", "team", &vec![]);
        Dom::update_pipeline(document, 1, &pipeline(100, Status::RUNNING)).unwrap();
        Dom::update_job(document, 1, 100, &job("build", Status::SUCCESS, "https://ci/1")).unwrap();
    }
    let patches =
        Dom::update_job(&mut twice, 1, 100, &job("build", Status::SUCCESS, "https://ci/1")).unwrap();
    assert_eq!(patches.len(), 2);
    assert_eq!(snapshot(&once), snapshot(&twice));
}

#[test]
fn repeated_keys_make_one_node_each() {
    let mut document = Document::new();
    let ids = [3, 1, 3, 2, 1, 3, 3, 2, 1, 1];
    for (turn, id) in ids.iter().enumerate() {
        let status = ALL[turn % ALL.len()];
        Dom::update_project(&mut document, *id, "p", "g", &vec![pipeline(1, status)]);
    }
    assert_eq!(document.len(), 3);
    assert_eq!(document.keys(), vec!["pr3", "pr1", "pr2"]);

    for pipeline_id in [7, 7, 8, 7, 8, 8] {
        Dom::update_pipeline(&mut document, 1, &pipeline(pipeline_id, Status::PENDING)).unwrap();
    }
    assert_eq!(document.len(), 3 + 2 * 3);

    for name in ["a", "b", "a", "c", "b", "a"] {
        Dom::update_job(&mut document, 1, 7, &job(name, Status::RUNNING, "")).unwrap();
        Dom::update_job(&mut document, 1, 8, &job(name, Status::FAILED, "")).unwrap();
    }
    assert_eq!(document.len(), 3 + 2 * 3 + 2 * 3);
    let mut keys = document.keys();
    keys.sort();
    keys.dedup();
    assert_eq!(keys.len(), document.len());
}

#[test]
fn a_pipeline_without_its_project_is_refused() {
    let mut document = Document::new();
    Dom::update_project(&mut document, 2, "other", "team", &vec![]);
    let before = snapshot(&document);
    let result = Dom::update_pipeline(&mut document, 1, &pipeline(100, Status::RUNNING));
    assert_eq!(result, Err(Failure::PrecursorMissing));
    assert_eq!(snapshot(&document), before);
    assert!(!document.contains("pr1_pl100"));
    assert!(!document.contains("pr1_pl100:label"));
    assert!(!document.contains("pr1_pl100:time"));
}

#[test]
fn a_pipeline_is_created_with_its_two_regions() {
    let mut document = Document::new();
    Dom::update_project(&mut document, 1, "app", "team", &vec![]);
    let patches = Dom::update_pipeline(&mut document, 1, &pipeline(100, Status::SUCCESS)).unwrap();
    let container = node("pr1_pl100", "pr1", "pipeline bg-skipped", Content::Empty);
    let label = node("pr1_pl100:label", "pr1_pl100", "label", Content::Empty);
    let time = node("pr1_pl100:time", "pr1_pl100", "time", Content::Empty);
    assert_eq!(
        patches,
        vec![
            Patch::Create { node: container.clone() },
            Patch::Create { node: label.clone() },
            Patch::Create { node: time.clone() },
        ]
    );
    assert_eq!(document.keys(), vec!["pr1", "pr1_pl100", "pr1_pl100:label", "pr1_pl100:time"]);
    assert_eq!(document.get("pr1_pl100"), Some(container));
    assert_eq!(document.get("pr1_pl100:label"), Some(label));
    assert_eq!(document.get("pr1_pl100:time"), Some(time));
}

#[test]
fn a_detail_without_its_pipeline_is_refused() {
    let mut document = Document::new();
    Dom::update_project(&mut document, 1, "app", "team", &vec![]);
    let before = snapshot(&document);
    let result =
        Dom::update_pipeline_detail(&mut document, 1, &detail(100, Status::RUNNING, "main", 65));
    assert_eq!(result, Err(Failure::PrecursorMissing));
    assert_eq!(snapshot(&document), before);
}

#[test]
fn a_detail_styles_the_pipeline_and_fills_its_regions() {
    let mut document = Document::new();
    Dom::update_project(&mut document, 1, "app", "team", &vec![]);
    Dom::update_pipeline(&mut document, 1, &pipeline(100, Status::PENDING)).unwrap();
    let patches =
        Dom::update_pipeline_detail(&mut document, 1, &detail(100, Status::FAILED, "v1.2", 3661))
            .unwrap();
    assert_eq!(
        patches,
        vec![
            Patch::SetClass { key: "pr1_pl100".to_string(), class: "pipeline bg-fail".to_string() },
            Patch::SetContent {
                key: "pr1_pl100:label".to_string(),
                content: Content::Text("#100 / v1.2".to_string()),
            },
            Patch::SetContent {
                key: "pr1_pl100:time".to_string(),
                content: Content::Markup("<i class=\"fas fa-clock\"></i>01:01:01".to_string()),
            },
        ]
    );
    assert_eq!(document.get("pr1_pl100").unwrap().class, "pipeline bg-fail");
    assert_eq!(document.get("pr1_pl100").unwrap().content, Content::Empty);
    assert_eq!(document.get("pr1_pl100:label").unwrap().class, "label");
    assert_eq!(document.get("pr1").unwrap().class, "project hidden");
    assert_eq!(document.len(), 4);
}

#[test]
fn a_later_detail_overwrites_an_earlier_one() {
    let mut document = Document::new();
    Dom::update_project(&mut document, 1, "app", "team", &vec![]);
    Dom::update_pipeline(&mut document, 1, &pipeline(100, Status::PENDING)).unwrap();
    Dom::update_pipeline_detail(&mut document, 1, &detail(100, Status::RUNNING, "main", 10))
        .unwrap();
    Dom::update_pipeline_detail(&mut document, 1, &detail(100, Status::SUCCESS, "main", 75))
        .unwrap();
    assert_eq!(document.get("pr1_pl100").unwrap().class, "pipeline bg-success");
    assert_eq!(
        document.get("pr1_pl100:time").unwrap().content,
        Content::Markup("<i class=\"fas fa-clock\"></i>00:01:15".to_string())
    );
    assert_eq!(document.len(), 4);
}

#[test]
fn jobs_without_their_pipeline_are_refused() {
    let mut document = Document::new();
    Dom::update_project(&mut document, 1, "app", "team", &vec![]);
    let before = snapshot(&document);
    let jobs = vec![job("build", Status::SUCCESS, "")];
    assert_eq!(Dom::update_jobs(&mut document, 1, 100, &jobs), Err(Failure::PrecursorMissing));
    assert_eq!(Dom::update_jobs(&mut document, 1, 100, &vec![]), Err(Failure::PrecursorMissing));
    assert_eq!(
        Dom::update_job(&mut document, 1, 100, &jobs[0]),
        Err(Failure::PrecursorMissing)
    );
    assert_eq!(snapshot(&document), before);
}

#[test]
fn a_job_shows_its_icon_its_name_and_its_class() {
    let mut document = Document::new();
    Dom::update_project(&mut document, 1, "app", "team", &vec![]);
    Dom::update_pipeline(&mut document, 1, &pipeline(100, Status::RUNNING)).unwrap();
    let patches = Dom::update_job(
        &mut document,
        1,
        100,
        &job("build", Status::SUCCESS, "https://ci.example/jobs/7"),
    )
    .unwrap();
    let markup = "<i class=\"fas fa-check\"></i><a href=\"https://ci.example/jobs/7\" target=\"_blank\">build</a>";
    assert_eq!(
        patches,
        vec![
            Patch::Create { node: node("pr1_pl100_build", "pr1_pl100", "", Content::Empty) },
            Patch::SetContent {
                key: "pr1_pl100_build".to_string(),
                content: Content::Markup(markup.to_string()),
            },
            Patch::SetClass {
                key: "pr1_pl100_build".to_string(),
                class: "job job-success".to_string()
            },
        ]
    );
    assert_eq!(
        document.get("pr1_pl100_build"),
        Some(node(
            "pr1_pl100_build",
            "pr1_pl100",
            "job job-success",
            Content::Markup(markup.to_string())
        ))
    );
}

#[test]
fn a_job_without_a_link_shows_its_bare_name() {
    let mut document = Document::new();
    Dom::update_project(&mut document, 1, "app", "team", &vec![]);
    Dom::update_pipeline(&mut document, 1, &pipeline(100, Status::RUNNING)).unwrap();
    Dom::update_job(&mut document, 1, 100, &job("lint", Status::MANUAL, "")).unwrap();
    assert_eq!(
        document.get("pr1_pl100_lint").unwrap().content,
        Content::Markup("<i class=\"fas fa-play\"></i>lint".to_string())
    );
    assert_eq!(Dom::job_content(&job("lint", Status::MANUAL, "")), "<i class=\"fas fa-play\"></i>lint");
}

#[test]
fn jobs_are_upserted_in_the_order_given() {
    let mut document = Document::new();
    Dom::update_project(&mut document, 1, "app", "team", &vec![]);
    Dom::update_pipeline(&mut document, 1, &pipeline(100, Status::RUNNING)).unwrap();
    let statuses = ALL;
    let jobs: Vec<Job> =
        statuses.iter().enumerate().map(|(i, s)| job(&format!("j{}", i), *s, "")).collect();
    let patches = Dom::update_jobs(&mut document, 1, 100, &jobs).unwrap();
    assert_eq!(patches.len(), 3 * 8);
    let classes = [
        "job job-skipped",
        "job job-skipped",
        "job job-running",
        "job job-success",
        "job job-fail",
        "job job-skipped",
        "job job-skipped",
        "job job-manual",
    ];
    for (i, class) in classes.iter().enumerate() {
        let key = format!("pr1_pl100_j{}", i);
        assert_eq!(document.keys()[4 + i], key);
        assert_eq!(document.get(&key).unwrap().class, *class);
        assert_eq!(document.get(&key).unwrap().parent, "pr1_pl100");
    }
    let again = Dom::update_jobs(&mut document, 1, 100, &jobs).unwrap();
    assert_eq!(again.len(), 2 * 8);
    assert_eq!(document.len(), 4 + 8);
}

#[test]
fn the_last_of_two_jobs_of_one_name_wins() {
    let mut document = Document::new();
    Dom::update_project(&mut document, 1, "app", "team", &vec![]);
    Dom::update_pipeline(&mut document, 1, &pipeline(100, Status::RUNNING)).unwrap();
    let jobs = vec![job("build", Status::RUNNING, ""), job("build", Status::FAILED, "")];
    Dom::update_jobs(&mut document, 1, 100, &jobs).unwrap();
    assert_eq!(document.len(), 5);
    assert_eq!(document.get("pr1_pl100_build").unwrap().class, "job job-fail");
}

#[test]
fn a_job_named_like_a_region_has_a_node_of_its_own() {
    let mut document = Document::new();
    Dom::update_project(&mut document, 1, "app", "team", &vec![pipeline(100, Status::RUNNING)]);
    Dom::update_pipeline(&mut document, 1, &pipeline(100, Status::RUNNING)).unwrap();
    Dom::update_pipeline_detail(&mut document, 1, &detail(100, Status::RUNNING, "main", 65))
        .unwrap();
    let label = document.get("pr1_pl100:label").unwrap();
    let time = document.get("pr1_pl100:time").unwrap();
    let container = document.get("pr1_pl100").unwrap();

    let jobs = vec![job("label", Status::SUCCESS, "u"), job("time", Status::FAILED, "")];
    let patches = Dom::update_jobs(&mut document, 1, 100, &jobs).unwrap();
    assert_eq!(patches.len(), 6);
    assert_eq!(document.len(), 6);
    assert_eq!(document.keys()[4..], ["pr1_pl100_label", "pr1_pl100_time"]);
    assert_eq!(
        document.get("pr1_pl100_label"),
        Some(node(
            "pr1_pl100_label",
            "pr1_pl100",
            "job job-success",
            Content::Markup(
                "<i class=\"fas fa-check\"></i><a href=\"u\" target=\"_blank\">label</a>"
                    .to_string()
            )
        ))
    );
    assert_eq!(document.get("pr1_pl100_time").unwrap().class, "job job-fail");
    assert_eq!(document.get("pr1_pl100:label"), Some(label));
    assert_eq!(document.get("pr1_pl100:time"), Some(time));
    assert_eq!(document.get("pr1_pl100"), Some(container));
    assert_eq!(
        document.get("pr1_pl100:label").unwrap().content,
        Content::Text("#100 / main".to_string())
    );
    assert_eq!(document.get("pr1_pl100:label").unwrap().class, "label");
}

#[test]
fn calls_of_the_batch_make_one_job_node_for_each_name() {
    let mut document = Document::new();
    Dom::update_project(&mut document, 1, "app", "team", &vec![]);
    Dom::update_pipeline(&mut document, 1, &pipeline(100, Status::RUNNING)).unwrap();
    let calls: [&[&str]; 4] =
        [&["b", "a", "b"], &[], &["label", "a", "c", "time", "label"], &["c", "b", "d"]];
    for (turn, names) in calls.iter().enumerate() {
        let jobs: Vec<Job> =
            names.iter().map(|name| job(name, ALL[turn % ALL.len()], "")).collect();
        Dom::update_jobs(&mut document, 1, 100, &jobs).unwrap();
    }
    assert_eq!(
        document.keys()[4..],
        [
            "pr1_pl100_b",
            "pr1_pl100_a",
            "pr1_pl100_label",
            "pr1_pl100_c",
            "pr1_pl100_time",
            "pr1_pl100_d"
        ]
    );
    assert_eq!(document.get("pr1_pl100:label").unwrap().class, "label");
    assert_eq!(document.get("pr1_pl100:time").unwrap().class, "time");
    assert_eq!(document.get("pr1_pl100").unwrap().class, "pipeline bg-skipped");
    assert_eq!(document.get("pr1_pl100_a").unwrap().class, "job job-running");
    assert_eq!(document.get("pr1_pl100_d").unwrap().class, "job job-success");
}

#[test]
fn a_job_that_a_batch_does_not_name_keeps_what_it_shows() {
    let mut document = Document::new();
    Dom::update_project(&mut document, 1, "app", "team", &vec![]);
    Dom::update_pipeline(&mut document, 1, &pipeline(100, Status::RUNNING)).unwrap();
    Dom::update_jobs(
        &mut document,
        1,
        100,
        &vec![job("build", Status::SUCCESS, "x"), job("test", Status::RUNNING, "")],
    )
    .unwrap();
    let build = document.get("pr1_pl100_build").unwrap();
    Dom::update_jobs(&mut document, 1, 100, &vec![job("test", Status::FAILED, "")]).unwrap();
    assert_eq!(document.get("pr1_pl100_build"), Some(build));
    assert_eq!(document.get("pr1_pl100_test").unwrap().class, "job job-fail");
    assert_eq!(document.keys()[4..], ["pr1_pl100_build", "pr1_pl100_test"]);
}

#[test]
fn an_upsert_leaves_the_other_nodes_untouched() {
    let mut document = Document::new();
    Dom::update_project(&mut document, 1, "app", "team", &vec![pipeline(1, Status::SUCCESS)]);
    Dom::update_project(&mut document, 11, "web", "team", &vec![pipeline(2, Status::FAILED)]);
    Dom::update_pipeline(&mut document, 1, &pipeline(1, Status::SUCCESS)).unwrap();
    Dom::update_pipeline(&mut document, 11, &pipeline(2, Status::FAILED)).unwrap();
    Dom::update_job(&mut document, 1, 1, &job("build", Status::SUCCESS, "")).unwrap();
    let before = snapshot(&document);

    Dom::update_project(&mut document, 11, "web", "team", &vec![pipeline(3, Status::RUNNING)]);
    Dom::update_pipeline_detail(&mut document, 11, &detail(2, Status::CANCELED, "dev", 9)).unwrap();
    Dom::update_job(&mut document, 11, 2, &job("build", Status::RUNNING, "")).unwrap();
    let after = snapshot(&document);

    for old in &before {
        let new = after.iter().find(|n| n.key == old.key).unwrap();
        if old.key == "pr1" || old.key.starts_with("pr1_") {
            assert_eq!(new, old);
        }
    }
    assert_eq!(document.get("pr11").unwrap().class, "project bg-running");
    assert_eq!(document.get("pr11_pl2").unwrap().class, "pipeline bg-skipped");
    assert_eq!(document.get("pr11_pl2_build").unwrap().class, "job job-running");
    assert_eq!(document.len(), before.len() + 1);
}

#[test]
fn the_running_project_scenario_ends_as_described() {
    let mut document = Document::new();
    let summaries = vec![pipeline(100, Status::RUNNING)];
    Dom::update_project(&mut document, 1, "app", "team", &summaries);
    Dom::update_pipeline(&mut document, 1, &summaries[0]).unwrap();
    Dom::update_pipeline_detail(&mut document, 1, &detail(100, Status::RUNNING, "main", 65))
        .unwrap();

    let project = document.get("pr1").unwrap();
    assert_eq!(project.class, "project bg-running");
    assert_eq!(project.parent, "Content");
    assert_eq!(project.content, Content::Heading("team/app".to_string()));
    let container = document.get("pr1_pl100").unwrap();
    assert_eq!(container.class, "pipeline bg-running");
    assert_eq!(container.parent, "pr1");
    assert_eq!(
        document.get("pr1_pl100:label").unwrap().content,
        Content::Text("#100 / main".to_string())
    );
    match document.get("pr1_pl100:time").unwrap().content {
        Content::Markup(markup) => {
            assert_eq!(markup, "<i class=\"fas fa-clock\"></i>00:01:05");
            assert!(markup.ends_with("00:01:05"));
        }
        other => panic!("the time region holds {:?}", other),
    }
}
