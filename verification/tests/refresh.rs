use ci_dashboard::document::{Content, Document, Patch};
use ci_dashboard::dom::{Job, Pipeline, PipelineDetail, Project};
use ci_dashboard::failure::Failure;
use ci_dashboard::refresh::{
    on_jobs, on_pipeline_detail, on_pipelines, on_projects, on_tick, update_gitlab, Event, Fetch,
    State, Step, MAX_PIPELINES, REFRESH_INTERVAL,
};
use ci_dashboard::status::Status;

fn project(id: i32, name: &str, group: &str) -> Project {
    Project { id, name: name.to_string(), group: group.to_string() }
}

fn summaries(count: i32) -> Vec<Pipeline> {
    (0..count).map(|i| Pipeline { id: 1000 - i, status: Status::SUCCESS }).collect()
}

fn detail(id: i32, status: Status, git_ref: &str, duration: i32) -> PipelineDetail {
    PipelineDetail { id, status, git_ref: git_ref.to_string(), duration }
}

fn job(name: &str, status: Status) -> Job {
    Job { name: name.to_string(), status, link: String::new() }
}

#[test]
fn the_constants_are_as_documented() {
    assert_eq!(MAX_PIPELINES, 5);
    assert_eq!(REFRESH_INTERVAL, 60000);
}

#[test]
fn a_tick_fetches_the_projects() {
    let mut state = State::new();
    let mut document = Document::new();
    assert_eq!(on_tick(), Step { patches: vec![], fetches: vec![Fetch::Projects] });
    let step = update_gitlab(&mut state, &mut document, Event::Tick);
    assert_eq!(step, Step { patches: vec![], fetches: vec![Fetch::Projects] });
    assert_eq!(document.len(), 0);
    assert!(state.projects().is_empty());
}

#[test]
fn the_projects_get_their_nodes_and_their_branches() {
    let mut state = State::new();
    let mut document = Document::new();
    let projects = vec![project(1, "app", "team"), project(2, "lib", "core"), project(1, "app", "team")];
    let step = update_gitlab(
        &mut state,
        &mut document,
        Event::Projects { projects: projects.clone() },
    );
    assert_eq!(step.patches.len(), 2);
    assert_eq!(
        step.fetches,
        vec![
            Fetch::Pipelines { project: project(1, "app", "team") },
            Fetch::Pipelines { project: project(2, "lib", "core") },
            Fetch::Pipelines { project: project(1, "app", "team") },
        ]
    );
    assert_eq!(document.keys(), vec!["pr1", "pr2"]);
    assert_eq!(document.get("pr2").unwrap().class, "project hidden");
    assert_eq!(document.get("pr2").unwrap().content, Content::Heading("core/lib".to_string()));
    assert_eq!(state.projects(), &projects);
}

#[test]
fn a_new_list_of_projects_leaves_the_classes_alone() {
    let mut state = State::new();
    let mut document = Document::new();
    on_projects(&mut state, &mut document, vec![project(1, "app", "team")]);
    on_pipelines(&mut document, &project(1, "app", "team"), &summaries(1));
    let step = on_projects(&mut state, &mut document, vec![project(1, "app", "team")]);
    assert!(step.patches.is_empty());
    assert_eq!(step.fetches.len(), 1);
    assert_eq!(document.get("pr1").unwrap().class, "project bg-success");
}

#[test]
fn twelve_pipelines_are_followed_into_the_first_five() {
    let mut document = Document::new();
    let pipelines = summaries(12);
    let step = on_pipelines(&mut document, &project(7, "app", "team"), &pipelines);
    assert_eq!(
        step.fetches,
        vec![
            Fetch::PipelineDetail { project_id: 7, pipeline_id: 1000 },
            Fetch::PipelineDetail { project_id: 7, pipeline_id: 999 },
            Fetch::PipelineDetail { project_id: 7, pipeline_id: 998 },
            Fetch::PipelineDetail { project_id: 7, pipeline_id: 997 },
            Fetch::PipelineDetail { project_id: 7, pipeline_id: 996 },
        ]
    );
    for skipped in &pipelines[5..] {
        assert!(!step
            .fetches
            .contains(&Fetch::PipelineDetail { project_id: 7, pipeline_id: skipped.id }));
    }
    assert_eq!(document.keys(), vec!["pr7"]);
}

#[test]
fn fewer_pipelines_than_the_cap_are_all_followed() {
    for count in 0..=6 {
        let mut document = Document::new();
        let step = on_pipelines(&mut document, &project(7, "app", "team"), &summaries(count));
        assert_eq!(step.fetches.len(), std::cmp::min(count, 5) as usize);
    }
}

#[test]
fn the_project_shows_the_state_of_the_newest_pipeline() {
    let mut state = State::new();
    let mut document = Document::new();
    let pipelines = vec![
        Pipeline { id: 9, status: Status::RUNNING },
        Pipeline { id: 8, status: Status::FAILED },
    ];
    let step = update_gitlab(
        &mut state,
        &mut document,
        Event::Pipelines { project: project(1, "app", "team"), pipelines },
    );
    assert_eq!(step.patches.len(), 2);
    assert_eq!(document.get("pr1").unwrap().class, "project bg-running");
}

#[test]
fn a_project_without_pipelines_ends_its_branch() {
    let mut document = Document::new();
    on_pipelines(&mut document, &project(1, "app", "team"), &summaries(2));
    let step = on_pipelines(&mut document, &project(1, "app", "team"), &vec![]);
    assert!(step.fetches.is_empty());
    assert_eq!(document.get("pr1").unwrap().class, "project hidden");
}

#[test]
fn a_detail_makes_the_pipeline_and_asks_for_its_jobs() {
    let mut state = State::new();
    let mut document = Document::new();
    on_pipelines(&mut document, &project(1, "app", "team"), &summaries(1));
    let step = update_gitlab(
        &mut state,
        &mut document,
        Event::PipelineDetail { project_id: 1, detail: detail(1000, Status::RUNNING, "main", 65) },
    );
    assert_eq!(step.patches.len(), 3 + 3);
    assert_eq!(step.fetches, vec![Fetch::Jobs { project_id: 1, pipeline_id: 1000 }]);
    assert_eq!(document.get("pr1_pl1000").unwrap().class, "pipeline bg-running");
    assert_eq!(
        document.get("pr1_pl1000:label").unwrap().content,
        Content::Text("#1000 / main".to_string())
    );

    let again =
        on_pipeline_detail(&mut document, 1, &detail(1000, Status::SUCCESS, "main", 70));
    assert_eq!(again.patches.len(), 3);
    assert_eq!(again.fetches, vec![Fetch::Jobs { project_id: 1, pipeline_id: 1000 }]);
    assert_eq!(document.len(), 4);
}

#[test]
fn a_detail_of_an_unknown_project_ends_its_branch() {
    let mut document = Document::new();
    let step = on_pipeline_detail(&mut document, 1, &detail(1000, Status::RUNNING, "main", 65));
    assert_eq!(step, Step { patches: vec![], fetches: vec![] });
    assert_eq!(document.len(), 0);
}

#[test]
fn a_detail_with_a_negative_duration_ends_its_branch() {
    let mut document = Document::new();
    on_pipelines(&mut document, &project(1, "app", "team"), &summaries(1));
    let step = on_pipeline_detail(&mut document, 1, &detail(1000, Status::RUNNING, "main", -1));
    assert_eq!(step, Step { patches: vec![], fetches: vec![] });
    assert_eq!(document.keys(), vec!["pr1"]);
}

#[test]
fn jobs_are_shown_and_end_the_branch() {
    let mut state = State::new();
    let mut document = Document::new();
    on_pipelines(&mut document, &project(1, "app", "team"), &summaries(1));
    on_pipeline_detail(&mut document, 1, &detail(1000, Status::RUNNING, "main", 65));
    let step = update_gitlab(
        &mut state,
        &mut document,
        Event::Jobs {
            project_id: 1,
            pipeline_id: 1000,
            jobs: vec![job("build", Status::SUCCESS), job("test", Status::RUNNING)],
        },
    );
    assert_eq!(step.patches.len(), 6);
    assert!(step.fetches.is_empty());
    assert_eq!(document.keys()[4..], ["pr1_pl1000_build", "pr1_pl1000_test"]);
    assert_eq!(document.get("pr1_pl1000_test").unwrap().class, "job job-running");
}

#[test]
fn jobs_of_an_unknown_pipeline_are_dropped() {
    let mut document = Document::new();
    on_pipelines(&mut document, &project(1, "app", "team"), &summaries(1));
    let step = on_jobs(&mut document, 1, 1000, &vec![job("build", Status::SUCCESS)]);
    assert_eq!(step, Step { patches: vec![], fetches: vec![] });
    assert_eq!(document.keys(), vec!["pr1"]);
}

#[test]
fn a_failed_fetch_changes_nothing() {
    let mut state = State::new();
    let mut document = Document::new();
    on_projects(&mut state, &mut document, vec![project(1, "app", "team")]);
    for failure in [Failure::Transport, Failure::Decode, Failure::PrecursorMissing] {
        let step = update_gitlab(&mut state, &mut document, Event::Failed { failure });
        assert_eq!(step, Step::none());
        assert_eq!(document.keys(), vec!["pr1"]);
        assert_eq!(state.projects().len(), 1);
    }
}

#[test]
fn a_stale_outcome_that_lands_late_overwrites_a_newer_one() {
    let mut document = Document::new();
    on_pipelines(&mut document, &project(1, "app", "team"), &summaries(1));
    on_pipeline_detail(&mut document, 1, &detail(1000, Status::SUCCESS, "main", 90));
    on_pipeline_detail(&mut document, 1, &detail(1000, Status::RUNNING, "main", 30));
    assert_eq!(document.get("pr1_pl1000").unwrap().class, "pipeline bg-running");
    assert_eq!(
        document.get("pr1_pl1000:time").unwrap().content,
        Content::Markup("<i class=\"fas fa-clock\"></i>00:00:30".to_string())
    );
}

#[test]
fn branches_may_land_in_any_order() {
    let mut state = State::new();
    let mut document = Document::new();
    let projects = vec![project(1, "app", "team"), project(2, "lib", "core")];
    on_projects(&mut state, &mut document, projects.clone());
    on_pipelines(&mut document, &projects[1], &summaries(2));
    on_pipeline_detail(&mut document, 2, &detail(999, Status::FAILED, "dev", 5));
    on_pipelines(&mut document, &projects[0], &summaries(1));
    on_jobs(&mut document, 2, 999, &vec![job("build", Status::FAILED)]);
    on_pipeline_detail(&mut document, 2, &detail(1000, Status::SUCCESS, "main", 7));
    on_pipeline_detail(&mut document, 1, &detail(1000, Status::MANUAL, "main", 0));
    assert_eq!(
        document.keys(),
        vec![
            "pr1",
            "pr2",
            "pr2_pl999",
            "pr2_pl999:label",
            "pr2_pl999:time",
            "pr2_pl999_build",
            "pr2_pl1000",
            "pr2_pl1000:label",
            "pr2_pl1000:time",
            "pr1_pl1000",
            "pr1_pl1000:label",
            "pr1_pl1000:time",
        ]
    );
    assert_eq!(document.get("pr1_pl1000").unwrap().class, "pipeline bg-manual");
    assert_eq!(document.get("pr2_pl999").unwrap().class, "pipeline bg-fail");
}

#[test]
fn the_patches_of_a_step_rebuild_the_tree() {
    let mut state = State::new();
    let mut document = Document::new();
    let mut patches: Vec<Patch> = Vec::new();
    let projects = vec![project(1, "app", "team")];
    patches.extend(on_projects(&mut state, &mut document, projects.clone()).patches);
    patches.extend(on_pipelines(&mut document, &projects[0], &summaries(1)).patches);
    patches.extend(
        on_pipeline_detail(&mut document, 1, &detail(1000, Status::RUNNING, "main", 65)).patches,
    );
    patches.extend(on_jobs(&mut document, 1, 1000, &vec![job("build", Status::SUCCESS)]).patches);

    let mut screen: Vec<(String, String, String, Content)> = Vec::new();
    for patch in patches {
        match patch {
            Patch::Create { node } => {
                assert!(screen.iter().all(|n| n.0 != node.key));
                assert!(node.parent == "Content" || screen.iter().any(|n| n.0 == node.parent));
                screen.push((node.key, node.parent, node.class, node.content));
            }
            Patch::SetClass { key, class } => {
                screen.iter_mut().find(|n| n.0 == key).unwrap().2 = class;
            }
            Patch::SetContent { key, content } => {
                screen.iter_mut().find(|n| n.0 == key).unwrap().3 = content;
            }
        }
    }
    assert_eq!(screen.len(), document.len());
    for (key, parent, class, content) in screen {
        let node = document.get(&key).unwrap();
        assert_eq!((node.parent, node.class, node.content), (parent, class, content));
    }
}

#[test]
fn a_project_that_is_no_longer_listed_keeps_its_nodes() {
    let mut state = State::new();
    let mut document = Document::new();
    on_projects(&mut state, &mut document, vec![project(1, "app", "team"), project(2, "lib", "core")]);
    on_pipelines(&mut document, &project(2, "lib", "core"), &summaries(1));
    on_pipeline_detail(&mut document, 2, &detail(1000, Status::SUCCESS, "main", 12));
    let before = document.keys();

    let step = on_projects(&mut state, &mut document, vec![project(1, "app", "team")]);
    assert!(step.patches.is_empty());
    assert_eq!(step.fetches, vec![Fetch::Pipelines { project: project(1, "app", "team") }]);
    assert_eq!(document.keys(), before);
    assert_eq!(document.get("pr2").unwrap().class, "project bg-success");
    assert_eq!(state.projects(), &vec![project(1, "app", "team")]);
}
