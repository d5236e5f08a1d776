//! The refresh cycle as a state machine: what to do, and what to fetch next,
//! when a tick or the outcome of a fetch comes in.
//!
//! A cycle starts with a tick and fans out: the list of projects, then for
//! each project its pipelines, then for each of the most recent pipelines its
//! detail and after that its jobs. Every branch goes its own way: outcomes
//! may come in any order, cycles may overlap, and a failure ends the branch it
//! happened in and nothing else.

use crate::document::{patch_views, Document, Patch};
use crate::dom::{
    job_views, Dom, Job, Pipeline, PipelineDetail, PipelineDetailView, Project, ProjectView,
};
use crate::failure::Failure;
use crate::keys::{pipeline_key, project_key};
use crate::tree::{
    lemma_nothing_lost, lemma_nothing_lost_on, nothing_lost, present, well_formed, NodeView,
    PatchView,
};
use crate::upsert::{
    detail_patches, ensure_project, ensure_project_patches, jobs_patches, latest_status,
    lemma_jobs_without_pipeline, pipeline_patches, project_patches, upsert_jobs, upsert_pipeline,
    upsert_pipeline_detail, upsert_project,
};
use vstd::prelude::*;

verus! {

/// How many of a project's pipelines, counted from the most recent, are
/// followed into their detail and their jobs.
pub const MAX_PIPELINES: usize = 5;

/// The time between two ticks, in milliseconds.
pub const REFRESH_INTERVAL: i32 = 60000;

/// What is to be fetched from the server.
#[derive(Debug, PartialEq, Eq)]
pub enum Fetch {
    /// The list of projects.
    Projects,
    /// The pipelines of a project, newest first.
    Pipelines { project: Project },
    /// A pipeline in full.
    PipelineDetail { project_id: i32, pipeline_id: i32 },
    /// The jobs of a pipeline.
    Jobs { project_id: i32, pipeline_id: i32 },
}

/// A fetch as a mathematical value.
pub enum FetchView {
    Projects,
    Pipelines { project: ProjectView },
    PipelineDetail { project_id: int, pipeline_id: int },
    Jobs { project_id: int, pipeline_id: int },
}

impl View for Fetch {
    type V = FetchView;

    open spec fn view(&self) -> FetchView {
        match self {
            Fetch::Projects => FetchView::Projects,
            Fetch::Pipelines { project } => FetchView::Pipelines { project: project@ },
            Fetch::PipelineDetail { project_id, pipeline_id } => FetchView::PipelineDetail {
                project_id: *project_id as int,
                pipeline_id: *pipeline_id as int,
            },
            Fetch::Jobs { project_id, pipeline_id } => FetchView::Jobs {
                project_id: *project_id as int,
                pipeline_id: *pipeline_id as int,
            },
        }
    }
}

/// What the refresh is told of: a tick of the timer, or how a fetch ended.
#[derive(Debug, PartialEq, Eq)]
pub enum Event {
    /// The timer has fired: a new cycle starts.
    Tick,
    /// The list of projects has come.
    Projects { projects: Vec<Project> },
    /// The pipelines of `project` have come, newest first.
    Pipelines { project: Project, pipelines: Vec<Pipeline> },
    /// A pipeline of project `project_id` has come in full.
    PipelineDetail { project_id: i32, detail: PipelineDetail },
    /// The jobs of a pipeline have come.
    Jobs { project_id: i32, pipeline_id: i32, jobs: Vec<Job> },
    /// A fetch has failed.
    Failed { failure: Failure },
}

/// What follows from an event: the patches to carry out on the screen, in
/// their order, and the fetches to start, each a branch of its own.
#[derive(Debug, PartialEq, Eq)]
pub struct Step {
    pub patches: Vec<Patch>,
    pub fetches: Vec<Fetch>,
}

/// The views of a run of fetches.
pub open spec fn fetch_views(fetches: Seq<Fetch>) -> Seq<FetchView> {
    fetches.map_values(|fetch: Fetch| fetch@)
}

/// The views of a run of projects.
pub open spec fn project_views(projects: Seq<Project>) -> Seq<ProjectView> {
    projects.map_values(|project: Project| project@)
}

/// The list of projects of the cycle that last got one.
pub struct State {
    projects: Vec<Project>,
}

impl View for State {
    type V = Seq<ProjectView>;

    closed spec fn view(&self) -> Seq<ProjectView> {
        project_views(self.projects@)
    }
}

impl State {
    pub fn new() -> (state: State)
        ensures
            state@ == Seq::<ProjectView>::empty(),
    {
        let state = State { projects: Vec::new() };
        assert(state@ =~= Seq::<ProjectView>::empty());
        state
    }

    pub fn set_projects(&mut self, projects: Vec<Project>)
        ensures
            final(self)@ == project_views(projects@),
    {
        self.projects = projects;
    }

    /// The projects that were last set.
    pub fn projects(&self) -> (projects: &Vec<Project>)
        ensures
            project_views(projects@) == self@,
    {
        &self.projects
    }
}

/// The tree in which each of the projects has a node.
pub open spec fn ensure_projects(tree: Seq<NodeView>, projects: Seq<ProjectView>) -> Seq<NodeView>
    decreases projects.len(),
{
    if projects.len() == 0 {
        tree
    } else {
        ensure_project(
            ensure_projects(tree, projects.drop_last()),
            projects.last().id,
            projects.last().name,
            projects.last().group,
        )
    }
}

/// The patches that give each of the projects a node, if it has none.
pub open spec fn ensure_projects_patches(
    tree: Seq<NodeView>,
    projects: Seq<ProjectView>,
) -> Seq<PatchView>
    decreases projects.len(),
{
    if projects.len() == 0 {
        Seq::empty()
    } else {
        ensure_projects_patches(tree, projects.drop_last()) + ensure_project_patches(
            ensure_projects(tree, projects.drop_last()),
            projects.last().id,
            projects.last().name,
            projects.last().group,
        )
    }
}

/// One fetch of pipelines for each project, in the order of the projects.
pub open spec fn pipelines_fetches(projects: Seq<ProjectView>) -> Seq<FetchView> {
    projects.map_values(|project: ProjectView| FetchView::Pipelines { project: project })
}

/// How many of `count` pipelines are followed.
pub open spec fn followed(count: nat) -> nat {
    if count < MAX_PIPELINES {
        count
    } else {
        MAX_PIPELINES as nat
    }
}

/// One fetch of the detail for each of the pipelines that are followed: the
/// first few of the list, in the order of the list.
pub open spec fn detail_fetches(project_id: int, pipelines: Seq<Pipeline>) -> Seq<FetchView> {
    Seq::new(
        followed(pipelines.len()),
        |i: int|
            FetchView::PipelineDetail { project_id: project_id, pipeline_id: pipelines[i].id as int },
    )
}

/// What lies beyond the first few pipelines of a list has no say in what is
/// fetched: the details of the first few are, and no more.
pub proof fn lemma_bounded_fan_out(project_id: int, pipelines: Seq<Pipeline>)
    ensures
        detail_fetches(project_id, pipelines).len() <= MAX_PIPELINES,
        detail_fetches(project_id, pipelines).len() <= pipelines.len(),
        pipelines.len() >= MAX_PIPELINES ==> detail_fetches(project_id, pipelines)
            == detail_fetches(project_id, pipelines.take(MAX_PIPELINES as int)),
{
    if pipelines.len() >= MAX_PIPELINES {
        assert(detail_fetches(project_id, pipelines) =~= detail_fetches(
            project_id,
            pipelines.take(MAX_PIPELINES as int),
        ));
    }
}

/// Whether the detail of a pipeline is taken in: it is, where its duration is
/// in the domain and its project has a node.
pub open spec fn detail_taken(tree: Seq<NodeView>, project_id: int, detail: PipelineDetailView) -> bool {
    detail.duration >= 0 && present(tree, project_key(project_id))
}

/// The tree after the detail of a pipeline has come: where it is taken in,
/// the pipeline has a node and the node shows the detail.
pub open spec fn detail_tree(
    tree: Seq<NodeView>,
    project_id: int,
    detail: PipelineDetailView,
) -> Seq<NodeView> {
    if detail_taken(tree, project_id, detail) {
        upsert_pipeline_detail(upsert_pipeline(tree, project_id, detail.id), project_id, detail)
    } else {
        tree
    }
}

impl Step {
    /// The step in which nothing is done.
    pub fn none() -> (step: Step)
        ensures
            patch_views(step.patches@) == Seq::<PatchView>::empty(),
            fetch_views(step.fetches@) == Seq::<FetchView>::empty(),
    {
        let step = Step { patches: Vec::new(), fetches: Vec::new() };
        assert(patch_views(step.patches@) =~= Seq::<PatchView>::empty());
        assert(fetch_views(step.fetches@) =~= Seq::<FetchView>::empty());
        step
    }
}

/// A tick starts a cycle: the list of projects is fetched.
pub fn on_tick() -> (step: Step)
    ensures
        patch_views(step.patches@) == Seq::<PatchView>::empty(),
        fetch_views(step.fetches@) == seq![FetchView::Projects],
{
    let mut step = Step::none();
    step.fetches.push(Fetch::Projects);
    assert(fetch_views(step.fetches@) =~= seq![FetchView::Projects]);
    step
}

/// The list of projects has come: it is kept, each project gets a node if it
/// has none, and the pipelines of each project are fetched.
pub fn on_projects(state: &mut State, document: &mut Document, projects: Vec<Project>) -> (step:
    Step)
    ensures
        final(state)@ == project_views(projects@),
        final(document)@ == ensure_projects(old(document)@, project_views(projects@)),
        patch_views(step.patches@) == ensure_projects_patches(
            old(document)@,
            project_views(projects@),
        ),
        fetch_views(step.fetches@) == pipelines_fetches(project_views(projects@)),
        well_formed(final(document)@),
        nothing_lost(old(document)@, final(document)@),
{
    proof {
        use_type_invariant(&*document);
    }
    let mut patches: Vec<Patch> = Vec::new();
    let mut fetches: Vec<Fetch> = Vec::new();
    let ghost before = document@;
    proof {
        lemma_nothing_lost(before, before);
    }
    let ghost all = project_views(projects@);
    assert(patch_views(patches@) =~= Seq::<PatchView>::empty());
    assert(fetch_views(fetches@) =~= pipelines_fetches(all.take(0)));
    let mut i: usize = 0;
    while i < projects.len()
        invariant
            i <= projects.len(),
            all == project_views(projects@),
            document@ == ensure_projects(before, all.take(i as int)),
            patch_views(patches@) == ensure_projects_patches(before, all.take(i as int)),
            fetch_views(fetches@) == pipelines_fetches(all.take(i as int)),
            well_formed(document@),
            nothing_lost(before, document@),
        decreases projects.len() - i,
    {
        proof {
            assert(all.take(i + 1).drop_last() =~= all.take(i as int));
            assert(all.take(i + 1).last() == projects[i as int]@);
        }
        let project = &projects[i];
        let ghost earlier = patch_views(patches@);
        let ghost reached = document@;
        let mut more = Dom::ensure_project(
            document,
            project.id,
            project.name.as_str(),
            project.group.as_str(),
        );
        proof {
            lemma_nothing_lost_on(before, reached, document@);
        }
        let ghost added = patch_views(more@);
        patches.append(&mut more);
        assert(patch_views(patches@) =~= earlier + added);
        let ghost asked = fetch_views(fetches@);
        fetches.push(Fetch::Pipelines { project: project.clone() });
        assert(fetch_views(fetches@) =~= asked.push(
            FetchView::Pipelines { project: projects[i as int]@ },
        ));
        assert(pipelines_fetches(all.take(i + 1)) =~= pipelines_fetches(all.take(i as int)).push(
            FetchView::Pipelines { project: all[i as int] },
        ));
        i += 1;
    }
    assert(all.take(i as int) =~= all);
    state.set_projects(projects);
    Step { patches, fetches }
}

/// The pipelines of a project have come, newest first: the project is
/// upserted with the state of the first of them, and the detail of each of the
/// first few is fetched. A project without pipelines is shown as hidden, and
/// its branch ends.
pub fn on_pipelines(document: &mut Document, project: &Project, pipelines: &Vec<Pipeline>) -> (step:
    Step)
    ensures
        final(document)@ == upsert_project(
            old(document)@,
            project.id as int,
            project.name@,
            project.group@,
            latest_status(pipelines@),
        ),
        patch_views(step.patches@) == project_patches(
            old(document)@,
            project.id as int,
            project.name@,
            project.group@,
            latest_status(pipelines@),
        ),
        fetch_views(step.fetches@) == detail_fetches(project.id as int, pipelines@),
        well_formed(final(document)@),
        nothing_lost(old(document)@, final(document)@),
{
    let patches = Dom::update_project(
        document,
        project.id,
        project.name.as_str(),
        project.group.as_str(),
        pipelines,
    );
    let mut fetches: Vec<Fetch> = Vec::new();
    let mut i: usize = 0;
    while i < pipelines.len() && i < MAX_PIPELINES
        invariant
            i <= pipelines.len(),
            i <= MAX_PIPELINES,
            fetches@.len() == i,
            forall|j: int|
                0 <= j < i ==> (#[trigger] fetches@[j])@ == (FetchView::PipelineDetail {
                    project_id: project.id as int,
                    pipeline_id: pipelines@[j].id as int,
                }),
        decreases pipelines.len() - i,
    {
        fetches.push(Fetch::PipelineDetail { project_id: project.id, pipeline_id: pipelines[i].id });
        i += 1;
    }
    assert(fetch_views(fetches@) =~= detail_fetches(project.id as int, pipelines@));
    Step { patches, fetches }
}

/// A pipeline has come in full: it gets a node if it has none, the node
/// shows the detail, and the pipeline's jobs are fetched. Where the project
/// has no node, or the duration is negative, nothing is done and the branch
/// ends.
pub fn on_pipeline_detail(document: &mut Document, project_id: i32, detail: &PipelineDetail) -> (step:
    Step)
    ensures
        final(document)@ == detail_tree(old(document)@, project_id as int, detail@),
        patch_views(step.patches@) == if detail_taken(old(document)@, project_id as int, detail@) {
            pipeline_patches(old(document)@, project_id as int, detail.id as int) + detail_patches(
                project_id as int,
                detail@,
            )
        } else {
            Seq::empty()
        },
        fetch_views(step.fetches@) == if detail_taken(old(document)@, project_id as int, detail@) {
            seq![
                FetchView::Jobs { project_id: project_id as int, pipeline_id: detail.id as int },
            ]
        } else {
            Seq::empty()
        },
        well_formed(final(document)@),
        nothing_lost(old(document)@, final(document)@),
{
    proof {
        use_type_invariant(&*document);
    }
    proof {
        lemma_nothing_lost(old(document)@, old(document)@);
    }
    if detail.duration < 0 {
        return Step::none();
    }
    let pipeline = Pipeline { id: detail.id, status: detail.status };
    match Dom::update_pipeline(document, project_id, &pipeline) {
        Ok(mut patches) => {
            let ghost created = patch_views(patches@);
            let ghost made = document@;
            match Dom::update_pipeline_detail(document, project_id, detail) {
                Ok(mut more) => {
                    proof {
                        lemma_nothing_lost_on(old(document)@, made, document@);
                    }
                    let ghost written = patch_views(more@);
                    patches.append(&mut more);
                    assert(patch_views(patches@) =~= created + written);
                    let mut fetches: Vec<Fetch> = Vec::new();
                    fetches.push(Fetch::Jobs { project_id: project_id, pipeline_id: detail.id });
                    assert(fetch_views(fetches@) =~= seq![
                        FetchView::Jobs {
                            project_id: project_id as int,
                            pipeline_id: detail.id as int,
                        },
                    ]);
                    Step { patches, fetches }
                },
                Err(_) => vstd::pervasive::unreached(),
            }
        },
        Err(_) => Step::none(),
    }
}

/// The jobs of a pipeline have come: each is upserted, in the order of the
/// list, and the branch ends. Where the pipeline has no node, nothing is
/// done.
pub fn on_jobs(document: &mut Document, project_id: i32, pipeline_id: i32, jobs: &Vec<Job>) -> (step:
    Step)
    ensures
        final(document)@ == upsert_jobs(
            old(document)@,
            project_id as int,
            pipeline_id as int,
            job_views(jobs@),
        ),
        patch_views(step.patches@) == if present(
            old(document)@,
            pipeline_key(project_id as int, pipeline_id as int),
        ) {
            jobs_patches(old(document)@, project_id as int, pipeline_id as int, job_views(jobs@))
        } else {
            Seq::empty()
        },
        fetch_views(step.fetches@) == Seq::<FetchView>::empty(),
        well_formed(final(document)@),
        nothing_lost(old(document)@, final(document)@),
{
    proof {
        if !present(old(document)@, pipeline_key(project_id as int, pipeline_id as int)) {
            lemma_jobs_without_pipeline(
                old(document)@,
                project_id as int,
                pipeline_id as int,
                job_views(jobs@),
            );
        }
    }
    match Dom::update_jobs(document, project_id, pipeline_id, jobs) {
        Ok(patches) => {
            let mut step = Step::none();
            step.patches = patches;
            step
        },
        Err(_) => Step::none(),
    }
}

/// Takes in one event: changes the tree and the kept list of projects as the
/// event asks, and says what to carry out on the screen and what to fetch
/// next. A failed fetch changes nothing and starts nothing.
pub fn update_gitlab(state: &mut State, document: &mut Document, event: Event) -> (step: Step)
    ensures
        match event {
            Event::Tick => {
                &&& final(state)@ == old(state)@
                &&& final(document)@ == old(document)@
                &&& patch_views(step.patches@) == Seq::<PatchView>::empty()
                &&& fetch_views(step.fetches@) == seq![FetchView::Projects]
            },
            Event::Projects { projects } => {
                &&& final(state)@ == project_views(projects@)
                &&& final(document)@ == ensure_projects(old(document)@, project_views(projects@))
                &&& patch_views(step.patches@) == ensure_projects_patches(
                    old(document)@,
                    project_views(projects@),
                )
                &&& fetch_views(step.fetches@) == pipelines_fetches(project_views(projects@))
            },
            Event::Pipelines { project, pipelines } => {
                &&& final(state)@ == old(state)@
                &&& final(document)@ == upsert_project(
                    old(document)@,
                    project.id as int,
                    project.name@,
                    project.group@,
                    latest_status(pipelines@),
                )
                &&& patch_views(step.patches@) == project_patches(
                    old(document)@,
                    project.id as int,
                    project.name@,
                    project.group@,
                    latest_status(pipelines@),
                )
                &&& fetch_views(step.fetches@) == detail_fetches(project.id as int, pipelines@)
            },
            Event::PipelineDetail { project_id, detail } => {
                &&& final(state)@ == old(state)@
                &&& final(document)@ == detail_tree(old(document)@, project_id as int, detail@)
                &&& patch_views(step.patches@) == if detail_taken(
                    old(document)@,
                    project_id as int,
                    detail@,
                ) {
                    pipeline_patches(old(document)@, project_id as int, detail.id as int)
                        + detail_patches(project_id as int, detail@)
                } else {
                    Seq::empty()
                }
                &&& fetch_views(step.fetches@) == if detail_taken(
                    old(document)@,
                    project_id as int,
                    detail@,
                ) {
                    seq![
                        FetchView::Jobs {
                            project_id: project_id as int,
                            pipeline_id: detail.id as int,
                        },
                    ]
                } else {
                    Seq::empty()
                }
            },
            Event::Jobs { project_id, pipeline_id, jobs } => {
                &&& final(state)@ == old(state)@
                &&& final(document)@ == upsert_jobs(
                    old(document)@,
                    project_id as int,
                    pipeline_id as int,
                    job_views(jobs@),
                )
                &&& patch_views(step.patches@) == if present(
                    old(document)@,
                    pipeline_key(project_id as int, pipeline_id as int),
                ) {
                    jobs_patches(
                        old(document)@,
                        project_id as int,
                        pipeline_id as int,
                        job_views(jobs@),
                    )
                } else {
                    Seq::empty()
                }
                &&& fetch_views(step.fetches@) == Seq::<FetchView>::empty()
            },
            Event::Failed { failure } => {
                &&& final(state)@ == old(state)@
                &&& final(document)@ == old(document)@
                &&& patch_views(step.patches@) == Seq::<PatchView>::empty()
                &&& fetch_views(step.fetches@) == Seq::<FetchView>::empty()
            },
        },
        well_formed(final(document)@),
        nothing_lost(old(document)@, final(document)@),
{
    proof {
        use_type_invariant(&*document);
        lemma_nothing_lost(old(document)@, old(document)@);
    }
    match event {
        Event::Tick => on_tick(),
        Event::Projects { projects } => on_projects(state, document, projects),
        Event::Pipelines { project, pipelines } => on_pipelines(document, &project, &pipelines),
        Event::PipelineDetail { project_id, detail } => on_pipeline_detail(
            document,
            project_id,
            &detail,
        ),
        Event::Jobs { project_id, pipeline_id, jobs } => on_jobs(
            document,
            project_id,
            pipeline_id,
            &jobs,
        ),
        Event::Failed { failure } => Step::none(),
    }
}

} // verus!
