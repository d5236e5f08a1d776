//! What each upsert does to the visual tree, and the patches that carry it to
//! the screen.
//!
//! An upsert first sees to it that the node is there, which changes the tree
//! once per key, and then writes the current state over whatever the node
//! showed before.

use crate::dom::{JobView, Pipeline, PipelineDetailView};
use crate::keys::{
    job_key, label_key, lemma_key_levels_apart, lemma_pipeline_key_injective,
    lemma_region_key_injective, lemma_region_keys_apart, lemma_regions_apart, pipeline_key,
    project_key, root_key, time_key,
};
use crate::status::Status;
use crate::text::{duration_text, int_text};
use crate::tree::{
    lemma_with_class, lemma_with_content, lemma_with_node_keys, lemma_with_node_structure,
    lemma_with_node_placed, lemma_with_node_well_formed, names_pipeline, names_region, placed, present, well_formed, with_class,
    with_content, with_node, ContentView, NodeView, PatchView,
};
use vstd::prelude::*;

verus! {

/// The background class of a project in a state. Four kinds of state are
/// told apart, each with one class: success, failure, under way (running, or
/// manual and waiting to be started) and the rest.
pub open spec fn bg_class(status: Status) -> Seq<char> {
    match status {
        Status::SUCCESS => "bg-success"@,
        Status::FAILED => "bg-fail"@,
        Status::RUNNING | Status::MANUAL => "bg-running"@,
        Status::CREATED | Status::CANCELED | Status::SKIPPED | Status::PENDING => "bg-skipped"@,
    }
}

/// The background class of a pipeline in a state. A pipeline that waits to be
/// started by hand is told apart from one that runs.
pub open spec fn pipeline_bg_class(status: Status) -> Seq<char> {
    match status {
        Status::SUCCESS => "bg-success"@,
        Status::FAILED => "bg-fail"@,
        Status::RUNNING => "bg-running"@,
        Status::MANUAL => "bg-manual"@,
        Status::CREATED | Status::CANCELED | Status::SKIPPED | Status::PENDING => "bg-skipped"@,
    }
}

/// The four classes of a project's table differ from one another, and a
/// project that runs and one that waits to be started by hand share theirs.
pub proof fn lemma_project_classes()
    ensures
        bg_class(Status::MANUAL) == bg_class(Status::RUNNING),
        bg_class(Status::RUNNING) != bg_class(Status::SUCCESS),
        bg_class(Status::RUNNING) != bg_class(Status::FAILED),
        bg_class(Status::RUNNING) != bg_class(Status::SKIPPED),
        bg_class(Status::SUCCESS) != bg_class(Status::FAILED),
        bg_class(Status::SUCCESS) != bg_class(Status::SKIPPED),
        bg_class(Status::FAILED) != bg_class(Status::SKIPPED),
        forall|status: Status|
            #![trigger bg_class(status)]
            bg_class(status) == bg_class(Status::SUCCESS) || bg_class(status) == bg_class(
                Status::FAILED,
            ) || bg_class(status) == bg_class(Status::RUNNING) || bg_class(status) == bg_class(
                Status::SKIPPED,
            ),
{
    reveal_strlit("bg-success");
    reveal_strlit("bg-fail");
    reveal_strlit("bg-running");
    reveal_strlit("bg-skipped");
    assert("bg-success"@[3] == 's' && "bg-success"@[4] == 'u');
    assert("bg-fail"@[3] == 'f');
    assert("bg-running"@[3] == 'r');
    assert("bg-skipped"@[3] == 's' && "bg-skipped"@[4] == 'k');
}

/// The class of a project node: that of the state of its most recent
/// pipeline, or hidden where it has no pipeline.
pub open spec fn project_class(latest: Option<Status>) -> Seq<char> {
    match latest {
        Some(status) => "project "@ + bg_class(status),
        None => "project hidden"@,
    }
}

/// The state of the most recent pipeline of a project: that of the first in
/// the list, which comes newest first.
pub open spec fn latest_status(pipelines: Seq<Pipeline>) -> Option<Status> {
    if pipelines.len() > 0 {
        Some(pipelines[0].status)
    } else {
        None
    }
}

/// The node of a project as it is first made: hidden, with the group and the
/// name as its heading.
pub open spec fn project_node(id: int, name: Seq<char>, group: Seq<char>) -> NodeView {
    NodeView {
        key: project_key(id),
        parent: root_key(),
        class: "project hidden"@,
        content: ContentView::Heading(group + "/"@ + name),
    }
}

/// The tree in which the project has a node.
pub open spec fn ensure_project(
    tree: Seq<NodeView>,
    id: int,
    name: Seq<char>,
    group: Seq<char>,
) -> Seq<NodeView> {
    with_node(tree, project_node(id, name, group))
}

/// The patches that give the project a node, if it has none.
pub open spec fn ensure_project_patches(
    tree: Seq<NodeView>,
    id: int,
    name: Seq<char>,
    group: Seq<char>,
) -> Seq<PatchView> {
    if present(tree, project_key(id)) {
        Seq::empty()
    } else {
        seq![PatchView::Create { node: project_node(id, name, group) }]
    }
}

/// The tree after the upsert of a project.
pub open spec fn upsert_project(
    tree: Seq<NodeView>,
    id: int,
    name: Seq<char>,
    group: Seq<char>,
    latest: Option<Status>,
) -> Seq<NodeView> {
    with_class(ensure_project(tree, id, name, group), project_key(id), project_class(latest))
}

/// The patches of the upsert of a project.
pub open spec fn project_patches(
    tree: Seq<NodeView>,
    id: int,
    name: Seq<char>,
    group: Seq<char>,
    latest: Option<Status>,
) -> Seq<PatchView> {
    ensure_project_patches(tree, id, name, group).push(
        PatchView::SetClass { key: project_key(id), class: project_class(latest) },
    )
}

/// The node of a pipeline as it is first made.
pub open spec fn pipeline_node(project: int, pipeline: int) -> NodeView {
    NodeView {
        key: pipeline_key(project, pipeline),
        parent: project_key(project),
        class: "pipeline bg-skipped"@,
        content: ContentView::Empty,
    }
}

/// The label region of a pipeline as it is first made.
pub open spec fn label_node(project: int, pipeline: int) -> NodeView {
    NodeView {
        key: label_key(project, pipeline),
        parent: pipeline_key(project, pipeline),
        class: "label"@,
        content: ContentView::Empty,
    }
}

/// The time region of a pipeline as it is first made.
pub open spec fn time_node(project: int, pipeline: int) -> NodeView {
    NodeView {
        key: time_key(project, pipeline),
        parent: pipeline_key(project, pipeline),
        class: "time"@,
        content: ContentView::Empty,
    }
}

/// The patch that makes `node`, if its key is free.
pub open spec fn create_patches(tree: Seq<NodeView>, node: NodeView) -> Seq<PatchView> {
    if present(tree, node.key) {
        Seq::empty()
    } else {
        seq![PatchView::Create { node: node }]
    }
}

/// The tree after the upsert of a pipeline: where the project has a node, the
/// pipeline and its two regions have theirs; where it has none, nothing
/// changes.
pub open spec fn upsert_pipeline(tree: Seq<NodeView>, project: int, pipeline: int) -> Seq<
    NodeView,
> {
    if present(tree, project_key(project)) {
        with_node(
            with_node(
                with_node(tree, pipeline_node(project, pipeline)),
                label_node(project, pipeline),
            ),
            time_node(project, pipeline),
        )
    } else {
        tree
    }
}

/// The patches of the upsert of a pipeline whose project has a node.
pub open spec fn pipeline_patches(tree: Seq<NodeView>, project: int, pipeline: int) -> Seq<
    PatchView,
> {
    let first = with_node(tree, pipeline_node(project, pipeline));
    let second = with_node(first, label_node(project, pipeline));
    create_patches(tree, pipeline_node(project, pipeline)) + create_patches(
        first,
        label_node(project, pipeline),
    ) + create_patches(second, time_node(project, pipeline))
}

/// The class of a pipeline node.
pub open spec fn pipeline_class(status: Status) -> Seq<char> {
    "pipeline "@ + pipeline_bg_class(status)
}

/// The text of a pipeline's label region.
pub open spec fn label_text(pipeline: int, git_ref: Seq<char>) -> Seq<char> {
    "#"@ + int_text(pipeline) + " / "@ + git_ref
}

/// The content of a pipeline's time region: a clock mark before the
/// duration.
pub open spec fn time_markup(duration: nat) -> Seq<char> {
    "<i class=\"fas fa-clock\"></i>"@ + duration_text(duration)
}

/// The patches of the upsert of a pipeline's detail, where the pipeline has a
/// node.
pub open spec fn detail_patches(project: int, detail: PipelineDetailView) -> Seq<PatchView> {
    seq![
        PatchView::SetClass {
            key: pipeline_key(project, detail.id),
            class: pipeline_class(detail.status),
        },
        PatchView::SetContent {
            key: label_key(project, detail.id),
            content: ContentView::Text(label_text(detail.id, detail.git_ref)),
        },
        PatchView::SetContent {
            key: time_key(project, detail.id),
            content: ContentView::Markup(time_markup(detail.duration as nat)),
        },
    ]
}

/// The tree after the upsert of a pipeline's detail: where the pipeline has a
/// node, it gets the class of its state and its regions get their content;
/// where it has none, nothing changes.
pub open spec fn upsert_pipeline_detail(
    tree: Seq<NodeView>,
    project: int,
    detail: PipelineDetailView,
) -> Seq<NodeView> {
    if present(tree, pipeline_key(project, detail.id)) {
        with_content(
            with_content(
                with_class(
                    tree,
                    pipeline_key(project, detail.id),
                    pipeline_class(detail.status),
                ),
                label_key(project, detail.id),
                ContentView::Text(label_text(detail.id, detail.git_ref)),
            ),
            time_key(project, detail.id),
            ContentView::Markup(time_markup(detail.duration as nat)),
        )
    } else {
        tree
    }
}

/// The class of a job node. A canceled job is styled as a skipped one.
pub open spec fn job_class(status: Status) -> Seq<char> {
    match status {
        Status::SUCCESS => "job job-success"@,
        Status::FAILED => "job job-fail"@,
        Status::CANCELED => "job job-skipped"@,
        Status::MANUAL => "job job-manual"@,
        Status::RUNNING => "job job-running"@,
        Status::CREATED | Status::PENDING | Status::SKIPPED => "job job-skipped"@,
    }
}

/// The icon of a job's state.
pub open spec fn job_icon(status: Status) -> Seq<char> {
    match status {
        Status::SUCCESS => "<i class=\"fas fa-check\"></i>"@,
        Status::FAILED => "<i class=\"fas fa-times-circle\"></i>"@,
        Status::CANCELED => "<i class=\"fas fa-stop-circle\"></i>"@,
        Status::MANUAL => "<i class=\"fas fa-play\"></i>"@,
        Status::RUNNING => "<i class=\"fas fa-cog fa-spin\"></i>"@,
        Status::CREATED | Status::PENDING | Status::SKIPPED =>
            "<i class=\"fas fa-minus-circle\"></i>"@,
    }
}

/// The content of a job node: the icon of its state and its name, the name as
/// a link where the job has one.
pub open spec fn job_markup(job: JobView) -> Seq<char> {
    if job.link.len() > 0 {
        job_icon(job.status) + "<a href=\""@ + job.link + "\" target=\"_blank\">"@ + job.name
            + "</a>"@
    } else {
        job_icon(job.status) + job.name
    }
}

/// The node of a job as it is first made.
pub open spec fn job_node(project: int, pipeline: int, name: Seq<char>) -> NodeView {
    NodeView {
        key: job_key(project, pipeline, name),
        parent: pipeline_key(project, pipeline),
        class: Seq::empty(),
        content: ContentView::Empty,
    }
}

/// The tree after the upsert of a job: where the pipeline has a node, the job
/// has one with its current content and class; where it has none, nothing
/// changes.
pub open spec fn upsert_job(tree: Seq<NodeView>, project: int, pipeline: int, job: JobView) -> Seq<
    NodeView,
> {
    if present(tree, pipeline_key(project, pipeline)) {
        with_class(
            with_content(
                with_node(tree, job_node(project, pipeline, job.name)),
                job_key(project, pipeline, job.name),
                ContentView::Markup(job_markup(job)),
            ),
            job_key(project, pipeline, job.name),
            job_class(job.status),
        )
    } else {
        tree
    }
}

/// The patches of the upsert of a job whose pipeline has a node.
pub open spec fn job_patches(tree: Seq<NodeView>, project: int, pipeline: int, job: JobView) -> Seq<
    PatchView,
> {
    create_patches(tree, job_node(project, pipeline, job.name)).push(
        PatchView::SetContent {
            key: job_key(project, pipeline, job.name),
            content: ContentView::Markup(job_markup(job)),
        },
    ).push(
        PatchView::SetClass {
            key: job_key(project, pipeline, job.name),
            class: job_class(job.status),
        },
    )
}

/// The tree after the upserts of a run of jobs, in their order.
pub open spec fn upsert_jobs(
    tree: Seq<NodeView>,
    project: int,
    pipeline: int,
    jobs: Seq<JobView>,
) -> Seq<NodeView>
    decreases jobs.len(),
{
    if jobs.len() == 0 {
        tree
    } else {
        upsert_job(upsert_jobs(tree, project, pipeline, jobs.drop_last()), project, pipeline, jobs.last())
    }
}

/// The patches of the upserts of a run of jobs whose pipeline has a node.
pub open spec fn jobs_patches(
    tree: Seq<NodeView>,
    project: int,
    pipeline: int,
    jobs: Seq<JobView>,
) -> Seq<PatchView>
    decreases jobs.len(),
{
    if jobs.len() == 0 {
        Seq::empty()
    } else {
        jobs_patches(tree, project, pipeline, jobs.drop_last()) + job_patches(
            upsert_jobs(tree, project, pipeline, jobs.drop_last()),
            project,
            pipeline,
            jobs.last(),
        )
    }
}

/// The key of a project and the key of a job are the key of no pipeline and
/// of no region.
pub proof fn lemma_not_a_pipeline(project: int, pipeline: int, name: Seq<char>)
    ensures
        !names_pipeline(project_key(project)),
        !names_pipeline(job_key(project, pipeline, name)),
        !names_region(project_key(project)),
        !names_region(job_key(project, pipeline, name)),
{
    assert forall|p: int, q: int| project_key(project) != #[trigger] pipeline_key(p, q) by {
        lemma_key_levels_apart(project, p, q, 0, 0, name);
    }
    assert forall|p: int, q: int| job_key(project, pipeline, name) != #[trigger] pipeline_key(
        p,
        q,
    ) by {
        lemma_key_levels_apart(0, p, q, project, pipeline, name);
    }
    assert forall|p: int, q: int|
        project_key(project) != #[trigger] label_key(p, q) && job_key(project, pipeline, name)
            != label_key(p, q) by {
        lemma_region_keys_apart(p, q, "label"@, project, project, pipeline, name);
    }
    assert forall|p: int, q: int|
        project_key(project) != #[trigger] time_key(p, q) && job_key(project, pipeline, name)
            != time_key(p, q) by {
        lemma_region_keys_apart(p, q, "time"@, project, project, pipeline, name);
    }
}

/// The nodes that the upserts make hang where their keys say.
pub proof fn lemma_nodes_placed(
    project: int,
    pipeline: int,
    name: Seq<char>,
    group: Seq<char>,
)
    ensures
        placed(project_node(project, name, group).key, project_node(project, name, group).parent),
        placed(pipeline_node(project, pipeline).key, pipeline_node(project, pipeline).parent),
        placed(label_node(project, pipeline).key, label_node(project, pipeline).parent),
        placed(time_node(project, pipeline).key, time_node(project, pipeline).parent),
        placed(job_node(project, pipeline, name).key, job_node(project, pipeline, name).parent),
{
    assert(project_node(project, name, group).key == project_key(project));
    assert(pipeline_node(project, pipeline).key == pipeline_key(project, pipeline));
    assert(label_node(project, pipeline).key == label_key(project, pipeline));
    assert(time_node(project, pipeline).key == time_key(project, pipeline));
    assert(job_node(project, pipeline, name).key == job_key(project, pipeline, name));
}

/// The upsert of a project leaves a well-formed tree well-formed, with a node
/// for the project.
pub proof fn lemma_upsert_project_well_formed(
    tree: Seq<NodeView>,
    id: int,
    name: Seq<char>,
    group: Seq<char>,
    latest: Option<Status>,
)
    requires
        well_formed(tree),
    ensures
        well_formed(ensure_project(tree, id, name, group)),
        well_formed(upsert_project(tree, id, name, group, latest)),
        present(ensure_project(tree, id, name, group), project_key(id)),
        present(upsert_project(tree, id, name, group, latest), project_key(id)),
{
    let node = project_node(id, name, group);
    lemma_not_a_pipeline(id, 0, name);
    lemma_nodes_placed(id, 0, name, group);
    lemma_with_node_well_formed(tree, node);
    lemma_with_node_keys(tree, node);
    lemma_with_class(with_node(tree, node), project_key(id), project_class(latest));
}

/// On a well-formed tree, a pipeline that has no node yet gets three new
/// nodes at the end: its own and those of its two regions, in this order.
pub proof fn lemma_upsert_pipeline_first(tree: Seq<NodeView>, project: int, pipeline: int)
    requires
        well_formed(tree),
        present(tree, project_key(project)),
        !present(tree, pipeline_key(project, pipeline)),
    ensures
        upsert_pipeline(tree, project, pipeline) == tree.push(
            pipeline_node(project, pipeline),
        ).push(label_node(project, pipeline)).push(time_node(project, pipeline)),
        pipeline_patches(tree, project, pipeline) == seq![
            PatchView::Create { node: pipeline_node(project, pipeline) },
            PatchView::Create { node: label_node(project, pipeline) },
            PatchView::Create { node: time_node(project, pipeline) },
        ],
{
    let first = with_node(tree, pipeline_node(project, pipeline));
    let second = with_node(first, label_node(project, pipeline));
    lemma_with_node_keys(tree, pipeline_node(project, pipeline));
    lemma_with_node_keys(first, label_node(project, pipeline));
    lemma_regions_apart(project, pipeline);
    lemma_region_keys_apart(project, pipeline, "label"@, 0, project, pipeline, Seq::empty());
    lemma_region_keys_apart(project, pipeline, "time"@, 0, project, pipeline, Seq::empty());
    assert(!present(tree, label_key(project, pipeline)));
    assert(!present(tree, time_key(project, pipeline)));
    assert(!present(first, label_key(project, pipeline)));
    assert(!present(second, time_key(project, pipeline)));
    assert(pipeline_patches(tree, project, pipeline) =~= seq![
        PatchView::Create { node: pipeline_node(project, pipeline) },
        PatchView::Create { node: label_node(project, pipeline) },
        PatchView::Create { node: time_node(project, pipeline) },
    ]);
}

/// The upsert of a pipeline leaves a well-formed tree well-formed. Where the
/// project has a node, the pipeline and its regions have theirs afterwards.
pub proof fn lemma_upsert_pipeline_well_formed(tree: Seq<NodeView>, project: int, pipeline: int)
    requires
        well_formed(tree),
    ensures
        well_formed(upsert_pipeline(tree, project, pipeline)),
        present(tree, project_key(project)) ==> {
            &&& present(upsert_pipeline(tree, project, pipeline), pipeline_key(project, pipeline))
            &&& present(upsert_pipeline(tree, project, pipeline), label_key(project, pipeline))
            &&& present(upsert_pipeline(tree, project, pipeline), time_key(project, pipeline))
        },
{
    if present(tree, project_key(project)) {
        let first = with_node(tree, pipeline_node(project, pipeline));
        let second = with_node(first, label_node(project, pipeline));
        let third = with_node(second, time_node(project, pipeline));
        lemma_with_node_keys(tree, pipeline_node(project, pipeline));
        lemma_with_node_keys(first, label_node(project, pipeline));
        lemma_with_node_keys(second, time_node(project, pipeline));
        lemma_with_node_structure(tree, pipeline_node(project, pipeline));
        lemma_with_node_structure(first, label_node(project, pipeline));
        lemma_with_node_structure(second, time_node(project, pipeline));
        lemma_nodes_placed(project, pipeline, Seq::empty(), Seq::empty());
        lemma_with_node_placed(tree, pipeline_node(project, pipeline));
        lemma_with_node_placed(first, label_node(project, pipeline));
        lemma_with_node_placed(second, time_node(project, pipeline));
        assert forall|p: int, q: int| present(third, #[trigger] pipeline_key(p, q)) implies present(
            third,
            label_key(p, q),
        ) && present(third, time_key(p, q)) by {
            lemma_region_keys_apart(project, pipeline, "label"@, 0, p, q, Seq::empty());
            lemma_region_keys_apart(project, pipeline, "time"@, 0, p, q, Seq::empty());
            if !present(tree, pipeline_key(p, q)) {
                assert(pipeline_key(p, q) == pipeline_key(project, pipeline));
                lemma_pipeline_key_injective(p, q, project, pipeline);
            }
        }
        assert forall|p: int, q: int| present(third, #[trigger] label_key(p, q)) implies present(
            third,
            pipeline_key(p, q),
        ) by {
            lemma_region_keys_apart(p, q, "label"@, 0, project, pipeline, Seq::empty());
            if !present(tree, label_key(p, q)) {
                if label_key(p, q) == time_key(project, pipeline) {
                    lemma_region_key_injective(p, q, "label"@, project, pipeline, "time"@);
                } else {
                    lemma_region_key_injective(p, q, "label"@, project, pipeline, "label"@);
                }
            }
        }
        assert forall|p: int, q: int| present(third, #[trigger] time_key(p, q)) implies present(
            third,
            pipeline_key(p, q),
        ) by {
            lemma_region_keys_apart(p, q, "time"@, 0, project, pipeline, Seq::empty());
            if !present(tree, time_key(p, q)) {
                if time_key(p, q) == label_key(project, pipeline) {
                    lemma_region_key_injective(p, q, "time"@, project, pipeline, "label"@);
                } else {
                    lemma_region_key_injective(p, q, "time"@, project, pipeline, "time"@);
                }
            }
        }
    }
}

/// The upsert of a pipeline's detail leaves a well-formed tree well-formed
/// and changes no key.
pub proof fn lemma_upsert_pipeline_detail_well_formed(
    tree: Seq<NodeView>,
    project: int,
    detail: PipelineDetailView,
)
    requires
        well_formed(tree),
    ensures
        well_formed(upsert_pipeline_detail(tree, project, detail)),
        forall|k: Seq<char>| #[trigger]
            present(upsert_pipeline_detail(tree, project, detail), k) == present(tree, k),
{
    if present(tree, pipeline_key(project, detail.id)) {
        let first = with_class(
            tree,
            pipeline_key(project, detail.id),
            pipeline_class(detail.status),
        );
        let second = with_content(
            first,
            label_key(project, detail.id),
            ContentView::Text(label_text(detail.id, detail.git_ref)),
        );
        lemma_with_class(tree, pipeline_key(project, detail.id), pipeline_class(detail.status));
        lemma_with_content(
            first,
            label_key(project, detail.id),
            ContentView::Text(label_text(detail.id, detail.git_ref)),
        );
        lemma_with_content(
            second,
            time_key(project, detail.id),
            ContentView::Markup(time_markup(detail.duration as nat)),
        );
    }
}

/// The upsert of a job leaves a well-formed tree well-formed. Where the
/// pipeline has a node, the job has one afterwards.
pub proof fn lemma_upsert_job_well_formed(
    tree: Seq<NodeView>,
    project: int,
    pipeline: int,
    job: JobView,
)
    requires
        well_formed(tree),
    ensures
        well_formed(upsert_job(tree, project, pipeline, job)),
        forall|k: Seq<char>| #[trigger]
            present(upsert_job(tree, project, pipeline, job), k) == (present(tree, k) || (present(
                tree,
                pipeline_key(project, pipeline),
            ) && k == job_key(project, pipeline, job.name))),
{
    if present(tree, pipeline_key(project, pipeline)) {
        let node = job_node(project, pipeline, job.name);
        let first = with_node(tree, node);
        let second = with_content(first, node.key, ContentView::Markup(job_markup(job)));
        lemma_not_a_pipeline(project, pipeline, job.name);
        lemma_nodes_placed(project, pipeline, job.name, Seq::empty());
        lemma_with_node_well_formed(tree, node);
        lemma_with_node_keys(tree, node);
        lemma_with_content(first, node.key, ContentView::Markup(job_markup(job)));
        lemma_with_class(second, node.key, job_class(job.status));
    }
}

/// The upserts of a run of jobs leave a well-formed tree well-formed and keep
/// every key that was there.
pub proof fn lemma_upsert_jobs_well_formed(
    tree: Seq<NodeView>,
    project: int,
    pipeline: int,
    jobs: Seq<JobView>,
)
    requires
        well_formed(tree),
    ensures
        well_formed(upsert_jobs(tree, project, pipeline, jobs)),
        forall|k: Seq<char>|
            present(tree, k) ==> #[trigger] present(upsert_jobs(tree, project, pipeline, jobs), k),
    decreases jobs.len(),
{
    if jobs.len() > 0 {
        lemma_upsert_jobs_well_formed(tree, project, pipeline, jobs.drop_last());
        lemma_upsert_job_well_formed(
            upsert_jobs(tree, project, pipeline, jobs.drop_last()),
            project,
            pipeline,
            jobs.last(),
        );
    }
}

/// The upserts of jobs change nothing where the pipeline has no node.
pub proof fn lemma_jobs_without_pipeline(
    tree: Seq<NodeView>,
    project: int,
    pipeline: int,
    jobs: Seq<JobView>,
)
    requires
        !present(tree, pipeline_key(project, pipeline)),
    ensures
        upsert_jobs(tree, project, pipeline, jobs) == tree,
    decreases jobs.len(),
{
    if jobs.len() > 0 {
        lemma_jobs_without_pipeline(tree, project, pipeline, jobs.drop_last());
    }
}

} // verus!
