//! Repeating an upsert changes nothing more: done twice with the same
//! arguments, each upsert leaves the tree as it does when done once.

use crate::dom::{JobView, PipelineDetailView};
use crate::keys::{job_key, label_key, pipeline_key, project_key, time_key};
use crate::status::Status;
use crate::tree::{
    lemma_with_class, lemma_with_content, lemma_with_node_keys, present, well_formed, with_class,
    with_content, with_node, ContentView, NodeView,
};
use crate::upsert::{
    ensure_project, job_class, job_markup, job_node, label_node, label_text,
    lemma_jobs_without_pipeline, lemma_upsert_job_well_formed, lemma_upsert_jobs_well_formed,
    pipeline_class, pipeline_node, project_class, project_node, time_markup, time_node, upsert_job,
    upsert_jobs, upsert_pipeline, upsert_pipeline_detail, upsert_project,
};
use vstd::prelude::*;

verus! {

/// Upserting a project twice with the same arguments leaves the tree as
/// upserting it once does.
pub proof fn lemma_upsert_project_idempotent(
    tree: Seq<NodeView>,
    id: int,
    name: Seq<char>,
    group: Seq<char>,
    latest: Option<Status>,
)
    ensures
        upsert_project(upsert_project(tree, id, name, group, latest), id, name, group, latest)
            == upsert_project(tree, id, name, group, latest),
        ensure_project(ensure_project(tree, id, name, group), id, name, group) == ensure_project(
            tree,
            id,
            name,
            group,
        ),
{
    let node = project_node(id, name, group);
    let shell = with_node(tree, node);
    let once = with_class(shell, node.key, project_class(latest));
    lemma_with_node_keys(tree, node);
    lemma_with_class(shell, node.key, project_class(latest));
    assert(with_node(once, node) == once);
    assert(with_class(once, node.key, project_class(latest)) =~= once);
}

/// Upserting a pipeline twice leaves the tree as upserting it once does.
pub proof fn lemma_upsert_pipeline_idempotent(tree: Seq<NodeView>, project: int, pipeline: int)
    ensures
        upsert_pipeline(upsert_pipeline(tree, project, pipeline), project, pipeline)
            == upsert_pipeline(tree, project, pipeline),
{
    if present(tree, project_key(project)) {
        let first = with_node(tree, pipeline_node(project, pipeline));
        let second = with_node(first, label_node(project, pipeline));
        let third = with_node(second, time_node(project, pipeline));
        lemma_with_node_keys(tree, pipeline_node(project, pipeline));
        lemma_with_node_keys(first, label_node(project, pipeline));
        lemma_with_node_keys(second, time_node(project, pipeline));
        assert(with_node(third, pipeline_node(project, pipeline)) == third);
        assert(with_node(third, label_node(project, pipeline)) == third);
        assert(with_node(third, time_node(project, pipeline)) == third);
    }
}

/// Upserting the detail of a pipeline twice with the same detail leaves the
/// tree as upserting it once does.
pub proof fn lemma_upsert_pipeline_detail_idempotent(
    tree: Seq<NodeView>,
    project: int,
    detail: PipelineDetailView,
)
    ensures
        upsert_pipeline_detail(upsert_pipeline_detail(tree, project, detail), project, detail)
            == upsert_pipeline_detail(tree, project, detail),
{
    if present(tree, pipeline_key(project, detail.id)) {
        let class = pipeline_class(detail.status);
        let label = ContentView::Text(label_text(detail.id, detail.git_ref));
        let time = ContentView::Markup(time_markup(detail.duration as nat));
        let first = with_class(tree, pipeline_key(project, detail.id), class);
        let second = with_content(first, label_key(project, detail.id), label);
        let once = with_content(second, time_key(project, detail.id), time);
        lemma_with_class(tree, pipeline_key(project, detail.id), class);
        lemma_with_content(first, label_key(project, detail.id), label);
        lemma_with_content(second, time_key(project, detail.id), time);
        assert(upsert_pipeline_detail(once, project, detail) =~= once);
    }
}

/// Upserting a job twice with the same arguments leaves the tree as
/// upserting it once does.
pub proof fn lemma_upsert_job_idempotent(
    tree: Seq<NodeView>,
    project: int,
    pipeline: int,
    job: JobView,
)
    ensures
        upsert_job(upsert_job(tree, project, pipeline, job), project, pipeline, job) == upsert_job(
            tree,
            project,
            pipeline,
            job,
        ),
{
    if present(tree, pipeline_key(project, pipeline)) {
        let node = job_node(project, pipeline, job.name);
        let content = ContentView::Markup(job_markup(job));
        let first = with_node(tree, node);
        let second = with_content(first, node.key, content);
        let once = with_class(second, node.key, job_class(job.status));
        lemma_with_node_keys(tree, node);
        lemma_with_content(first, node.key, content);
        lemma_with_class(second, node.key, job_class(job.status));
        assert(with_node(once, node) == once);
        assert(upsert_job(once, project, pipeline, job) =~= once);
    }
}

/// What a run of job upserts leaves a node showing: the content and the class
/// of the last job of the run that has the node's key, and what the node
/// showed before where no job has its key.
pub open spec fn overlaid(
    node: NodeView,
    project: int,
    pipeline: int,
    jobs: Seq<JobView>,
) -> NodeView
    decreases jobs.len(),
{
    if jobs.len() == 0 {
        node
    } else if node.key == job_key(project, pipeline, jobs.last().name) {
        NodeView {
            content: ContentView::Markup(job_markup(jobs.last())),
            class: job_class(jobs.last().status),
            ..overlaid(node, project, pipeline, jobs.drop_last())
        }
    } else {
        overlaid(node, project, pipeline, jobs.drop_last())
    }
}

proof fn lemma_overlaid_keeps(node: NodeView, project: int, pipeline: int, jobs: Seq<JobView>)
    ensures
        overlaid(node, project, pipeline, jobs).key == node.key,
        overlaid(node, project, pipeline, jobs).parent == node.parent,
    decreases jobs.len(),
{
    if jobs.len() > 0 {
        lemma_overlaid_keeps(node, project, pipeline, jobs.drop_last());
    }
}

/// The upsert of a job, node by node: a node with the job's key gets the
/// job's content and class, every other node stays, and one node is added at
/// the end where none has the job's key.
pub proof fn lemma_upsert_job_node_by_node(
    tree: Seq<NodeView>,
    project: int,
    pipeline: int,
    job: JobView,
)
    requires
        present(tree, pipeline_key(project, pipeline)),
    ensures
        forall|i: int|
            0 <= i < tree.len() ==> #[trigger] upsert_job(tree, project, pipeline, job)[i] == overlaid(
                tree[i],
                project,
                pipeline,
                seq![job],
            ),
        present(tree, job_key(project, pipeline, job.name)) ==> upsert_job(
            tree,
            project,
            pipeline,
            job,
        ).len() == tree.len(),
        !present(tree, job_key(project, pipeline, job.name)) ==> upsert_job(
            tree,
            project,
            pipeline,
            job,
        ).len() == tree.len() + 1 && upsert_job(tree, project, pipeline, job)[tree.len() as int]
            == overlaid(job_node(project, pipeline, job.name), project, pipeline, seq![job]),
{
    let node = job_node(project, pipeline, job.name);
    let content = ContentView::Markup(job_markup(job));
    let first = with_node(tree, node);
    let second = with_content(first, node.key, content);
    lemma_with_node_keys(tree, node);
    assert(seq![job].drop_last() =~= Seq::<JobView>::empty());
    assert(seq![job].last() == job);
    assert forall|i: int| 0 <= i < tree.len() implies #[trigger] upsert_job(
        tree,
        project,
        pipeline,
        job,
    )[i] == overlaid(tree[i], project, pipeline, seq![job]) by {
        assert(first[i] == tree[i]);
        assert(overlaid(tree[i], project, pipeline, seq![job].drop_last()) == tree[i]);
    }
    assert(overlaid(node, project, pipeline, seq![job].drop_last()) == node);
}

/// After the upserts of a run of jobs whose pipeline has a node, every node
/// that was there shows the content and the class of the last job of the run
/// that has its key, and is as it was where no job has its key.
pub proof fn lemma_upsert_jobs_reads(
    tree: Seq<NodeView>,
    project: int,
    pipeline: int,
    jobs: Seq<JobView>,
)
    requires
        well_formed(tree),
        present(tree, pipeline_key(project, pipeline)),
    ensures
        tree.len() <= upsert_jobs(tree, project, pipeline, jobs).len(),
        forall|i: int|
            0 <= i < tree.len() ==> #[trigger] upsert_jobs(tree, project, pipeline, jobs)[i]
                == overlaid(tree[i], project, pipeline, jobs),
    decreases jobs.len(),
{
    if jobs.len() > 0 {
        let earlier = jobs.drop_last();
        let last = jobs.last();
        let before = upsert_jobs(tree, project, pipeline, earlier);
        lemma_upsert_jobs_reads(tree, project, pipeline, earlier);
        lemma_upsert_jobs_well_formed(tree, project, pipeline, earlier);
        lemma_upsert_job_node_by_node(before, project, pipeline, last);
        assert(seq![last].drop_last() =~= Seq::<JobView>::empty());
        assert(seq![last].last() == last);
        assert forall|i: int| 0 <= i < tree.len() implies #[trigger] upsert_jobs(
            tree,
            project,
            pipeline,
            jobs,
        )[i] == overlaid(tree[i], project, pipeline, jobs) by {
            lemma_overlaid_keeps(tree[i], project, pipeline, earlier);
            assert(upsert_jobs(tree, project, pipeline, jobs)[i] == overlaid(
                before[i],
                project,
                pipeline,
                seq![last],
            ));
            assert(overlaid(before[i], project, pipeline, seq![last].drop_last()) == before[i]);
        }
    }
}

/// After the upserts of a run of jobs, every node shows what the run leaves
/// it showing: doing the run once more would write what is written.
proof fn lemma_upsert_jobs_settled(tree: Seq<NodeView>, project: int, pipeline: int, jobs: Seq<JobView>)
    requires
        well_formed(tree),
        present(tree, pipeline_key(project, pipeline)),
    ensures
        forall|i: int|
            0 <= i < upsert_jobs(tree, project, pipeline, jobs).len() ==> overlaid(
                #[trigger] upsert_jobs(tree, project, pipeline, jobs)[i],
                project,
                pipeline,
                jobs,
            ) == upsert_jobs(tree, project, pipeline, jobs)[i],
        forall|j: int|
            0 <= j < jobs.len() ==> present(
                upsert_jobs(tree, project, pipeline, jobs),
                #[trigger] job_key(project, pipeline, jobs[j].name),
            ),
    decreases jobs.len(),
{
    if jobs.len() > 0 {
        let earlier = jobs.drop_last();
        let last = jobs.last();
        let before = upsert_jobs(tree, project, pipeline, earlier);
        let after = upsert_jobs(tree, project, pipeline, jobs);
        lemma_upsert_jobs_settled(tree, project, pipeline, earlier);
        lemma_upsert_jobs_well_formed(tree, project, pipeline, earlier);
        lemma_upsert_job_well_formed(before, project, pipeline, last);
        lemma_upsert_job_node_by_node(before, project, pipeline, last);
        assert(seq![last].drop_last() =~= Seq::<JobView>::empty());
        assert(seq![last].last() == last);
        assert forall|i: int| 0 <= i < after.len() implies overlaid(
            #[trigger] after[i],
            project,
            pipeline,
            jobs,
        ) == after[i] by {
            lemma_overlaid_keeps(after[i], project, pipeline, earlier);
            if i < before.len() {
                assert(after[i] == overlaid(before[i], project, pipeline, seq![last]));
                assert(overlaid(before[i], project, pipeline, seq![last].drop_last()) == before[i]);
                if before[i].key != job_key(project, pipeline, last.name) {
                    assert(after[i] == before[i]);
                }
            } else {
                let node = job_node(project, pipeline, last.name);
                assert(overlaid(node, project, pipeline, seq![last].drop_last()) == node);
            }
        }
        assert forall|j: int| 0 <= j < jobs.len() implies present(
            after,
            #[trigger] job_key(project, pipeline, jobs[j].name),
        ) by {
            if j < earlier.len() {
                assert(earlier[j] == jobs[j]);
                assert(present(before, job_key(project, pipeline, earlier[j].name)));
            }
        }
    }
}

/// On a tree that has a node for each job of a run, the upserts of the run
/// add no node and leave every node showing what the run leaves it showing.
proof fn lemma_upsert_jobs_in_place(tree: Seq<NodeView>, project: int, pipeline: int, jobs: Seq<JobView>)
    requires
        present(tree, pipeline_key(project, pipeline)),
        forall|j: int|
            0 <= j < jobs.len() ==> present(
                tree,
                #[trigger] job_key(project, pipeline, jobs[j].name),
            ),
    ensures
        upsert_jobs(tree, project, pipeline, jobs).len() == tree.len(),
        forall|i: int|
            0 <= i < tree.len() ==> #[trigger] upsert_jobs(tree, project, pipeline, jobs)[i]
                == overlaid(tree[i], project, pipeline, jobs),
    decreases jobs.len(),
{
    if jobs.len() > 0 {
        let earlier = jobs.drop_last();
        let last = jobs.last();
        let before = upsert_jobs(tree, project, pipeline, earlier);
        let after = upsert_jobs(tree, project, pipeline, jobs);
        assert forall|j: int| 0 <= j < earlier.len() implies present(
            tree,
            #[trigger] job_key(project, pipeline, earlier[j].name),
        ) by {
            assert(earlier[j] == jobs[j]);
        }
        lemma_upsert_jobs_in_place(tree, project, pipeline, earlier);
        assert forall|i: int| 0 <= i < tree.len() implies (#[trigger] before[i]).key
            == tree[i].key by {
            lemma_overlaid_keeps(tree[i], project, pipeline, earlier);
        }
        assert(present(before, pipeline_key(project, pipeline))) by {
            let i = choose|i: int|
                0 <= i < tree.len() && (#[trigger] tree[i]).key == pipeline_key(project, pipeline);
            assert(before[i].key == pipeline_key(project, pipeline));
        }
        assert(present(before, job_key(project, pipeline, last.name))) by {
            assert(jobs[jobs.len() - 1] == last);
            let i = choose|i: int|
                0 <= i < tree.len() && (#[trigger] tree[i]).key == job_key(
                    project,
                    pipeline,
                    last.name,
                );
            assert(before[i].key == job_key(project, pipeline, last.name));
        }
        lemma_upsert_job_node_by_node(before, project, pipeline, last);
        assert(seq![last].drop_last() =~= Seq::<JobView>::empty());
        assert(seq![last].last() == last);
        assert forall|i: int| 0 <= i < tree.len() implies #[trigger] after[i] == overlaid(
            tree[i],
            project,
            pipeline,
            jobs,
        ) by {
            assert(after[i] == overlaid(before[i], project, pipeline, seq![last]));
            assert(overlaid(before[i], project, pipeline, seq![last].drop_last()) == before[i]);
        }
    }
}

/// Upserting a run of jobs twice leaves the tree as upserting it once does,
/// whatever the run holds: a name may come more than once in it, with
/// different states.
pub proof fn lemma_upsert_jobs_idempotent(
    tree: Seq<NodeView>,
    project: int,
    pipeline: int,
    jobs: Seq<JobView>,
)
    requires
        well_formed(tree),
    ensures
        upsert_jobs(upsert_jobs(tree, project, pipeline, jobs), project, pipeline, jobs)
            == upsert_jobs(tree, project, pipeline, jobs),
{
    let once = upsert_jobs(tree, project, pipeline, jobs);
    if present(tree, pipeline_key(project, pipeline)) {
        lemma_upsert_jobs_well_formed(tree, project, pipeline, jobs);
        lemma_upsert_jobs_settled(tree, project, pipeline, jobs);
        lemma_upsert_jobs_in_place(once, project, pipeline, jobs);
        assert(upsert_jobs(once, project, pipeline, jobs) =~= once);
    } else {
        lemma_jobs_without_pipeline(tree, project, pipeline, jobs);
    }
}

} // verus!
