//! The patches of an upsert say what the upsert does: carried out in their
//! order on a tree, they change it as the upsert changes it. A screen that
//! starts out as the tree and has every patch carried out on it stays the
//! tree's mirror.

use crate::dom::{JobView, PipelineDetailView};
use crate::keys::{job_key, pipeline_key, project_key};
use crate::status::Status;
use crate::tree::{
    apply, apply_all, present, well_formed, with_node, ContentView, NodeView, PatchView,
};
use crate::upsert::{
    create_patches, detail_patches, ensure_project, ensure_project_patches, job_class, job_markup,
    job_node, job_patches, jobs_patches, label_node, lemma_upsert_jobs_well_formed, pipeline_node,
    pipeline_patches, project_node, project_patches, time_node, upsert_job, upsert_jobs,
    upsert_pipeline, upsert_pipeline_detail, upsert_project,
};
use vstd::prelude::*;

verus! {

/// Applying a run of patches and then one more is applying the longer run.
pub proof fn lemma_apply_all_push(tree: Seq<NodeView>, patches: Seq<PatchView>, patch: PatchView)
    ensures
        apply_all(tree, patches.push(patch)) == apply(apply_all(tree, patches), patch),
{
    assert(patches.push(patch).drop_last() =~= patches);
}

/// Applying two runs of patches one after the other is applying the two as
/// one run.
pub proof fn lemma_apply_all_concat(
    tree: Seq<NodeView>,
    first: Seq<PatchView>,
    second: Seq<PatchView>,
)
    ensures
        apply_all(tree, first + second) == apply_all(apply_all(tree, first), second),
    decreases second.len(),
{
    if second.len() == 0 {
        assert(first + second =~= first);
    } else {
        lemma_apply_all_concat(tree, first, second.drop_last());
        assert((first + second).drop_last() =~= first + second.drop_last());
        assert((first + second).last() == second.last());
    }
}

/// The patch that makes a node, if there is one, gives the tree the node.
pub proof fn lemma_apply_created(tree: Seq<NodeView>, node: NodeView)
    ensures
        apply_all(tree, create_patches(tree, node)) == with_node(tree, node),
{
    let patches = create_patches(tree, node);
    if !present(tree, node.key) {
        assert(patches.drop_last() =~= Seq::<PatchView>::empty());
        assert(apply_all(tree, patches.drop_last()) == tree);
    }
}

/// The patches of a project's upsert, applied in their order, change a tree
/// as the upsert does.
pub proof fn lemma_project_patches_apply(
    tree: Seq<NodeView>,
    id: int,
    name: Seq<char>,
    group: Seq<char>,
    latest: Option<Status>,
)
    ensures
        apply_all(tree, ensure_project_patches(tree, id, name, group)) == ensure_project(
            tree,
            id,
            name,
            group,
        ),
        apply_all(tree, project_patches(tree, id, name, group, latest)) == upsert_project(
            tree,
            id,
            name,
            group,
            latest,
        ),
{
    let shell = ensure_project_patches(tree, id, name, group);
    let all = project_patches(tree, id, name, group, latest);
    lemma_apply_created(tree, project_node(id, name, group));
    assert(all.drop_last() =~= shell);
}

/// The patches of a pipeline's upsert, applied in their order, change a tree
/// in which the project has a node as the upsert does.
pub proof fn lemma_pipeline_patches_apply(tree: Seq<NodeView>, project: int, pipeline: int)
    requires
        present(tree, project_key(project)),
    ensures
        apply_all(tree, pipeline_patches(tree, project, pipeline)) == upsert_pipeline(
            tree,
            project,
            pipeline,
        ),
{
    let first = with_node(tree, pipeline_node(project, pipeline));
    let second = with_node(first, label_node(project, pipeline));
    let a = create_patches(tree, pipeline_node(project, pipeline));
    let b = create_patches(first, label_node(project, pipeline));
    let c = create_patches(second, time_node(project, pipeline));
    lemma_apply_created(tree, pipeline_node(project, pipeline));
    lemma_apply_created(first, label_node(project, pipeline));
    lemma_apply_created(second, time_node(project, pipeline));
    lemma_apply_all_concat(tree, a, b);
    lemma_apply_all_concat(tree, a + b, c);
}

/// The patches of a detail's upsert, applied in their order, change a tree in
/// which the pipeline has a node as the upsert does.
pub proof fn lemma_detail_patches_apply(
    tree: Seq<NodeView>,
    project: int,
    detail: PipelineDetailView,
)
    requires
        present(tree, pipeline_key(project, detail.id)),
    ensures
        apply_all(tree, detail_patches(project, detail)) == upsert_pipeline_detail(
            tree,
            project,
            detail,
        ),
{
    let patches = detail_patches(project, detail);
    let none = Seq::<PatchView>::empty();
    assert(patches =~= none.push(patches[0]).push(patches[1]).push(patches[2]));
    lemma_apply_all_push(tree, none, patches[0]);
    lemma_apply_all_push(tree, none.push(patches[0]), patches[1]);
    lemma_apply_all_push(tree, none.push(patches[0]).push(patches[1]), patches[2]);
}

/// The patches of a job's upsert, applied in their order, change a tree in
/// which the pipeline has a node as the upsert does.
pub proof fn lemma_job_patches_apply(
    tree: Seq<NodeView>,
    project: int,
    pipeline: int,
    job: JobView,
)
    requires
        present(tree, pipeline_key(project, pipeline)),
    ensures
        apply_all(tree, job_patches(tree, project, pipeline, job)) == upsert_job(
            tree,
            project,
            pipeline,
            job,
        ),
{
    let node = job_node(project, pipeline, job.name);
    let created = create_patches(tree, node);
    let content = PatchView::SetContent {
        key: job_key(project, pipeline, job.name),
        content: ContentView::Markup(job_markup(job)),
    };
    let class = PatchView::SetClass {
        key: job_key(project, pipeline, job.name),
        class: job_class(job.status),
    };
    lemma_apply_created(tree, node);
    lemma_apply_all_push(tree, created, content);
    lemma_apply_all_push(tree, created.push(content), class);
}

/// The patches of the upserts of a run of jobs, applied in their order,
/// change a well-formed tree in which the pipeline has a node as the upserts
/// do.
pub proof fn lemma_jobs_patches_apply(
    tree: Seq<NodeView>,
    project: int,
    pipeline: int,
    jobs: Seq<JobView>,
)
    requires
        well_formed(tree),
        present(tree, pipeline_key(project, pipeline)),
    ensures
        apply_all(tree, jobs_patches(tree, project, pipeline, jobs)) == upsert_jobs(
            tree,
            project,
            pipeline,
            jobs,
        ),
    decreases jobs.len(),
{
    if jobs.len() > 0 {
        let before = upsert_jobs(tree, project, pipeline, jobs.drop_last());
        lemma_jobs_patches_apply(tree, project, pipeline, jobs.drop_last());
        lemma_upsert_jobs_well_formed(tree, project, pipeline, jobs.drop_last());
        lemma_job_patches_apply(before, project, pipeline, jobs.last());
        lemma_apply_all_concat(
            tree,
            jobs_patches(tree, project, pipeline, jobs.drop_last()),
            job_patches(before, project, pipeline, jobs.last()),
        );
    }
}

} // verus!
