//! What stands under each key after an upsert: the node that the upsert is
//! about shows the latest state, with nothing stale left behind, and every
//! node under another key is as it was. An upsert whose parent has no node
//! changes nothing.

use crate::dom::{JobView, PipelineDetailView};
use crate::keys::{
    job_key, label_key, lemma_region_keys_apart, lemma_regions_apart, pipeline_key, project_key,
    time_key,
};
use crate::status::Status;
use crate::tree::{
    lemma_with_class, lemma_with_class_reads, lemma_with_content, lemma_with_content_reads,
    lemma_with_node_distinct, lemma_with_node_keys, lemma_with_node_reads, node_of, present,
    well_formed, with_class, with_content, with_node, ContentView, NodeView, PatchView,
};
use crate::upsert::{
    job_class, job_markup, job_node, label_text, pipeline_class, pipeline_patches, project_class,
    project_node, time_markup, upsert_job, upsert_pipeline, upsert_pipeline_detail, upsert_project,
};
use vstd::prelude::*;

verus! {

/// An upsert whose parent has no node changes nothing: a pipeline without its
/// project's node, a detail or a job without its pipeline's node.
pub proof fn lemma_precursor_missing(
    tree: Seq<NodeView>,
    project: int,
    pipeline: int,
    detail: PipelineDetailView,
    job: JobView,
)
    ensures
        !present(tree, project_key(project)) ==> upsert_pipeline(tree, project, pipeline) == tree,
        !present(tree, pipeline_key(project, detail.id)) ==> upsert_pipeline_detail(
            tree,
            project,
            detail,
        ) == tree,
        !present(tree, pipeline_key(project, pipeline)) ==> upsert_job(
            tree,
            project,
            pipeline,
            job,
        ) == tree,
{
}

/// On a well-formed tree the upsert of a pipeline that has a node changes
/// nothing and hands out no patch.
pub proof fn lemma_upsert_pipeline_again(tree: Seq<NodeView>, project: int, pipeline: int)
    requires
        well_formed(tree),
        present(tree, pipeline_key(project, pipeline)),
    ensures
        upsert_pipeline(tree, project, pipeline) == tree,
        pipeline_patches(tree, project, pipeline) == Seq::<PatchView>::empty(),
{
    assert(present(tree, label_key(project, pipeline)));
    assert(present(tree, time_key(project, pipeline)));
    assert(pipeline_patches(tree, project, pipeline) =~= Seq::<PatchView>::empty());
}

/// After the upsert of a project, the project's node shows the class of the
/// state of its most recent pipeline. It is otherwise the node that was
/// there, or the new one where there was none. Every node under another key
/// is as it was.
pub proof fn lemma_upsert_project_reads(
    tree: Seq<NodeView>,
    id: int,
    name: Seq<char>,
    group: Seq<char>,
    latest: Option<Status>,
)
    requires
        well_formed(tree),
    ensures
        present(upsert_project(tree, id, name, group, latest), project_key(id)),
        node_of(upsert_project(tree, id, name, group, latest), project_key(id)) == (NodeView {
            class: project_class(latest),
            ..if present(tree, project_key(id)) {
                node_of(tree, project_key(id))
            } else {
                project_node(id, name, group)
            }
        }),
        forall|read: Seq<char>|
            present(tree, read) && read != project_key(id) ==> #[trigger] node_of(
                upsert_project(tree, id, name, group, latest),
                read,
            ) == node_of(tree, read),
        forall|read: Seq<char>| #[trigger]
            present(upsert_project(tree, id, name, group, latest), read) <==> present(tree, read)
                || read == project_key(id),
{
    let node = project_node(id, name, group);
    let shell = with_node(tree, node);
    let class = project_class(latest);
    lemma_with_node_keys(tree, node);
    lemma_with_node_distinct(tree, node);
    lemma_with_class(shell, node.key, class);
    lemma_with_node_reads(tree, node, node.key);
    lemma_with_class_reads(shell, node.key, class, node.key);
    assert forall|read: Seq<char>| present(tree, read) && read != project_key(id) implies #[trigger] node_of(
        upsert_project(tree, id, name, group, latest),
        read,
    ) == node_of(tree, read) by {
        lemma_with_node_reads(tree, node, read);
        lemma_with_class_reads(shell, node.key, class, read);
    }
}

/// After the upsert of its detail, a pipeline's node shows the class of the
/// pipeline's state, its label region reads `#<id> / <ref>` and its time
/// region the clock mark and the duration. Nothing else changes: the three
/// nodes keep what else they had, and every node under another key is as it
/// was.
pub proof fn lemma_upsert_pipeline_detail_reads(
    tree: Seq<NodeView>,
    project: int,
    detail: PipelineDetailView,
)
    requires
        well_formed(tree),
        present(tree, pipeline_key(project, detail.id)),
    ensures
        present(tree, label_key(project, detail.id)),
        present(tree, time_key(project, detail.id)),
        node_of(upsert_pipeline_detail(tree, project, detail), pipeline_key(project, detail.id))
            == (NodeView {
            class: pipeline_class(detail.status),
            ..node_of(tree, pipeline_key(project, detail.id))
        }),
        node_of(upsert_pipeline_detail(tree, project, detail), label_key(project, detail.id)) == (
        NodeView {
            content: ContentView::Text(label_text(detail.id, detail.git_ref)),
            ..node_of(tree, label_key(project, detail.id))
        }),
        node_of(upsert_pipeline_detail(tree, project, detail), time_key(project, detail.id)) == (
        NodeView {
            content: ContentView::Markup(time_markup(detail.duration as nat)),
            ..node_of(tree, time_key(project, detail.id))
        }),
        forall|read: Seq<char>|
            present(tree, read) && read != pipeline_key(project, detail.id) && read != label_key(
                project,
                detail.id,
            ) && read != time_key(project, detail.id) ==> #[trigger] node_of(
                upsert_pipeline_detail(tree, project, detail),
                read,
            ) == node_of(tree, read),
{
    let own = pipeline_key(project, detail.id);
    let label = label_key(project, detail.id);
    let time = time_key(project, detail.id);
    let class = pipeline_class(detail.status);
    let text = ContentView::Text(label_text(detail.id, detail.git_ref));
    let clock = ContentView::Markup(time_markup(detail.duration as nat));
    let first = with_class(tree, own, class);
    let second = with_content(first, label, text);
    lemma_regions_apart(project, detail.id);
    lemma_region_keys_apart(project, detail.id, "label"@, 0, project, detail.id, Seq::empty());
    lemma_region_keys_apart(project, detail.id, "time"@, 0, project, detail.id, Seq::empty());
    lemma_with_class(tree, own, class);
    lemma_with_content(first, label, text);
    assert forall|read: Seq<char>| present(tree, read) implies #[trigger] node_of(
        upsert_pipeline_detail(tree, project, detail),
        read,
    ) == (if read == own {
        NodeView { class: class, ..node_of(tree, read) }
    } else if read == label {
        NodeView { content: text, ..node_of(tree, read) }
    } else if read == time {
        NodeView { content: clock, ..node_of(tree, read) }
    } else {
        node_of(tree, read)
    }) by {
        lemma_with_class_reads(tree, own, class, read);
        lemma_with_content_reads(first, label, text, read);
        lemma_with_content_reads(second, time, clock, read);
    }
}

/// After the upsert of a job whose pipeline has a node, the job's node shows
/// the icon and the name of the job and the class of its state. It is
/// otherwise the node that was there, or the new one where there was none.
/// Every node under another key is as it was.
pub proof fn lemma_upsert_job_reads(tree: Seq<NodeView>, project: int, pipeline: int, job: JobView)
    requires
        well_formed(tree),
        present(tree, pipeline_key(project, pipeline)),
    ensures
        present(upsert_job(tree, project, pipeline, job), job_key(project, pipeline, job.name)),
        node_of(upsert_job(tree, project, pipeline, job), job_key(project, pipeline, job.name))
            == (NodeView {
            class: job_class(job.status),
            content: ContentView::Markup(job_markup(job)),
            ..if present(tree, job_key(project, pipeline, job.name)) {
                node_of(tree, job_key(project, pipeline, job.name))
            } else {
                job_node(project, pipeline, job.name)
            }
        }),
        forall|read: Seq<char>|
            present(tree, read) && read != job_key(project, pipeline, job.name)
                ==> #[trigger] node_of(upsert_job(tree, project, pipeline, job), read) == node_of(
                tree,
                read,
            ),
{
    let node = job_node(project, pipeline, job.name);
    let content = ContentView::Markup(job_markup(job));
    let class = job_class(job.status);
    let first = with_node(tree, node);
    let second = with_content(first, node.key, content);
    lemma_with_node_keys(tree, node);
    lemma_with_node_distinct(tree, node);
    lemma_with_content(first, node.key, content);
    lemma_with_class(second, node.key, class);
    assert forall|read: Seq<char>| present(first, read) implies #[trigger] node_of(
        upsert_job(tree, project, pipeline, job),
        read,
    ) == (if read == node.key {
        NodeView { class: class, content: content, ..node_of(first, read) }
    } else {
        node_of(first, read)
    }) by {
        lemma_with_content_reads(first, node.key, content, read);
        lemma_with_class_reads(second, node.key, class, read);
    }
    assert forall|read: Seq<char>| present(first, read) implies #[trigger] node_of(first, read)
        == (if present(tree, read) {
        node_of(tree, read)
    } else {
        node
    }) by {
        lemma_with_node_reads(tree, node, read);
    }
    assert(present(first, node.key));
}

} // verus!
