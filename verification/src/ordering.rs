//! Upserts under different keys may land in either order: the trees then
//! show the same under every key, and differ at most in the order of their
//! nodes.

use crate::dom::JobView;
use crate::keys::{
    job_key, lemma_key_levels_apart, lemma_project_key_injective, pipeline_key, project_key,
};
use crate::reading::{lemma_upsert_job_reads, lemma_upsert_project_reads};
use crate::status::Status;
use crate::tree::{node_of, present, well_formed, NodeView};
use crate::upsert::{
    lemma_upsert_job_well_formed, lemma_upsert_project_well_formed, upsert_job, upsert_project,
};
use vstd::prelude::*;

verus! {

/// Two trees that show the same: the same keys have nodes, and under each key
/// stands the same node. The order of the nodes may differ.
pub open spec fn same_nodes(a: Seq<NodeView>, b: Seq<NodeView>) -> bool {
    forall|key: Seq<char>|
        #![trigger present(a, key)]
        #![trigger present(b, key)]
        present(a, key) == present(b, key) && (present(a, key) ==> node_of(a, key) == node_of(
            b,
            key,
        ))
}

/// Two projects may be upserted in either order: the trees show the same.
pub proof fn lemma_project_upserts_commute(
    tree: Seq<NodeView>,
    id: int,
    name: Seq<char>,
    group: Seq<char>,
    latest: Option<Status>,
    other_id: int,
    other_name: Seq<char>,
    other_group: Seq<char>,
    other_latest: Option<Status>,
)
    requires
        well_formed(tree),
        id != other_id,
    ensures
        same_nodes(
            upsert_project(
                upsert_project(tree, id, name, group, latest),
                other_id,
                other_name,
                other_group,
                other_latest,
            ),
            upsert_project(
                upsert_project(tree, other_id, other_name, other_group, other_latest),
                id,
                name,
                group,
                latest,
            ),
        ),
{
    let first = upsert_project(tree, id, name, group, latest);
    let second = upsert_project(tree, other_id, other_name, other_group, other_latest);
    let one = upsert_project(first, other_id, other_name, other_group, other_latest);
    let two = upsert_project(second, id, name, group, latest);
    if project_key(id) == project_key(other_id) {
        lemma_project_key_injective(id, other_id);
    }
    lemma_upsert_project_well_formed(tree, id, name, group, latest);
    lemma_upsert_project_well_formed(tree, other_id, other_name, other_group, other_latest);
    lemma_upsert_project_reads(tree, id, name, group, latest);
    lemma_upsert_project_reads(tree, other_id, other_name, other_group, other_latest);
    lemma_upsert_project_reads(first, other_id, other_name, other_group, other_latest);
    lemma_upsert_project_reads(second, id, name, group, latest);
    assert forall|key: Seq<char>|
        #![trigger present(one, key)]
        #![trigger present(two, key)]
        present(one, key) == present(two, key) && (present(one, key) ==> node_of(one, key)
            == node_of(two, key)) by {
        assert(present(first, key) <==> present(tree, key) || key == project_key(id));
        assert(present(second, key) <==> present(tree, key) || key == project_key(other_id));
        assert(present(one, key) <==> present(first, key) || key == project_key(other_id));
        assert(present(two, key) <==> present(second, key) || key == project_key(id));
        if present(one, key) {
            if key == project_key(id) {
                assert(node_of(one, key) == node_of(first, key));
                if present(tree, key) {
                    assert(node_of(second, key) == node_of(tree, key));
                }
            } else if key == project_key(other_id) {
                assert(node_of(two, key) == node_of(second, key));
                if present(tree, key) {
                    assert(node_of(first, key) == node_of(tree, key));
                }
            } else {
                assert(node_of(one, key) == node_of(first, key));
                assert(node_of(first, key) == node_of(tree, key));
                assert(node_of(two, key) == node_of(second, key));
                assert(node_of(second, key) == node_of(tree, key));
            }
        }
    }
}

/// Two jobs under different keys may be upserted in either order: the trees
/// show the same.
pub proof fn lemma_job_upserts_commute(
    tree: Seq<NodeView>,
    project: int,
    pipeline: int,
    job: JobView,
    other_project: int,
    other_pipeline: int,
    other_job: JobView,
)
    requires
        well_formed(tree),
        job_key(project, pipeline, job.name) != job_key(
            other_project,
            other_pipeline,
            other_job.name,
        ),
    ensures
        same_nodes(
            upsert_job(
                upsert_job(tree, project, pipeline, job),
                other_project,
                other_pipeline,
                other_job,
            ),
            upsert_job(
                upsert_job(tree, other_project, other_pipeline, other_job),
                project,
                pipeline,
                job,
            ),
        ),
{
    let first = upsert_job(tree, project, pipeline, job);
    let second = upsert_job(tree, other_project, other_pipeline, other_job);
    let one = upsert_job(first, other_project, other_pipeline, other_job);
    let two = upsert_job(second, project, pipeline, job);
    let own = job_key(project, pipeline, job.name);
    let other = job_key(other_project, other_pipeline, other_job.name);
    let above = pipeline_key(project, pipeline);
    let other_above = pipeline_key(other_project, other_pipeline);
    lemma_key_levels_apart(0, project, pipeline, other_project, other_pipeline, other_job.name);
    lemma_key_levels_apart(0, other_project, other_pipeline, project, pipeline, job.name);
    lemma_upsert_job_well_formed(tree, project, pipeline, job);
    lemma_upsert_job_well_formed(tree, other_project, other_pipeline, other_job);
    lemma_upsert_job_well_formed(first, other_project, other_pipeline, other_job);
    lemma_upsert_job_well_formed(second, project, pipeline, job);
    assert(present(first, other_above) == present(tree, other_above));
    assert(present(second, above) == present(tree, above));
    if present(tree, above) {
        lemma_upsert_job_reads(tree, project, pipeline, job);
        lemma_upsert_job_reads(second, project, pipeline, job);
    }
    if present(tree, other_above) {
        lemma_upsert_job_reads(tree, other_project, other_pipeline, other_job);
        lemma_upsert_job_reads(first, other_project, other_pipeline, other_job);
    }
    assert forall|key: Seq<char>|
        #![trigger present(one, key)]
        #![trigger present(two, key)]
        present(one, key) == present(two, key) && (present(one, key) ==> node_of(one, key)
            == node_of(two, key)) by {
        assert(present(first, key) <==> present(tree, key) || (present(tree, above) && key == own));
        assert(present(second, key) <==> present(tree, key) || (present(tree, other_above) && key
            == other));
        assert(present(one, key) <==> present(first, key) || (present(first, other_above) && key
            == other));
        assert(present(two, key) <==> present(second, key) || (present(second, above) && key
            == own));
        if present(one, key) {
            if present(tree, above) && key == own {
                assert(present(first, key));
                if present(tree, other_above) {
                    assert(node_of(one, key) == node_of(first, key));
                    if present(tree, key) {
                        assert(node_of(second, key) == node_of(tree, key));
                    }
                }
            } else if present(tree, other_above) && key == other {
                assert(present(second, key));
                if present(tree, above) {
                    assert(node_of(two, key) == node_of(second, key));
                    if present(tree, key) {
                        assert(node_of(first, key) == node_of(tree, key));
                    }
                }
            } else {
                assert(present(tree, key));
                if present(tree, above) {
                    assert(node_of(first, key) == node_of(tree, key));
                    assert(node_of(two, key) == node_of(second, key));
                }
                if present(tree, other_above) {
                    assert(node_of(second, key) == node_of(tree, key));
                    assert(node_of(one, key) == node_of(first, key));
                }
            }
        }
    }
}

} // verus!
