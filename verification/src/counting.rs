//! No two nodes share a key, whatever upserts are done, in whatever order
//! and however often: the tree has as many nodes as it has keys. And no node
//! is ever taken away.

use crate::dom::{JobView, PipelineDetailView};
use crate::keys::{lemma_project_key_injective, project_key};
use crate::reading::lemma_upsert_project_reads;
use crate::status::Status;
use crate::tree::{
    keys_of, lemma_as_many_nodes_as_keys, lemma_nothing_lost, lemma_with_node_keys, nothing_lost,
    present, well_formed, with_node, NodeView,
};
use crate::upsert::{
    job_node, label_node, lemma_upsert_job_well_formed, lemma_upsert_pipeline_detail_well_formed,
    lemma_upsert_pipeline_well_formed, lemma_upsert_project_well_formed, pipeline_node,
    project_node, time_node, upsert_job, upsert_pipeline, upsert_pipeline_detail, upsert_project,
};
use vstd::prelude::*;

verus! {

/// One upsert, with its arguments.
pub enum Upsert {
    Project { id: int, name: Seq<char>, group: Seq<char>, latest: Option<Status> },
    Pipeline { project: int, pipeline: int },
    Detail { project: int, detail: PipelineDetailView },
    Job { project: int, pipeline: int, job: JobView },
}

/// The tree after one upsert.
pub open spec fn upsert(tree: Seq<NodeView>, step: Upsert) -> Seq<NodeView> {
    match step {
        Upsert::Project { id, name, group, latest } => upsert_project(
            tree,
            id,
            name,
            group,
            latest,
        ),
        Upsert::Pipeline { project, pipeline } => upsert_pipeline(tree, project, pipeline),
        Upsert::Detail { project, detail } => upsert_pipeline_detail(tree, project, detail),
        Upsert::Job { project, pipeline, job } => upsert_job(tree, project, pipeline, job),
    }
}

/// The tree after a run of upserts, the first of them done first.
pub open spec fn upsert_all(tree: Seq<NodeView>, steps: Seq<Upsert>) -> Seq<NodeView>
    decreases steps.len(),
{
    if steps.len() == 0 {
        tree
    } else {
        upsert(upsert_all(tree, steps.drop_last()), steps.last())
    }
}

/// One upsert leaves a well-formed tree well-formed and takes no node away:
/// the nodes that were there keep their places and their keys.
pub proof fn lemma_upsert_keeps(tree: Seq<NodeView>, step: Upsert)
    requires
        well_formed(tree),
    ensures
        well_formed(upsert(tree, step)),
        tree.len() <= upsert(tree, step).len(),
        forall|i: int| 0 <= i < tree.len() ==> (#[trigger] upsert(tree, step)[i]).key == tree[i].key,
        nothing_lost(tree, upsert(tree, step)),
{
    lemma_upsert_keeps_places(tree, step);
    lemma_nothing_lost(tree, upsert(tree, step));
}

proof fn lemma_upsert_keeps_places(tree: Seq<NodeView>, step: Upsert)
    requires
        well_formed(tree),
    ensures
        well_formed(upsert(tree, step)),
        tree.len() <= upsert(tree, step).len(),
        forall|i: int| 0 <= i < tree.len() ==> (#[trigger] upsert(tree, step)[i]).key == tree[i].key,
{
    match step {
        Upsert::Project { id, name, group, latest } => {
            lemma_upsert_project_well_formed(tree, id, name, group, latest);
            lemma_with_node_keys(tree, project_node(id, name, group));
        },
        Upsert::Pipeline { project, pipeline } => {
            lemma_upsert_pipeline_well_formed(tree, project, pipeline);
            let first = with_node(tree, pipeline_node(project, pipeline));
            let second = with_node(first, label_node(project, pipeline));
            lemma_with_node_keys(tree, pipeline_node(project, pipeline));
            lemma_with_node_keys(first, label_node(project, pipeline));
            lemma_with_node_keys(second, time_node(project, pipeline));
        },
        Upsert::Detail { project, detail } => {
            lemma_upsert_pipeline_detail_well_formed(tree, project, detail);
        },
        Upsert::Job { project, pipeline, job } => {
            lemma_upsert_job_well_formed(tree, project, pipeline, job);
            lemma_with_node_keys(tree, job_node(project, pipeline, job.name));
        },
    }
}

/// Whatever upserts are done, in whatever order and however often, no two
/// nodes share a key: there are as many nodes as there are different keys.
/// And no node is ever taken away.
pub proof fn lemma_no_duplication(tree: Seq<NodeView>, steps: Seq<Upsert>)
    requires
        well_formed(tree),
    ensures
        well_formed(upsert_all(tree, steps)),
        keys_of(upsert_all(tree, steps)).no_duplicates(),
        keys_of(upsert_all(tree, steps)).to_set().len() == upsert_all(tree, steps).len(),
        tree.len() <= upsert_all(tree, steps).len(),
        forall|i: int|
            0 <= i < tree.len() ==> (#[trigger] upsert_all(tree, steps)[i]).key == tree[i].key,
        nothing_lost(tree, upsert_all(tree, steps)),
    decreases steps.len(),
{
    if steps.len() > 0 {
        let before = upsert_all(tree, steps.drop_last());
        lemma_no_duplication(tree, steps.drop_last());
        lemma_upsert_keeps(before, steps.last());
        assert forall|i: int| 0 <= i < tree.len() implies (#[trigger] upsert_all(tree, steps)[i]).key
            == tree[i].key by {
            assert(before[i].key == tree[i].key);
        }
    }
    lemma_as_many_nodes_as_keys(upsert_all(tree, steps));
    lemma_nothing_lost(tree, upsert_all(tree, steps));
}

/// Whatever upserts are done, as many nodes are made as there are keys that
/// were not there before: a key that comes again makes no second node.
pub proof fn lemma_one_node_per_new_key(tree: Seq<NodeView>, steps: Seq<Upsert>)
    requires
        well_formed(tree),
    ensures
        keys_of(tree).to_set().subset_of(keys_of(upsert_all(tree, steps)).to_set()),
        upsert_all(tree, steps).len() - tree.len() == keys_of(
            upsert_all(tree, steps),
        ).to_set().difference(keys_of(tree).to_set()).len(),
{
    let after = upsert_all(tree, steps);
    let old_keys = keys_of(tree).to_set();
    let new_keys = keys_of(after).to_set();
    lemma_no_duplication(tree, steps);
    lemma_as_many_nodes_as_keys(tree);
    lemma_as_many_nodes_as_keys(after);
    assert forall|key: Seq<char>| old_keys.contains(key) implies new_keys.contains(key) by {
        assert(present(tree, key));
        let i = choose|i: int| 0 <= i < tree.len() && (#[trigger] tree[i]).key == key;
        assert(after[i].key == key);
        assert(present(after, key));
    }
    assert(new_keys.intersect(old_keys) =~= old_keys);
    vstd::seq_lib::seq_to_set_is_finite(keys_of(tree));
    vstd::seq_lib::seq_to_set_is_finite(keys_of(after));
    vstd::set_lib::lemma_set_difference_len(new_keys, old_keys);
}

/// The numbers of the projects that a run of project upserts names.
pub open spec fn project_ids(steps: Seq<Upsert>) -> Seq<int> {
    steps.map_values(|step: Upsert| step->id)
}

/// Starting from no node, a run of project upserts makes one node for each
/// project among them, however often and in whatever order the projects are
/// named.
pub proof fn lemma_one_node_per_project(steps: Seq<Upsert>)
    requires
        forall|i: int| 0 <= i < steps.len() ==> #[trigger] steps[i] is Project,
    ensures
        upsert_all(Seq::empty(), steps).len() == project_ids(steps).to_set().len(),
        forall|key: Seq<char>|
            present(upsert_all(Seq::empty(), steps), key) <==> exists|id: int|
                project_ids(steps).to_set().contains(id) && key == #[trigger] project_key(id),
    decreases steps.len(),
{
    let none = Seq::<NodeView>::empty();
    let after = upsert_all(none, steps);
    let ids = project_ids(steps);
    if steps.len() == 0 {
        assert(ids.to_set() =~= Set::<int>::empty());
    } else {
        let earlier = steps.drop_last();
        let before = upsert_all(none, earlier);
        let seen = project_ids(earlier);
        lemma_one_node_per_project(earlier);
        lemma_no_duplication(none, earlier);
        match steps.last() {
            Upsert::Project { id, name, group, latest } => {
                lemma_upsert_project_reads(before, id, name, group, latest);
                lemma_with_node_keys(before, project_node(id, name, group));
                assert(ids =~= seen.push(id));
                assert(ids.to_set() =~= seen.to_set().insert(id)) by {
                    assert forall|x: int| ids.to_set().contains(x) <==> seen.to_set().insert(
                        id,
                    ).contains(x) by {
                        if seen.contains(x) {
                            let i = choose|i: int| 0 <= i < seen.len() && seen[i] == x;
                            assert(ids[i] == x);
                        }
                        if x == id {
                            assert(ids[seen.len() as int] == x);
                        }
                        if ids.contains(x) {
                            let i = choose|i: int| 0 <= i < ids.len() && ids[i] == x;
                            if i < seen.len() {
                                assert(seen[i] == x);
                            }
                        }
                    }
                }
                vstd::seq_lib::seq_to_set_is_finite(seen);
                if present(before, project_key(id)) {
                    let other = choose|other: int|
                        seen.to_set().contains(other) && project_key(id) == #[trigger] project_key(
                            other,
                        );
                    lemma_project_key_injective(id, other);
                    assert(seen.to_set().insert(id) =~= seen.to_set());
                } else {
                    if seen.to_set().contains(id) {
                        assert(present(before, project_key(id)));
                    }
                }
                assert(after.len() == with_node(before, project_node(id, name, group)).len());
            },
            _ => {
                assert(steps[steps.len() - 1] is Project);
            },
        }
    }
}

} // verus!
