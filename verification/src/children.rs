//! The job nodes under a pipeline: the upserts of jobs make one node for each
//! name that had none, in the order in which the names first come, and change
//! no node but those of the jobs that they name.

use crate::dom::JobView;
use crate::idempotence::overlaid;
use crate::keys::{
    job_key, label_key, lemma_job_key_injective, lemma_key_levels_apart,
    lemma_pipeline_key_injective, lemma_region_keys_apart, lemma_root_is_no_key, pipeline_key,
    project_key, root_key, time_key,
};
use crate::text::int_text;
use crate::reading::lemma_upsert_job_reads;
use crate::tree::{
    keys_of, lemma_nothing_lost, lemma_with_class, lemma_with_content, lemma_with_node_keys,
    node_of, nothing_lost, placed, position, present, well_formed, with_content, with_node,
    ContentView, NodeView,
};
use crate::upsert::{
    job_class, job_markup, job_node, lemma_jobs_without_pipeline, lemma_upsert_job_well_formed,
    lemma_upsert_jobs_well_formed, upsert_job, upsert_jobs,
};
use vstd::prelude::*;

verus! {

/// The names of a run of jobs, in the order of the run.
pub open spec fn job_names(jobs: Seq<JobView>) -> Seq<Seq<char>> {
    jobs.map_values(|job: JobView| job.name)
}

/// Whether a key is the key of a job of this pipeline.
pub open spec fn names_job_of(key: Seq<char>, project: int, pipeline: int) -> bool {
    exists|name: Seq<char>| key == #[trigger] job_key(project, pipeline, name)
}

/// Those of a run of keys that are keys of jobs of this pipeline, in the
/// order of the run.
pub open spec fn job_keys_among(keys: Seq<Seq<char>>, project: int, pipeline: int) -> Seq<
    Seq<char>,
>
    decreases keys.len(),
{
    if keys.len() == 0 {
        Seq::empty()
    } else if names_job_of(keys.last(), project, pipeline) {
        job_keys_among(keys.drop_last(), project, pipeline).push(keys.last())
    } else {
        job_keys_among(keys.drop_last(), project, pipeline)
    }
}

/// The keys of the job nodes of this pipeline, in the order of the nodes.
pub open spec fn job_keys(tree: Seq<NodeView>, project: int, pipeline: int) -> Seq<Seq<char>> {
    job_keys_among(keys_of(tree), project, pipeline)
}

/// The keys of the jobs of a run that have no node in the tree, each once, in
/// the order in which they first come in the run.
pub open spec fn new_job_keys(
    tree: Seq<NodeView>,
    project: int,
    pipeline: int,
    jobs: Seq<JobView>,
) -> Seq<Seq<char>>
    decreases jobs.len(),
{
    if jobs.len() == 0 {
        Seq::empty()
    } else {
        let earlier = new_job_keys(tree, project, pipeline, jobs.drop_last());
        let key = job_key(project, pipeline, jobs.last().name);
        if present(tree, key) || earlier.contains(key) {
            earlier
        } else {
            earlier.push(key)
        }
    }
}

/// The names of the jobs of a run that have no node in the tree.
pub open spec fn new_job_names(
    tree: Seq<NodeView>,
    project: int,
    pipeline: int,
    jobs: Seq<JobView>,
) -> Set<Seq<char>> {
    Set::new(
        |name: Seq<char>|
            job_names(jobs).contains(name) && !present(tree, job_key(project, pipeline, name)),
    )
}

/// A key has a node where it is among the keys of the tree.
pub proof fn lemma_present_among_keys(tree: Seq<NodeView>, key: Seq<char>)
    ensures
        present(tree, key) <==> keys_of(tree).contains(key),
{
    if present(tree, key) {
        let i = choose|i: int| 0 <= i < tree.len() && (#[trigger] tree[i]).key == key;
        assert(keys_of(tree)[i] == key);
    }
    if keys_of(tree).contains(key) {
        let i = choose|i: int| 0 <= i < keys_of(tree).len() && keys_of(tree)[i] == key;
        assert(tree[i].key == key);
    }
}

/// The upsert of a job whose pipeline has a node keeps the keys of the tree
/// in their places and adds the job's key at the end where it had no node.
pub proof fn lemma_upsert_job_keys(tree: Seq<NodeView>, project: int, pipeline: int, job: JobView)
    requires
        present(tree, pipeline_key(project, pipeline)),
    ensures
        keys_of(upsert_job(tree, project, pipeline, job)) == if present(
            tree,
            job_key(project, pipeline, job.name),
        ) {
            keys_of(tree)
        } else {
            keys_of(tree).push(job_key(project, pipeline, job.name))
        },
{
    let node = job_node(project, pipeline, job.name);
    let first = with_node(tree, node);
    let second = with_content(first, node.key, ContentView::Markup(job_markup(job)));
    let after = upsert_job(tree, project, pipeline, job);
    lemma_with_node_keys(tree, node);
    lemma_with_content(first, node.key, ContentView::Markup(job_markup(job)));
    lemma_with_class(second, node.key, job_class(job.status));
    assert(keys_of(after) =~= keys_of(first));
    if present(tree, node.key) {
    } else {
        assert(keys_of(first) =~= keys_of(tree).push(node.key));
    }
}

/// The upserts of a run of jobs whose pipeline has a node keep the keys of
/// the tree in their places and add, at the end, the keys of the jobs that had
/// no node: each once, in the order in which they first come in the run.
pub proof fn lemma_upsert_jobs_keys(
    tree: Seq<NodeView>,
    project: int,
    pipeline: int,
    jobs: Seq<JobView>,
)
    requires
        present(tree, pipeline_key(project, pipeline)),
    ensures
        keys_of(upsert_jobs(tree, project, pipeline, jobs)) == keys_of(tree) + new_job_keys(
            tree,
            project,
            pipeline,
            jobs,
        ),
        present(upsert_jobs(tree, project, pipeline, jobs), pipeline_key(project, pipeline)),
    decreases jobs.len(),
{
    let after = upsert_jobs(tree, project, pipeline, jobs);
    if jobs.len() == 0 {
        assert(keys_of(after) =~= keys_of(tree) + new_job_keys(tree, project, pipeline, jobs));
    } else {
        let earlier = jobs.drop_last();
        let before = upsert_jobs(tree, project, pipeline, earlier);
        let key = job_key(project, pipeline, jobs.last().name);
        let made = new_job_keys(tree, project, pipeline, earlier);
        lemma_upsert_jobs_keys(tree, project, pipeline, earlier);
        lemma_upsert_job_keys(before, project, pipeline, jobs.last());
        lemma_present_among_keys(before, key);
        lemma_present_among_keys(tree, key);
        assert(keys_of(before).contains(key) <==> keys_of(tree).contains(key) || made.contains(
            key,
        )) by {
            if keys_of(before).contains(key) {
                let i = choose|i: int| 0 <= i < keys_of(before).len() && keys_of(before)[i] == key;
                if i < keys_of(tree).len() {
                    assert(keys_of(tree)[i] == key);
                } else {
                    assert(made[i - keys_of(tree).len()] == key);
                }
            }
            if keys_of(tree).contains(key) {
                let i = choose|i: int| 0 <= i < keys_of(tree).len() && keys_of(tree)[i] == key;
                assert(keys_of(before)[i] == key);
            }
            if made.contains(key) {
                let i = choose|i: int| 0 <= i < made.len() && made[i] == key;
                assert(keys_of(before)[keys_of(tree).len() + i] == key);
            }
        }
        assert(keys_of(after) =~= keys_of(tree) + new_job_keys(tree, project, pipeline, jobs));
        lemma_present_among_keys(after, pipeline_key(project, pipeline));
        lemma_present_among_keys(before, pipeline_key(project, pipeline));
        if present(before, key) {
        } else {
            let i = choose|i: int|
                0 <= i < keys_of(before).len() && keys_of(before)[i] == pipeline_key(
                    project,
                    pipeline,
                );
            assert(keys_of(after)[i] == pipeline_key(project, pipeline));
        }
    }
}

/// The upserts of a run of jobs take no node away and move none.
pub proof fn lemma_upsert_jobs_lose_nothing(
    tree: Seq<NodeView>,
    project: int,
    pipeline: int,
    jobs: Seq<JobView>,
)
    ensures
        nothing_lost(tree, upsert_jobs(tree, project, pipeline, jobs)),
{
    let after = upsert_jobs(tree, project, pipeline, jobs);
    if present(tree, pipeline_key(project, pipeline)) {
        lemma_upsert_jobs_keys(tree, project, pipeline, jobs);
        assert(keys_of(after).len() == after.len());
        assert forall|i: int| 0 <= i < tree.len() implies (#[trigger] after[i]).key
            == tree[i].key by {
            assert(keys_of(after)[i] == keys_of(tree)[i]);
        }
    } else {
        lemma_jobs_without_pipeline(tree, project, pipeline, jobs);
    }
    lemma_nothing_lost(tree, after);
}

/// What the new keys of a run are: keys of jobs of the pipeline, no two the
/// same, one for each name of the run that had no node.
pub proof fn lemma_new_job_keys(tree: Seq<NodeView>, project: int, pipeline: int, jobs: Seq<JobView>)
    ensures
        forall|i: int|
            0 <= i < new_job_keys(tree, project, pipeline, jobs).len() ==> names_job_of(
                #[trigger] new_job_keys(tree, project, pipeline, jobs)[i],
                project,
                pipeline,
            ),
        new_job_keys(tree, project, pipeline, jobs).no_duplicates(),
        forall|name: Seq<char>|
            new_job_names(tree, project, pipeline, jobs).contains(name) <==> new_job_keys(
                tree,
                project,
                pipeline,
                jobs,
            ).contains(#[trigger] job_key(project, pipeline, name)),
        new_job_names(tree, project, pipeline, jobs).finite(),
        new_job_keys(tree, project, pipeline, jobs).len() == new_job_names(
            tree,
            project,
            pipeline,
            jobs,
        ).len(),
    decreases jobs.len(),
{
    let made = new_job_keys(tree, project, pipeline, jobs);
    let names = new_job_names(tree, project, pipeline, jobs);
    if jobs.len() == 0 {
        assert(names =~= Set::<Seq<char>>::empty());
    } else {
        let earlier = jobs.drop_last();
        let last = jobs.last().name;
        let key = job_key(project, pipeline, last);
        let made_before = new_job_keys(tree, project, pipeline, earlier);
        let names_before = new_job_names(tree, project, pipeline, earlier);
        lemma_new_job_keys(tree, project, pipeline, earlier);
        assert(job_names(jobs) =~= job_names(earlier).push(last));
        assert forall|name: Seq<char>| job_names(jobs).contains(name) <==> job_names(
            earlier,
        ).contains(name) || name == last by {
            if job_names(earlier).contains(name) {
                let i = choose|i: int|
                    0 <= i < job_names(earlier).len() && job_names(earlier)[i] == name;
                assert(job_names(jobs)[i] == name);
            }
            if name == last {
                assert(job_names(jobs)[earlier.len() as int] == name);
            }
        }
        let grows = !present(tree, key) && !made_before.contains(key);
        if grows {
            assert(!names_before.contains(last));
            assert(names =~= names_before.insert(last));
            assert(made[made_before.len() as int] == key);
        } else {
            assert(names =~= names_before);
        }
        assert forall|name: Seq<char>| names.contains(name) <==> made.contains(
            #[trigger] job_key(project, pipeline, name),
        ) by {
            let other = job_key(project, pipeline, name);
            if other == key {
                lemma_job_key_injective(project, pipeline, name, project, pipeline, last);
            }
            if made_before.contains(other) {
                let i = choose|i: int| 0 <= i < made_before.len() && made_before[i] == other;
                assert(made[i] == other);
            }
            if made.contains(other) && other != key {
                let i = choose|i: int| 0 <= i < made.len() && made[i] == other;
                assert(made_before[i] == other);
            }
        }
    }
}

/// Where the keys that come after are all keys of jobs of the pipeline, they
/// are the job keys that come after.
pub proof fn lemma_job_keys_among_add(
    keys: Seq<Seq<char>>,
    more: Seq<Seq<char>>,
    project: int,
    pipeline: int,
)
    requires
        forall|i: int| 0 <= i < more.len() ==> names_job_of(#[trigger] more[i], project, pipeline),
    ensures
        job_keys_among(keys + more, project, pipeline) == job_keys_among(keys, project, pipeline)
            + more,
    decreases more.len(),
{
    if more.len() == 0 {
        assert(keys + more =~= keys);
        assert(job_keys_among(keys, project, pipeline) + more =~= job_keys_among(
            keys,
            project,
            pipeline,
        ));
    } else {
        lemma_job_keys_among_add(keys, more.drop_last(), project, pipeline);
        assert((keys + more).drop_last() =~= keys + more.drop_last());
        assert((keys + more).last() == more.last());
        assert(names_job_of(more[more.len() - 1], project, pipeline));
        assert(job_keys_among(keys, project, pipeline) + more =~= (job_keys_among(
            keys,
            project,
            pipeline,
        ) + more.drop_last()).push(more.last()));
    }
}

/// After the upserts of a run of jobs whose pipeline has a node, the job
/// nodes of the pipeline are those that were there, in their order, followed
/// by one for each name of the run that had none, in the order in which the
/// names first come.
pub proof fn lemma_job_nodes_grow(
    tree: Seq<NodeView>,
    project: int,
    pipeline: int,
    jobs: Seq<JobView>,
)
    requires
        present(tree, pipeline_key(project, pipeline)),
    ensures
        job_keys(upsert_jobs(tree, project, pipeline, jobs), project, pipeline) == job_keys(
            tree,
            project,
            pipeline,
        ) + new_job_keys(tree, project, pipeline, jobs),
        upsert_jobs(tree, project, pipeline, jobs).len() == tree.len() + new_job_names(
            tree,
            project,
            pipeline,
            jobs,
        ).len(),
{
    lemma_upsert_jobs_keys(tree, project, pipeline, jobs);
    lemma_new_job_keys(tree, project, pipeline, jobs);
    lemma_job_keys_among_add(
        keys_of(tree),
        new_job_keys(tree, project, pipeline, jobs),
        project,
        pipeline,
    );
    assert(keys_of(upsert_jobs(tree, project, pipeline, jobs)).len() == upsert_jobs(
        tree,
        project,
        pipeline,
        jobs,
    ).len());
    assert(keys_of(tree).len() == tree.len());
}

/// Under a pipeline that has a node and no job node yet, the upserts of a run
/// of jobs make as many job nodes as there are different names in the run,
/// however often and in whatever order the names come.
pub proof fn lemma_one_node_per_job(
    tree: Seq<NodeView>,
    project: int,
    pipeline: int,
    jobs: Seq<JobView>,
)
    requires
        present(tree, pipeline_key(project, pipeline)),
        forall|name: Seq<char>| !present(tree, #[trigger] job_key(project, pipeline, name)),
    ensures
        job_keys(upsert_jobs(tree, project, pipeline, jobs), project, pipeline).len() == job_names(
            jobs,
        ).to_set().len(),
        upsert_jobs(tree, project, pipeline, jobs).len() == tree.len() + job_names(
            jobs,
        ).to_set().len(),
{
    lemma_job_nodes_grow(tree, project, pipeline, jobs);
    lemma_no_job_keys(keys_of(tree), project, pipeline);
    assert forall|i: int| 0 <= i < keys_of(tree).len() implies !names_job_of(
        #[trigger] keys_of(tree)[i],
        project,
        pipeline,
    ) by {
        if names_job_of(keys_of(tree)[i], project, pipeline) {
            let name = choose|name: Seq<char>|
                keys_of(tree)[i] == #[trigger] job_key(project, pipeline, name);
            assert(tree[i].key == job_key(project, pipeline, name));
            assert(present(tree, job_key(project, pipeline, name)));
        }
    }
    assert(new_job_names(tree, project, pipeline, jobs) =~= job_names(jobs).to_set());
    lemma_new_job_keys(tree, project, pipeline, jobs);
}

/// A run of keys none of which is the key of a job of the pipeline has no job
/// key among it.
proof fn lemma_no_job_keys(keys: Seq<Seq<char>>, project: int, pipeline: int)
    ensures
        (forall|i: int|
            0 <= i < keys.len() ==> !names_job_of(#[trigger] keys[i], project, pipeline))
            ==> job_keys_among(keys, project, pipeline) == Seq::<Seq<char>>::empty(),
    decreases keys.len(),
{
    if keys.len() > 0 {
        lemma_no_job_keys(keys.drop_last(), project, pipeline);
        if forall|i: int|
            0 <= i < keys.len() ==> !names_job_of(#[trigger] keys[i], project, pipeline) {
            assert forall|i: int| 0 <= i < keys.drop_last().len() implies !names_job_of(
                #[trigger] keys.drop_last()[i],
                project,
                pipeline,
            ) by {
                assert(keys.drop_last()[i] == keys[i]);
            }
            assert(!names_job_of(keys[keys.len() - 1], project, pipeline));
        }
    }
}

/// Upserting one run of jobs and then another is upserting the two as one
/// run: what holds of one call of the batch holds of any number of calls.
pub proof fn lemma_upsert_jobs_concat(
    tree: Seq<NodeView>,
    project: int,
    pipeline: int,
    first: Seq<JobView>,
    second: Seq<JobView>,
)
    ensures
        upsert_jobs(upsert_jobs(tree, project, pipeline, first), project, pipeline, second)
            == upsert_jobs(tree, project, pipeline, first + second),
    decreases second.len(),
{
    if second.len() == 0 {
        assert(first + second =~= first);
    } else {
        lemma_upsert_jobs_concat(tree, project, pipeline, first, second.drop_last());
        assert((first + second).drop_last() =~= first + second.drop_last());
        assert((first + second).last() == second.last());
    }
}

/// A node that no job of a run has the key of is left as it is by the run.
pub proof fn lemma_overlaid_untouched(
    node: NodeView,
    project: int,
    pipeline: int,
    jobs: Seq<JobView>,
)
    requires
        forall|j: int|
            0 <= j < jobs.len() ==> node.key != #[trigger] job_key(
                project,
                pipeline,
                jobs[j].name,
            ),
    ensures
        overlaid(node, project, pipeline, jobs) == node,
    decreases jobs.len(),
{
    if jobs.len() > 0 {
        assert forall|j: int| 0 <= j < jobs.drop_last().len() implies node.key != #[trigger] job_key(
            project,
            pipeline,
            jobs.drop_last()[j].name,
        ) by {
            assert(jobs.drop_last()[j] == jobs[j]);
        }
        lemma_overlaid_untouched(node, project, pipeline, jobs.drop_last());
        assert(node.key != job_key(project, pipeline, jobs[jobs.len() - 1].name));
    }
}

/// The upsert of a job changes neither the node of its pipeline nor the
/// pipeline's regions: the label keeps its text, the time its clock, and the
/// pipeline its class, whatever the job is called.
pub proof fn lemma_upsert_job_leaves_pipeline(
    tree: Seq<NodeView>,
    project: int,
    pipeline: int,
    job: JobView,
)
    requires
        well_formed(tree),
        present(tree, pipeline_key(project, pipeline)),
    ensures
        node_of(upsert_job(tree, project, pipeline, job), pipeline_key(project, pipeline))
            == node_of(tree, pipeline_key(project, pipeline)),
        node_of(upsert_job(tree, project, pipeline, job), label_key(project, pipeline)) == node_of(
            tree,
            label_key(project, pipeline),
        ),
        node_of(upsert_job(tree, project, pipeline, job), time_key(project, pipeline)) == node_of(
            tree,
            time_key(project, pipeline),
        ),
{
    lemma_upsert_job_reads(tree, project, pipeline, job);
    lemma_key_levels_apart(0, project, pipeline, project, pipeline, job.name);
    lemma_region_keys_apart(project, pipeline, "label"@, 0, project, pipeline, job.name);
    lemma_region_keys_apart(project, pipeline, "time"@, 0, project, pipeline, job.name);
    assert(present(tree, label_key(project, pipeline)));
    assert(present(tree, time_key(project, pipeline)));
}

/// The upserts of a run of jobs change neither the node of their pipeline
/// nor the pipeline's regions.
pub proof fn lemma_upsert_jobs_leave_pipeline(
    tree: Seq<NodeView>,
    project: int,
    pipeline: int,
    jobs: Seq<JobView>,
)
    requires
        well_formed(tree),
        present(tree, pipeline_key(project, pipeline)),
    ensures
        node_of(upsert_jobs(tree, project, pipeline, jobs), pipeline_key(project, pipeline))
            == node_of(tree, pipeline_key(project, pipeline)),
        node_of(upsert_jobs(tree, project, pipeline, jobs), label_key(project, pipeline))
            == node_of(tree, label_key(project, pipeline)),
        node_of(upsert_jobs(tree, project, pipeline, jobs), time_key(project, pipeline))
            == node_of(tree, time_key(project, pipeline)),
    decreases jobs.len(),
{
    if jobs.len() > 0 {
        let before = upsert_jobs(tree, project, pipeline, jobs.drop_last());
        lemma_upsert_jobs_leave_pipeline(tree, project, pipeline, jobs.drop_last());
        lemma_upsert_jobs_well_formed(tree, project, pipeline, jobs.drop_last());
        lemma_upsert_job_well_formed(before, project, pipeline, jobs.last());
        lemma_upsert_job_leaves_pipeline(before, project, pipeline, jobs.last());
    }
}

/// The node of a job hangs under the node of the job's pipeline.
pub proof fn lemma_job_hangs_under_pipeline(
    tree: Seq<NodeView>,
    project: int,
    pipeline: int,
    name: Seq<char>,
)
    requires
        well_formed(tree),
        present(tree, job_key(project, pipeline, name)),
    ensures
        node_of(tree, job_key(project, pipeline, name)).parent == pipeline_key(project, pipeline),
{
    let key = job_key(project, pipeline, name);
    let place = position(tree, key);
    let parent = tree[place].parent;
    assert(placed(tree[place].key, parent));
    if exists|id: int| key == #[trigger] project_key(id) && parent == root_key() {
        let id = choose|id: int| key == #[trigger] project_key(id) && parent == root_key();
        lemma_key_levels_apart(id, 0, 0, project, pipeline, name);
    } else if exists|p: int, q: int|
        key == #[trigger] pipeline_key(p, q) && parent == project_key(p) {
        let (p, q) = choose|p: int, q: int|
            key == #[trigger] pipeline_key(p, q) && parent == project_key(p);
        lemma_key_levels_apart(0, p, q, project, pipeline, name);
    } else if exists|p: int, q: int|
        key == #[trigger] label_key(p, q) && parent == pipeline_key(p, q) {
        let (p, q) = choose|p: int, q: int|
            key == #[trigger] label_key(p, q) && parent == pipeline_key(p, q);
        lemma_region_keys_apart(p, q, "label"@, 0, project, pipeline, name);
    } else if exists|p: int, q: int|
        key == #[trigger] time_key(p, q) && parent == pipeline_key(p, q) {
        let (p, q) = choose|p: int, q: int|
            key == #[trigger] time_key(p, q) && parent == pipeline_key(p, q);
        lemma_region_keys_apart(p, q, "time"@, 0, project, pipeline, name);
    } else {
        let (p, q, other) = choose|p: int, q: int, other: Seq<char>|
            key == #[trigger] job_key(p, q, other) && parent == pipeline_key(p, q);
        lemma_job_key_injective(project, pipeline, name, p, q, other);
    }
}

/// What hangs under the node of a pipeline is one of the pipeline's two
/// regions or the node of one of its jobs.
pub proof fn lemma_under_a_pipeline(tree: Seq<NodeView>, place: int, project: int, pipeline: int)
    requires
        well_formed(tree),
        0 <= place < tree.len(),
        tree[place].parent == pipeline_key(project, pipeline),
    ensures
        tree[place].key == label_key(project, pipeline) || tree[place].key == time_key(
            project,
            pipeline,
        ) || names_job_of(tree[place].key, project, pipeline),
{
    let key = tree[place].key;
    let parent = pipeline_key(project, pipeline);
    assert(placed(tree[place].key, parent));
    if exists|id: int| key == #[trigger] project_key(id) && parent == root_key() {
        lemma_root_is_no_key(project, "_pl"@ + int_text(pipeline));
        assert(parent =~= project_key(project) + ("_pl"@ + int_text(pipeline)));
    } else if exists|p: int, q: int|
        key == #[trigger] pipeline_key(p, q) && parent == project_key(p) {
        let (p, q) = choose|p: int, q: int|
            key == #[trigger] pipeline_key(p, q) && parent == project_key(p);
        lemma_key_levels_apart(p, project, pipeline, 0, 0, Seq::empty());
    } else if exists|p: int, q: int|
        key == #[trigger] label_key(p, q) && parent == pipeline_key(p, q) {
        let (p, q) = choose|p: int, q: int|
            key == #[trigger] label_key(p, q) && parent == pipeline_key(p, q);
        lemma_pipeline_key_injective(p, q, project, pipeline);
    } else if exists|p: int, q: int|
        key == #[trigger] time_key(p, q) && parent == pipeline_key(p, q) {
        let (p, q) = choose|p: int, q: int|
            key == #[trigger] time_key(p, q) && parent == pipeline_key(p, q);
        lemma_pipeline_key_injective(p, q, project, pipeline);
    } else {
        let (p, q, other) = choose|p: int, q: int, other: Seq<char>|
            key == #[trigger] job_key(p, q, other) && parent == pipeline_key(p, q);
        lemma_pipeline_key_injective(p, q, project, pipeline);
        assert(key == job_key(project, pipeline, other));
    }
}

} // verus!
