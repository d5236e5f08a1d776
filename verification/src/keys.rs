//! The composite string keys under which visual nodes are kept and found.
//!
//! A key spells out the identity of what the node shows: `pr<project>` for a
//! project, `pr<project>_pl<pipeline>` for a pipeline and
//! `pr<project>_pl<pipeline>_<name>` for a job. The two regions of a pipeline
//! have the keys `pr<project>_pl<pipeline>:label` and
//! `pr<project>_pl<pipeline>:time`: the colon keeps them apart from the key of
//! every job, whatever the job is called. No key stands for two things.

use crate::text::{
    breaks_number, int_text, lemma_int_text_injective, lemma_int_text_shape, lemma_number_then_rest,
    lemma_same_start, push_int,
};
use vstd::prelude::*;

verus! {

/// The key of the container that every project node hangs under. The engine
/// does not create it: the host page provides it.
pub open spec fn root_key() -> Seq<char> {
    "Content"@
}

/// The key of a project's node.
pub open spec fn project_key(project: int) -> Seq<char> {
    "pr"@ + int_text(project)
}

/// The key of a pipeline's node.
pub open spec fn pipeline_key(project: int, pipeline: int) -> Seq<char> {
    project_key(project) + "_pl"@ + int_text(pipeline)
}

/// The key of a job's node.
pub open spec fn job_key(project: int, pipeline: int, name: Seq<char>) -> Seq<char> {
    pipeline_key(project, pipeline) + "_"@ + name
}

/// The key of the region of a pipeline's node that is called `region`.
pub open spec fn region_key(project: int, pipeline: int, region: Seq<char>) -> Seq<char> {
    pipeline_key(project, pipeline) + ":"@ + region
}

/// The key of a pipeline's label region.
pub open spec fn label_key(project: int, pipeline: int) -> Seq<char> {
    region_key(project, pipeline, "label"@)
}

/// The key of a pipeline's time region.
pub open spec fn time_key(project: int, pipeline: int) -> Seq<char> {
    region_key(project, pipeline, "time"@)
}

/// The part of a pipeline's key, or of a key below it, that follows the
/// project's number.
spec fn below_project(pipeline: int, rest: Seq<char>) -> Seq<char> {
    "_pl"@ + (int_text(pipeline) + rest)
}

/// A key in the shape that the proofs take it apart in.
spec fn spelled(project: int, rest: Seq<char>) -> Seq<char> {
    "pr"@ + (int_text(project) + rest)
}

proof fn lemma_spellings(project: int, pipeline: int, name: Seq<char>)
    ensures
        project_key(project) == spelled(project, Seq::empty()),
        pipeline_key(project, pipeline) == spelled(
            project,
            below_project(pipeline, Seq::empty()),
        ),
        job_key(project, pipeline, name) == spelled(
            project,
            below_project(pipeline, "_"@ + name),
        ),
        region_key(project, pipeline, name) == spelled(
            project,
            below_project(pipeline, ":"@ + name),
        ),
        breaks_number(Seq::<char>::empty()),
        breaks_number(below_project(pipeline, Seq::empty())),
        breaks_number(below_project(pipeline, "_"@ + name)),
        breaks_number(below_project(pipeline, ":"@ + name)),
        breaks_number("_"@ + name),
        breaks_number(":"@ + name),
        below_project(pipeline, Seq::empty()).len() > 0,
        below_project(pipeline, "_"@ + name).len() > 0,
        below_project(pipeline, ":"@ + name).len() > 0,
        ("_"@ + name).len() > 0,
        (":"@ + name).len() > 0,
        ("_"@ + name)[0] == '_',
        (":"@ + name)[0] == ':',
{
    reveal_strlit("_pl");
    reveal_strlit("_");
    reveal_strlit(":");
    assert(region_key(project, pipeline, name) =~= spelled(
        project,
        below_project(pipeline, ":"@ + name),
    ));
    assert(below_project(pipeline, ":"@ + name)[0] == '_');
    assert((":"@ + name)[0] == ':');
    let number = int_text(project);
    let second = int_text(pipeline);
    assert(project_key(project) =~= spelled(project, Seq::empty()));
    assert(pipeline_key(project, pipeline) =~= spelled(
        project,
        below_project(pipeline, Seq::empty()),
    ));
    assert(job_key(project, pipeline, name) =~= spelled(
        project,
        below_project(pipeline, "_"@ + name),
    ));
    assert(below_project(pipeline, Seq::empty())[0] == '_');
    assert(below_project(pipeline, "_"@ + name)[0] == '_');
    assert(("_"@ + name)[0] == '_');
}

proof fn lemma_spelled_once(a: int, s: Seq<char>, b: int, t: Seq<char>)
    requires
        breaks_number(s),
        breaks_number(t),
        spelled(a, s) == spelled(b, t),
    ensures
        a == b,
        s == t,
{
    lemma_same_start("pr"@, int_text(a) + s, int_text(b) + t);
    lemma_int_text_shape(a);
    lemma_int_text_shape(b);
    lemma_number_then_rest(int_text(a), s, int_text(b), t);
    lemma_int_text_injective(a, b);
}

proof fn lemma_below_project_once(a: int, s: Seq<char>, b: int, t: Seq<char>)
    requires
        breaks_number(s),
        breaks_number(t),
        below_project(a, s) == below_project(b, t),
    ensures
        a == b,
        s == t,
{
    lemma_same_start("_pl"@, int_text(a) + s, int_text(b) + t);
    lemma_int_text_shape(a);
    lemma_int_text_shape(b);
    lemma_number_then_rest(int_text(a), s, int_text(b), t);
    lemma_int_text_injective(a, b);
}

/// Two projects have the same key only where they are the same project.
pub proof fn lemma_project_key_injective(a: int, b: int)
    requires
        project_key(a) == project_key(b),
    ensures
        a == b,
{
    lemma_spellings(a, 0, Seq::empty());
    lemma_spellings(b, 0, Seq::empty());
    lemma_spelled_once(a, Seq::empty(), b, Seq::empty());
}

/// Two pipelines have the same key only where they are the same pipeline of
/// the same project.
pub proof fn lemma_pipeline_key_injective(a: int, b: int, p: int, q: int)
    requires
        pipeline_key(a, b) == pipeline_key(p, q),
    ensures
        a == p,
        b == q,
{
    lemma_spellings(a, b, Seq::empty());
    lemma_spellings(p, q, Seq::empty());
    lemma_spelled_once(
        a,
        below_project(b, Seq::empty()),
        p,
        below_project(q, Seq::empty()),
    );
    lemma_below_project_once(b, Seq::empty(), q, Seq::empty());
}

/// Two jobs have the same key only where they have the same name in the same
/// pipeline of the same project.
pub proof fn lemma_job_key_injective(
    a: int,
    b: int,
    name: Seq<char>,
    p: int,
    q: int,
    other: Seq<char>,
)
    requires
        job_key(a, b, name) == job_key(p, q, other),
    ensures
        a == p,
        b == q,
        name == other,
{
    lemma_spellings(a, b, name);
    lemma_spellings(p, q, other);
    lemma_spelled_once(
        a,
        below_project(b, "_"@ + name),
        p,
        below_project(q, "_"@ + other),
    );
    lemma_below_project_once(b, "_"@ + name, q, "_"@ + other);
    lemma_same_start("_"@, name, other);
}

/// No key of one level is a key of another: a project's key is no pipeline's
/// and no job's, and a pipeline's key is no job's.
pub proof fn lemma_key_levels_apart(a: int, p: int, q: int, n: int, m: int, name: Seq<char>)
    ensures
        project_key(a) != pipeline_key(p, q),
        project_key(a) != job_key(n, m, name),
        pipeline_key(p, q) != job_key(n, m, name),
{
    lemma_spellings(a, q, name);
    lemma_spellings(p, q, name);
    lemma_spellings(n, m, name);
    if project_key(a) == pipeline_key(p, q) {
        lemma_spelled_once(a, Seq::empty(), p, below_project(q, Seq::empty()));
    }
    if project_key(a) == job_key(n, m, name) {
        lemma_spelled_once(a, Seq::empty(), n, below_project(m, "_"@ + name));
    }
    if pipeline_key(p, q) == job_key(n, m, name) {
        lemma_spelled_once(
            p,
            below_project(q, Seq::empty()),
            n,
            below_project(m, "_"@ + name),
        );
        lemma_below_project_once(q, Seq::empty(), m, "_"@ + name);
    }
}

/// Two regions have the same key only where they have the same name in the
/// same pipeline of the same project.
pub proof fn lemma_region_key_injective(
    a: int,
    b: int,
    region: Seq<char>,
    p: int,
    q: int,
    other: Seq<char>,
)
    requires
        region_key(a, b, region) == region_key(p, q, other),
    ensures
        a == p,
        b == q,
        region == other,
{
    lemma_spellings(a, b, region);
    lemma_spellings(p, q, other);
    lemma_spelled_once(
        a,
        below_project(b, ":"@ + region),
        p,
        below_project(q, ":"@ + other),
    );
    lemma_below_project_once(b, ":"@ + region, q, ":"@ + other);
    lemma_same_start(":"@, region, other);
}

/// The key of a region is the key of nothing else: of no project, of no
/// pipeline and of no job, whatever the job is called.
pub proof fn lemma_region_keys_apart(
    p: int,
    q: int,
    region: Seq<char>,
    a: int,
    n: int,
    m: int,
    name: Seq<char>,
)
    ensures
        region_key(p, q, region) != project_key(a),
        region_key(p, q, region) != pipeline_key(n, m),
        region_key(p, q, region) != job_key(n, m, name),
{
    lemma_spellings(p, q, region);
    lemma_spellings(a, m, name);
    lemma_spellings(n, m, name);
    if region_key(p, q, region) == project_key(a) {
        lemma_spelled_once(p, below_project(q, ":"@ + region), a, Seq::empty());
    }
    if region_key(p, q, region) == pipeline_key(n, m) {
        lemma_spelled_once(
            p,
            below_project(q, ":"@ + region),
            n,
            below_project(m, Seq::empty()),
        );
        lemma_below_project_once(q, ":"@ + region, m, Seq::empty());
    }
    if region_key(p, q, region) == job_key(n, m, name) {
        lemma_spelled_once(
            p,
            below_project(q, ":"@ + region),
            n,
            below_project(m, "_"@ + name),
        );
        lemma_below_project_once(q, ":"@ + region, m, "_"@ + name);
    }
}

/// The two regions of a pipeline have different keys.
pub proof fn lemma_regions_apart(p: int, q: int)
    ensures
        label_key(p, q) != time_key(p, q),
{
    reveal_strlit("label");
    reveal_strlit("time");
    if label_key(p, q) == time_key(p, q) {
        lemma_region_key_injective(p, q, "label"@, p, q, "time"@);
    }
}

/// No key that the engine makes is the key of the root container.
pub proof fn lemma_root_is_no_key(a: int, rest: Seq<char>)
    ensures
        project_key(a) + rest != root_key(),
{
    reveal_strlit("Content");
    reveal_strlit("pr");
    assert((project_key(a) + rest)[0] == 'p');
}

/// The key of project `project`.
pub fn project_key_of(project: i32) -> (key: String)
    ensures
        key@ == project_key(project as int),
{
    let mut key = "pr".to_owned();
    push_int(&mut key, project);
    key
}

/// The key of pipeline `pipeline` of project `project`.
pub fn pipeline_key_of(project: i32, pipeline: i32) -> (key: String)
    ensures
        key@ == pipeline_key(project as int, pipeline as int),
{
    let mut key = project_key_of(project);
    key.append("_pl");
    push_int(&mut key, pipeline);
    key
}

/// The key of the job called `name` in pipeline `pipeline` of project
/// `project`.
pub fn job_key_of(project: i32, pipeline: i32, name: &str) -> (key: String)
    ensures
        key@ == job_key(project as int, pipeline as int, name@),
{
    let mut key = pipeline_key_of(project, pipeline);
    key.append("_");
    key.append(name);
    key
}

/// The key of the region called `region` of a pipeline.
pub fn region_key_of(project: i32, pipeline: i32, region: &str) -> (key: String)
    ensures
        key@ == region_key(project as int, pipeline as int, region@),
{
    let mut key = pipeline_key_of(project, pipeline);
    key.append(":");
    key.append(region);
    key
}

/// The key of the label region of a pipeline.
pub fn label_key_of(project: i32, pipeline: i32) -> (key: String)
    ensures
        key@ == label_key(project as int, pipeline as int),
{
    region_key_of(project, pipeline, "label")
}

/// The key of the time region of a pipeline.
pub fn time_key_of(project: i32, pipeline: i32) -> (key: String)
    ensures
        key@ == time_key(project as int, pipeline as int),
{
    region_key_of(project, pipeline, "time")
}

/// The key of the root container.
pub fn root_key_of() -> (key: String)
    ensures
        key@ == root_key(),
{
    "Content".to_owned()
}

} // verus!
