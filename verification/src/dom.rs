//! The reconciliation engine: the upserts that merge freshly fetched state
//! into the visual tree.

use crate::children::{
    lemma_upsert_job_leaves_pipeline, lemma_upsert_jobs_keys, lemma_upsert_jobs_leave_pipeline,
    lemma_upsert_jobs_lose_nothing, new_job_keys,
};
use crate::counting::{lemma_upsert_keeps, Upsert};
use crate::document::{
    create, find, node_views, patch_views, set_class, set_content, Content, Document, Patch,
    VisualNode,
};
use crate::failure::Failure;
use crate::keys::{
    job_key, job_key_of, label_key, label_key_of, pipeline_key, pipeline_key_of, project_key,
    project_key_of, root_key_of, time_key, time_key_of,
};
use crate::reading::{
    lemma_upsert_job_reads, lemma_upsert_pipeline_again, lemma_upsert_pipeline_detail_reads,
    lemma_upsert_project_reads,
};
use crate::status::Status;
use crate::text::{format_duration, push_int};
use crate::tree::{
    keys_of, lemma_nothing_lost, lemma_with_class, lemma_with_content, lemma_with_node_keys,
    lemma_with_node_structure, node_of, nothing_lost, present, well_formed, ContentView, PatchView,
};
use crate::upsert::{
    bg_class, detail_patches, ensure_project, ensure_project_patches, job_class, job_icon,
    job_markup, job_node, job_patches, jobs_patches, label_node, label_text, latest_status,
    lemma_upsert_job_well_formed, lemma_upsert_pipeline_detail_well_formed,
    lemma_upsert_pipeline_first, lemma_upsert_pipeline_well_formed,
    lemma_upsert_project_well_formed, pipeline_bg_class, pipeline_class, pipeline_node,
    pipeline_patches, project_class, project_node, project_patches, time_markup, time_node,
    upsert_job, upsert_jobs, upsert_pipeline, upsert_pipeline_detail, upsert_project,
};
use vstd::prelude::*;

verus! {

/// A job of a pipeline, as last fetched.
#[derive(Debug, PartialEq, Eq)]
pub struct Job {
    pub name: String,
    pub status: Status,
    pub link: String,
}

/// A job as a mathematical value.
pub struct JobView {
    pub name: Seq<char>,
    pub status: Status,
    pub link: Seq<char>,
}

impl View for Job {
    type V = JobView;

    open spec fn view(&self) -> JobView {
        JobView { name: self.name@, status: self.status, link: self.link@ }
    }
}

/// A pipeline in the list of a project's pipelines.
#[derive(Clone, Copy, Debug, PartialEq, Eq)]
pub struct Pipeline {
    pub id: i32,
    pub status: Status,
}

/// A pipeline in full, as last fetched.
#[derive(Debug, PartialEq, Eq)]
pub struct PipelineDetail {
    pub id: i32,
    pub status: Status,
    /// The branch or tag that the pipeline ran for.
    pub git_ref: String,
    /// The running time in seconds.
    pub duration: i32,
}

/// A pipeline in full as a mathematical value.
pub struct PipelineDetailView {
    pub id: int,
    pub status: Status,
    pub git_ref: Seq<char>,
    pub duration: int,
}

impl View for PipelineDetail {
    type V = PipelineDetailView;

    open spec fn view(&self) -> PipelineDetailView {
        PipelineDetailView {
            id: self.id as int,
            status: self.status,
            git_ref: self.git_ref@,
            duration: self.duration as int,
        }
    }
}

/// A project, as last fetched.
#[derive(Debug, PartialEq, Eq)]
pub struct Project {
    pub id: i32,
    pub name: String,
    pub group: String,
}

/// A project as a mathematical value.
pub struct ProjectView {
    pub id: int,
    pub name: Seq<char>,
    pub group: Seq<char>,
}

impl View for Project {
    type V = ProjectView;

    open spec fn view(&self) -> ProjectView {
        ProjectView { id: self.id as int, name: self.name@, group: self.group@ }
    }
}

impl Clone for Project {
    fn clone(&self) -> (copy: Project)
        ensures
            copy@ == self@,
    {
        Project { id: self.id, name: self.name.clone(), group: self.group.clone() }
    }
}

/// The engine that merges fetched state into the visual tree. Each of its
/// upserts changes the tree and returns the patches that change the screen in
/// the same way.
pub struct Dom {}

impl Dom {
    /// The background class of a project in a state: one of four.
    pub fn map_status_to_bg(status: &Status) -> (class: &'static str)
        ensures
            class@ == bg_class(*status),
    {
        match status {
            Status::SUCCESS => "bg-success",
            Status::FAILED => "bg-fail",
            Status::RUNNING | Status::MANUAL => "bg-running",
            Status::CREATED | Status::CANCELED | Status::SKIPPED | Status::PENDING => "bg-skipped",
        }
    }

    /// The background class of a pipeline in a state: one of five.
    pub fn map_status_to_pipeline_bg(status: &Status) -> (class: &'static str)
        ensures
            class@ == pipeline_bg_class(*status),
    {
        match status {
            Status::SUCCESS => "bg-success",
            Status::FAILED => "bg-fail",
            Status::RUNNING => "bg-running",
            Status::MANUAL => "bg-manual",
            Status::CREATED | Status::CANCELED | Status::SKIPPED | Status::PENDING => "bg-skipped",
        }
    }

    /// The class of a job node.
    pub fn map_status_to_job_class(status: &Status) -> (class: &'static str)
        ensures
            class@ == job_class(*status),
    {
        match status {
            Status::SUCCESS => "job job-success",
            Status::FAILED => "job job-fail",
            Status::CANCELED => "job job-skipped",
            Status::MANUAL => "job job-manual",
            Status::RUNNING => "job job-running",
            Status::CREATED | Status::PENDING | Status::SKIPPED => "job job-skipped",
        }
    }

    /// The icon of a job's state.
    pub fn map_status_to_icon(status: &Status) -> (icon: &'static str)
        ensures
            icon@ == job_icon(*status),
    {
        match status {
            Status::SUCCESS => "<i class=\"fas fa-check\"></i>",
            Status::FAILED => "<i class=\"fas fa-times-circle\"></i>",
            Status::CANCELED => "<i class=\"fas fa-stop-circle\"></i>",
            Status::MANUAL => "<i class=\"fas fa-play\"></i>",
            Status::RUNNING => "<i class=\"fas fa-cog fa-spin\"></i>",
            Status::CREATED | Status::PENDING | Status::SKIPPED =>
                "<i class=\"fas fa-minus-circle\"></i>",
        }
    }

    /// The content of a job node.
    pub fn job_content(job: &Job) -> (markup: String)
        ensures
            markup@ == job_markup(job@),
    {
        let mut markup = Dom::map_status_to_icon(&job.status).to_owned();
        if job.link.as_str().is_empty() {
            markup.append(job.name.as_str());
        } else {
            markup.append("<a href=\"");
            markup.append(job.link.as_str());
            markup.append("\" target=\"_blank\">");
            markup.append(job.name.as_str());
            markup.append("</a>");
        }
        markup
    }

    fn project_into(
        nodes: &mut Vec<VisualNode>,
        patches: &mut Vec<Patch>,
        id: i32,
        name: &str,
        group: &str,
    )
        requires
            patch_views(old(patches)@) == Seq::<PatchView>::empty(),
        ensures
            node_views(final(nodes)@) == ensure_project(
                node_views(old(nodes)@),
                id as int,
                name@,
                group@,
            ),
            patch_views(final(patches)@) == ensure_project_patches(
                node_views(old(nodes)@),
                id as int,
                name@,
                group@,
            ),
    {
        let key = project_key_of(id);
        if find(nodes, &key).is_none() {
            let mut title = group.to_owned();
            title.append("/");
            title.append(name);
            let node = VisualNode {
                key: key,
                parent: root_key_of(),
                class: "project hidden".to_owned(),
                content: Content::Heading(title),
            };
            assert(node@ == project_node(id as int, name@, group@));
            create(nodes, patches, node);
            assert(patch_views(patches@) =~= ensure_project_patches(
                node_views(old(nodes)@),
                id as int,
                name@,
                group@,
            ));
        }
    }

    /// Sees to it that the project has a node, and leaves the node alone if it
    /// has one.
    pub fn ensure_project(document: &mut Document, id: i32, name: &str, group: &str) -> (patches:
        Vec<Patch>)
        ensures
            final(document)@ == ensure_project(old(document)@, id as int, name@, group@),
            patch_views(patches@) == ensure_project_patches(
                old(document)@,
                id as int,
                name@,
                group@,
            ),
            well_formed(final(document)@),
            nothing_lost(old(document)@, final(document)@),
            present(final(document)@, project_key(id as int)),
    {
        let mut nodes = document.take();
        let mut patches: Vec<Patch> = Vec::new();
        assert(patch_views(patches@) =~= Seq::<PatchView>::empty());
        Dom::project_into(&mut nodes, &mut patches, id, name, group);
        proof {
            lemma_upsert_project_well_formed(old(document)@, id as int, name@, group@, None);
            lemma_with_node_keys(old(document)@, project_node(id as int, name@, group@));
            lemma_nothing_lost(old(document)@, node_views(nodes@));
        }
        document.put(nodes);
        patches
    }

    /// Upserts a project: sees to it that it has a node, and gives the node
    /// the class of the state of the project's most recent pipeline, the
    /// first of `pipelines`, or the hidden class where there is none.
    pub fn update_project(
        document: &mut Document,
        id: i32,
        name: &str,
        group: &str,
        pipelines: &Vec<Pipeline>,
    ) -> (patches: Vec<Patch>)
        ensures
            final(document)@ == upsert_project(
                old(document)@,
                id as int,
                name@,
                group@,
                latest_status(pipelines@),
            ),
            patch_views(patches@) == project_patches(
                old(document)@,
                id as int,
                name@,
                group@,
                latest_status(pipelines@),
            ),
            well_formed(final(document)@),
            nothing_lost(old(document)@, final(document)@),
            present(final(document)@, project_key(id as int)),
            node_of(final(document)@, project_key(id as int)).class == project_class(
                latest_status(pipelines@),
            ),
    {
        let mut nodes = document.take();
        let mut patches: Vec<Patch> = Vec::new();
        assert(patch_views(patches@) =~= Seq::<PatchView>::empty());
        Dom::project_into(&mut nodes, &mut patches, id, name, group);
        proof {
            lemma_upsert_project_well_formed(
                old(document)@,
                id as int,
                name@,
                group@,
                latest_status(pipelines@),
            );
            lemma_upsert_project_reads(
                old(document)@,
                id as int,
                name@,
                group@,
                latest_status(pipelines@),
            );
            lemma_upsert_keeps(
                old(document)@,
                Upsert::Project {
                    id: id as int,
                    name: name@,
                    group: group@,
                    latest: latest_status(pipelines@),
                },
            );
        }
        let class = if pipelines.len() > 0 {
            let mut class = "project ".to_owned();
            class.append(Dom::map_status_to_bg(&pipelines[0].status));
            class
        } else {
            "project hidden".to_owned()
        };
        set_class(&mut nodes, &mut patches, project_key_of(id), class);
        document.put(nodes);
        patches
    }

    /// Upserts a pipeline: where its project has a node, sees to it that the
    /// pipeline has a node, in the neutral class, and a label and a time
    /// region under it. Fails, and changes nothing, where the project has no
    /// node.
    pub fn update_pipeline(document: &mut Document, project_id: i32, pipeline: &Pipeline) -> (result:
        Result<Vec<Patch>, Failure>)
        ensures
            result is Ok <==> present(old(document)@, project_key(project_id as int)),
            result matches Err(failure) ==> failure == Failure::PrecursorMissing,
            result matches Ok(patches) ==> patch_views(patches@) == pipeline_patches(
                old(document)@,
                project_id as int,
                pipeline.id as int,
            ),
            final(document)@ == upsert_pipeline(
                old(document)@,
                project_id as int,
                pipeline.id as int,
            ),
            well_formed(final(document)@),
            nothing_lost(old(document)@, final(document)@),
            result is Err ==> final(document)@ == old(document)@,
            result is Ok ==> {
                &&& present(final(document)@, pipeline_key(project_id as int, pipeline.id as int))
                &&& present(final(document)@, label_key(project_id as int, pipeline.id as int))
                &&& present(final(document)@, time_key(project_id as int, pipeline.id as int))
            },
            result matches Ok(patches) ==> !present(
                old(document)@,
                pipeline_key(project_id as int, pipeline.id as int),
            ) ==> {
                &&& final(document)@ == old(document)@.push(
                    pipeline_node(project_id as int, pipeline.id as int),
                ).push(label_node(project_id as int, pipeline.id as int)).push(
                    time_node(project_id as int, pipeline.id as int),
                )
                &&& patch_views(patches@) == seq![
                    PatchView::Create {
                        node: pipeline_node(project_id as int, pipeline.id as int),
                    },
                    PatchView::Create { node: label_node(project_id as int, pipeline.id as int) },
                    PatchView::Create { node: time_node(project_id as int, pipeline.id as int) },
                ]
            },
            result matches Ok(patches) ==> present(
                old(document)@,
                pipeline_key(project_id as int, pipeline.id as int),
            ) ==> {
                &&& final(document)@ == old(document)@
                &&& patch_views(patches@) == Seq::<PatchView>::empty()
            },
    {
        let mut nodes = document.take();
        let mut patches: Vec<Patch> = Vec::new();
        assert(patch_views(patches@) =~= Seq::<PatchView>::empty());
        proof {
            lemma_upsert_pipeline_well_formed(
                old(document)@,
                project_id as int,
                pipeline.id as int,
            );
            lemma_upsert_keeps(
                old(document)@,
                Upsert::Pipeline { project: project_id as int, pipeline: pipeline.id as int },
            );
            if present(old(document)@, project_key(project_id as int)) {
                if present(old(document)@, pipeline_key(project_id as int, pipeline.id as int)) {
                    lemma_upsert_pipeline_again(
                        old(document)@,
                        project_id as int,
                        pipeline.id as int,
                    );
                } else {
                    lemma_upsert_pipeline_first(
                        old(document)@,
                        project_id as int,
                        pipeline.id as int,
                    );
                }
            }
        }
        let project_key = project_key_of(project_id);
        if find(&nodes, &project_key).is_none() {
            document.put(nodes);
            return Err(Failure::PrecursorMissing);
        }
        let pipeline_key = pipeline_key_of(project_id, pipeline.id);
        let container = VisualNode {
            key: pipeline_key.clone(),
            parent: project_key,
            class: "pipeline bg-skipped".to_owned(),
            content: Content::Empty,
        };
        assert(container@ == pipeline_node(project_id as int, pipeline.id as int));
        create(&mut nodes, &mut patches, container);
        let label = VisualNode {
            key: label_key_of(project_id, pipeline.id),
            parent: pipeline_key.clone(),
            class: "label".to_owned(),
            content: Content::Empty,
        };
        assert(label@ == label_node(project_id as int, pipeline.id as int));
        create(&mut nodes, &mut patches, label);
        let time = VisualNode {
            key: time_key_of(project_id, pipeline.id),
            parent: pipeline_key,
            class: "time".to_owned(),
            content: Content::Empty,
        };
        assert(time@ == time_node(project_id as int, pipeline.id as int));
        create(&mut nodes, &mut patches, time);
        assert(patch_views(patches@) =~= pipeline_patches(
            old(document)@,
            project_id as int,
            pipeline.id as int,
        ));
        document.put(nodes);
        Ok(patches)
    }

    /// Upserts the detail of a pipeline: where the pipeline has a node, gives
    /// the node the class of the pipeline's state, writes `#<id> / <ref>` into
    /// its label region and the duration as `HH:MM:SS`, after a clock mark,
    /// into its time region. Fails, and changes nothing, where the pipeline
    /// has no node.
    pub fn update_pipeline_detail(
        document: &mut Document,
        project_id: i32,
        pipeline: &PipelineDetail,
    ) -> (result: Result<Vec<Patch>, Failure>)
        requires
            pipeline.duration >= 0,
        ensures
            result is Ok <==> present(
                old(document)@,
                pipeline_key(project_id as int, pipeline.id as int),
            ),
            result matches Err(failure) ==> failure == Failure::PrecursorMissing,
            result matches Ok(patches) ==> patch_views(patches@) == detail_patches(
                project_id as int,
                pipeline@,
            ),
            final(document)@ == upsert_pipeline_detail(
                old(document)@,
                project_id as int,
                pipeline@,
            ),
            well_formed(final(document)@),
            nothing_lost(old(document)@, final(document)@),
            keys_of(final(document)@) == keys_of(old(document)@),
            result is Err ==> final(document)@ == old(document)@,
            result is Ok ==> {
                &&& node_of(
                    final(document)@,
                    pipeline_key(project_id as int, pipeline.id as int),
                ).class == pipeline_class(pipeline.status)
                &&& node_of(
                    final(document)@,
                    label_key(project_id as int, pipeline.id as int),
                ).content == ContentView::Text(label_text(pipeline.id as int, pipeline.git_ref@))
                &&& node_of(
                    final(document)@,
                    time_key(project_id as int, pipeline.id as int),
                ).content == ContentView::Markup(time_markup(pipeline.duration as nat))
            },
    {
        let mut nodes = document.take();
        let mut patches: Vec<Patch> = Vec::new();
        assert(patch_views(patches@) =~= Seq::<PatchView>::empty());
        proof {
            lemma_upsert_pipeline_detail_well_formed(
                old(document)@,
                project_id as int,
                pipeline@,
            );
            if present(old(document)@, pipeline_key(project_id as int, pipeline.id as int)) {
                lemma_upsert_pipeline_detail_reads(old(document)@, project_id as int, pipeline@);
            }
            lemma_upsert_keeps(
                old(document)@,
                Upsert::Detail { project: project_id as int, detail: pipeline@ },
            );
            assert(keys_of(upsert_pipeline_detail(old(document)@, project_id as int, pipeline@))
                =~= keys_of(old(document)@));
        }
        let pipeline_key = pipeline_key_of(project_id, pipeline.id);
        if find(&nodes, &pipeline_key).is_none() {
            document.put(nodes);
            return Err(Failure::PrecursorMissing);
        }
        let mut class = "pipeline ".to_owned();
        class.append(Dom::map_status_to_pipeline_bg(&pipeline.status));
        proof {
            lemma_with_class(node_views(nodes@), pipeline_key@, class@);
        }
        set_class(&mut nodes, &mut patches, pipeline_key, class);

        let mut label = "#".to_owned();
        push_int(&mut label, pipeline.id);
        label.append(" / ");
        label.append(pipeline.git_ref.as_str());
        assert(label@ == label_text(pipeline.id as int, pipeline.git_ref@));
        let label_key = label_key_of(project_id, pipeline.id);
        proof {
            lemma_with_content(node_views(nodes@), label_key@, Content::Text(label)@);
        }
        set_content(&mut nodes, &mut patches, label_key, Content::Text(label));

        let mut time = "<i class=\"fas fa-clock\"></i>".to_owned();
        let clock = format_duration(pipeline.duration);
        time.append(clock.as_str());
        assert(time@ == time_markup(pipeline.duration as nat));
        set_content(
            &mut nodes,
            &mut patches,
            time_key_of(project_id, pipeline.id),
            Content::Markup(time),
        );
        assert(patch_views(patches@) =~= detail_patches(project_id as int, pipeline@));
        document.put(nodes);
        Ok(patches)
    }

    fn job_into(
        nodes: &mut Vec<VisualNode>,
        patches: &mut Vec<Patch>,
        project_id: i32,
        pipeline_id: i32,
        job: &Job,
    )
        requires
            well_formed(node_views(old(nodes)@)),
            present(node_views(old(nodes)@), pipeline_key(project_id as int, pipeline_id as int)),
        ensures
            node_views(final(nodes)@) == upsert_job(
                node_views(old(nodes)@),
                project_id as int,
                pipeline_id as int,
                job@,
            ),
            patch_views(final(patches)@) == patch_views(old(patches)@) + job_patches(
                node_views(old(nodes)@),
                project_id as int,
                pipeline_id as int,
                job@,
            ),
            well_formed(node_views(final(nodes)@)),
            present(node_views(final(nodes)@), pipeline_key(project_id as int, pipeline_id as int)),
    {
        let ghost before = node_views(nodes@);
        proof {
            lemma_upsert_job_well_formed(before, project_id as int, pipeline_id as int, job@);
        }
        let key = job_key_of(project_id, pipeline_id, job.name.as_str());
        let node = VisualNode {
            key: key.clone(),
            parent: pipeline_key_of(project_id, pipeline_id),
            class: String::new(),
            content: Content::Empty,
        };
        assert(node@ == job_node(project_id as int, pipeline_id as int, job.name@));
        proof {
            lemma_with_node_keys(before, node@);
            lemma_with_node_structure(before, node@);
        }
        create(nodes, patches, node);
        let content = Content::Markup(Dom::job_content(job));
        proof {
            lemma_with_content(node_views(nodes@), key@, content@);
        }
        set_content(nodes, patches, key.clone(), content);
        set_class(nodes, patches, key, Dom::map_status_to_job_class(&job.status).to_owned());
        assert(patch_views(patches@) =~= patch_views(old(patches)@) + job_patches(
            before,
            project_id as int,
            pipeline_id as int,
            job@,
        ));
    }

    /// Upserts one job: where its pipeline has a node, sees to it that the job
    /// has a node under it, and writes the icon of its state and its name, the
    /// name as a link where the job has one, and the class of its state.
    /// Fails, and changes nothing, where the pipeline has no node.
    pub fn update_job(document: &mut Document, project_id: i32, pipeline_id: i32, job: &Job) -> (result:
        Result<Vec<Patch>, Failure>)
        ensures
            result is Ok <==> present(
                old(document)@,
                pipeline_key(project_id as int, pipeline_id as int),
            ),
            result matches Err(failure) ==> failure == Failure::PrecursorMissing,
            result matches Ok(patches) ==> patch_views(patches@) == job_patches(
                old(document)@,
                project_id as int,
                pipeline_id as int,
                job@,
            ),
            final(document)@ == upsert_job(
                old(document)@,
                project_id as int,
                pipeline_id as int,
                job@,
            ),
            well_formed(final(document)@),
            nothing_lost(old(document)@, final(document)@),
            result is Err ==> final(document)@ == old(document)@,
            result is Ok ==> {
                &&& present(
                    final(document)@,
                    job_key(project_id as int, pipeline_id as int, job.name@),
                )
                &&& node_of(
                    final(document)@,
                    job_key(project_id as int, pipeline_id as int, job.name@),
                ).class == job_class(job.status)
                &&& node_of(
                    final(document)@,
                    job_key(project_id as int, pipeline_id as int, job.name@),
                ).content == ContentView::Markup(job_markup(job@))
                &&& node_of(final(document)@, pipeline_key(project_id as int, pipeline_id as int))
                    == node_of(old(document)@, pipeline_key(project_id as int, pipeline_id as int))
                &&& node_of(final(document)@, label_key(project_id as int, pipeline_id as int))
                    == node_of(old(document)@, label_key(project_id as int, pipeline_id as int))
                &&& node_of(final(document)@, time_key(project_id as int, pipeline_id as int))
                    == node_of(old(document)@, time_key(project_id as int, pipeline_id as int))
            },
    {
        let mut nodes = document.take();
        let mut patches: Vec<Patch> = Vec::new();
        assert(patch_views(patches@) =~= Seq::<PatchView>::empty());
        proof {
            lemma_upsert_job_well_formed(
                old(document)@,
                project_id as int,
                pipeline_id as int,
                job@,
            );
            lemma_upsert_keeps(
                old(document)@,
                Upsert::Job { project: project_id as int, pipeline: pipeline_id as int, job: job@ },
            );
            if present(old(document)@, pipeline_key(project_id as int, pipeline_id as int)) {
                lemma_upsert_job_reads(old(document)@, project_id as int, pipeline_id as int, job@);
                lemma_upsert_job_leaves_pipeline(
                    old(document)@,
                    project_id as int,
                    pipeline_id as int,
                    job@,
                );
            }
        }
        if find(&nodes, &pipeline_key_of(project_id, pipeline_id)).is_none() {
            document.put(nodes);
            return Err(Failure::PrecursorMissing);
        }
        Dom::job_into(&mut nodes, &mut patches, project_id, pipeline_id, job);
        assert(patch_views(patches@) =~= job_patches(
            old(document)@,
            project_id as int,
            pipeline_id as int,
            job@,
        ));
        document.put(nodes);
        Ok(patches)
    }

    /// Upserts the jobs of a pipeline, one after the other in the order given.
    /// Fails, and changes nothing, where the pipeline has no node.
    pub fn update_jobs(
        document: &mut Document,
        project_id: i32,
        pipeline_id: i32,
        jobs: &Vec<Job>,
    ) -> (result: Result<Vec<Patch>, Failure>)
        ensures
            result is Ok <==> present(
                old(document)@,
                pipeline_key(project_id as int, pipeline_id as int),
            ),
            result matches Err(failure) ==> failure == Failure::PrecursorMissing,
            result is Err ==> final(document)@ == old(document)@,
            result matches Ok(patches) ==> {
                &&& patch_views(patches@) == jobs_patches(
                    old(document)@,
                    project_id as int,
                    pipeline_id as int,
                    job_views(jobs@),
                )
                &&& final(document)@ == upsert_jobs(
                    old(document)@,
                    project_id as int,
                    pipeline_id as int,
                    job_views(jobs@),
                )
                &&& keys_of(final(document)@) == keys_of(old(document)@) + new_job_keys(
                    old(document)@,
                    project_id as int,
                    pipeline_id as int,
                    job_views(jobs@),
                )
                &&& node_of(final(document)@, pipeline_key(project_id as int, pipeline_id as int))
                    == node_of(old(document)@, pipeline_key(project_id as int, pipeline_id as int))
                &&& node_of(final(document)@, label_key(project_id as int, pipeline_id as int))
                    == node_of(old(document)@, label_key(project_id as int, pipeline_id as int))
                &&& node_of(final(document)@, time_key(project_id as int, pipeline_id as int))
                    == node_of(old(document)@, time_key(project_id as int, pipeline_id as int))
            },
            well_formed(final(document)@),
            nothing_lost(old(document)@, final(document)@),
    {
        let mut nodes = document.take();
        let mut patches: Vec<Patch> = Vec::new();
        assert(patch_views(patches@) =~= Seq::<PatchView>::empty());
        proof {
            lemma_upsert_jobs_lose_nothing(
                old(document)@,
                project_id as int,
                pipeline_id as int,
                job_views(jobs@),
            );
            lemma_nothing_lost(old(document)@, old(document)@);
            if present(old(document)@, pipeline_key(project_id as int, pipeline_id as int)) {
                lemma_upsert_jobs_keys(
                    old(document)@,
                    project_id as int,
                    pipeline_id as int,
                    job_views(jobs@),
                );
                lemma_upsert_jobs_leave_pipeline(
                    old(document)@,
                    project_id as int,
                    pipeline_id as int,
                    job_views(jobs@),
                );
            }
        }
        if find(&nodes, &pipeline_key_of(project_id, pipeline_id)).is_none() {
            document.put(nodes);
            return Err(Failure::PrecursorMissing);
        }
        let ghost before = node_views(nodes@);
        let mut i: usize = 0;
        while i < jobs.len()
            invariant
                i <= jobs.len(),
                well_formed(node_views(nodes@)),
                present(node_views(nodes@), pipeline_key(project_id as int, pipeline_id as int)),
                node_views(nodes@) == upsert_jobs(
                    before,
                    project_id as int,
                    pipeline_id as int,
                    job_views(jobs@).take(i as int),
                ),
                patch_views(patches@) == jobs_patches(
                    before,
                    project_id as int,
                    pipeline_id as int,
                    job_views(jobs@).take(i as int),
                ),
            decreases jobs.len() - i,
        {
            proof {
                let done = job_views(jobs@).take(i as int);
                let next = job_views(jobs@).take(i + 1);
                assert(next.drop_last() =~= done);
                assert(next.last() == jobs[i as int]@);
            }
            Dom::job_into(&mut nodes, &mut patches, project_id, pipeline_id, &jobs[i]);
            i += 1;
        }
        assert(job_views(jobs@).take(i as int) =~= job_views(jobs@));
        document.put(nodes);
        Ok(patches)
    }
}

/// The views of a run of jobs.
pub open spec fn job_views(jobs: Seq<Job>) -> Seq<JobView> {
    jobs.map_values(|job: Job| job@)
}

} // verus!
