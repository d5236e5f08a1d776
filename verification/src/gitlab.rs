//! The requests that the dashboard puts to a GitLab server, and the reading
//! of what comes back. Sending a request and decoding the response's text are
//! left to the caller: this module says what to ask for, and turns decoded
//! records into the engine's entities.

use crate::dom::{Job, JobView, Pipeline, PipelineDetail, PipelineDetailView, Project, ProjectView};
use crate::failure::Failure;
use crate::status::{map_status, status_of};
use crate::text::{int_text, push_int};
use std::sync::Arc;
use vstd::prelude::*;

verus! {

/// Where the server is and what to show it.
#[derive(Debug, PartialEq, Eq)]
pub struct Config {
    /// The base address of the server, without a slash at its end.
    pub server: String,
    /// The access token that goes with every request.
    pub token: String,
}

/// One header of a request.
#[derive(Debug, PartialEq, Eq)]
pub struct Header {
    pub name: String,
    pub value: String,
}

/// A `GET` request for a JSON document, to be sent across origins.
#[derive(Debug, PartialEq, Eq)]
pub struct Request {
    pub url: String,
    pub headers: Vec<Header>,
}

/// A request as a mathematical value.
pub struct RequestView {
    pub url: Seq<char>,
    pub headers: Seq<(Seq<char>, Seq<char>)>,
}

impl View for Request {
    type V = RequestView;

    open spec fn view(&self) -> RequestView {
        RequestView {
            url: self.url@,
            headers: self.headers@.map_values(|header: Header| (header.name@, header.value@)),
        }
    }
}

/// A job as the server describes it.
#[derive(Debug, PartialEq, Eq)]
pub struct GitLabJob {
    pub id: i32,
    pub name: String,
    pub status: String,
    pub web_url: String,
}

/// A pipeline in full as the server describes it.
#[derive(Debug, PartialEq, Eq)]
pub struct GitLabPipelineDetail {
    pub id: i32,
    pub status: String,
    pub git_ref: String,
    pub duration: Option<i32>,
}

/// A pipeline of a project's list as the server describes it.
#[derive(Debug, PartialEq, Eq)]
pub struct GitLabPipeline {
    pub id: i32,
    pub status: String,
}

/// The namespace of a project as the server describes it.
#[derive(Debug, PartialEq, Eq)]
pub struct GitLabNameSpace {
    pub name: String,
}

/// A project as the server describes it.
#[derive(Debug, PartialEq, Eq)]
pub struct GitLabProject {
    pub id: i32,
    pub name: String,
    pub namespace: GitLabNameSpace,
}

/// The address of the list of the projects that the token's owner is a member
/// of.
pub open spec fn projects_url(server: Seq<char>) -> Seq<char> {
    server + "/api/v4/projects?membership=true"@
}

/// The address of the list of a project's pipelines, newest first.
pub open spec fn pipelines_url(server: Seq<char>, project: int) -> Seq<char> {
    server + "/api/v4/projects/"@ + int_text(project) + "/pipelines?order_by=id&sort=desc"@
}

/// The address of a pipeline in full.
pub open spec fn pipeline_detail_url(server: Seq<char>, project: int, pipeline: int) -> Seq<
    char,
> {
    server + "/api/v4/projects/"@ + int_text(project) + "/pipelines/"@ + int_text(pipeline)
}

/// The address of the list of a pipeline's jobs.
pub open spec fn jobs_url(server: Seq<char>, project: int, pipeline: int) -> Seq<char> {
    pipeline_detail_url(server, project, pipeline) + "/jobs"@
}

/// The headers of every request: JSON is asked for, and the token shown.
pub open spec fn request_headers(token: Seq<char>) -> Seq<(Seq<char>, Seq<char>)> {
    seq![("Accept"@, "application/json"@), ("Private-Token"@, token)]
}

/// The project that a record describes: it is grouped under the name of its
/// namespace.
pub open spec fn project_of(record: GitLabProject) -> ProjectView {
    ProjectView { id: record.id as int, name: record.name@, group: record.namespace.name@ }
}

/// The pipeline that a record describes.
pub open spec fn pipeline_of(record: GitLabPipeline) -> Pipeline {
    Pipeline { id: record.id, status: status_of(record.status@) }
}

/// The pipeline that a record describes in full. A pipeline without a
/// duration has run for no time yet.
pub open spec fn detail_of(record: GitLabPipelineDetail) -> PipelineDetailView {
    PipelineDetailView {
        id: record.id as int,
        status: status_of(record.status@),
        git_ref: record.git_ref@,
        duration: match record.duration {
            Some(seconds) => seconds as int,
            None => 0,
        },
    }
}

/// The job that a record describes: its link is the address of its page.
pub open spec fn job_of(record: GitLabJob) -> JobView {
    JobView { name: record.name@, status: status_of(record.status@), link: record.web_url@ }
}

/// The client's side of a GitLab server.
pub struct GitLab {
    config: Arc<Config>,
}

impl GitLab {
    /// The base address of the server.
    pub closed spec fn server(&self) -> Seq<char> {
        self.config.server@
    }

    /// The access token.
    pub closed spec fn token(&self) -> Seq<char> {
        self.config.token@
    }

    pub fn new(config: Arc<Config>) -> (gitlab: GitLab)
        ensures
            gitlab.server() == config.server@,
            gitlab.token() == config.token@,
    {
        GitLab { config }
    }

    /// Puts the headers of every request on `request`, after those that it
    /// has.
    pub fn set_request_headers(&self, request: &mut Request)
        ensures
            final(request)@.url == old(request)@.url,
            final(request)@.headers == old(request)@.headers + request_headers(self.token()),
    {
        request.headers.push(
            Header { name: "Accept".to_owned(), value: "application/json".to_owned() },
        );
        request.headers.push(
            Header { name: "Private-Token".to_owned(), value: self.config.token.clone() },
        );
        assert(request@.headers =~= old(request)@.headers + request_headers(self.token()));
    }

    /// The request for the document at `url`.
    pub fn prepare_request(&self, url: &str) -> (request: Request)
        ensures
            request@.url == url@,
            request@.headers == request_headers(self.token()),
    {
        let mut request = Request { url: url.to_owned(), headers: Vec::new() };
        self.set_request_headers(&mut request);
        assert(request@.headers =~= request_headers(self.token()));
        request
    }

    /// The request for the list of projects.
    pub fn request_projects(&self) -> (request: Request)
        ensures
            request@.url == projects_url(self.server()),
            request@.headers == request_headers(self.token()),
    {
        let mut url = self.config.server.clone();
        url.append("/api/v4/projects?membership=true");
        self.prepare_request(url.as_str())
    }

    /// The request for the list of a project's pipelines, newest first.
    pub fn request_pipelines(&self, project_id: i32) -> (request: Request)
        ensures
            request@.url == pipelines_url(self.server(), project_id as int),
            request@.headers == request_headers(self.token()),
    {
        let mut url = self.config.server.clone();
        url.append("/api/v4/projects/");
        push_int(&mut url, project_id);
        url.append("/pipelines?order_by=id&sort=desc");
        self.prepare_request(url.as_str())
    }

    /// The request for a pipeline in full.
    pub fn request_pipeline_detail(&self, project_id: i32, pipeline_id: i32) -> (request: Request)
        ensures
            request@.url == pipeline_detail_url(
                self.server(),
                project_id as int,
                pipeline_id as int,
            ),
            request@.headers == request_headers(self.token()),
    {
        let mut url = self.config.server.clone();
        url.append("/api/v4/projects/");
        push_int(&mut url, project_id);
        url.append("/pipelines/");
        push_int(&mut url, pipeline_id);
        self.prepare_request(url.as_str())
    }

    /// The request for the list of a pipeline's jobs.
    pub fn request_jobs(&self, project_id: i32, pipeline_id: i32) -> (request: Request)
        ensures
            request@.url == jobs_url(self.server(), project_id as int, pipeline_id as int),
            request@.headers == request_headers(self.token()),
    {
        let mut url = self.config.server.clone();
        url.append("/api/v4/projects/");
        push_int(&mut url, project_id);
        url.append("/pipelines/");
        push_int(&mut url, pipeline_id);
        url.append("/jobs");
        self.prepare_request(url.as_str())
    }

    /// The projects that the records of a response describe, in their order.
    pub fn read_projects(records: &Vec<GitLabProject>) -> (projects: Vec<Project>)
        ensures
            projects@.len() == records@.len(),
            forall|i: int|
                0 <= i < records@.len() ==> (#[trigger] projects@[i])@ == project_of(records@[i]),
    {
        let mut projects: Vec<Project> = Vec::new();
        let mut i: usize = 0;
        while i < records.len()
            invariant
                i <= records.len(),
                projects@.len() == i,
                forall|j: int| 0 <= j < i ==> (#[trigger] projects@[j])@ == project_of(records@[j]),
            decreases records.len() - i,
        {
            let record = &records[i];
            projects.push(
                Project {
                    id: record.id,
                    name: record.name.clone(),
                    group: record.namespace.name.clone(),
                },
            );
            i += 1;
        }
        projects
    }

    /// The pipelines that the records of a response describe, in their
    /// order.
    pub fn read_pipelines(records: &Vec<GitLabPipeline>) -> (pipelines: Vec<Pipeline>)
        ensures
            pipelines@.len() == records@.len(),
            forall|i: int|
                0 <= i < records@.len() ==> #[trigger] pipelines@[i] == pipeline_of(records@[i]),
    {
        let mut pipelines: Vec<Pipeline> = Vec::new();
        let mut i: usize = 0;
        while i < records.len()
            invariant
                i <= records.len(),
                pipelines@.len() == i,
                forall|j: int| 0 <= j < i ==> #[trigger] pipelines@[j] == pipeline_of(records@[j]),
            decreases records.len() - i,
        {
            let record = &records[i];
            pipelines.push(Pipeline { id: record.id, status: map_status(record.status.as_str()) });
            i += 1;
        }
        pipelines
    }

    /// The pipeline that the record of a response describes in full. A record
    /// with a negative duration describes no pipeline: reading it fails as a
    /// response of the wrong shape does.
    pub fn read_pipeline_detail(record: &GitLabPipelineDetail) -> (result: Result<
        PipelineDetail,
        Failure,
    >)
        ensures
            result is Ok <==> detail_of(*record).duration >= 0,
            result matches Ok(detail) ==> detail@ == detail_of(*record),
            result matches Err(failure) ==> failure == Failure::Decode,
    {
        let duration = match record.duration {
            Some(seconds) => seconds,
            None => 0,
        };
        if duration < 0 {
            return Err(Failure::Decode);
        }
        Ok(
            PipelineDetail {
                id: record.id,
                status: map_status(record.status.as_str()),
                git_ref: record.git_ref.clone(),
                duration: duration,
            },
        )
    }

    /// The jobs that the records of a response describe, in their order.
    pub fn read_jobs(records: &Vec<GitLabJob>) -> (jobs: Vec<Job>)
        ensures
            jobs@.len() == records@.len(),
            forall|i: int| 0 <= i < records@.len() ==> (#[trigger] jobs@[i])@ == job_of(records@[i]),
    {
        let mut jobs: Vec<Job> = Vec::new();
        let mut i: usize = 0;
        while i < records.len()
            invariant
                i <= records.len(),
                jobs@.len() == i,
                forall|j: int| 0 <= j < i ==> (#[trigger] jobs@[j])@ == job_of(records@[j]),
            decreases records.len() - i,
        {
            let record = &records[i];
            jobs.push(
                Job {
                    name: record.name.clone(),
                    status: map_status(record.status.as_str()),
                    link: record.web_url.clone(),
                },
            );
            i += 1;
        }
        jobs
    }
}

} // verus!
