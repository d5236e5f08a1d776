use ci_dashboard::dom::{Job, Pipeline, PipelineDetail, Project};
use ci_dashboard::failure::Failure;
use ci_dashboard::gitlab::{
    Config, GitLab, GitLabJob, GitLabNameSpace, GitLabPipeline, GitLabPipelineDetail,
    GitLabProject, Header, Request,
};
use ci_dashboard::status::Status;
use std::sync::Arc;

fn client() -> GitLab {
    GitLab::new(Arc::new(Config {
        server: "https://gitlab.example".to_string(),
        token: "example-token".to_string(),
    }))
}

fn headers() -> Vec<Header> {
    vec![
        Header { name: "Accept".to_string(), value: "application/json".to_string() },
        Header { name: "Private-Token".to_string(), value: "example-token".to_string() },
    ]
}

#[test]
fn the_projects_request_asks_for_the_member_s_projects() {
    assert_eq!(
        client().request_projects(),
        Request {
            url: "https://gitlab.example/api/v4/projects?membership=true".to_string(),
            headers: headers(),
        }
    );
}

#[test]
fn the_pipelines_request_asks_for_the_newest_first() {
    assert_eq!(
        client().request_pipelines(42),
        Request {
            url: "https://gitlab.example/api/v4/projects/42/pipelines?order_by=id&sort=desc"
                .to_string(),
            headers: headers(),
        }
    );
}

#[test]
fn the_detail_request_names_project_and_pipeline() {
    assert_eq!(
        client().request_pipeline_detail(42, 1007),
        Request {
            url: "https://gitlab.example/api/v4/projects/42/pipelines/1007".to_string(),
            headers: headers(),
        }
    );
}

#[test]
fn the_jobs_request_names_project_and_pipeline() {
    assert_eq!(
        client().request_jobs(42, 1007),
        Request {
            url: "https://gitlab.example/api/v4/projects/42/pipelines/1007/jobs".to_string(),
            headers: headers(),
        }
    );
}

#[test]
fn a_prepared_request_carries_the_url_as_given() {
    let request = client().prepare_request("https://elsewhere.example/x?y=1");
    assert_eq!(request.url, "https://elsewhere.example/x?y=1");
    assert_eq!(request.headers, headers());
}

#[test]
fn the_headers_are_put_after_those_that_are_there() {
    let mut request = Request {
        url: "u".to_string(),
        headers: vec![Header { name: "X-One".to_string(), value: "1".to_string() }],
    };
    client().set_request_headers(&mut request);
    assert_eq!(request.url, "u");
    assert_eq!(request.headers.len(), 3);
    assert_eq!(request.headers[0].name, "X-One");
    assert_eq!(request.headers[1..], headers()[..]);
}

#[test]
fn projects_are_read_with_their_namespace_as_group() {
    let records = vec![
        GitLabProject {
            id: 1,
            name: "app".to_string(),
            namespace: GitLabNameSpace { name: "team".to_string() },
        },
        GitLabProject {
            id: 7,
            name: "lib".to_string(),
            namespace: GitLabNameSpace { name: "core".to_string() },
        },
    ];
    assert_eq!(
        GitLab::read_projects(&records),
        vec![
            Project { id: 1, name: "app".to_string(), group: "team".to_string() },
            Project { id: 7, name: "lib".to_string(), group: "core".to_string() },
        ]
    );
    assert!(GitLab::read_projects(&vec![]).is_empty());
}

#[test]
fn pipelines_are_read_in_their_order() {
    let records = vec![
        GitLabPipeline { id: 30, status: "running".to_string() },
        GitLabPipeline { id: 20, status: "success".to_string() },
        GitLabPipeline { id: 10, status: "no such state".to_string() },
    ];
    assert_eq!(
        GitLab::read_pipelines(&records),
        vec![
            Pipeline { id: 30, status: Status::RUNNING },
            Pipeline { id: 20, status: Status::SUCCESS },
            Pipeline { id: 10, status: Status::FAILED },
        ]
    );
}

#[test]
fn a_detail_is_read_with_its_duration() {
    let record = GitLabPipelineDetail {
        id: 100,
        status: "manual".to_string(),
        git_ref: "main".to_string(),
        duration: Some(65),
    };
    assert_eq!(
        GitLab::read_pipeline_detail(&record),
        Ok(PipelineDetail {
            id: 100,
            status: Status::MANUAL,
            git_ref: "main".to_string(),
            duration: 65
        })
    );
}

#[test]
fn a_detail_without_a_duration_has_run_for_no_time() {
    let record = GitLabPipelineDetail {
        id: 100,
        status: "pending".to_string(),
        git_ref: "v2".to_string(),
        duration: None,
    };
    assert_eq!(GitLab::read_pipeline_detail(&record).unwrap().duration, 0);
}

#[test]
fn a_detail_with_a_negative_duration_is_not_read() {
    let record = GitLabPipelineDetail {
        id: 100,
        status: "success".to_string(),
        git_ref: "main".to_string(),
        duration: Some(-1),
    };
    assert_eq!(GitLab::read_pipeline_detail(&record), Err(Failure::Decode));
}

#[test]
fn jobs_are_read_with_their_page_as_link() {
    let records = vec![
        GitLabJob {
            id: 1,
            name: "build".to_string(),
            status: "success".to_string(),
            web_url: "https://gitlab.example/team/app/-/jobs/1".to_string(),
        },
        GitLabJob {
            id: 2,
            name: "deploy".to_string(),
            status: "canceled".to_string(),
            web_url: String::new(),
        },
    ];
    assert_eq!(
        GitLab::read_jobs(&records),
        vec![
            Job {
                name: "build".to_string(),
                status: Status::SUCCESS,
                link: "https://gitlab.example/team/app/-/jobs/1".to_string(),
            },
            Job { name: "deploy".to_string(), status: Status::CANCELED, link: String::new() },
        ]
    );
}
