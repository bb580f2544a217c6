use komodo_guard::compose::{
    docker_compose, list_compose_projects, parse_compose_services, ComposeFile, ComposeService,
    ComposeServiceDeploy, DockerComposeLsItem, StackServiceNames,
};

fn service(image: Option<&str>, container_name: Option<&str>, replicas: Option<u8>) -> ComposeService {
    ComposeService {
        image: image.map(String::from),
        container_name: container_name.map(String::from),
        deploy: Some(ComposeServiceDeploy { replicas }),
    }
}

fn names(services: &[StackServiceNames]) -> Vec<(String, String, String)> {
    services
        .iter()
        .map(|s| (s.service_name.clone(), s.container_name.clone(), s.image.clone()))
        .collect()
}

#[test]
fn picks_the_compose_command() {
    assert_eq!(docker_compose(true), "docker-compose");
    assert_eq!(docker_compose(false), "docker compose");
}

#[test]
fn names_services_and_replicas() {
    let compose = ComposeFile {
        name: None,
        services: vec![
            ("web".to_string(), service(Some("nginx:1"), None, Some(3))),
            ("db".to_string(), service(Some("postgres"), Some("main-db"), None)),
            ("job".to_string(), ComposeService { image: None, container_name: None, deploy: None }),
            ("one".to_string(), service(Some("busybox"), Some("ignored"), Some(1))),
        ],
    };
    let mut services = vec![StackServiceNames {
        service_name: "kept".to_string(),
        container_name: "kept".to_string(),
        image: String::new(),
        image_digest: None,
    }];
    parse_compose_services(&compose, "proj", &mut services);
    assert_eq!(
        names(&services),
        vec![
            ("kept".into(), "kept".into(), "".into()),
            ("web-1".into(), "proj-web-1".into(), "nginx:1".into()),
            ("web-2".into(), "proj-web-2".into(), "nginx:1".into()),
            ("web-3".into(), "proj-web-3".into(), "nginx:1".into()),
            ("db".into(), "main-db".into(), "postgres".into()),
            ("job".into(), "proj-job".into(), "".into()),
            ("one".into(), "ignored".into(), "busybox".into()),
        ]
    );
    assert!(services.iter().all(|s| s.image_digest.is_none()));
}

#[test]
fn numbers_many_replicas_in_decimal() {
    let compose = ComposeFile {
        name: None,
        services: vec![("w".to_string(), service(None, None, Some(12)))],
    };
    let mut services = Vec::new();
    parse_compose_services(&compose, "p", &mut services);
    assert_eq!(services.len(), 12);
    assert_eq!(services[11].container_name, "p-w-12");
    assert_eq!(services[9].service_name, "w-10");
}

fn item(name: &str, status: Option<&str>, files: &str) -> DockerComposeLsItem {
    DockerComposeLsItem {
        name: name.to_string(),
        status: status.map(String::from),
        config_files: files.to_string(),
    }
}

#[test]
fn lists_projects_sorted_by_status_then_name() {
    let projects = list_compose_projects(vec![
        item("zeta", Some("running(1)"), "/a/compose.yaml"),
        item("", Some("running(1)"), "/nameless.yaml"),
        item("alpha", Some("running(1)"), "/b/compose.yaml,/b/override.yaml"),
        item("beta", None, ""),
        item("gamma", Some("exited(2)"), "/c.yaml,"),
    ]);
    let listed: Vec<(String, Option<String>, Vec<String>)> = projects
        .into_iter()
        .map(|p| (p.name, p.status, p.compose_files))
        .collect();
    assert_eq!(
        listed,
        vec![
            ("beta".to_string(), None, vec!["".to_string()]),
            ("gamma".to_string(), Some("exited(2)".to_string()), vec!["/c.yaml".to_string(), "".to_string()]),
            (
                "alpha".to_string(),
                Some("running(1)".to_string()),
                vec!["/b/compose.yaml".to_string(), "/b/override.yaml".to_string()]
            ),
            ("zeta".to_string(), Some("running(1)".to_string()), vec!["/a/compose.yaml".to_string()]),
        ]
    );
}

#[test]
fn listing_keeps_the_order_of_equal_projects() {
    let projects = list_compose_projects(vec![
        item("same", Some("x"), "/second-seen-first.yaml"),
        item("other", Some("a"), "/o.yaml"),
        item("same", Some("x"), "/seen-later.yaml"),
    ]);
    let files: Vec<String> = projects.iter().map(|p| p.compose_files[0].clone()).collect();
    assert_eq!(files, vec!["/o.yaml", "/second-seen-first.yaml", "/seen-later.yaml"]);
}
