use vigild::layers::layer_files;
use vigild::plan::{Plan, ServiceConfig, Startup};

fn service(command: &str) -> ServiceConfig {
    ServiceConfig {
        command: command.to_string(),
        startup: Startup::Disabled,
        after: vec![],
        before: vec![],
        requires: vec![],
        environment: vec![],
        user: None,
        user_id: None,
        group: None,
        group_id: None,
        working_dir: None,
        stop_signal: None,
        kill_delay: None,
        backoff_delay: None,
        backoff_limit: None,
        on_success: None,
        on_failure: None,
        on_check_failure: vec![],
    }
}

fn names(v: &[&str]) -> Vec<String> {
    v.iter().map(|s| s.to_string()).collect()
}

#[test]
fn layers_sorted_by_filename() {
    let files = layer_files(&names(&["002-b.yaml", "001-a.yaml"]));
    let got: Vec<&str> = files.iter().map(|f| f.name.as_str()).collect();
    assert_eq!(got, vec!["001-a.yaml", "002-b.yaml"]);
    assert_eq!(files[0].label, "001-a");
}

#[test]
fn non_yaml_files_are_ignored() {
    let files = layer_files(&names(&["001-app.yaml", "README.md", "config.json", "x.yml"]));
    let got: Vec<&str> = files.iter().map(|f| f.name.as_str()).collect();
    assert_eq!(got, vec!["001-app.yaml", "x.yml"]);
    assert_eq!(files[1].label, "x");
}

#[test]
fn empty_dir_returns_no_layers() {
    assert!(layer_files(&vec![]).is_empty());
}

#[test]
fn dotfile_stem_is_whole_name() {
    let files = layer_files(&names(&[".yaml", "a.b.yaml"]));
    assert_eq!(files[0].label, ".yaml");
    assert_eq!(files[1].label, "a.b");
}

#[test]
fn later_layer_overrides_earlier() {
    let mut plan = Plan::empty();
    let mut first = Plan::empty();
    first.services.push(("svc".to_string(), service("/bin/a")));
    first.services.push(("other".to_string(), service("/bin/o")));
    first.alert_queue_depth = Some(10);
    let mut second = Plan::empty();
    second.services.push(("svc".to_string(), service("/bin/b")));
    second.services.push(("new".to_string(), service("/bin/n")));
    second.alert_max_queue_time = Some("5s".to_string());
    plan.apply_layer(first);
    plan.apply_layer(second);
    let got: Vec<(&str, &str)> = plan.services.iter().map(|(n, c)| (n.as_str(), c.command.as_str())).collect();
    assert_eq!(got, vec![("svc", "/bin/b"), ("other", "/bin/o"), ("new", "/bin/n")]);
    assert_eq!(plan.alert_queue_depth, Some(10));
    assert_eq!(plan.alert_max_queue_time, Some("5s".to_string()));
}
