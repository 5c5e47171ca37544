use yeth::appmap::AppMap;
use yeth::config::App;
use yeth::config::Dependency;
use yeth::error::YethError;
use yeth::fstree::FsSnapshot;
use yeth::graph::topological_sort;

fn app(name: &str, dir: &str, dependencies: Vec<Dependency>) -> App {
    App {
        name: name.to_string(),
        dir: dir.to_string(),
        dependencies,
        exclude_patterns: vec![],
    }
}

#[test]
fn test_topological_sort() {
    let mut apps = AppMap::new();
    apps.insert(app("app1", "/test/app1", vec![]));
    apps.insert(app("app2", "/test/app2", vec![Dependency::App("app1".to_string())]));
    apps.insert(app("app3", "/test/app3", vec![Dependency::App("app2".to_string())]));
    apps.insert(app(
        "app4",
        "/test/app4",
        vec![Dependency::App("app1".to_string()), Dependency::App("app3".to_string())],
    ));
    let fs = FsSnapshot::new();

    let result = topological_sort(&apps, &fs).unwrap();

    let app1_pos = result.iter().position(|x| x == "app1").unwrap();
    let app2_pos = result.iter().position(|x| x == "app2").unwrap();
    let app3_pos = result.iter().position(|x| x == "app3").unwrap();
    let app4_pos = result.iter().position(|x| x == "app4").unwrap();

    // app1 should come before app2 and app4
    assert!(app1_pos < app2_pos);
    assert!(app1_pos < app4_pos);

    // app2 should come before app3
    assert!(app2_pos < app3_pos);

    // app3 should come before app4
    assert!(app3_pos < app4_pos);

    // All apps should be in the result
    assert_eq!(result.len(), 4);
    assert!(result.contains(&"app1".to_string()));
    assert!(result.contains(&"app2".to_string()));
    assert!(result.contains(&"app3".to_string()));
    assert!(result.contains(&"app4".to_string()));
}

#[test]
fn test_topological_sort_with_path_dependencies() {
    let mut apps = AppMap::new();
    let shared_lib = "/test/shared_lib";
    apps.insert(app("app1", "/test/app1", vec![Dependency::Path(shared_lib.to_string())]));
    apps.insert(app("app2", "/test/app2", vec![Dependency::App("app1".to_string())]));

    let mut fs = FsSnapshot::new();
    fs.add_dir(shared_lib.to_string());

    let result = topological_sort(&apps, &fs).unwrap();

    // app1 should come before app2
    let app1_pos = result.iter().position(|x| x == "app1").unwrap();
    let app2_pos = result.iter().position(|x| x == "app2").unwrap();
    assert!(app1_pos < app2_pos);
}

#[test]
fn test_topological_sort_with_circular_dependency() {
    let mut apps = AppMap::new();
    apps.insert(app("app1", "/test/app1", vec![Dependency::App("app2".to_string())]));
    apps.insert(app("app2", "/test/app2", vec![Dependency::App("app1".to_string())]));
    let fs = FsSnapshot::new();

    let result = topological_sort(&apps, &fs);
    assert!(matches!(result, Err(YethError::CircularDependency)));
}

#[test]
fn test_topological_sort_with_missing_dependency() {
    let mut apps = AppMap::new();
    apps.insert(app("app1", "/test/app1", vec![Dependency::App("nonexistent".to_string())]));
    let fs = FsSnapshot::new();

    let result = topological_sort(&apps, &fs);
    assert!(matches!(result, Err(YethError::DependencyNotFound(_, _))));
}

#[test]
fn test_topological_sort_missing_path_dependency() {
    let mut apps = AppMap::new();
    apps.insert(app("app1", "/test/app1", vec![Dependency::Path("/test/absent".to_string())]));
    let fs = FsSnapshot::new();

    let result = topological_sort(&apps, &fs);
    match result {
        Err(YethError::PathDependencyNotFound(path, owner)) => {
            assert_eq!(path, "/test/absent");
            assert_eq!(owner, "app1");
        },
        other => panic!("expected PathDependencyNotFound, got {:?}", other),
    }
}

#[test]
fn test_topological_sort_empty_map() {
    let apps = AppMap::new();
    let fs = FsSnapshot::new();
    let result = topological_sort(&apps, &fs).unwrap();
    assert_eq!(result.len(), 0);
}

#[test]
fn test_topological_sort_reports_missing_dependency_with_owner() {
    let mut apps = AppMap::new();
    apps.insert(app("app1", "/test/app1", vec![Dependency::App("ghost".to_string())]));
    let fs = FsSnapshot::new();
    match topological_sort(&apps, &fs) {
        Err(YethError::DependencyNotFound(dep, owner)) => {
            assert_eq!(dep, "ghost");
            assert_eq!(owner, "app1");
        },
        other => panic!("expected DependencyNotFound, got {:?}", other),
    }
}
