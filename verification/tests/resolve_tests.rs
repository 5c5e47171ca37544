use yeth::appmap::AppMap;
use yeth::config::App;
use yeth::config::Dependency;
use yeth::error::YethError;
use yeth::resolve::find_app_dependencies;

fn app(name: &str, dir: &str, dependencies: Vec<Dependency>) -> App {
    App {
        name: name.to_string(),
        dir: dir.to_string(),
        dependencies,
        exclude_patterns: vec![],
    }
}

#[test]
fn test_find_app_dependencies() {
    let mut apps = AppMap::new();
    apps.insert(app("app1", "/test/app1", vec![]));
    apps.insert(app("app2", "/test/app2", vec![Dependency::App("app1".to_string())]));
    apps.insert(app("app3", "/test/app3", vec![Dependency::App("app2".to_string())]));
    apps.insert(app(
        "app4",
        "/test/app4",
        vec![Dependency::App("app1".to_string()), Dependency::App("app3".to_string())],
    ));

    // Test app with no dependencies
    let result = find_app_dependencies("app1", &apps).unwrap();
    assert_eq!(result, vec!["app1"]);

    // Test app with direct dependency
    let result = find_app_dependencies("app2", &apps).unwrap();
    assert_eq!(result, vec!["app1", "app2"]);

    // Test app with transitive dependency
    let result = find_app_dependencies("app3", &apps).unwrap();
    assert_eq!(result, vec!["app1", "app2", "app3"]);

    // Test app with multiple dependencies
    let result = find_app_dependencies("app4", &apps).unwrap();
    assert_eq!(result, vec!["app1", "app2", "app3", "app4"]);

    // Test non-existent app
    let result = find_app_dependencies("nonexistent", &apps);
    assert!(matches!(result, Err(YethError::AppNotFound(_))));
}

#[test]
fn test_find_app_dependencies_with_path_dependencies() {
    let mut apps = AppMap::new();
    apps.insert(app("app1", "/test/app1", vec![Dependency::Path("/shared/lib".to_string())]));
    apps.insert(app("app2", "/test/app2", vec![Dependency::App("app1".to_string())]));

    // Test that path dependencies don't appear in the result
    let result = find_app_dependencies("app1", &apps).unwrap();
    assert_eq!(result, vec!["app1"]);

    // Test that app dependencies are still processed correctly
    let result = find_app_dependencies("app2", &apps).unwrap();
    assert_eq!(result, vec!["app1", "app2"]);
}

#[test]
fn test_find_app_dependencies_with_circular_reference() {
    let mut apps = AppMap::new();
    apps.insert(app("app1", "/test/app1", vec![Dependency::App("app2".to_string())]));
    apps.insert(app("app2", "/test/app2", vec![Dependency::App("app1".to_string())]));

    // The function should handle circular dependencies gracefully
    let result = find_app_dependencies("app1", &apps).unwrap();
    // Both apps should be in the result, but no infinite loop
    assert_eq!(result.len(), 2);
    assert!(result.contains(&"app1".to_string()));
    assert!(result.contains(&"app2".to_string()));
}
