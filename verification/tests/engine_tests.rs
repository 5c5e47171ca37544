use yeth::appmap::AppMap;
use yeth::config::App;
use yeth::config::Config;
use yeth::config::Dependency;
use yeth::engine::YethEngine;
use yeth::engine::calculate_hashes;
use yeth::engine::calculate_hashes_for_app;
use yeth::error::YethError;
use yeth::fstree::FsSnapshot;
use yeth::graph::topological_sort;

fn app(name: &str, dir: &str, dependencies: Vec<Dependency>) -> App {
    App {
        name: name.to_string(),
        dir: dir.to_string(),
        dependencies,
        exclude_patterns: vec![],
    }
}

fn is_hex(s: &str) -> bool {
    s.chars().all(|c| c.is_ascii_hexdigit())
}

#[test]
fn test_calculate_hashes() {
    let root = "/t";
    let app1_dir = format!("{}/app1", root);
    let app2_dir = format!("{}/app2", root);
    let app3_dir = format!("{}/app3", root);
    let shared_dir = format!("{}/shared", root);

    let mut fs = FsSnapshot::new();
    fs.add_dir(app1_dir.clone());
    fs.add_file(format!("{}/file1.txt", app1_dir), b"App1 content 1".to_vec());
    fs.add_file(format!("{}/file2.txt", app1_dir), b"App1 content 2".to_vec());
    fs.add_dir(app2_dir.clone());
    fs.add_file(format!("{}/file1.txt", app2_dir), b"App2 content".to_vec());
    fs.add_dir(shared_dir.clone());
    fs.add_file(format!("{}/lib.js", shared_dir), b"Shared library code".to_vec());
    fs.add_dir(app3_dir.clone());
    fs.add_file(format!("{}/file.txt", app3_dir), b"App3 content".to_vec());

    let mut apps = AppMap::new();
    // App1 with no dependencies
    apps.insert(app("app1", &app1_dir, vec![]));
    // App2 with dependency on app1
    apps.insert(app("app2", &app2_dir, vec![Dependency::App("app1".to_string())]));
    // App3 with path dependency
    apps.insert(app("app3", &app3_dir, vec![Dependency::Path(shared_dir.clone())]));

    // Test calculate_hashes with ordered apps
    let ordered_apps = vec!["app1".to_string(), "app2".to_string(), "app3".to_string()];
    let result = calculate_hashes(ordered_apps, &apps, &fs);

    assert!(result.is_ok(), "Failed to calculate hashes: {:?}", result.err());
    let hashes = result.unwrap();

    // Verify we have hashes for all apps
    assert_eq!(hashes.len(), 3);
    assert!(hashes.contains_key("app1"));
    assert!(hashes.contains_key("app2"));
    assert!(hashes.contains_key("app3"));

    // Verify hashes are valid SHA256 hashes (64 hex characters)
    for name in ["app1", "app2", "app3"] {
        let hash = hashes.get(name).unwrap();
        assert_eq!(hash.len(), 64, "Hash for {} should be 64 characters long", name);
        assert!(is_hex(hash), "Hash for {} should contain only hex characters", name);
    }

    // Verify that app2's hash is different from app1's hash (due to dependency)
    let app1_hash = hashes.get("app1").unwrap().clone();
    let app2_hash = hashes.get("app2").unwrap().clone();
    assert_ne!(app1_hash, app2_hash, "App2 hash should be different from App1 hash");

    // Verify that app3's hash is different from app1's hash (due to path dependency)
    let app3_hash = hashes.get("app3").unwrap().clone();
    assert_ne!(app1_hash, app3_hash, "App3 hash should be different from App1 hash");

    // Test that modifying a file changes the hash
    let mut fs2 = FsSnapshot::new();
    fs2.add_dir(app1_dir.clone());
    fs2.add_file(format!("{}/file1.txt", app1_dir), b"Modified App1 content".to_vec());
    fs2.add_file(format!("{}/file2.txt", app1_dir), b"App1 content 2".to_vec());
    fs2.add_dir(app2_dir.clone());
    fs2.add_file(format!("{}/file1.txt", app2_dir), b"App2 content".to_vec());
    let ordered_apps = vec!["app1".to_string(), "app2".to_string()];
    let result = calculate_hashes(ordered_apps, &apps, &fs2);
    assert!(result.is_ok());
    let new_hashes = result.unwrap();

    let new_app1_hash = new_hashes.get("app1").unwrap();
    let new_app2_hash = new_hashes.get("app2").unwrap();

    assert_ne!(&app1_hash, new_app1_hash, "Modified file should change App1 hash");
    assert_ne!(&app2_hash, new_app2_hash, "Modified dependency should change App2 hash");
}

#[test]
fn test_calculate_hashes_with_incorrect_order() {
    let root = "/t";
    let app1_dir = format!("{}/app1", root);
    let app2_dir = format!("{}/app2", root);

    let mut fs = FsSnapshot::new();
    fs.add_dir(app1_dir.clone());
    fs.add_file(format!("{}/file.txt", app1_dir), b"App1 content".to_vec());
    fs.add_dir(app2_dir.clone());
    fs.add_file(format!("{}/file.txt", app2_dir), b"App2 content".to_vec());

    let mut apps = AppMap::new();
    apps.insert(app("app1", &app1_dir, vec![]));
    apps.insert(app("app2", &app2_dir, vec![Dependency::App("app1".to_string())]));

    // Test calculate_hashes with incorrect order (app2 before app1)
    let ordered_apps = vec!["app2".to_string(), "app1".to_string()];
    let result = calculate_hashes(ordered_apps, &apps, &fs);

    // Should return an error due to incorrect order
    assert!(result.is_err());
    match result {
        Err(e) => assert!(matches!(e, YethError::IncorrectOrder)),
        Ok(_) => panic!("expected IncorrectOrder"),
    }
}

#[test]
fn test_three_apps_scenario() {
    // applications A (no deps), B (app edge to A), C (path edge to a shared
    // directory): the order puts A before B, and touching A's tree changes
    // the hashes of A and B but not of C
    let a_dir = "/r/a";
    let b_dir = "/r/b";
    let c_dir = "/r/c";
    let shared = "/r/shared";

    let build_fs = |a_content: &[u8]| {
        let mut fs = FsSnapshot::new();
        fs.add_dir(a_dir.to_string());
        fs.add_file(format!("{}/main.rs", a_dir), a_content.to_vec());
        fs.add_dir(b_dir.to_string());
        fs.add_file(format!("{}/main.rs", b_dir), b"b source".to_vec());
        fs.add_dir(c_dir.to_string());
        fs.add_file(format!("{}/main.rs", c_dir), b"c source".to_vec());
        fs.add_dir(shared.to_string());
        fs.add_file(format!("{}/lib.js", shared), b"shared code".to_vec());
        fs
    };
    let fs = build_fs(b"a source");

    let mut apps = AppMap::new();
    apps.insert(app("a", a_dir, vec![]));
    apps.insert(app("b", b_dir, vec![Dependency::App("a".to_string())]));
    apps.insert(app("c", c_dir, vec![Dependency::Path(shared.to_string())]));

    let order = topological_sort(&apps, &fs).unwrap();
    let a_pos = order.iter().position(|x| x == "a").unwrap();
    let b_pos = order.iter().position(|x| x == "b").unwrap();
    assert!(a_pos < b_pos);

    let hashes = calculate_hashes(order.clone(), &apps, &fs).unwrap();
    assert_ne!(hashes.get("a").unwrap(), hashes.get("b").unwrap());

    // modify a file inside A's directory
    let fs_mod = build_fs(b"a source, edited");
    let hashes_mod = calculate_hashes(order, &apps, &fs_mod).unwrap();
    assert_ne!(hashes.get("a").unwrap(), hashes_mod.get("a").unwrap());
    assert_ne!(hashes.get("b").unwrap(), hashes_mod.get("b").unwrap());
    assert_eq!(hashes.get("c").unwrap(), hashes_mod.get("c").unwrap());
}

#[test]
fn test_calculate_hashes_for_app_closure() {
    let a_dir = "/r/a";
    let b_dir = "/r/b";
    let c_dir = "/r/c";
    let mut fs = FsSnapshot::new();
    fs.add_file(format!("{}/f", a_dir), b"a".to_vec());
    fs.add_file(format!("{}/f", b_dir), b"b".to_vec());
    fs.add_file(format!("{}/f", c_dir), b"c".to_vec());

    let mut apps = AppMap::new();
    apps.insert(app("a", a_dir, vec![]));
    apps.insert(app("b", b_dir, vec![Dependency::App("a".to_string())]));
    apps.insert(app("c", c_dir, vec![]));

    // only the target and its closure are hashed
    let hashes = calculate_hashes_for_app("b", &apps, &fs).unwrap();
    assert_eq!(hashes.len(), 2);
    assert!(hashes.contains_key("a"));
    assert!(hashes.contains_key("b"));
    assert!(!hashes.contains_key("c"));

    // a missing target is reported
    let missing = calculate_hashes_for_app("ghost", &apps, &fs);
    assert!(matches!(missing, Err(YethError::AppNotFound(_))));
}

#[test]
fn test_engine_methods_delegate() {
    let config = Config::builder().root("/r".to_string()).build().unwrap();
    assert_eq!(config.root, "/r");
    let engine = YethEngine::new(config);

    let a_dir = "/r/a";
    let b_dir = "/r/b";
    let mut fs = FsSnapshot::new();
    fs.add_file(format!("{}/f", a_dir), b"a".to_vec());
    fs.add_file(format!("{}/f", b_dir), b"b".to_vec());

    let mut apps = AppMap::new();
    apps.insert(app("a", a_dir, vec![]));
    apps.insert(app("b", b_dir, vec![Dependency::App("a".to_string())]));

    let order = engine.topological_sort(&apps, &fs).unwrap();
    assert_eq!(order.len(), 2);

    let closure = engine.find_app_dependencies("b", &apps).unwrap();
    assert_eq!(closure, vec!["a", "b"]);

    let hashes = engine.calculate_hashes(order, &apps, &fs).unwrap();
    assert_eq!(hashes.len(), 2);

    let hashes_b = engine.calculate_hashes_for_app("b", &apps, &fs).unwrap();
    assert_eq!(hashes_b.len(), 2);
}
