use yeth::appmap::AppMap;
use yeth::common::build_config;
use yeth::common::validate_email;
use yeth::config::App;
use yeth::config::AppConfig;
use yeth::config::AppInfo;
use yeth::config::Config;
use yeth::config::Dependency;
use yeth::config::ExcludePattern;
use yeth::config::build_app;
use yeth::cli::Cli;
use yeth::error::YethError;

#[test]
fn test_validate_email() {
    assert!(validate_email("test@example.com"));
    assert!(!validate_email("invalid"));
}

#[test]
fn test_build_config() {
    let config = build_config();
    assert_eq!(config.len(), 2);
    assert_eq!(config.get("version").unwrap(), "1.0.0");
    assert_eq!(config.get("env").unwrap(), "production");
}

#[test]
fn test_dependency_parse() {
    // a bare name is an application edge
    let dep = Dependency::parse("app1", "/test/app2");
    assert!(matches!(dep, Dependency::App(ref n) if n == "app1"));
    assert_eq!(dep.as_app(), Some("app1"));
    assert!(dep.as_path().is_none());

    // a declaration with a separator is a path resolved under the directory
    let dep = Dependency::parse("../shared/lib", "/test/app3");
    match &dep {
        Dependency::Path(p) => assert_eq!(p, "/test/app3/../shared/lib"),
        other => panic!("Expected Path dependency, got {:?}", other),
    }
    assert!(dep.as_app().is_none());
    assert_eq!(dep.as_path().map(|p| p.as_str()), Some("/test/app3/../shared/lib"));

    // a leading dot also makes a path
    let dep = Dependency::parse(".hidden", "/test/app1");
    assert!(matches!(dep, Dependency::Path(_)));

    // an absolute declaration stands alone
    let dep = Dependency::parse("/opt/lib", "/test/app1");
    match dep {
        Dependency::Path(p) => assert_eq!(p, "/opt/lib"),
        other => panic!("Expected Path dependency, got {:?}", other),
    }
}

#[test]
fn test_exclude_pattern_parse() {
    let pat = ExcludePattern::parse("node_modules", "/test/app1");
    assert!(matches!(pat, ExcludePattern::Name(ref n) if n == "node_modules"));

    let pat = ExcludePattern::parse("build/out", "/test/app1");
    match pat {
        ExcludePattern::AbsolutePath(p) => assert_eq!(p, "/test/app1/build/out"),
        other => panic!("Expected AbsolutePath pattern, got {:?}", other),
    }

    // relative steps are resolved away
    let pat = ExcludePattern::parse("../shared", "/test/app1");
    match pat {
        ExcludePattern::AbsolutePath(p) => assert_eq!(p, "/test/shared"),
        other => panic!("Expected AbsolutePath pattern, got {:?}", other),
    }

    let pat = ExcludePattern::parse("./build", "/test/app1");
    match pat {
        ExcludePattern::AbsolutePath(p) => assert_eq!(p, "/test/app1/build"),
        other => panic!("Expected AbsolutePath pattern, got {:?}", other),
    }
}

#[test]
fn test_build_app() {
    let config = AppConfig {
        app: AppInfo {
            dependencies: vec!["app1".to_string(), "../shared/lib".to_string()],
            exclude: vec!["node_modules".to_string(), "*.log".to_string()],
        },
    };
    let app = build_app("app2".to_string(), "/test/app2".to_string(), &config);
    assert_eq!(app.name, "app2");
    assert_eq!(app.dir, "/test/app2");
    assert_eq!(app.dependencies.len(), 2);
    assert!(matches!(app.dependencies[0], Dependency::App(ref n) if n == "app1"));
    assert!(
        matches!(app.dependencies[1], Dependency::Path(ref p) if p == "/test/app2/../shared/lib")
    );
    assert_eq!(app.exclude_patterns.len(), 2);
    assert!(matches!(app.exclude_patterns[0], ExcludePattern::Name(ref n) if n == "node_modules"));
    assert!(matches!(app.exclude_patterns[1], ExcludePattern::Name(ref n) if n == "*.log"));
}

#[test]
fn test_config_builder() {
    let config = Config::builder().root("/somewhere".to_string()).build().unwrap();
    assert_eq!(config.root, "/somewhere");

    let config = Config::builder().build().unwrap();
    assert_eq!(config.root, ".");
}

#[test]
fn test_app_map_operations() {
    let mut apps = AppMap::new();
    assert_eq!(apps.len(), 0);
    assert!(!apps.contains_key("a"));

    apps.insert(App {
        name: "a".to_string(),
        dir: "/r/a".to_string(),
        dependencies: vec![],
        exclude_patterns: vec![],
    });
    assert_eq!(apps.len(), 1);
    assert!(apps.contains_key("a"));
    assert_eq!(apps.get("a").unwrap().dir, "/r/a");
    assert!(apps.get("b").is_none());

    // inserting under a known name replaces the application
    apps.insert(App {
        name: "a".to_string(),
        dir: "/other/a".to_string(),
        dependencies: vec![],
        exclude_patterns: vec![],
    });
    assert_eq!(apps.len(), 1);
    assert_eq!(apps.get("a").unwrap().dir, "/other/a");
}

#[test]
fn test_error_messages() {
    let e = YethError::DependencyNotFound("app1".to_string(), "app2".to_string());
    assert_eq!(e.message(), "Application dependency 'app1' for 'app2' not found");

    let e = YethError::PathDependencyNotFound("/p".to_string(), "app2".to_string());
    assert_eq!(e.message(), "Path dependency '/p' for 'app2' not found");

    let e = YethError::NorFileOrDirectory("/p".to_string());
    assert_eq!(e.message(), "Path '/p' is neither a file nor a directory");

    assert_eq!(YethError::CircularDependency.message(), "Circular dependency detected");
    assert_eq!(
        YethError::IncorrectOrder.message(),
        "Dependency not processed in correct order"
    );

    let e = YethError::AppNotFound("x".to_string());
    assert_eq!(e.message(), "Application 'x' not found");

    let e = YethError::NoParentDir("/p".to_string());
    assert_eq!(e.message(), "Config file path has no parent directory: /p");

    let e = YethError::NoFileName("/p".to_string());
    assert_eq!(e.message(), "App directory path has no file name: /p");

    let e = YethError::ConfigReadError("denied".to_string());
    assert_eq!(e.message(), "Failed to read config file: denied");

    let e = YethError::TomlParseError("bad".to_string());
    assert_eq!(e.message(), "Failed to parse TOML: bad");

    assert_eq!(YethError::NoApplicationsFound.message(), "No applications found");

    let e = YethError::IoError("/f".to_string());
    assert_eq!(e.message(), "Failed to read file: /f");
}

#[test]
fn test_cli_defaults() {
    let cli = Cli {
        root: ".".to_string(),
        app: None,
        hash_only: false,
        verbose: false,
        show_graph: false,
        write_versions: false,
        short_hash: false,
        short_hash_length: 10,
    };
    assert_eq!(cli.root, ".");
    assert!(cli.app.is_none());
    assert_eq!(cli.short_hash_length, 10);
}
