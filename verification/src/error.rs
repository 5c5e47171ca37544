use vstd::prelude::*;
use vstd::string::StringExecFns;

verus! {

/// Everything that can go wrong while building the dependency graph or
/// computing hashes. Every error is fatal to the operation that raised it
/// and carries the context (which application, which dependency, which path)
/// needed to report it.
#[derive(Debug, Clone)]
pub enum YethError {
    /// An application declares a dependency on another application that is
    /// not present in the application map: `(dependency, owner)`.
    DependencyNotFound(String, String),
    /// An application declares a dependency on a filesystem path that does
    /// not exist: `(path, owner)`.
    PathDependencyNotFound(String, String),
    /// A path handed to the hasher is neither a file nor a directory.
    NorFileOrDirectory(String),
    /// The application-to-application dependency graph contains a cycle.
    CircularDependency,
    /// A hash was requested before the hashes of its dependencies were
    /// computed: the supplied order violates dependency precedence.
    IncorrectOrder,
    /// The named application is not present in the application map.
    AppNotFound(String),
    /// A config file path has no parent directory.
    NoParentDir(String),
    /// An application directory path has no final component to name it by.
    NoFileName(String),
    /// A config file could not be read.
    ConfigReadError(String),
    /// A config file could not be parsed.
    TomlParseError(String),
    /// Discovery found no applications at all.
    NoApplicationsFound,
    /// A file that should be hashed could not be read.
    IoError(String),
}

/// The exact text that [`YethError::message`] renders for each error.
pub open spec fn message_spec(e: &YethError) -> Seq<char> {
    match e {
        YethError::DependencyNotFound(dep, owner) => "Application dependency '"@ + dep@
            + "' for '"@ + owner@ + "' not found"@,
        YethError::PathDependencyNotFound(path, owner) => "Path dependency '"@ + path@
            + "' for '"@ + owner@ + "' not found"@,
        YethError::NorFileOrDirectory(path) => "Path '"@ + path@
            + "' is neither a file nor a directory"@,
        YethError::CircularDependency => "Circular dependency detected"@,
        YethError::IncorrectOrder => "Dependency not processed in correct order"@,
        YethError::AppNotFound(name) => "Application '"@ + name@ + "' not found"@,
        YethError::NoParentDir(path) => "Config file path has no parent directory: "@ + path@,
        YethError::NoFileName(path) => "App directory path has no file name: "@ + path@,
        YethError::ConfigReadError(detail) => "Failed to read config file: "@ + detail@,
        YethError::TomlParseError(detail) => "Failed to parse TOML: "@ + detail@,
        YethError::NoApplicationsFound => "No applications found"@,
        YethError::IoError(path) => "Failed to read file: "@ + path@,
    }
}

impl YethError {
    /// A human-readable description of the error.
    pub fn message(&self) -> (r: String)
        ensures
            r@ == message_spec(self),
    {
        match self {
            YethError::DependencyNotFound(dep, owner) => {
                let mut m = String::from_str("Application dependency '");
                m.append(dep.as_str());
                m.append("' for '");
                m.append(owner.as_str());
                m.append("' not found");
                proof {
                    assert(m@ =~= message_spec(self));
                }
                m
            },
            YethError::PathDependencyNotFound(path, owner) => {
                let mut m = String::from_str("Path dependency '");
                m.append(path.as_str());
                m.append("' for '");
                m.append(owner.as_str());
                m.append("' not found");
                proof {
                    assert(m@ =~= message_spec(self));
                }
                m
            },
            YethError::NorFileOrDirectory(path) => {
                let mut m = String::from_str("Path '");
                m.append(path.as_str());
                m.append("' is neither a file nor a directory");
                proof {
                    assert(m@ =~= message_spec(self));
                }
                m
            },
            YethError::CircularDependency => String::from_str("Circular dependency detected"),
            YethError::IncorrectOrder => {
                String::from_str("Dependency not processed in correct order")
            },
            YethError::AppNotFound(name) => {
                let mut m = String::from_str("Application '");
                m.append(name.as_str());
                m.append("' not found");
                proof {
                    assert(m@ =~= message_spec(self));
                }
                m
            },
            YethError::NoParentDir(path) => {
                let mut m = String::from_str("Config file path has no parent directory: ");
                m.append(path.as_str());
                proof {
                    assert(m@ =~= message_spec(self));
                }
                m
            },
            YethError::NoFileName(path) => {
                let mut m = String::from_str("App directory path has no file name: ");
                m.append(path.as_str());
                proof {
                    assert(m@ =~= message_spec(self));
                }
                m
            },
            YethError::ConfigReadError(detail) => {
                let mut m = String::from_str("Failed to read config file: ");
                m.append(detail.as_str());
                proof {
                    assert(m@ =~= message_spec(self));
                }
                m
            },
            YethError::TomlParseError(detail) => {
                let mut m = String::from_str("Failed to parse TOML: ");
                m.append(detail.as_str());
                proof {
                    assert(m@ =~= message_spec(self));
                }
                m
            },
            YethError::NoApplicationsFound => String::from_str("No applications found"),
            YethError::IoError(path) => {
                let mut m = String::from_str("Failed to read file: ");
                m.append(path.as_str());
                proof {
                    assert(m@ =~= message_spec(self));
                }
                m
            },
        }
    }
}

} // verus!
