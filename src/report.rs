//! The records of a dependency report, as the report's parser hands them over.
use vstd::prelude::*;

verus! {

#[verifier::external_type_specification]
#[verifier::external_body]
pub struct ExJsonValue(serde_json::Value);

/// A whole report: the analysed modules and a summary block.
pub struct DependencyGraph {
    pub modules: Vec<Module>,
    pub summary: Summary,
}

/// One analysed module, keyed by its canonical path `source`.
pub struct Module {
    pub source: String,
    pub dependencies: Vec<Dependency>,
    pub valid: bool,
    pub followable: Option<bool>,
    pub core_module: Option<bool>,
    pub could_not_resolve: Option<bool>,
    pub matches_do_not_follow: Option<bool>,
    pub dependency_types: Option<Vec<DependencyType>>,
}

/// One import of a module: `resolved` is the canonical path of its target;
/// a `dynamic` import is deferred and makes no edge.
pub struct Dependency {
    pub resolved: String,
    pub core_module: bool,
    pub followable: bool,
    pub could_not_resolve: bool,
    pub dependency_types: Vec<DependencyType>,
    pub module: String,
    pub module_system: ModuleSystem,
    pub dynamic: bool,
    pub matches_do_not_follow: bool,
    pub valid: bool,
    pub license: Option<String>,
}

/// The report's summary: rule violations, counts and the options used.
pub struct Summary {
    pub violations: Vec<Option<serde_json::Value>>,
    pub error: i64,
    pub warn: i64,
    pub info: i64,
    pub total_cruised: i64,
    pub total_dependencies_cruised: i64,
    pub options_used: OptionsUsed,
}

/// The options the analysis ran with.
pub struct OptionsUsed {
    pub combined_dependencies: bool,
    pub exclude: Exclude,
    pub external_module_resolution_strategy: String,
    pub module_systems: Vec<String>,
    pub output_to: String,
    pub output_type: String,
    pub preserve_symlinks: bool,
    pub ts_pre_compilation_deps: bool,
    pub args: String,
}

/// The exclusion pattern of the analysis.
pub struct Exclude {
    pub path: String,
}

/// A tag on an import; the set of tags is open, so unknown ones are kept.
pub enum DependencyType {
    Core,
    Local,
    Other(String),
}

/// The module system an import was written in.
pub enum ModuleSystem {
    Es6,
    Other(String),
}

impl Dependency {
    /// A plain static or dynamic import of `module`, resolved to `resolved`.
    pub fn new(resolved: String, module: String, dynamic: bool) -> (d: Dependency)
        ensures
            d.resolved@ == resolved@,
            d.module@ == module@,
            d.dynamic == dynamic,
            d.dependency_types@.len() == 0,
    {
        Dependency {
            resolved,
            core_module: false,
            followable: true,
            could_not_resolve: false,
            dependency_types: Vec::new(),
            module,
            module_system: ModuleSystem::Es6,
            dynamic,
            matches_do_not_follow: false,
            valid: true,
            license: None,
        }
    }
}

impl Module {
    /// A valid module at `source` with the given imports.
    pub fn new(source: String, dependencies: Vec<Dependency>) -> (m: Module)
        ensures
            m.source@ == source@,
            m.dependencies@ == dependencies@,
            m.valid,
    {
        Module {
            source,
            dependencies,
            valid: true,
            followable: None,
            core_module: None,
            could_not_resolve: None,
            matches_do_not_follow: None,
            dependency_types: None,
        }
    }
}

} // verus!
