//! Settings with their defaults.

use vstd::prelude::*;
use vstd::string::StringExecFns;
use crate::text::same_text;

verus! {

/// How results are written out.
#[derive(Debug, Clone, Copy, PartialEq, Eq, Structural)]
pub enum OutputFormat {
    Summary,
    Json,
    Csv,
    Html,
}

/// Output preferences.
#[derive(Debug, Clone)]
pub struct OutputConfig {
    /// Output format.
    pub format: OutputFormat,
    /// Pretty-print JSON output.
    pub pretty: bool,
    /// Include cost analysis in the output.
    pub include_costs: bool,
    /// Include optimisation recommendations.
    pub include_recommendations: bool,
}

/// Analysis parameters.
#[derive(Debug, Clone)]
pub struct AnalysisConfig {
    /// Enable historical trend analysis.
    pub enable_history: bool,
    /// History database path.
    pub history_db: Option<String>,
    /// Enable issue tracker integration.
    pub enable_issues: bool,
    /// Repository for issue integration, as `owner/repo`.
    pub github_repo: Option<String>,
}

impl Default for OutputFormat {
    fn default() -> (format: Self)
        ensures
            format == OutputFormat::Summary,
    {
        OutputFormat::Summary
    }
}

impl Default for OutputConfig {
    fn default() -> (config: Self)
        ensures
            config.format == OutputFormat::Summary,
            !config.pretty,
            !config.include_costs,
            !config.include_recommendations,
    {
        OutputConfig {
            format: OutputFormat::Summary,
            pretty: false,
            include_costs: false,
            include_recommendations: false,
        }
    }
}

impl Default for AnalysisConfig {
    fn default() -> (config: Self)
        ensures
            !config.enable_history,
            config.history_db is None,
            !config.enable_issues,
            config.github_repo is None,
    {
        AnalysisConfig {
            enable_history: false,
            history_db: None,
            enable_issues: false,
            github_repo: None,
        }
    }
}

/// Base address of the public GitLab instance.
pub fn default_gitlab_base_url() -> (url: String)
    ensures
        url@ == "https://gitlab.com"@,
{
    String::from_str("https://gitlab.com")
}

/// Base address of the public GitHub API.
pub fn default_github_base_url() -> (url: String)
    ensures
        url@ == "https://api.github.com"@,
{
    String::from_str("https://api.github.com")
}

/// How many pipelines are fetched where no limit is given.
pub fn default_limit() -> (limit: usize)
    ensures
        limit == 500,
{
    500
}

/// The share of all pipelines, in percent, below which a pipeline type is
/// left out where no threshold is given.
pub fn default_min_type_percentage() -> (percent: u8)
    ensures
        percent == 1,
{
    1
}

/// The syntax of a configuration file.
#[derive(Debug, Clone, Copy, PartialEq, Eq, Structural)]
pub enum ConfigSyntax {
    Toml,
    Json,
    Yaml,
}

/// The syntax that the extension of a file name stands for, if any.
pub open spec fn syntax_of(extension: Seq<char>) -> Option<ConfigSyntax> {
    if extension == "toml"@ {
        Some(ConfigSyntax::Toml)
    } else if extension == "json"@ {
        Some(ConfigSyntax::Json)
    } else if extension == "yaml"@ || extension == "yml"@ {
        Some(ConfigSyntax::Yaml)
    } else {
        None
    }
}

/// Tells from the extension of a file name in which syntax the file is
/// read: `toml`, `json`, and `yaml` or `yml` each name their own. With
/// any other extension the syntax is unknown, and each is to be tried.
pub fn syntax_for_reading(extension: &str) -> (syntax: Option<ConfigSyntax>)
    ensures
        syntax == syntax_of(extension@),
{
    if same_text(extension, "toml") {
        Some(ConfigSyntax::Toml)
    } else if same_text(extension, "json") {
        Some(ConfigSyntax::Json)
    } else if same_text(extension, "yaml") || same_text(extension, "yml") {
        Some(ConfigSyntax::Yaml)
    } else {
        None
    }
}

/// Tells from the extension of a file name, if it has one, in which
/// syntax the file is written: JSON and YAML for their extensions, TOML
/// for everything else.
pub fn syntax_for_writing(extension: Option<&str>) -> (syntax: ConfigSyntax)
    ensures
        syntax == match extension {
            Some(text) => match syntax_of(text@) {
                Some(ConfigSyntax::Json) => ConfigSyntax::Json,
                Some(ConfigSyntax::Yaml) => ConfigSyntax::Yaml,
                _ => ConfigSyntax::Toml,
            },
            None => ConfigSyntax::Toml,
        },
{
    match extension {
        Some(text) => match syntax_for_reading(text) {
            Some(ConfigSyntax::Json) => ConfigSyntax::Json,
            Some(ConfigSyntax::Yaml) => ConfigSyntax::Yaml,
            _ => ConfigSyntax::Toml,
        },
        None => ConfigSyntax::Toml,
    }
}

/// The file names under which a configuration is looked for where none
/// is given, in the order in which they are tried.
pub fn candidate_files() -> (names: Vec<String>)
    ensures
        names.deep_view() == seq![
            "cilens.toml"@,
            "cilens.json"@,
            "cilens.yaml"@,
            "cilens.yml"@,
        ],
{
    let mut names: Vec<String> = Vec::new();
    names.push(String::from_str("cilens.toml"));
    names.push(String::from_str("cilens.json"));
    names.push(String::from_str("cilens.yaml"));
    names.push(String::from_str("cilens.yml"));
    assert(names.deep_view() =~= seq![
        "cilens.toml"@,
        "cilens.json"@,
        "cilens.yaml"@,
        "cilens.yml"@,
    ]);
    names
}

} // verus!
