//! Scripts in `~/.lje/scripts`: each lives in its own folder with an
//! `info.toml` holding a `[script]` table; a disabled script has that file
//! renamed to `info.toml.disabled`.

use vstd::prelude::*;

use crate::order::{sort_by_name, stable_sorted_by_name, views, Named};

verus! {

/// A script as the launcher lists it.
#[derive(Debug, Clone)]
pub struct ScriptInfo {
    pub name: Option<String>,
    pub author: Option<String>,
    pub version: Option<String>,
    pub url: Option<String>,
    pub dependencies: Vec<String>,
    pub enabled: bool,
    /// Full path of the script folder (passed back to toggle).
    pub path: String,
}

/// The text of an optional string.
pub open spec fn opt_view(s: Option<String>) -> Option<Seq<char>> {
    match s {
        Some(t) => Some(t@),
        None => None,
    }
}

/// What a listed script holds.
pub struct ScriptView {
    pub name: Option<Seq<char>>,
    pub author: Option<Seq<char>>,
    pub version: Option<Seq<char>>,
    pub url: Option<Seq<char>>,
    pub dependencies: Seq<Seq<char>>,
    pub enabled: bool,
    pub path: Seq<char>,
}

impl View for ScriptInfo {
    type V = ScriptView;

    open spec fn view(&self) -> ScriptView {
        ScriptView {
            name: opt_view(self.name),
            author: opt_view(self.author),
            version: opt_view(self.version),
            url: opt_view(self.url),
            dependencies: self.dependencies@.map_values(|d: String| d@),
            enabled: self.enabled,
            path: self.path@,
        }
    }
}

impl Named for ScriptInfo {
    open spec fn name_of(v: ScriptView) -> Option<Seq<char>> {
        v.name
    }

    fn name(&self) -> (r: Option<&String>) {
        match &self.name {
            Some(n) => Some(n),
            None => None,
        }
    }
}

/// The listing entry of a script folder from the `[script]` table of its
/// `info.toml`: a missing dependency list counts as empty.
pub fn script_info(
    name: Option<String>,
    author: Option<String>,
    version: Option<String>,
    url: Option<String>,
    dependencies: Option<Vec<String>>,
    enabled: bool,
    path: String,
) -> (r: ScriptInfo)
    ensures
        r.name == name,
        r.author == author,
        r.version == version,
        r.url == url,
        r.dependencies@ == match dependencies {
            Some(d) => d@,
            None => Seq::<String>::empty(),
        },
        r.enabled == enabled,
        r.path == path,
{
    let dependencies = match dependencies {
        Some(d) => d,
        None => Vec::new(),
    };
    ScriptInfo { name, author, version, url, dependencies, enabled, path }
}

/// Scripts sorted by name, scripts without a name first, keeping the order
/// of equal names.
pub fn sort_scripts(scripts: Vec<ScriptInfo>) -> (r: Vec<ScriptInfo>)
    ensures
        stable_sorted_by_name(views(r@), views(scripts@), |v: ScriptView| ScriptInfo::name_of(v)),
{
    sort_by_name(scripts)
}

} // verus!
