//! The community script registry, and installing a script together with
//! the scripts it depends on.
//!
//! Installing alternates decisions with outside work (checking folders,
//! cloning repositories, reading `info.toml`). The decisions are the
//! [`Installer`] state machine: each step names the work to do next, and the
//! outcome of that work is handed back with [`Installer::resume`].

use vstd::prelude::*;

use crate::text::{eq_ignore_ascii_case, push_str, same_ignoring_ascii_case, string_from, trim, trim_str};

verus! {

/// An entry of the registry.
#[derive(Debug, Clone)]
pub struct RegistryScript {
    pub name: String,
    pub version: String,
    pub authors: Vec<String>,
    pub dependencies: Vec<String>,
    pub binaries: Vec<String>,
    pub repo: String,
    pub url: String,
    pub pushed_at: String,
    pub description: String,
}

/// Registry artifact: generation timestamp + entries.
#[derive(Debug, Clone)]
pub struct RegistryData {
    pub generated_at: String,
    pub scripts: Vec<RegistryScript>,
}

/// What an install actually did, for the UI to report.
#[derive(Debug, Clone)]
pub struct InstallResult {
    pub installed: Vec<String>,
    pub external: Vec<String>,
}

/// The index of the first name equal to `n` up to ASCII case.
pub open spec fn first_match(names: Seq<Seq<char>>, n: Seq<char>) -> Option<int>
    decreases names.len(),
{
    if names.len() == 0 {
        None
    } else if same_ignoring_ascii_case(names[0], n) {
        Some(0)
    } else {
        match first_match(names.drop_first(), n) {
            Some(k) => Some(k + 1),
            None => None,
        }
    }
}

/// The names of the registry entries.
pub open spec fn entry_names(entries: Seq<RegistryScript>) -> Seq<Seq<char>> {
    entries.map_values(|e: RegistryScript| e.name@)
}

proof fn lemma_first_match(names: Seq<Seq<char>>, n: Seq<char>)
    ensures
        match first_match(names, n) {
            Some(k) => 0 <= k < names.len() && same_ignoring_ascii_case(names[k], n) && forall|j: int|
                0 <= j < k ==> !same_ignoring_ascii_case(#[trigger] names[j], n),
            None => forall|j: int| 0 <= j < names.len() ==> !same_ignoring_ascii_case(#[trigger] names[j], n),
        },
    decreases names.len(),
{
    if names.len() > 0 && !same_ignoring_ascii_case(names[0], n) {
        lemma_first_match(names.drop_first(), n);
        assert forall|j: int| 1 <= j < names.len() implies names[j] == names.drop_first()[j - 1] by {}
    }
}

proof fn lemma_first_match_at(names: Seq<Seq<char>>, n: Seq<char>, k: int)
    requires
        0 <= k <= names.len(),
        forall|j: int| 0 <= j < k ==> !same_ignoring_ascii_case(#[trigger] names[j], n),
        k < names.len() ==> same_ignoring_ascii_case(names[k], n),
    ensures
        first_match(names, n) == if k < names.len() {
            Some(k)
        } else {
            None::<int>
        },
{
    lemma_first_match(names, n);
    match first_match(names, n) {
        Some(i) => {
            if i > k {
                assert(same_ignoring_ascii_case(names[k], n));
            }
        },
        None => {
            if k < names.len() {
                assert(same_ignoring_ascii_case(names[k], n));
            }
        },
    }
}

/// Index of the first entry whose name equals `name` up to ASCII case.
fn find_index(entries: &Vec<RegistryScript>, name: &str) -> (r: Option<usize>)
    ensures
        match r {
            Some(i) => i < entries@.len() && first_match(entry_names(entries@), name@) == Some(i as int),
            None => first_match(entry_names(entries@), name@) is None,
        },
{
    let n = entries.len();
    let mut i: usize = 0;
    while i < n
        invariant
            n == entries@.len(),
            i <= n,
            forall|j: int| 0 <= j < i ==> !same_ignoring_ascii_case(#[trigger] entry_names(entries@)[j], name@),
        decreases n - i,
    {
        if eq_ignore_ascii_case(entries[i].name.as_str(), name) {
            proof {
                lemma_first_match_at(entry_names(entries@), name@, i as int);
            }
            return Some(i);
        }
        i = i + 1;
    }
    proof {
        lemma_first_match_at(entry_names(entries@), name@, n as int);
    }
    None
}

/// The first entry whose name equals `name` up to ASCII case (dependency
/// strings like "LJE-HTTP" must resolve to "lje-http").
pub fn find_entry<'a>(entries: &'a Vec<RegistryScript>, name: &str) -> (r: Option<&'a RegistryScript>)
    ensures
        match first_match(entry_names(entries@), name@) {
            Some(k) => 0 <= k < entries@.len() && r == Some(&entries@[k]),
            None => r is None,
        },
{
    match find_index(entries, name) {
        Some(i) => {
            Some(&entries[i])
        },
        None => None,
    }
}

/// The text of each string.
pub open spec fn texts(v: Seq<String>) -> Seq<Seq<char>> {
    v.map_values(|s: String| s@)
}

/// The error for a requested name that no registry entry has.
pub open spec fn not_found_message(name: Seq<char>) -> Seq<char> {
    "'"@ + name + "' not found in registry"@
}

/// The error for a script reached again while its own dependencies are
/// being installed.
pub open spec fn circular_message(name: Seq<char>) -> Seq<char> {
    "circular dependency detected at '"@ + name + "'"@
}

/// The error for a dependency that no registry entry has.
pub open spec fn missing_dependency_message(name: Seq<char>) -> Seq<char> {
    "dependency '"@ + name + "' not found in registry"@
}

/// The error for a clone that could not be run.
pub open spec fn clone_failed_message(name: Seq<char>, e: Seq<char>) -> Seq<char> {
    "failed to clone '"@ + name + "': "@ + e
}

/// The error for a cloned folder without `info.toml`.
pub open spec fn no_info_message(name: Seq<char>) -> Seq<char> {
    "'"@ + name + "' has no info.toml - not a valid LJE script"@
}

/// The URL a script's repository is cloned from.
pub open spec fn clone_url(repo: Seq<char>) -> Seq<char> {
    "https://github.com/"@ + repo + ".git"@
}

/// The git arguments that clone `repo` into the folder `name`.
pub open spec fn clone_args(repo: Seq<char>, name: Seq<char>) -> Seq<Seq<char>> {
    seq!["clone"@, "--depth"@, "1"@, "--recurse-submodules"@, clone_url(repo), name]
}

/// The outside work an install is waiting for.
#[derive(Clone, Copy, PartialEq, Eq, Structural, Debug)]
pub enum Awaiting {
    /// Whether the script's folder exists.
    Folder,
    /// The outcome of cloning the script.
    Cloning,
    /// Whether the cloned folder holds `info.toml`.
    Info,
    /// The dependencies listed in the script's `info.toml`.
    Dependencies,
    /// Nothing: the install is over.
    Finished,
}

/// A script whose own dependencies are being worked through.
pub struct FrameView {
    pub name: Seq<char>,
    pub deps: Seq<Seq<char>>,
    pub next: int,
}

/// The state of an install.
pub struct InstallerView {
    pub entries: Seq<RegistryScript>,
    pub installed: Seq<Seq<char>>,
    pub external: Seq<Seq<char>>,
    /// The scripts being installed, outermost first.
    pub frames: Seq<FrameView>,
    /// The script the awaited work is about.
    pub current: Seq<char>,
    pub awaiting: Awaiting,
    /// The registry name of the script that was asked for.
    pub target: Seq<char>,
    /// Every dependency read so far, as listed.
    pub needed: Seq<Seq<char>>,
    /// For each dependency read, the script that lists it.
    pub owners: Seq<Seq<char>>,
}

/// What an install asks for next.
pub enum StepView {
    CheckInstalled(Seq<char>),
    CloneRepo(Seq<char>, Seq<Seq<char>>),
    CheckInfo(Seq<char>),
    ReadDependencies(Seq<char>),
    Abandon(Seq<char>, Seq<char>),
    Done(Result<(Seq<Seq<char>>, Seq<Seq<char>>), Seq<char>>),
}

/// The outcome of the awaited work.
pub enum EventView {
    Exists(bool),
    Cloned(Result<(), Seq<char>>),
    HasInfo(bool),
    Dependencies(Seq<Seq<char>>),
}

/// The names of the scripts on the stack.
pub open spec fn frame_names(frames: Seq<FrameView>) -> Seq<Seq<char>> {
    frames.map_values(|f: FrameView| f.name)
}

/// The state with nothing left to wait for.
pub open spec fn finished(v: InstallerView) -> InstallerView {
    InstallerView { awaiting: Awaiting::Finished, ..v }
}

/// Starting to install the registry script named `name`.
pub open spec fn entered(v: InstallerView, name: Seq<char>) -> (InstallerView, StepView) {
    if frame_names(v.frames).contains(name) {
        (finished(v), StepView::Done(Err(circular_message(name))))
    } else if first_match(entry_names(v.entries), name) is None {
        (finished(v), StepView::Done(Err(missing_dependency_message(name))))
    } else {
        (InstallerView { current: name, awaiting: Awaiting::Folder, ..v }, StepView::CheckInstalled(name))
    }
}

/// How much is left to do on the stack: one for each frame and one for each
/// dependency not looked at yet.
pub open spec fn remaining(frames: Seq<FrameView>) -> nat
    decreases frames.len(),
{
    if frames.len() == 0 {
        0
    } else {
        let f = frames.last();
        remaining(frames.drop_last()) + 1 + if f.next < f.deps.len() {
            (f.deps.len() - f.next) as nat
        } else {
            0
        }
    }
}

/// Working through the dependencies on the stack until outside work is
/// needed or the install is complete.
pub open spec fn settled(v: InstallerView) -> (InstallerView, StepView)
    decreases remaining(v.frames),
{
    if v.frames.len() == 0 {
        (finished(v), StepView::Done(Ok((v.installed, v.external))))
    } else {
        let f = v.frames.last();
        if f.next >= f.deps.len() {
            settled(InstallerView { frames: v.frames.drop_last(), installed: v.installed.push(f.name), ..v })
        } else {
            let dep = trim(f.deps[f.next]);
            let w = InstallerView {
                frames: v.frames.update(v.frames.len() - 1, FrameView { next: f.next + 1, ..f }),
                ..v
            };
            proof {
                assert(w.frames.drop_last() =~= v.frames.drop_last());
            }
            if dep.len() == 0 {
                settled(w)
            } else {
                match first_match(entry_names(v.entries), dep) {
                    Some(k) => {
                        let canonical = v.entries[k].name@;
                        if v.installed.contains(canonical) {
                            settled(w)
                        } else {
                            entered(w, canonical)
                        }
                    },
                    None => {
                        if v.external.contains(dep) {
                            settled(w)
                        } else {
                            settled(InstallerView { external: v.external.push(dep), ..w })
                        }
                    },
                }
            }
        }
    }
}

/// The repository of the registry entry named `name`.
pub open spec fn repo_of(entries: Seq<RegistryScript>, name: Seq<char>) -> Seq<char> {
    match first_match(entry_names(entries), name) {
        Some(k) => entries[k].repo@,
        None => Seq::empty(),
    }
}

/// Whether `e` is the kind of outcome that `a` waits for.
pub open spec fn fits(a: Awaiting, e: EventView) -> bool {
    ||| a == Awaiting::Folder && e is Exists
    ||| a == Awaiting::Cloning && e is Cloned
    ||| a == Awaiting::Info && e is HasInfo
    ||| a == Awaiting::Dependencies && e is Dependencies
}

/// The next state and step once the awaited work has come back with `e`.
pub open spec fn after_event(v: InstallerView, e: EventView) -> (InstallerView, StepView) {
    let name = v.current;
    match e {
        EventView::Exists(true) => settled(
            InstallerView {
                installed: if v.installed.contains(name) {
                    v.installed
                } else {
                    v.installed.push(name)
                },
                ..v
            },
        ),
        EventView::Exists(false) => (
            InstallerView { awaiting: Awaiting::Cloning, ..v },
            StepView::CloneRepo(name, clone_args(repo_of(v.entries, name), name)),
        ),
        EventView::Cloned(Err(m)) => (finished(v), StepView::Done(Err(clone_failed_message(name, m)))),
        EventView::Cloned(Ok(())) => (InstallerView { awaiting: Awaiting::Info, ..v }, StepView::CheckInfo(name)),
        EventView::HasInfo(false) => (finished(v), StepView::Abandon(name, no_info_message(name))),
        EventView::HasInfo(true) => (
            InstallerView { awaiting: Awaiting::Dependencies, ..v },
            StepView::ReadDependencies(name),
        ),
        EventView::Dependencies(ds) => settled(
            InstallerView {
                frames: v.frames.push(FrameView { name, deps: ds, next: 0 }),
                needed: v.needed + ds,
                owners: v.owners + Seq::new(ds.len(), |j: int| name),
                ..v
            },
        ),
    }
}

/// The first state and step of installing the script named `name` (up to
/// ASCII case) from `entries`.
pub open spec fn started(entries: Seq<RegistryScript>, name: Seq<char>) -> (InstallerView, StepView) {
    let empty = InstallerView {
        entries,
        installed: Seq::empty(),
        external: Seq::empty(),
        frames: Seq::empty(),
        current: Seq::empty(),
        awaiting: Awaiting::Finished,
        target: Seq::empty(),
        needed: Seq::empty(),
        owners: Seq::empty(),
    };
    match first_match(entry_names(entries), name) {
        None => (empty, StepView::Done(Err(not_found_message(name)))),
        Some(k) => entered(InstallerView { target: entries[k].name@, ..empty }, entries[k].name@),
    }
}

/// Whether `name` is the name of a registry entry.
pub open spec fn is_entry_name(entries: Seq<RegistryScript>, name: Seq<char>) -> bool {
    entry_names(entries).contains(name)
}

/// What holds of an install's lists and stack whatever it waits for: the
/// installed scripts are registry scripts, each once; the external
/// dependencies are non-empty names of no registry script, each once; the
/// scripts on the stack are registry scripts not installed yet, each once,
/// and the outermost is the one asked for.
pub open spec fn core_inv(v: InstallerView) -> bool {
    &&& v.installed.no_duplicates()
    &&& v.external.no_duplicates()
    &&& forall|i: int| 0 <= i < v.installed.len() ==> is_entry_name(v.entries, #[trigger] v.installed[i])
    &&& forall|i: int|
        0 <= i < v.external.len() ==> (#[trigger] v.external[i]).len() > 0 && first_match(
            entry_names(v.entries),
            v.external[i],
        ) is None
    &&& frame_names(v.frames).no_duplicates()
    &&& forall|i: int|
        0 <= i < v.frames.len() ==> {
            &&& !v.installed.contains((#[trigger] v.frames[i]).name)
            &&& is_entry_name(v.entries, v.frames[i].name)
            &&& 0 <= v.frames[i].next <= v.frames[i].deps.len()
        }
    &&& v.frames.len() > 0 ==> v.frames[0].name == v.target
}

/// Whether the dependency `d` is accounted for by the lists: the registry
/// script it names (up to ASCII case) is installed, or, when no registry
/// entry has that name, it is listed as external.
pub open spec fn accounted(
    entries: Seq<RegistryScript>,
    installed: Seq<Seq<char>>,
    external: Seq<Seq<char>>,
    d: Seq<char>,
) -> bool {
    match first_match(entry_names(entries), d) {
        Some(k) => installed.contains(entries[k].name@),
        None => external.contains(d),
    }
}

/// Whether some script on the stack lists `d` (once trimmed) among the
/// dependencies it has not looked at yet.
pub open spec fn waiting_on_stack(frames: Seq<FrameView>, d: Seq<char>) -> bool {
    exists|fi: int, j: int|
        0 <= fi < frames.len() && frames[fi].next <= j < frames[fi].deps.len() && #[trigger] trim(
            frames[fi].deps[j],
        ) == d
}

/// Whether the registry script that `d` names is being installed: it is on
/// the stack, or it is `extra`.
pub open spec fn in_progress(v: InstallerView, d: Seq<char>, extra: Option<Seq<char>>) -> bool {
    match first_match(entry_names(v.entries), d) {
        Some(k) => frame_names(v.frames).contains(v.entries[k].name@) || extra == Some(v.entries[k].name@),
        None => false,
    }
}

/// Whether the dependency `d` is accounted for, or still to be dealt with.
pub open spec fn dep_ok(v: InstallerView, d: Seq<char>, extra: Option<Seq<char>>) -> bool {
    ||| accounted(v.entries, v.installed, v.external, d)
    ||| waiting_on_stack(v.frames, d)
    ||| in_progress(v, d, extra)
}

/// Every non-blank dependency read so far is accounted for or still to be
/// dealt with.
pub open spec fn deps_inv(v: InstallerView, extra: Option<Seq<char>>) -> bool {
    forall|i: int|
        0 <= i < v.needed.len() && trim(#[trigger] v.needed[i]).len() > 0 ==> dep_ok(v, trim(v.needed[i]), extra)
}

/// The registry name that the dependency `d` resolves to (up to ASCII case),
/// if any.
pub open spec fn canonical(entries: Seq<RegistryScript>, d: Seq<char>) -> Option<Seq<char>> {
    match first_match(entry_names(entries), d) {
        Some(k) => Some(entries[k].name@),
        None => None,
    }
}

/// `a` stands before `b` in `s`.
pub open spec fn before(s: Seq<Seq<char>>, a: Seq<char>, b: Seq<char>) -> bool {
    exists|x: int, y: int| 0 <= x < y < s.len() && #[trigger] s[x] == a && #[trigger] s[y] == b
}

/// The dependency `d` of the script `o`, when it is non-blank and names a
/// registry script, has that script installed before `o` in `installed`.
pub open spec fn dep_before(entries: Seq<RegistryScript>, installed: Seq<Seq<char>>, o: Seq<char>, d: Seq<char>) -> bool {
    match canonical(entries, trim(d)) {
        Some(c) => trim(d).len() > 0 ==> before(installed, c, o),
        None => true,
    }
}

/// Some frame of the stack belongs to `o` and lists `d`.
pub open spec fn listed_on_stack(frames: Seq<FrameView>, o: Seq<char>, d: Seq<char>) -> bool {
    exists|fi: int, j: int|
        0 <= fi < frames.len() && 0 <= j < frames[fi].deps.len() && frames[fi].name == o && #[trigger] frames[fi].deps[j]
            == d
}

/// A dependency `d` that the frame at `fi` has looked at: blank, not a
/// registry script, installed, or being installed right above that frame
/// (the next frame, or `extra` above the top frame).
pub open spec fn looked_at_ok(v: InstallerView, fi: int, d: Seq<char>, extra: Option<Seq<char>>) -> bool {
    match canonical(v.entries, trim(d)) {
        Some(c) => trim(d).len() == 0 || v.installed.contains(c) || (fi + 1 < v.frames.len() && v.frames[fi
            + 1].name == c) || (fi == v.frames.len() - 1 && extra == Some(c)),
        None => true,
    }
}

/// How the dependencies read so far stand: each belongs to a script that
/// is installed (and then its registry dependencies come before it) or
/// on the stack; the stack's looked-at dependencies are dealt with or in
/// progress just above; each frame's dependencies were read; and each
/// external name is one that was read.
pub open spec fn order_inv(v: InstallerView, extra: Option<Seq<char>>) -> bool {
    &&& v.owners.len() == v.needed.len()
    &&& forall|i: int|
        0 <= i < v.needed.len() ==> (v.installed.contains(#[trigger] v.owners[i]) && dep_before(
            v.entries,
            v.installed,
            v.owners[i],
            v.needed[i],
        )) || (!v.installed.contains(v.owners[i]) && listed_on_stack(v.frames, v.owners[i], v.needed[i]))
    &&& forall|fi: int, j: int|
        0 <= fi < v.frames.len() && 0 <= j < v.frames[fi].next && j < v.frames[fi].deps.len() ==> looked_at_ok(
            v,
            fi,
            #[trigger] v.frames[fi].deps[j],
            extra,
        )
    &&& forall|fi: int, j: int|
        0 <= fi < v.frames.len() && 0 <= j < v.frames[fi].deps.len() ==> v.needed.contains(
            #[trigger] v.frames[fi].deps[j],
        )
    &&& forall|e: int| 0 <= e < v.external.len() ==> v.needed.map_values(|d: Seq<char>| trim(d)).contains(
        #[trigger] v.external[e],
    )
}

/// The invariant of an install: [`core_inv`], and while outside work is
/// awaited, the script it is about is a registry script that is neither
/// installed nor on the stack (and is the one asked for when the stack is
/// empty, in which case nothing is installed yet), and every dependency read
/// so far is accounted for, still listed on the stack, or names a script
/// being installed, as [`order_inv`] also describes.
pub open spec fn installer_inv(v: InstallerView) -> bool {
    &&& core_inv(v)
    &&& v.awaiting != Awaiting::Finished ==> {
        &&& !v.installed.contains(v.current)
        &&& !frame_names(v.frames).contains(v.current)
        &&& is_entry_name(v.entries, v.current)
        &&& v.frames.len() == 0 ==> v.current == v.target && v.installed.len() == 0
        &&& deps_inv(v, Some(v.current))
        &&& order_inv(v, Some(v.current))
    }
}

/// Whether the step ends the install.
pub open spec fn is_final(s: StepView) -> bool {
    s is Done || s is Abandon
}

/// What every state and step of an install of `target` from `entries`
/// satisfy: the invariant holds, the install ends exactly when the step says
/// so, and a successful install reports the state's lists, ending with the
/// script that was asked for, and accounts for every non-blank dependency
/// that was read: its registry script is installed, before the script that
/// lists it, or it is listed as external; every script whose dependencies
/// were read is installed, and every external name is one that was read.
pub open spec fn well_stepped(w: InstallerView, s: StepView, target: Seq<char>, entries: Seq<RegistryScript>) -> bool {
    &&& installer_inv(w)
    &&& w.target == target
    &&& w.entries == entries
    &&& (is_final(s) <==> w.awaiting == Awaiting::Finished)
    &&& s matches StepView::Done(Ok(r)) ==> {
        &&& r.0 == w.installed
        &&& r.1 == w.external
        &&& r.0.len() > 0
        &&& r.0.last() == target
        &&& forall|i: int|
            0 <= i < w.needed.len() && trim(#[trigger] w.needed[i]).len() > 0 ==> accounted(
                w.entries,
                r.0,
                r.1,
                trim(w.needed[i]),
            )
        &&& w.owners.len() == w.needed.len()
        &&& forall|i: int|
            0 <= i < w.needed.len() ==> r.0.contains(#[trigger] w.owners[i]) && dep_before(
                w.entries,
                r.0,
                w.owners[i],
                w.needed[i],
            )
        &&& forall|e: int| 0 <= e < r.1.len() ==> w.needed.map_values(|d: Seq<char>| trim(d)).contains(
            #[trigger] r.1[e],
        )
    }
}

proof fn lemma_push_distinct(s: Seq<Seq<char>>, x: Seq<char>)
    requires
        s.no_duplicates(),
        !s.contains(x),
    ensures
        s.push(x).no_duplicates(),
{
    assert forall|i: int, j: int| 0 <= i < s.push(x).len() && 0 <= j < s.push(x).len() && i != j implies s.push(x)[i]
        != s.push(x)[j] by {
        if i == s.len() {
            assert(s[j] == s.push(x)[j]);
        } else if j == s.len() {
            assert(s[i] == s.push(x)[i]);
        }
    }
}

proof fn lemma_entry_at(entries: Seq<RegistryScript>, k: int)
    requires
        0 <= k < entries.len(),
    ensures
        is_entry_name(entries, entries[k].name@),
{
    assert(entry_names(entries)[k] == entries[k].name@);
}

proof fn lemma_contains_push(s: Seq<Seq<char>>, x: Seq<char>, y: Seq<char>)
    requires
        s.contains(x),
    ensures
        s.push(y).contains(x),
{
    let i = choose|i: int| 0 <= i < s.len() && s[i] == x;
    assert(s.push(y)[i] == x);
}

/// Popping a finished frame and installing its script keeps a dependency
/// accounted for or still to be dealt with.
proof fn lemma_dep_pop(v: InstallerView, d: Seq<char>)
    requires
        v.frames.len() > 0,
        v.frames.last().next >= v.frames.last().deps.len(),
        dep_ok(v, d, None),
    ensures
        dep_ok(
            InstallerView {
                frames: v.frames.drop_last(),
                installed: v.installed.push(v.frames.last().name),
                ..v
            },
            d,
            None,
        ),
{
    let n = v.frames.len() - 1;
    let f = v.frames.last();
    let u = InstallerView { frames: v.frames.drop_last(), installed: v.installed.push(f.name), ..v };
    if accounted(v.entries, v.installed, v.external, d) {
        match first_match(entry_names(v.entries), d) {
            Some(k) => lemma_contains_push(v.installed, v.entries[k].name@, f.name),
            None => {},
        }
    } else if waiting_on_stack(v.frames, d) {
        let (fi, j) = choose|fi: int, j: int|
            0 <= fi < v.frames.len() && v.frames[fi].next <= j < v.frames[fi].deps.len() && #[trigger] trim(
                v.frames[fi].deps[j],
            ) == d;
        assert(fi != n);
        assert(u.frames[fi] == v.frames[fi]);
        assert(trim(u.frames[fi].deps[j]) == d);
    } else {
        let k = first_match(entry_names(v.entries), d)->0;
        let c = v.entries[k].name@;
        let p = choose|p: int| 0 <= p < frame_names(v.frames).len() && frame_names(v.frames)[p] == c;
        if p == n {
            assert(u.installed[u.installed.len() - 1] == c);
        } else {
            assert(frame_names(u.frames)[p] == c);
        }
    }
}

/// Moving past the next dependency of the top frame keeps every other
/// dependency accounted for or still to be dealt with.
proof fn lemma_dep_advance(v: InstallerView, d: Seq<char>)
    requires
        v.frames.len() > 0,
        v.frames.last().next < v.frames.last().deps.len(),
        dep_ok(v, d, None),
        d != trim(v.frames.last().deps[v.frames.last().next]),
    ensures
        dep_ok(
            InstallerView {
                frames: v.frames.update(
                    v.frames.len() - 1,
                    FrameView { next: v.frames.last().next + 1, ..v.frames.last() },
                ),
                ..v
            },
            d,
            None,
        ),
{
    let n = v.frames.len() - 1;
    let f = v.frames.last();
    let w = InstallerView { frames: v.frames.update(n, FrameView { next: f.next + 1, ..f }), ..v };
    assert(frame_names(w.frames) =~= frame_names(v.frames));
    if waiting_on_stack(v.frames, d) && !accounted(v.entries, v.installed, v.external, d) {
        let (fi, j) = choose|fi: int, j: int|
            0 <= fi < v.frames.len() && v.frames[fi].next <= j < v.frames[fi].deps.len() && #[trigger] trim(
                v.frames[fi].deps[j],
            ) == d;
        if fi == n {
            assert(j != f.next);
            assert(w.frames[n].deps == f.deps);
        } else {
            assert(w.frames[fi] == v.frames[fi]);
        }
        assert(trim(w.frames[fi].deps[j]) == d);
    }
}

proof fn lemma_before_push(s: Seq<Seq<char>>, a: Seq<char>, b: Seq<char>, z: Seq<char>)
    requires
        before(s, a, b),
    ensures
        before(s.push(z), a, b),
{
    let (x, y) = choose|x: int, y: int| 0 <= x < y < s.len() && #[trigger] s[x] == a && #[trigger] s[y] == b;
    assert(s.push(z)[x] == a && s.push(z)[y] == b);
}

proof fn lemma_dep_before_push(entries: Seq<RegistryScript>, s: Seq<Seq<char>>, o: Seq<char>, d: Seq<char>, z: Seq<char>)
    requires
        dep_before(entries, s, o, d),
    ensures
        dep_before(entries, s.push(z), o, d),
{
    match canonical(entries, trim(d)) {
        Some(c) => {
            if trim(d).len() > 0 {
                lemma_before_push(s, c, o, z);
            }
        },
        None => {},
    }
}

/// Popping a finished frame and installing its script keeps the order
/// invariant: the popped script's registry dependencies are all installed.
proof fn lemma_order_pop(v: InstallerView)
    requires
        core_inv(v),
        order_inv(v, None),
        v.frames.len() > 0,
        v.frames.last().next >= v.frames.last().deps.len(),
    ensures
        order_inv(
            InstallerView {
                frames: v.frames.drop_last(),
                installed: v.installed.push(v.frames.last().name),
                ..v
            },
            None,
        ),
{
    let n = v.frames.len() - 1;
    let f = v.frames.last();
    let u = InstallerView { frames: v.frames.drop_last(), installed: v.installed.push(f.name), ..v };
    assert(v.frames[n] == f);
    let m = v.installed.len() as int;
    assert(u.installed[m] == f.name);
    assert forall|i: int| 0 <= i < u.needed.len() implies (u.installed.contains(#[trigger] u.owners[i]) && dep_before(
        u.entries,
        u.installed,
        u.owners[i],
        u.needed[i],
    )) || (!u.installed.contains(u.owners[i]) && listed_on_stack(u.frames, u.owners[i], u.needed[i])) by {
        let o = v.owners[i];
        let d = v.needed[i];
        if v.installed.contains(o) {
            lemma_contains_push(v.installed, o, f.name);
            lemma_dep_before_push(v.entries, v.installed, o, d, f.name);
        } else {
            let (fi, j) = choose|fi: int, j: int|
                0 <= fi < v.frames.len() && 0 <= j < v.frames[fi].deps.len() && v.frames[fi].name == o
                    && #[trigger] v.frames[fi].deps[j] == d;
            if fi == n {
                assert(u.installed.contains(o));
                assert(looked_at_ok(v, fi, v.frames[fi].deps[j], None));
                match canonical(v.entries, trim(d)) {
                    Some(c) => {
                        if trim(d).len() > 0 {
                            let x = choose|x: int| 0 <= x < v.installed.len() && v.installed[x] == c;
                            assert(u.installed[x] == c);
                        }
                    },
                    None => {},
                }
            } else {
                assert(u.frames[fi] == v.frames[fi]);
                assert(frame_names(v.frames)[fi] == o);
                assert(frame_names(v.frames)[n] == f.name);
                assert(o != f.name);
                if u.installed.contains(o) {
                    let x = choose|x: int| 0 <= x < u.installed.len() && u.installed[x] == o;
                    assert(v.installed[x] == u.installed[x]);
                }
                assert(u.frames[fi].deps[j] == d);
            }
        }
    }
    assert forall|fi: int, j: int|
        0 <= fi < u.frames.len() && 0 <= j < u.frames[fi].next && j < u.frames[fi].deps.len() implies looked_at_ok(
        u,
        fi,
        #[trigger] u.frames[fi].deps[j],
        None,
    ) by {
        assert(u.frames[fi] == v.frames[fi]);
        let d = v.frames[fi].deps[j];
        assert(looked_at_ok(v, fi, d, None));
        match canonical(v.entries, trim(d)) {
            Some(c) => {
                if v.installed.contains(c) {
                    lemma_contains_push(v.installed, c, f.name);
                } else if fi + 1 < u.frames.len() {
                    assert(u.frames[fi + 1] == v.frames[fi + 1]);
                }
            },
            None => {},
        }
    }
    assert forall|fi: int, j: int| 0 <= fi < u.frames.len() && 0 <= j < u.frames[fi].deps.len() implies u.needed.contains(
        #[trigger] u.frames[fi].deps[j],
    ) by {
        assert(u.frames[fi] == v.frames[fi]);
        assert(v.needed.contains(v.frames[fi].deps[j]));
    }
}

/// Moving the top frame past its next dependency keeps the order invariant,
/// given that this dependency is dealt with or in progress.
proof fn lemma_order_advance(v: InstallerView, extra: Option<Seq<char>>)
    requires
        order_inv(v, None),
        v.frames.len() > 0,
        v.frames.last().next < v.frames.last().deps.len(),
        looked_at_ok(v, v.frames.len() - 1, v.frames.last().deps[v.frames.last().next], extra),
    ensures
        order_inv(
            InstallerView {
                frames: v.frames.update(
                    v.frames.len() - 1,
                    FrameView { next: v.frames.last().next + 1, ..v.frames.last() },
                ),
                ..v
            },
            extra,
        ),
{
    let n = v.frames.len() - 1;
    let f = v.frames.last();
    let w = InstallerView { frames: v.frames.update(n, FrameView { next: f.next + 1, ..f }), ..v };
    assert(v.frames[n] == f);
    assert forall|i: int| 0 <= i < w.needed.len() implies (w.installed.contains(#[trigger] w.owners[i]) && dep_before(
        w.entries,
        w.installed,
        w.owners[i],
        w.needed[i],
    )) || (!w.installed.contains(w.owners[i]) && listed_on_stack(w.frames, w.owners[i], w.needed[i])) by {
        if !v.installed.contains(v.owners[i]) {
            let (fi, j) = choose|fi: int, j: int|
                0 <= fi < v.frames.len() && 0 <= j < v.frames[fi].deps.len() && v.frames[fi].name == v.owners[i]
                    && #[trigger] v.frames[fi].deps[j] == v.needed[i];
            assert(w.frames[fi].deps == v.frames[fi].deps && w.frames[fi].name == v.frames[fi].name);
            assert(w.frames[fi].deps[j] == v.needed[i]);
        }
    }
    assert forall|fi: int, j: int|
        0 <= fi < w.frames.len() && 0 <= j < w.frames[fi].next && j < w.frames[fi].deps.len() implies looked_at_ok(
        w,
        fi,
        #[trigger] w.frames[fi].deps[j],
        extra,
    ) by {
        if fi != n {
            assert(w.frames[fi] == v.frames[fi]);
            assert(looked_at_ok(v, fi, v.frames[fi].deps[j], None));
        } else if j < f.next {
            assert(looked_at_ok(v, fi, v.frames[fi].deps[j], None));
        }
        if fi + 1 < w.frames.len() {
            assert(w.frames[fi + 1].name == v.frames[fi + 1].name);
        }
    }
    assert forall|fi: int, j: int| 0 <= fi < w.frames.len() && 0 <= j < w.frames[fi].deps.len() implies w.needed.contains(
        #[trigger] w.frames[fi].deps[j],
    ) by {
        assert(w.frames[fi].deps == v.frames[fi].deps);
        assert(v.needed.contains(v.frames[fi].deps[j]));
    }
}

proof fn lemma_entered(v: InstallerView, name: Seq<char>)
    requires
        core_inv(v),
        !v.installed.contains(name),
        is_entry_name(v.entries, name),
        v.frames.len() > 0,
        deps_inv(v, Some(name)),
        order_inv(v, Some(name)),
    ensures
        well_stepped(entered(v, name).0, entered(v, name).1, v.target, v.entries),
{
    let r = entered(v, name).0;
    if r.awaiting != Awaiting::Finished {
        assert forall|i: int| 0 <= i < r.needed.len() && trim(#[trigger] r.needed[i]).len() > 0 implies dep_ok(
            r,
            trim(r.needed[i]),
            Some(r.current),
        ) by {
            assert(dep_ok(v, trim(v.needed[i]), Some(name)));
        }
    }
}

proof fn lemma_settled(v: InstallerView)
    requires
        core_inv(v),
        v.frames.len() == 0 ==> v.installed.len() > 0 && v.installed.last() == v.target,
        deps_inv(v, None),
        order_inv(v, None),
    ensures
        well_stepped(settled(v).0, settled(v).1, v.target, v.entries),
    decreases remaining(v.frames),
{
    if v.frames.len() == 0 {
        assert forall|i: int| 0 <= i < v.needed.len() && trim(#[trigger] v.needed[i]).len() > 0 implies accounted(
            v.entries,
            v.installed,
            v.external,
            trim(v.needed[i]),
        ) by {
            let d = trim(v.needed[i]);
            assert(dep_ok(v, d, None));
            if waiting_on_stack(v.frames, d) {
                let (fi, j) = choose|fi: int, j: int|
                    0 <= fi < v.frames.len() && v.frames[fi].next <= j < v.frames[fi].deps.len() && #[trigger] trim(
                        v.frames[fi].deps[j],
                    ) == d;
            }
            if in_progress(v, d, None) {
                let k = first_match(entry_names(v.entries), d)->0;
                assert(!frame_names(v.frames).contains(v.entries[k].name@));
            }
        }
        assert forall|i: int| 0 <= i < v.needed.len() implies v.installed.contains(#[trigger] v.owners[i])
            && dep_before(v.entries, v.installed, v.owners[i], v.needed[i]) by {
            if !v.installed.contains(v.owners[i]) {
                assert(listed_on_stack(v.frames, v.owners[i], v.needed[i]));
                let (fi, j) = choose|fi: int, j: int|
                    0 <= fi < v.frames.len() && 0 <= j < v.frames[fi].deps.len() && v.frames[fi].name == v.owners[i]
                        && #[trigger] v.frames[fi].deps[j] == v.needed[i];
            }
        }
    } else {
        let n = v.frames.len() - 1;
        let f = v.frames.last();
        if f.next >= f.deps.len() {
            let u = InstallerView { frames: v.frames.drop_last(), installed: v.installed.push(f.name), ..v };
            assert(frame_names(v.frames)[n] == f.name);
            assert(!v.installed.contains(f.name)) by {
                assert(v.frames[n] == f);
            }
            lemma_push_distinct(v.installed, f.name);
            assert(frame_names(u.frames) =~= frame_names(v.frames).drop_last());
            assert forall|i: int| 0 <= i < u.installed.len() implies is_entry_name(u.entries, #[trigger] u.installed[i]) by {
                if i < v.installed.len() {
                    assert(u.installed[i] == v.installed[i]);
                } else {
                    assert(v.frames[n] == f);
                }
            }
            assert forall|i: int| 0 <= i < u.frames.len() implies !u.installed.contains((#[trigger] u.frames[i]).name) by {
                assert(u.frames[i] == v.frames[i]);
                assert(frame_names(v.frames)[i] == v.frames[i].name);
                if u.installed.contains(v.frames[i].name) {
                    let j = choose|j: int| 0 <= j < u.installed.len() && u.installed[j] == v.frames[i].name;
                    if j < v.installed.len() {
                        assert(v.installed[j] == u.installed[j]);
                    }
                }
            }
            assert forall|i: int| 0 <= i < u.frames.len() implies {
                &&& is_entry_name(u.entries, (#[trigger] u.frames[i]).name)
                &&& 0 <= u.frames[i].next <= u.frames[i].deps.len()
            } by {
                assert(u.frames[i] == v.frames[i]);
            }
            if u.frames.len() == 0 {
                assert(v.frames[0] == f);
            } else {
                assert(u.frames[0] == v.frames[0]);
            }
            assert forall|i: int| 0 <= i < u.needed.len() && trim(#[trigger] u.needed[i]).len() > 0 implies dep_ok(
                u,
                trim(u.needed[i]),
                None,
            ) by {
                lemma_dep_pop(v, trim(v.needed[i]));
            }
            lemma_order_pop(v);
            lemma_settled(u);
        } else {
            let dep = trim(f.deps[f.next]);
            let g = FrameView { next: f.next + 1, ..f };
            let w = InstallerView { frames: v.frames.update(n, g), ..v };
            assert(w.frames.drop_last() =~= v.frames.drop_last());
            assert(frame_names(w.frames) =~= frame_names(v.frames));
            assert forall|i: int| 0 <= i < w.frames.len() implies {
                &&& !w.installed.contains((#[trigger] w.frames[i]).name)
                &&& is_entry_name(w.entries, w.frames[i].name)
                &&& 0 <= w.frames[i].next <= w.frames[i].deps.len()
            } by {
                if i != n {
                    assert(w.frames[i] == v.frames[i]);
                } else {
                    assert(v.frames[n] == f);
                }
            }
            if n == 0 {
                assert(v.frames[0] == f);
            }
            assert(core_inv(w));
            assert forall|i: int|
                0 <= i < w.needed.len() && trim(#[trigger] w.needed[i]).len() > 0 && trim(w.needed[i])
                    != dep implies dep_ok(w, trim(w.needed[i]), None) by {
                lemma_dep_advance(v, trim(v.needed[i]));
            }
            assert(f.deps[f.next] == v.frames.last().deps[v.frames.last().next]);
            if dep.len() == 0 {
                lemma_order_advance(v, None);
                lemma_settled(w);
            } else {
                lemma_first_match(entry_names(v.entries), dep);
                match first_match(entry_names(v.entries), dep) {
                    Some(k) => {
                        let canonical = v.entries[k].name@;
                        if v.installed.contains(canonical) {
                            assert(accounted(w.entries, w.installed, w.external, dep));
                            lemma_order_advance(v, None);
                            lemma_settled(w);
                        } else {
                            lemma_entry_at(v.entries, k);
                            assert(in_progress(w, dep, Some(canonical)));
                            lemma_order_advance(v, Some(canonical));
                            lemma_entered(w, canonical);
                        }
                    },
                    None => {
                        lemma_order_advance(v, None);
                        if v.external.contains(dep) {
                            assert(accounted(w.entries, w.installed, w.external, dep));
                            lemma_settled(w);
                        } else {
                            let x = InstallerView { external: v.external.push(dep), ..w };
                            assert(x.external[x.external.len() - 1] == dep);
                            assert forall|i: int|
                                0 <= i < x.needed.len() && trim(#[trigger] x.needed[i]).len() > 0 implies dep_ok(
                                x,
                                trim(x.needed[i]),
                                None,
                            ) by {
                                let d = trim(x.needed[i]);
                                if d != dep && accounted(w.entries, w.installed, w.external, d) {
                                    if first_match(entry_names(w.entries), d) is None {
                                        lemma_contains_push(w.external, d, dep);
                                    }
                                }
                            }
                            assert(w.needed.contains(w.frames[n].deps[f.next as int]));
                            let ix = choose|ix: int| 0 <= ix < w.needed.len() && w.needed[ix] == w.frames[n].deps[f.next as int];
                            assert(w.needed.map_values(|d: Seq<char>| trim(d))[ix] == dep);
                            assert forall|e: int| 0 <= e < x.external.len() implies x.needed.map_values(
                                |d: Seq<char>| trim(d),
                            ).contains(#[trigger] x.external[e]) by {
                                if e < v.external.len() {
                                    assert(x.external[e] == w.external[e]);
                                }
                            }
                            lemma_push_distinct(v.external, dep);
                            assert forall|i: int| 0 <= i < x.external.len() implies (#[trigger] x.external[i]).len()
                                > 0 && first_match(entry_names(x.entries), x.external[i]) is None by {
                                if i < v.external.len() {
                                    assert(x.external[i] == v.external[i]);
                                }
                            }
                            lemma_settled(x);
                        }
                    },
                }
            }
        }
    }
}

/// Finding the awaited script on disk and installing it keeps the order
/// invariant.
proof fn lemma_order_found(v: InstallerView)
    requires
        order_inv(v, Some(v.current)),
        !v.installed.contains(v.current),
        !frame_names(v.frames).contains(v.current),
    ensures
        order_inv(InstallerView { installed: v.installed.push(v.current), ..v }, None),
{
    let c0 = v.current;
    let u = InstallerView { installed: v.installed.push(c0), ..v };
    let m = v.installed.len() as int;
    assert(u.installed[m] == c0);
    assert forall|i: int| 0 <= i < u.needed.len() implies (u.installed.contains(#[trigger] u.owners[i]) && dep_before(
        u.entries,
        u.installed,
        u.owners[i],
        u.needed[i],
    )) || (!u.installed.contains(u.owners[i]) && listed_on_stack(u.frames, u.owners[i], u.needed[i])) by {
        let o = v.owners[i];
        let d = v.needed[i];
        if v.installed.contains(o) {
            lemma_contains_push(v.installed, o, c0);
            lemma_dep_before_push(v.entries, v.installed, o, d, c0);
        } else {
            let (fi, j) = choose|fi: int, j: int|
                0 <= fi < v.frames.len() && 0 <= j < v.frames[fi].deps.len() && v.frames[fi].name == o
                    && #[trigger] v.frames[fi].deps[j] == d;
            assert(frame_names(v.frames)[fi] == o);
            if u.installed.contains(o) {
                let x = choose|x: int| 0 <= x < u.installed.len() && u.installed[x] == o;
                if x < m {
                    assert(v.installed[x] == o);
                }
            }
        }
    }
    assert forall|fi: int, j: int|
        0 <= fi < u.frames.len() && 0 <= j < u.frames[fi].next && j < u.frames[fi].deps.len() implies looked_at_ok(
        u,
        fi,
        #[trigger] u.frames[fi].deps[j],
        None,
    ) by {
        let d = v.frames[fi].deps[j];
        assert(looked_at_ok(v, fi, d, Some(c0)));
        match canonical(v.entries, trim(d)) {
            Some(c) => {
                if v.installed.contains(c) {
                    lemma_contains_push(v.installed, c, c0);
                }
            },
            None => {},
        }
    }
}

/// Reading the awaited script's dependencies and pushing its frame keeps
/// the order invariant.
proof fn lemma_order_deps(v: InstallerView, ds: Seq<Seq<char>>)
    requires
        order_inv(v, Some(v.current)),
        !v.installed.contains(v.current),
    ensures
        order_inv(
            InstallerView {
                frames: v.frames.push(FrameView { name: v.current, deps: ds, next: 0 }),
                needed: v.needed + ds,
                owners: v.owners + Seq::new(ds.len(), |j: int| v.current),
                ..v
            },
            None,
        ),
{
    let c0 = v.current;
    let g = FrameView { name: c0, deps: ds, next: 0 };
    let u = InstallerView {
        frames: v.frames.push(g),
        needed: v.needed + ds,
        owners: v.owners + Seq::new(ds.len(), |j: int| c0),
        ..v
    };
    let nf = v.frames.len() as int;
    let nn = v.needed.len() as int;
    assert(u.frames[nf] == g);
    assert forall|i: int| 0 <= i < u.needed.len() implies (u.installed.contains(#[trigger] u.owners[i]) && dep_before(
        u.entries,
        u.installed,
        u.owners[i],
        u.needed[i],
    )) || (!u.installed.contains(u.owners[i]) && listed_on_stack(u.frames, u.owners[i], u.needed[i])) by {
        if i < nn {
            assert(u.owners[i] == v.owners[i] && u.needed[i] == v.needed[i]);
            let o = v.owners[i];
            let d = v.needed[i];
            if !v.installed.contains(o) {
                let (fi, j) = choose|fi: int, j: int|
                    0 <= fi < v.frames.len() && 0 <= j < v.frames[fi].deps.len() && v.frames[fi].name == o
                        && #[trigger] v.frames[fi].deps[j] == d;
                assert(u.frames[fi] == v.frames[fi]);
                assert(u.frames[fi].deps[j] == d);
            }
        } else {
            let j = i - nn;
            assert(u.owners[i] == c0);
            assert(u.needed[i] == ds[j]);
            assert(u.frames[nf].deps[j] == ds[j]);
        }
    }
    assert forall|fi: int, j: int|
        0 <= fi < u.frames.len() && 0 <= j < u.frames[fi].next && j < u.frames[fi].deps.len() implies looked_at_ok(
        u,
        fi,
        #[trigger] u.frames[fi].deps[j],
        None,
    ) by {
        if fi < nf {
            assert(u.frames[fi] == v.frames[fi]);
            assert(looked_at_ok(v, fi, v.frames[fi].deps[j], Some(c0)));
            if fi + 1 < u.frames.len() {
                assert(u.frames[fi + 1].name == if fi + 1 < nf { v.frames[fi + 1].name } else { c0 });
            }
        }
    }
    assert forall|fi: int, j: int| 0 <= fi < u.frames.len() && 0 <= j < u.frames[fi].deps.len() implies u.needed.contains(
        #[trigger] u.frames[fi].deps[j],
    ) by {
        if fi < nf {
            assert(u.frames[fi] == v.frames[fi]);
            assert(v.needed.contains(v.frames[fi].deps[j]));
            let x = choose|x: int| 0 <= x < v.needed.len() && v.needed[x] == v.frames[fi].deps[j];
            assert(u.needed[x] == v.needed[x]);
        } else {
            assert(u.needed[nn + j] == ds[j]);
        }
    }
    assert forall|e: int| 0 <= e < u.external.len() implies u.needed.map_values(|d: Seq<char>| trim(d)).contains(
        #[trigger] u.external[e],
    ) by {
        assert(v.needed.map_values(|d: Seq<char>| trim(d)).contains(v.external[e]));
        let tv = v.needed.map_values(|d: Seq<char>| trim(d));
        let x = choose|x: int| 0 <= x < tv.len() && #[trigger] tv[x] == v.external[e];
        assert(u.needed[x] == v.needed[x]);
        assert(u.needed.map_values(|d: Seq<char>| trim(d))[x] == v.external[e]);
    }
}

/// The script being installed turned out to be on disk already.
proof fn lemma_found_installed(v: InstallerView)
    requires
        installer_inv(v),
        v.awaiting != Awaiting::Finished,
    ensures
        well_stepped(
            after_event(v, EventView::Exists(true)).0,
            after_event(v, EventView::Exists(true)).1,
            v.target,
            v.entries,
        ),
{
    let name = v.current;
        let u = InstallerView { installed: v.installed.push(name), ..v };
        lemma_push_distinct(v.installed, name);
        assert forall|i: int| 0 <= i < u.installed.len() implies is_entry_name(u.entries, #[trigger] u.installed[i]) by {
            if i < v.installed.len() {
                assert(u.installed[i] == v.installed[i]);
            }
        }
        assert forall|i: int| 0 <= i < u.frames.len() implies !u.installed.contains((#[trigger] u.frames[i]).name) by {
            assert(frame_names(v.frames)[i] == v.frames[i].name);
            if u.installed.contains(v.frames[i].name) {
                let j = choose|j: int| 0 <= j < u.installed.len() && u.installed[j] == v.frames[i].name;
                if j < v.installed.len() {
                    assert(v.installed[j] == u.installed[j]);
                }
            }
        }
        assert(u.installed[u.installed.len() - 1] == name);
        assert forall|i: int| 0 <= i < u.needed.len() && trim(#[trigger] u.needed[i]).len() > 0 implies dep_ok(
            u,
            trim(u.needed[i]),
            None,
        ) by {
            let d = trim(v.needed[i]);
            assert(dep_ok(v, d, Some(name)));
            lemma_first_match(entry_names(v.entries), d);
            match first_match(entry_names(v.entries), d) {
                Some(k) => {
                    let c = v.entries[k].name@;
                    if v.installed.contains(c) {
                        lemma_contains_push(v.installed, c, name);
                    } else if c == name {
                        assert(u.installed.contains(c));
                    }
                },
                None => {},
            }
        }
        lemma_order_found(v);
        lemma_settled(u);
        assert(after_event(v, EventView::Exists(true)) == settled(u));
}

/// Each step of an install keeps its invariant, keeps the script asked for
/// and the registry entries, ends the install exactly when it says so, and,
/// when the install succeeds, reports the installed scripts (each a registry
/// script, each once, the one asked for last) and the external dependencies
/// (each a non-empty name that no registry entry has, each once, each one
/// that was read), so that every dependency read from a cloned script is
/// external or installed before that script.
pub proof fn lemma_install_step(v: InstallerView, e: EventView)
    requires
        installer_inv(v),
        v.awaiting != Awaiting::Finished,
        fits(v.awaiting, e),
    ensures
        well_stepped(after_event(v, e).0, after_event(v, e).1, v.target, v.entries),
{
    let name = v.current;
    match e {
        EventView::Exists(true) => {
            lemma_found_installed(v);
        },
        EventView::Dependencies(ds) => {
            let g = FrameView { name, deps: ds, next: 0 };
            let u = InstallerView {
                frames: v.frames.push(g),
                needed: v.needed + ds,
                owners: v.owners + Seq::new(ds.len(), |j: int| name),
                ..v
            };
            assert(frame_names(u.frames) =~= frame_names(v.frames).push(name));
            lemma_push_distinct(frame_names(v.frames), name);
            assert forall|i: int| 0 <= i < u.frames.len() implies {
                &&& !u.installed.contains((#[trigger] u.frames[i]).name)
                &&& is_entry_name(u.entries, u.frames[i].name)
                &&& 0 <= u.frames[i].next <= u.frames[i].deps.len()
            } by {
                if i < v.frames.len() {
                    assert(u.frames[i] == v.frames[i]);
                }
            }
            if v.frames.len() > 0 {
                assert(u.frames[0] == v.frames[0]);
            }
            let m = v.frames.len() as int;
            assert forall|i: int| 0 <= i < u.needed.len() && trim(#[trigger] u.needed[i]).len() > 0 implies dep_ok(
                u,
                trim(u.needed[i]),
                None,
            ) by {
                let d = trim(u.needed[i]);
                if i < v.needed.len() {
                    assert(u.needed[i] == v.needed[i]);
                    assert(dep_ok(v, d, Some(name)));
                    if !accounted(v.entries, v.installed, v.external, d) {
                        if waiting_on_stack(v.frames, d) {
                            let (fi, j) = choose|fi: int, j: int|
                                0 <= fi < v.frames.len() && v.frames[fi].next <= j < v.frames[fi].deps.len()
                                    && #[trigger] trim(v.frames[fi].deps[j]) == d;
                            assert(u.frames[fi] == v.frames[fi]);
                            assert(trim(u.frames[fi].deps[j]) == d);
                        } else {
                            lemma_first_match(entry_names(v.entries), d);
                            let k = first_match(entry_names(v.entries), d)->0;
                            let c = v.entries[k].name@;
                            if frame_names(v.frames).contains(c) {
                                let p = choose|p: int| 0 <= p < frame_names(v.frames).len() && frame_names(v.frames)[p] == c;
                                assert(frame_names(u.frames)[p] == c);
                            } else {
                                assert(frame_names(u.frames)[m] == c);
                            }
                        }
                    }
                } else {
                    let j = i - v.needed.len();
                    assert(u.needed[i] == ds[j]);
                    assert(u.frames[m] == g);
                    assert(trim(u.frames[m].deps[j]) == d);
                }
            }
            lemma_order_deps(v, ds);
            lemma_settled(u);
        },
        _ => {
            let w = after_event(v, e).0;
            if w.awaiting != Awaiting::Finished {
                assert(w.needed == v.needed && w.frames == v.frames && w.entries == v.entries);
                assert forall|i: int| 0 <= i < w.needed.len() && trim(#[trigger] w.needed[i]).len() > 0 implies dep_ok(
                    w,
                    trim(w.needed[i]),
                    Some(w.current),
                ) by {
                    assert(dep_ok(v, trim(v.needed[i]), Some(v.current)));
                }
                assert(w.owners == v.owners && w.installed == v.installed && w.external == v.external);
                assert(order_inv(w, Some(w.current)));
            }
        },
    }
}

/// The first step of an install satisfies what every step does, for the
/// registry name of the script asked for.
pub proof fn lemma_install_start(entries: Seq<RegistryScript>, name: Seq<char>)
    ensures
        well_stepped(started(entries, name).0, started(entries, name).1, started(entries, name).0.target, entries),
        match first_match(entry_names(entries), name) {
            Some(k) => started(entries, name).0.target == entries[k].name@,
            None => started(entries, name).1 == StepView::Done(Err(not_found_message(name))),
        },
{
    lemma_first_match(entry_names(entries), name);
    match first_match(entry_names(entries), name) {
        Some(k) => {
            lemma_entry_at(entries, k);
        },
        None => {},
    }
}

/// What an install asks the caller to do next.
#[derive(Debug)]
pub enum InstallStep {
    /// Report whether the folder of this script exists in the scripts folder.
    CheckInstalled(String),
    /// Run git with these arguments in the scripts folder, to clone `name`.
    CloneRepo { name: String, args: Vec<String> },
    /// Report whether the folder of this script holds `info.toml`.
    CheckInfo(String),
    /// Report the dependencies listed in this script's `info.toml`.
    ReadDependencies(String),
    /// Remove the folder of `name`; the install fails with `error`.
    Abandon { name: String, error: String },
    /// The install is over, with this outcome.
    Done(Result<InstallResult, String>),
}

impl View for InstallStep {
    type V = StepView;

    open spec fn view(&self) -> StepView {
        match self {
            InstallStep::CheckInstalled(n) => StepView::CheckInstalled(n@),
            InstallStep::CloneRepo { name, args } => StepView::CloneRepo(name@, texts(args@)),
            InstallStep::CheckInfo(n) => StepView::CheckInfo(n@),
            InstallStep::ReadDependencies(n) => StepView::ReadDependencies(n@),
            InstallStep::Abandon { name, error } => StepView::Abandon(name@, error@),
            InstallStep::Done(Ok(r)) => StepView::Done(Ok((texts(r.installed@), texts(r.external@)))),
            InstallStep::Done(Err(e)) => StepView::Done(Err(e@)),
        }
    }
}

/// The outcome of the work an install asked for.
#[derive(Debug)]
pub enum InstallEvent {
    /// Whether the folder exists.
    Exists(bool),
    /// Whether git could be run (and if not, why).
    Cloned(Result<(), String>),
    /// Whether `info.toml` exists.
    HasInfo(bool),
    /// The dependencies listed in `info.toml`.
    Dependencies(Vec<String>),
}

impl View for InstallEvent {
    type V = EventView;

    open spec fn view(&self) -> EventView {
        match self {
            InstallEvent::Exists(b) => EventView::Exists(*b),
            InstallEvent::Cloned(Ok(())) => EventView::Cloned(Ok(())),
            InstallEvent::Cloned(Err(e)) => EventView::Cloned(Err(e@)),
            InstallEvent::HasInfo(b) => EventView::HasInfo(*b),
            InstallEvent::Dependencies(ds) => EventView::Dependencies(texts(ds@)),
        }
    }
}

struct Frame {
    name: String,
    deps: Vec<String>,
    next: usize,
}

impl View for Frame {
    type V = FrameView;

    closed spec fn view(&self) -> FrameView {
        FrameView { name: self.name@, deps: texts(self.deps@), next: self.next as int }
    }
}

/// An install in progress: the decisions of installing a script and its
/// dependencies, with the outside work left to the caller.
pub struct Installer {
    entries: Vec<RegistryScript>,
    installed: Vec<String>,
    external: Vec<String>,
    frames: Vec<Frame>,
    current: String,
    awaiting: Awaiting,
    target: Ghost<Seq<char>>,
    needed: Ghost<Seq<Seq<char>>>,
    owners: Ghost<Seq<Seq<char>>>,
}

impl View for Installer {
    type V = InstallerView;

    closed spec fn view(&self) -> InstallerView {
        InstallerView {
            entries: self.entries@,
            installed: texts(self.installed@),
            external: texts(self.external@),
            frames: self.frames@.map_values(|f: Frame| f@),
            current: self.current@,
            awaiting: self.awaiting,
            target: self.target@,
            needed: self.needed@,
            owners: self.owners@,
        }
    }
}

/// Copies of the strings of `v`.
fn copy_texts(v: &Vec<String>) -> (r: Vec<String>)
    ensures
        texts(r@) == texts(v@),
{
    let mut r: Vec<String> = Vec::new();
    let mut i: usize = 0;
    while i < v.len()
        invariant
            i <= v@.len(),
            r@.len() == i,
            forall|j: int| 0 <= j < i ==> (#[trigger] r@[j])@ == v@[j]@,
        decreases v@.len() - i,
    {
        let c = v[i].clone();
        r.push(c);
        i = i + 1;
    }
    assert(texts(r@) =~= texts(v@));
    r
}

/// Whether `s` is one of the strings of `v`.
fn contains_text(v: &Vec<String>, s: &String) -> (r: bool)
    ensures
        r == texts(v@).contains(s@),
{
    let mut i: usize = 0;
    while i < v.len()
        invariant
            i <= v@.len(),
            forall|j: int| 0 <= j < i ==> texts(v@)[j] != s@,
        decreases v@.len() - i,
    {
        if v[i] == *s {
            assert(texts(v@)[i as int] == s@);
            return true;
        }
        i = i + 1;
    }
    false
}

/// `a`, then `b`, then `c`.
fn concat3(a: &str, b: &str, c: &str) -> (r: String)
    ensures
        r@ == a@ + b@ + c@,
{
    let mut r = string_from(a);
    push_str(&mut r, b);
    push_str(&mut r, c);
    r
}

impl Installer {
    /// What the install waits for.
    pub fn awaiting(&self) -> (a: Awaiting)
        ensures
            a == self@.awaiting,
    {
        self.awaiting
    }

    /// Whether `event` is the kind of outcome the install waits for.
    pub fn expects(&self, event: &InstallEvent) -> (b: bool)
        ensures
            b == (self@.awaiting != Awaiting::Finished && fits(self@.awaiting, event@)),
    {
        match (self.awaiting, event) {
            (Awaiting::Folder, InstallEvent::Exists(_)) => true,
            (Awaiting::Cloning, InstallEvent::Cloned(_)) => true,
            (Awaiting::Info, InstallEvent::HasInfo(_)) => true,
            (Awaiting::Dependencies, InstallEvent::Dependencies(_)) => true,
            _ => false,
        }
    }

    fn on_stack(&self, name: &String) -> (r: bool)
        ensures
            r == frame_names(self@.frames).contains(name@),
    {
        let mut i: usize = 0;
        while i < self.frames.len()
            invariant
                i <= self.frames@.len(),
                forall|j: int| 0 <= j < i ==> frame_names(self@.frames)[j] != name@,
            decreases self.frames@.len() - i,
        {
            if self.frames[i].name == *name {
                assert(frame_names(self@.frames)[i as int] == name@);
                return true;
            }
            i = i + 1;
        }
        false
    }

    fn enter(&mut self, name: String) -> (s: InstallStep)
        ensures
            (final(self)@, s@) == entered(old(self)@, name@),
    {
        if self.on_stack(&name) {
            self.awaiting = Awaiting::Finished;
            return InstallStep::Done(Err(concat3("circular dependency detected at '", name.as_str(), "'")));
        }
        match find_index(&self.entries, name.as_str()) {
            None => {
                self.awaiting = Awaiting::Finished;
                InstallStep::Done(Err(concat3("dependency '", name.as_str(), "' not found in registry")))
            },
            Some(_) => {
                let shown = name.clone();
                self.current = name;
                self.awaiting = Awaiting::Folder;
                InstallStep::CheckInstalled(shown)
            },
        }
    }

    fn settle(&mut self) -> (s: InstallStep)
        ensures
            (final(self)@, s@) == settled(old(self)@),
    {
        loop
            invariant
                settled(self@) == settled(old(self)@),
            decreases remaining(self@.frames),
        {
            let ghost prev = self@;
            if self.frames.len() == 0 {
                let r = InstallResult { installed: copy_texts(&self.installed), external: copy_texts(&self.external) };
                self.awaiting = Awaiting::Finished;
                return InstallStep::Done(Ok(r));
            }
            let ghost old_frames = self.frames@;
            let mut f = self.frames.pop().unwrap();
            assert(self.frames@ == old_frames.drop_last());
            assert(prev.frames.last() == f@);
            assert(self@.frames =~= prev.frames.drop_last());
            if f.next >= f.deps.len() {
                let ghost installed = self.installed@;
                self.installed.push(f.name);
                assert(texts(self.installed@) =~= texts(installed).push(prev.frames.last().name));
                assert(self@ == InstallerView {
                    frames: prev.frames.drop_last(),
                    installed: prev.installed.push(prev.frames.last().name),
                    ..prev
                });
            } else {
                assert(texts(f.deps@)[f.next as int] == f.deps@[f.next as int]@);
                let dep = trim_str(f.deps[f.next].as_str());
                f.next = f.next + 1;
                let ghost g = f@;
                self.frames.push(f);
                assert(self@.frames =~= prev.frames.update(prev.frames.len() - 1, g));
                assert(g == FrameView { next: prev.frames.last().next + 1, ..prev.frames.last() });
                let ghost w = self@;
                assert(w.frames.drop_last() =~= prev.frames.drop_last());
                if !dep.as_str().is_empty() {
                    match find_index(&self.entries, dep.as_str()) {
                        Some(k) => {
                            let canonical = self.entries[k].name.clone();
                            if !contains_text(&self.installed, &canonical) {
                                return self.enter(canonical);
                            }
                        },
                        None => {
                            if !contains_text(&self.external, &dep) {
                                let ghost external = self.external@;
                                self.external.push(dep);
                                assert(texts(self.external@) =~= texts(external).push(trim(prev.frames.last().deps[prev.frames.last().next])));
                                assert(self@ == InstallerView { external: prev.external.push(trim(prev.frames.last().deps[prev.frames.last().next])), ..w });
                            }
                        },
                    }
                }
            }
        }
    }

    /// Goes on with the install once the awaited work has come back with
    /// `event`.
    pub fn resume(&mut self, event: InstallEvent) -> (s: InstallStep)
        requires
            installer_inv(old(self)@),
            old(self)@.awaiting != Awaiting::Finished,
            fits(old(self)@.awaiting, event@),
        ensures
            (final(self)@, s@) == after_event(old(self)@, event@),
            well_stepped(final(self)@, s@, old(self)@.target, old(self)@.entries),
    {
        proof {
            lemma_install_step(self@, event@);
        }
        let ghost v = self@;
        match event {
            InstallEvent::Exists(true) => {
                if !contains_text(&self.installed, &self.current) {
                    let c = self.current.clone();
                    let ghost installed = self.installed@;
                    self.installed.push(c);
                    assert(texts(self.installed@) =~= texts(installed).push(v.current));
                }
                self.settle()
            },
            InstallEvent::Exists(false) => {
                let repo = match find_index(&self.entries, self.current.as_str()) {
                    Some(k) => self.entries[k].repo.clone(),
                    None => String::new(),
                };
                let mut args: Vec<String> = Vec::new();
                args.push(string_from("clone"));
                args.push(string_from("--depth"));
                args.push(string_from("1"));
                args.push(string_from("--recurse-submodules"));
                args.push(concat3("https://github.com/", repo.as_str(), ".git"));
                args.push(self.current.clone());
                assert(texts(args@) =~= clone_args(repo_of(v.entries, v.current), v.current));
                self.awaiting = Awaiting::Cloning;
                InstallStep::CloneRepo { name: self.current.clone(), args }
            },
            InstallEvent::Cloned(Err(e)) => {
                self.awaiting = Awaiting::Finished;
                let mut m = concat3("failed to clone '", self.current.as_str(), "': ");
                push_str(&mut m, e.as_str());
                InstallStep::Done(Err(m))
            },
            InstallEvent::Cloned(Ok(())) => {
                self.awaiting = Awaiting::Info;
                InstallStep::CheckInfo(self.current.clone())
            },
            InstallEvent::HasInfo(false) => {
                self.awaiting = Awaiting::Finished;
                InstallStep::Abandon {
                    name: self.current.clone(),
                    error: concat3("'", self.current.as_str(), "' has no info.toml - not a valid LJE script"),
                }
            },
            InstallEvent::HasInfo(true) => {
                self.awaiting = Awaiting::Dependencies;
                InstallStep::ReadDependencies(self.current.clone())
            },
            InstallEvent::Dependencies(ds) => {
                self.needed = Ghost(self.needed@ + texts(ds@));
                self.owners = Ghost(self.owners@ + Seq::new(ds@.len(), |j: int| v.current));
                let f = Frame { name: self.current.clone(), deps: ds, next: 0 };
                let ghost frames = self.frames@;
                self.frames.push(f);
                assert(self@.frames =~= v.frames.push(FrameView { name: v.current, deps: texts(ds@), next: 0 }));
                self.settle()
            },
        }
    }
}

/// Starts installing the registry script named `name` (up to ASCII case),
/// with its dependencies, from the registry entries `entries`.
pub fn install(entries: Vec<RegistryScript>, name: &str) -> (r: (Installer, InstallStep))
    ensures
        (r.0@, r.1@) == started(entries@, name@),
        well_stepped(r.0@, r.1@, r.0@.target, entries@),
        match first_match(entry_names(entries@), name@) {
            Some(k) => r.0@.target == entries@[k].name@,
            None => r.1@ == StepView::Done(Err(not_found_message(name@))),
        },
{
    proof {
        lemma_install_start(entries@, name@);
    }
    match find_index(&entries, name) {
        None => {
            let inst = Installer {
                entries,
                installed: Vec::new(),
                external: Vec::new(),
                frames: Vec::new(),
                current: String::new(),
                awaiting: Awaiting::Finished,
                target: Ghost(Seq::empty()),
                needed: Ghost(Seq::empty()),
                owners: Ghost(Seq::empty()),
            };
            assert(inst@.installed =~= Seq::<Seq<char>>::empty());
            assert(inst@.external =~= Seq::<Seq<char>>::empty());
            assert(inst@.frames =~= Seq::<FrameView>::empty());
            (inst, InstallStep::Done(Err(concat3("'", name, "' not found in registry"))))
        },
        Some(k) => {
            let canonical = entries[k].name.clone();
            let mut inst = Installer {
                entries,
                installed: Vec::new(),
                external: Vec::new(),
                frames: Vec::new(),
                current: String::new(),
                awaiting: Awaiting::Finished,
                target: Ghost(canonical@),
                needed: Ghost(Seq::empty()),
                owners: Ghost(Seq::empty()),
            };
            assert(inst@.installed =~= Seq::<Seq<char>>::empty());
            assert(inst@.external =~= Seq::<Seq<char>>::empty());
            assert(inst@.frames =~= Seq::<FrameView>::empty());
            let s = inst.enter(canonical);
            (inst, s)
        },
    }
}

} // verus!
