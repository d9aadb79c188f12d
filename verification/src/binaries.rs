//! Native binaries in `~/.lje/binaries`: files named `lje-*.dll`, disabled
//! by renaming them to `lje-*.dll.disabled`.

use vstd::prelude::*;

use crate::order::{chars_lt, name_lt, sort_by_name, stable_sorted_by_name, views, Named};
use crate::text::{
    chars_of, ends_with, eq_ignore_ascii_case, has_prefix, has_suffix, lowercase, push_str,
    same_ignoring_ascii_case, starts_with, string_from, string_of_range, to_lower,
};

verus! {

/// A binary as the launcher lists it.
#[derive(Debug, Clone)]
pub struct BinaryInfo {
    /// e.g. "lje-ffi" (no extension).
    pub name: String,
    pub enabled: bool,
    /// Full path to the active `.dll` (or the `.disabled` file if disabled).
    pub path: String,
}

/// What a listed binary holds.
pub struct BinaryView {
    pub name: Seq<char>,
    pub enabled: bool,
    pub path: Seq<char>,
}

impl View for BinaryInfo {
    type V = BinaryView;

    open spec fn view(&self) -> BinaryView {
        BinaryView { name: self.name@, enabled: self.enabled, path: self.path@ }
    }
}

impl Named for BinaryInfo {
    open spec fn name_of(v: BinaryView) -> Option<Seq<char>> {
        Some(v.name)
    }

    fn name(&self) -> (r: Option<&String>) {
        Some(&self.name)
    }
}

/// Whether the lowercase form `lower` of a file name is that of a binary:
/// `lje-` followed by `.dll` or `.dll.disabled`.
pub open spec fn lower_is_binary(lower: Seq<char>) -> bool {
    starts_with(lower, "lje-"@) && (ends_with(lower, ".dll"@) || ends_with(lower, ".dll.disabled"@))
}

/// Whether a file name is that of a binary: `lje-` followed by `.dll` or
/// `.dll.disabled`, in any case.
pub open spec fn binary_filename(name: Seq<char>) -> bool {
    lower_is_binary(lowercase(name))
}

/// Whether `lower`, the lowercase form of a file name, is that of a binary.
pub fn is_binary_lower(lower: &str) -> (b: bool)
    ensures
        b == lower_is_binary(lower@),
{
    let cs = chars_of(lower);
    has_prefix(cs.as_slice(), "lje-") && (has_suffix(cs.as_slice(), ".dll") || has_suffix(
        cs.as_slice(),
        ".dll.disabled",
    ))
}

/// Whether a file name is that of a binary.
pub fn is_binary_filename(name: &str) -> (b: bool)
    ensures
        b == binary_filename(name@),
{
    let lower = to_lower(name);
    is_binary_lower(lower.as_str())
}

/// The name shown for the file `filename` whose lowercase form is `lower`:
/// `lower` without its `.dll.disabled` or `.dll` ending, or the file name
/// itself when it has neither.
pub open spec fn display_from(filename: Seq<char>, lower: Seq<char>) -> Seq<char> {
    if ends_with(lower, ".dll.disabled"@) {
        lower.take(lower.len() - ".dll.disabled"@.len())
    } else if ends_with(lower, ".dll"@) {
        lower.take(lower.len() - ".dll"@.len())
    } else {
        filename
    }
}

/// The name shown for a binary file: the lowercase file name without its
/// `.dll.disabled` or `.dll` ending, or the file name itself when it has
/// neither.
pub open spec fn display_name_of(filename: Seq<char>) -> Seq<char> {
    display_from(filename, lowercase(filename))
}

/// The name shown for the file `filename`, given its lowercase form `lower`.
pub fn display_name_from(filename: &str, lower: &str) -> (r: String)
    ensures
        r@ == display_from(filename@, lower@),
{
    let cs = chars_of(lower);
    let disabled = chars_of(".dll.disabled");
    let dll = chars_of(".dll");
    if has_suffix(cs.as_slice(), ".dll.disabled") {
        assert(cs@.take(cs@.len() - disabled@.len()) =~= cs@.subrange(0, cs@.len() - disabled@.len()));
        string_of_range(&cs, 0, cs.len() - disabled.len())
    } else if has_suffix(cs.as_slice(), ".dll") {
        assert(cs@.take(cs@.len() - dll@.len()) =~= cs@.subrange(0, cs@.len() - dll@.len()));
        string_of_range(&cs, 0, cs.len() - dll.len())
    } else {
        string_from(filename)
    }
}

/// The name shown for a binary file.
pub fn display_name(filename: &str) -> (r: String)
    ensures
        r@ == display_name_of(filename@),
{
    let lower = to_lower(filename);
    display_name_from(filename, lower.as_str())
}

/// The listing entry of the file `filename` at `path`, given the file name's
/// lowercase form `lower`, if it is a binary: its display name, whether it
/// is the active `.dll`, and its path.
pub open spec fn entry_from(filename: Seq<char>, lower: Seq<char>, path: Seq<char>) -> Option<BinaryView> {
    if lower_is_binary(lower) {
        Some(
            BinaryView {
                name: display_from(filename, lower),
                enabled: !ends_with(lower, ".dll.disabled"@),
                path,
            },
        )
    } else {
        None
    }
}

/// The listing entry of a file in the binaries folder, if it is a binary:
/// its display name, whether it is the active `.dll`, and its path.
pub open spec fn binary_entry(filename: Seq<char>, path: Seq<char>) -> Option<BinaryView> {
    entry_from(filename, lowercase(filename), path)
}

/// The listing entry of a file, given its lowercase name, if it is a binary.
pub fn binary_info_from(filename: &str, lower: &str, path: &str) -> (r: Option<BinaryInfo>)
    ensures
        match r {
            Some(b) => entry_from(filename@, lower@, path@) == Some(b@),
            None => entry_from(filename@, lower@, path@) is None,
        },
{
    if !is_binary_lower(lower) {
        return None;
    }
    let cs = chars_of(lower);
    let enabled = !has_suffix(cs.as_slice(), ".dll.disabled");
    Some(BinaryInfo { name: display_name_from(filename, lower), enabled, path: string_from(path) })
}

/// The listing entry of a file, if it is a binary.
pub fn binary_info(filename: &str, path: &str) -> (r: Option<BinaryInfo>)
    ensures
        match r {
            Some(b) => binary_entry(filename@, path@) == Some(b@),
            None => binary_entry(filename@, path@) is None,
        },
{
    let lower = to_lower(filename);
    binary_info_from(filename, lower.as_str(), path)
}

/// The entries of the files `(file name, path)` of the binaries folder.
pub open spec fn binary_entries(files: Seq<(String, String)>) -> Seq<BinaryView> {
    files.filter_map(|f: (String, String)| binary_entry(f.0@, f.1@))
}

/// The binaries among the files `(file name, path)` of the binaries folder,
/// sorted by name.
pub fn collect_binaries(files: &Vec<(String, String)>) -> (r: Vec<BinaryInfo>)
    ensures
        stable_sorted_by_name(views(r@), binary_entries(files@), |v: BinaryView| BinaryInfo::name_of(v)),
        forall|i: int, j: int| 0 <= i < j < r@.len() ==> !chars_lt(#[trigger] r@[j].name@, #[trigger] r@[i].name@),
{
    let ghost f = |f: (String, String)| binary_entry(f.0@, f.1@);
    let mut found: Vec<BinaryInfo> = Vec::new();
    let mut i: usize = 0;
    assert(files@.take(0) =~= Seq::<(String, String)>::empty());
    assert(views(found@) =~= Seq::<BinaryView>::empty());
    while i < files.len()
        invariant
            f == (|f: (String, String)| binary_entry(f.0@, f.1@)),
            i <= files@.len(),
            views(found@) == files@.take(i as int).filter_map(f),
        decreases files@.len() - i,
    {
        proof {
            files@.lemma_filter_map_take_succ(f, i as int);
        }
        let ghost prev = views(found@);
        match binary_info(files[i].0.as_str(), files[i].1.as_str()) {
            Some(b) => {
                found.push(b);
                assert(views(found@) =~= prev + seq![b@]);
            },
            None => {},
        }
        i = i + 1;
    }
    assert(files@.take(files@.len() as int) =~= files@);
    let r = sort_by_name(found);
    proof {
        lemma_listing_sorted_by_display_name(views(r@), binary_entries(files@));
        assert forall|i: int, j: int| 0 <= i < j < r@.len() implies !chars_lt(
            #[trigger] r@[j].name@,
            #[trigger] r@[i].name@,
        ) by {
            assert(views(r@)[i] == r@[i]@ && views(r@)[j] == r@[j]@);
            assert(!chars_lt(views(r@)[j].name, views(r@)[i].name));
        }
    }
    r
}

/// A listing sorted for display has its display names (the `name` field)
/// in non-decreasing code-point order.
pub proof fn lemma_listing_sorted_by_display_name(r: Seq<BinaryView>, v: Seq<BinaryView>)
    requires
        stable_sorted_by_name(r, v, |b: BinaryView| BinaryInfo::name_of(b)),
    ensures
        forall|i: int, j: int| 0 <= i < j < r.len() ==> !chars_lt(#[trigger] r[j].name, #[trigger] r[i].name),
{
    assert forall|i: int, j: int| 0 <= i < j < r.len() implies !chars_lt(#[trigger] r[j].name, #[trigger] r[i].name) by {
        let nm = |b: BinaryView| BinaryInfo::name_of(b);
        assert(!name_lt(nm(r[j]), nm(r[i])));
    }
}

/// The two file names of the binary at `path`, whose lowercase form is
/// `lower`: the active `.dll` and the `.dll.disabled` one. When `lower` ends
/// in `.dll.disabled` and the path's last nine characters are `.disabled` in
/// any ASCII case, the path names the disabled file and the active one is
/// the path without them; otherwise the path names the active file.
pub open spec fn files_from(path: Seq<char>, lower: Seq<char>) -> (Seq<char>, Seq<char>) {
    let n = ".disabled"@.len();
    let base = if ends_with(lower, ".dll.disabled"@) && n <= path.len() && same_ignoring_ascii_case(
        path.skip(path.len() - n),
        ".disabled"@,
    ) {
        path.take(path.len() - n)
    } else {
        path
    };
    (base, base + ".disabled"@)
}

/// The two file names of the binary at `path`, which may name either file.
pub open spec fn binary_files_of(path: Seq<char>) -> (Seq<char>, Seq<char>) {
    files_from(path, lowercase(path))
}

/// The active and disabled file names of the binary at `path`, given the
/// path's lowercase form `lower`.
pub fn binary_files_from(path: &str, lower: &str) -> (r: (String, String))
    ensures
        (r.0@, r.1@) == files_from(path@, lower@),
{
    let lc = chars_of(lower);
    let cs = chars_of(path);
    let suffix = chars_of(".disabled");
    let n = suffix.len();
    let base = if has_suffix(lc.as_slice(), ".dll.disabled") && n <= cs.len() {
        let tail = string_of_range(&cs, cs.len() - n, cs.len());
        assert(tail@ =~= cs@.skip(cs@.len() - n));
        if eq_ignore_ascii_case(tail.as_str(), ".disabled") {
            assert(cs@.take(cs@.len() - n) =~= cs@.subrange(0, cs@.len() - n));
            string_of_range(&cs, 0, cs.len() - n)
        } else {
            string_from(path)
        }
    } else {
        string_from(path)
    };
    let mut disabled = base.clone();
    push_str(&mut disabled, ".disabled");
    (base, disabled)
}

/// The active and disabled file names of the binary at `path`, which may
/// name either file.
pub fn binary_files(path: &str) -> (r: (String, String))
    ensures
        (r.0@, r.1@) == binary_files_of(path@),
{
    let lower = to_lower(path);
    binary_files_from(path, lower.as_str())
}

/// Whichever of its two file names a binary is given by (the disabled one
/// with its `.disabled` in any ASCII case), the same pair of names comes
/// out: the active name, and the active name with `.disabled`. This holds
/// where the lowercase forms end as the names do: the active name's does not
/// end in `.dll.disabled`, the disabled name's does.
pub proof fn lemma_binary_files_either_name(active: Seq<char>, suffix: Seq<char>)
    requires
        same_ignoring_ascii_case(suffix, ".disabled"@),
        ends_with(lowercase(active + suffix), ".dll.disabled"@),
        !ends_with(lowercase(active), ".dll.disabled"@),
    ensures
        binary_files_of(active + suffix) == (active, active + ".disabled"@),
        binary_files_of(active) == (active, active + ".disabled"@),
{
    let p = active + suffix;
    let n = suffix.len() as int;
    assert(p.skip(p.len() - n) =~= suffix);
    assert(p.take(p.len() - n) =~= active);
}

} // verus!
