//! Update checks for `lje-w64.dll`: the installed version, the latest
//! commit of the configured release branch, and where to download it.

use vstd::prelude::*;

use crate::text::{char_width, chars_of, push_str, string_from, string_of_range, utf8_width};

verus! {

/// Installed and latest versions, and whether they differ.
#[derive(Debug, Clone)]
pub struct UpdateStatus {
    pub current: String,
    pub latest: String,
    pub out_of_date: bool,
}

/// What the launcher reports as the installed version: "not installed"
/// without the DLL, its product version when that can be read and is not
/// empty, and "unknown" otherwise.
pub open spec fn current_version_text(dll_exists: bool, product_version: Option<Seq<char>>) -> Seq<
    char,
> {
    if !dll_exists {
        "not installed"@
    } else {
        match product_version {
            Some(v) => if v.len() > 0 {
                v
            } else {
                "unknown"@
            },
            None => "unknown"@,
        }
    }
}

/// With the DLL present, the reported version is its product version
/// whenever that is not empty, whatever characters it holds; it is
/// "unknown" only when the version is missing or empty, and "not installed"
/// exactly when the DLL is missing.
pub proof fn lemma_current_version_is_product_version(dll_exists: bool, product_version: Option<Seq<char>>)
    ensures
        !dll_exists ==> current_version_text(dll_exists, product_version) == "not installed"@,
        dll_exists ==> match product_version {
            Some(v) => v.len() > 0 ==> current_version_text(dll_exists, product_version) == v,
            None => current_version_text(dll_exists, product_version) == "unknown"@,
        },
{
}

/// The installed version, given whether the DLL exists and the product
/// version read from it.
pub fn get_current_version(dll_exists: bool, product_version: Option<String>) -> (r: String)
    ensures
        r@ == current_version_text(
            dll_exists,
            match product_version {
                Some(v) => Some(v@),
                None => None,
            },
        ),
        !dll_exists ==> r@ == "not installed"@,
        dll_exists ==> match product_version {
            Some(v) => v@.len() > 0 ==> r@ == v@,
            None => r@ == "unknown"@,
        },
{
    let ghost pv = match &product_version {
        Some(v) => Some(v@),
        None => None,
    };
    proof {
        lemma_current_version_is_product_version(dll_exists, pv);
    }
    if !dll_exists {
        return string_from("not installed");
    }
    match product_version {
        Some(v) => {
            if v.as_str().is_empty() {
                string_from("unknown")
            } else {
                v
            }
        },
        None => string_from("unknown"),
    }
}

/// Compares the installed version with the latest one.
pub fn update_status(current: String, latest: String) -> (r: UpdateStatus)
    ensures
        r.current@ == current@,
        r.latest@ == latest@,
        r.out_of_date == (current@ != latest@),
{
    let out_of_date = !(current == latest);
    UpdateStatus { current, latest, out_of_date }
}

/// The GitHub API address of the latest commit of `branch`.
pub fn commits_url(branch: &str) -> (r: String)
    ensures
        r@ == "https://api.github.com/repos/lj-expand/lj-expand/commits/"@ + branch@,
{
    let mut r = string_from("https://api.github.com/repos/lj-expand/lj-expand/commits/");
    push_str(&mut r, branch);
    r
}

/// The download address of the latest `lje-w64.dll` built from `branch`.
pub fn download_url(branch: &str) -> (r: String)
    ensures
        r@ == "https://github.com/lj-expand/lj-expand/releases/download/"@ + branch@
            + "-latest/lje-w64.dll"@,
{
    let mut r = string_from("https://github.com/lj-expand/lj-expand/releases/download/");
    push_str(&mut r, branch);
    push_str(&mut r, "-latest/lje-w64.dll");
    r
}

/// The leading characters of `s` that take exactly `n` bytes in UTF-8, as
/// `str::get(..n)` gives them: none when `s` is shorter or byte `n` falls
/// inside a character.
pub open spec fn byte_prefix(s: Seq<char>, n: nat) -> Option<Seq<char>>
    decreases s.len(),
{
    if n == 0 {
        Some(Seq::empty())
    } else if s.len() == 0 || char_width(s[0]) > n {
        None
    } else {
        match byte_prefix(s.drop_first(), (n - char_width(s[0])) as nat) {
            Some(p) => Some(seq![s[0]] + p),
            None => None,
        }
    }
}

/// `pre` followed by the prefix, when there is one.
pub open spec fn prepend_opt(pre: Seq<char>, r: Option<Seq<char>>) -> Option<Seq<char>> {
    match r {
        Some(p) => Some(pre + p),
        None => None,
    }
}

/// The latest version from the `sha` field of the commit response: its
/// first 7 bytes.
pub fn latest_version(sha: Option<&str>) -> (r: Result<String, String>)
    ensures
        match sha {
            None => r matches Err(e) && e@ == "update check failed: response missing sha"@,
            Some(s) => match byte_prefix(s@, 7) {
                Some(p) => r matches Ok(v) && v@ == p,
                None => r matches Err(e) && e@ == "update check failed: unexpected sha"@,
            },
        },
{
    let s = match sha {
        Some(s) => s,
        None => {
            return Err(string_from("update check failed: response missing sha"));
        },
    };
    let cs = chars_of(s);
    let mut i: usize = 0;
    let mut b: usize = 0;
    assert(cs@.skip(0) =~= cs@);
    assert(cs@.take(0) =~= Seq::<char>::empty());
    while b < 7
        invariant
            sha == Some(s),
            cs@ == s@,
            i <= cs@.len(),
            b <= 7,
            byte_prefix(s@, 7) == prepend_opt(cs@.take(i as int), byte_prefix(cs@.skip(i as int), (7 - b) as nat)),
        decreases 7 - b,
    {
        let ghost rest = cs@.skip(i as int);
        if i == cs.len() {
            return Err(string_from("update check failed: unexpected sha"));
        }
        let w = utf8_width(cs[i]);
        assert(rest[0] == cs@[i as int]);
        if b + w > 7 {
            return Err(string_from("update check failed: unexpected sha"));
        }
        assert(rest.drop_first() =~= cs@.skip(i + 1));
        assert(cs@.take(i + 1) =~= cs@.take(i as int) + seq![cs@[i as int]]);
        proof {
            match byte_prefix(cs@.skip(i + 1), (7 - b - w) as nat) {
                Some(p) => {
                    assert(cs@.take(i as int) + (seq![cs@[i as int]] + p) =~= cs@.take(i + 1) + p);
                },
                None => {},
            }
        }
        b = b + w;
        i = i + 1;
    }
    assert(cs@.take(i as int) + Seq::<char>::empty() =~= cs@.take(i as int));
    assert(cs@.take(i as int) =~= cs@.subrange(0, i as int));
    Ok(string_of_range(&cs, 0, i))
}

} // verus!
