//! Finding Garry's Mod among the Steam libraries listed in
//! `steamapps/libraryfolders.vdf`: a library qualifies when its `apps` block
//! lists app id 4000 and it names its `path`.

use vstd::prelude::*;

use crate::vdf::{VdfBlock, VdfData, VdfValue};

verus! {

broadcast use crate::vdf::lemma_value_view;

/// The library path of a `libraryfolders` entry, when that library holds
/// Garry's Mod (app id 4000).
pub open spec fn gmod_library_path(d: VdfData) -> Option<Seq<char>> {
    match d {
        VdfData::Table(lib) => {
            if lib.contains_key("apps"@) && lib.contains_key("path"@) {
                match (lib["apps"@], lib["path"@]) {
                    (VdfData::Table(apps), VdfData::Text(p)) => {
                        if apps.contains_key("4000"@) {
                            Some(p)
                        } else {
                            None
                        }
                    },
                    _ => None,
                }
            } else {
                None
            }
        },
        VdfData::Text(_) => None,
    }
}

/// Whether a `libraryfolders` entry describes a library that holds
/// Garry's Mod: a block whose `apps` entry is a block with the key `4000`
/// (whatever it maps to), and whose `path` entry is a string.
pub open spec fn holds_gmod(d: VdfData) -> bool {
    &&& d is Table
    &&& d->Table_0.contains_key("apps"@)
    &&& d->Table_0.contains_key("path"@)
    &&& d->Table_0["apps"@] is Table
    &&& d->Table_0["apps"@]->Table_0.contains_key("4000"@)
    &&& d->Table_0["path"@] is Text
}

/// Whether a `libraryfolders` entry describes a library that holds
/// Garry's Mod at the path `p`.
pub open spec fn holds_gmod_at(d: VdfData, p: Seq<char>) -> bool {
    holds_gmod(d) && d->Table_0["path"@] == VdfData::Text(p)
}

/// A library qualifies exactly when it is a block whose `apps` entry is a
/// block that has the key `4000` (whatever it maps to) and whose `path`
/// entry is a string; it then yields that path.
pub proof fn lemma_gmod_library_qualifies(lib: Map<Seq<char>, VdfData>, p: Seq<char>)
    ensures
        gmod_library_path(VdfData::Table(lib)) == Some(p) <==> (lib.contains_key("apps"@) && lib.contains_key(
            "path"@,
        ) && lib["path"@] == VdfData::Text(p) && (lib["apps"@] matches VdfData::Table(apps)
            && apps.contains_key("4000"@))),
        gmod_library_path(VdfData::Text(p)) is None,
{
}

proof fn lemma_filter_map_has<A, B>(s: Seq<A>, f: spec_fn(A) -> Option<B>, i: int)
    requires
        0 <= i < s.len(),
        f(s[i]) is Some,
    ensures
        s.filter_map(f).contains(f(s[i])->0),
    decreases s.len(),
{
    let b = f(s[i])->0;
    if i == s.len() - 1 {
        assert(s.filter_map(f) == s.drop_last().filter_map(f) + seq![b]);
        assert(s.filter_map(f)[s.filter_map(f).len() - 1] == b);
    } else {
        lemma_filter_map_has(s.drop_last(), f, i);
        assert(s.drop_last()[i] == s[i]);
        let fm = s.drop_last().filter_map(f);
        let k = choose|k: int| 0 <= k < fm.len() && fm[k] == b;
        match f(s.last()) {
            Some(x) => {
                assert(s.filter_map(f) == fm + seq![x]);
                assert(s.filter_map(f)[k] == b);
            },
            None => {
                assert(s.filter_map(f) == fm);
            },
        }
    }
}

/// Each path that the filter gives comes from a library holding the game.
proof fn lemma_libraries_from_keys(m: Map<Seq<char>, VdfData>, keys: Seq<Seq<char>>, out: Seq<Seq<char>>)
    requires
        out == keys.filter_map(|k: Seq<char>| gmod_library_path(m[k])),
    ensures
        forall|i: int|
            #![trigger out[i]]
            0 <= i < out.len() ==> exists|j: int|
                0 <= j < keys.len() && holds_gmod_at(m[#[trigger] keys[j]], out[i]),
{
    let f = |k: Seq<char>| gmod_library_path(m[k]);
    assert forall|i: int| #![trigger out[i]] 0 <= i < out.len() implies (exists|j: int|
        0 <= j < keys.len() && holds_gmod_at(m[#[trigger] keys[j]], out[i])) by {
        assert(out.contains(out[i]));
        keys.lemma_filter_map_contains(f, out[i]);
        let k = choose|k: Seq<char>| #[trigger] keys.contains(k) && f(k) == Some(out[i]);
        assert(f(k) == Some(out[i]));
        assert(gmod_library_path(m[k]) == Some(out[i]));
        match m[k] {
            VdfData::Table(lib) => {
                lemma_gmod_library_qualifies(lib, out[i]);
                assert(holds_gmod_at(m[k], out[i]));
            },
            VdfData::Text(t) => {
                assert(gmod_library_path(VdfData::Text(t)) is None);
            },
        }
        let j = choose|j: int| 0 <= j < keys.len() && keys[j] == k;
        assert(holds_gmod_at(m[keys[j]], out[i]));
    }
}

/// The `libraryfolders` block of a parsed `libraryfolders.vdf`; none when
/// the key is missing or holds a string.
pub fn library_folders(root: &VdfBlock) -> (r: Option<&VdfBlock>)
    ensures
        match r {
            Some(b) => root@.contains_key("libraryfolders"@) && root@["libraryfolders"@]
                == VdfData::Table(b@),
            None => !root@.contains_key("libraryfolders"@) || root@["libraryfolders"@] is Text,
        },
{
    match root.get("libraryfolders") {
        Some(VdfValue::Block(b)) => Some(b),
        _ => None,
    }
}

/// The paths of the libraries that hold Garry's Mod, in the order in which
/// the libraries are listed.
pub fn gmod_libraries(folders: &VdfBlock) -> (r: Vec<String>)
    ensures
        r@.map_values(|s: String| s@) == folders.keys().filter_map(
            |k: Seq<char>| gmod_library_path(folders@[k]),
        ),
        forall|k: Seq<char>|
            #[trigger] folders.keys().contains(k) && holds_gmod(folders@[k]) ==> r@.map_values(|s: String| s@).contains(
                folders@[k]->Table_0["path"@]->Text_0,
            ),
        forall|i: int|
            #![trigger r@[i]]
            0 <= i < r@.len() ==> exists|j: int|
                0 <= j < folders.keys().len() && holds_gmod_at(folders@[#[trigger] folders.keys()[j]], r@[i]@),
{
    let ghost f = |k: Seq<char>| gmod_library_path(folders@[k]);
    let mut r: Vec<String> = Vec::new();
    let n = folders.len();
    let mut i: usize = 0;
    assert(folders.keys().take(0) =~= Seq::<Seq<char>>::empty());
    assert(r@.map_values(|s: String| s@) =~= Seq::<Seq<char>>::empty());
    while i < n
        invariant
            n == folders.keys().len(),
            i <= n,
            f == (|k: Seq<char>| gmod_library_path(folders@[k])),
            r@.map_values(|s: String| s@) == folders.keys().take(i as int).filter_map(f),
        decreases n - i,
    {
        let (key, value) = folders.entry(i);
        let ghost prev = r@.map_values(|s: String| s@);
        proof {
            folders.keys().lemma_filter_map_take_succ(f, i as int);
        }
        assert(f(folders.keys()[i as int]) == gmod_library_path(value@));
        match value {
            VdfValue::Block(lib) => {
                let apps_v = lib.get("apps");
                let path_v = lib.get("path");
                match (apps_v, path_v) {
                    (Some(VdfValue::Block(apps)), Some(VdfValue::String(path))) => {
                        if apps.contains_key("4000") {
                            r.push(path.clone());
                            assert(r@.map_values(|s: String| s@) =~= prev + seq![path@]);
                        } else {
                            assert(gmod_library_path(value@) is None);
                        }
                    },
                    _ => {
                        assert(gmod_library_path(value@) is None) by {
                            match apps_v {
                                Some(a) => {
                                    assert(a@ == lib@["apps"@]);
                                },
                                None => {},
                            }
                            match path_v {
                                Some(p) => {
                                    assert(p@ == lib@["path"@]);
                                },
                                None => {},
                            }
                        }
                    },
                }
            },
            VdfValue::String(_) => {},
        }
        i = i + 1;
    }
    assert(folders.keys().take(n as int) =~= folders.keys());
    let ghost rv = r@.map_values(|s: String| s@);
    assert forall|k: Seq<char>| #[trigger] folders.keys().contains(k) && holds_gmod(folders@[k]) implies rv.contains(
        folders@[k]->Table_0["path"@]->Text_0,
    ) by {
        let i = choose|i: int| 0 <= i < folders.keys().len() && folders.keys()[i] == k;
        let lib = folders@[k]->Table_0;
        lemma_gmod_library_qualifies(lib, lib["path"@]->Text_0);
        assert(f(folders.keys()[i]) == Some(lib["path"@]->Text_0));
        lemma_filter_map_has(folders.keys(), f, i);
    }
    proof {
        lemma_libraries_from_keys(folders@, folders.keys(), rv);
    }
    assert forall|i: int| #![trigger r@[i]] 0 <= i < r@.len() implies (exists|j: int|
        0 <= j < folders.keys().len() && holds_gmod_at(folders@[#[trigger] folders.keys()[j]], r@[i]@)) by {
        assert(rv[i] == r@[i]@);
        let j = choose|j: int| 0 <= j < folders.keys().len() && holds_gmod_at(folders@[#[trigger] folders.keys()[j]], rv[i]);
        assert(holds_gmod_at(folders@[folders.keys()[j]], r@[i]@));
    }
    r
}

} // verus!
