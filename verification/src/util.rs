//! Discovery of ROS data files: the pure part.
//!
//! The directory walk itself is I/O and lives with the caller; this module
//! holds the logic that decides, from a walked file's path components and
//! from which of its ancestor directories hold a `package.xml` marker, which
//! files are message/service/action definitions and which package each
//! belongs to.

use vstd::prelude::*;
use vstd::string::StrSliceExecFns;

verus! {

/// Identifier for a ROS data file: the package it belongs to and its path,
/// as the sequence of path components the directory walk reported, root
/// first.
#[derive(Debug)]
pub struct RosFile {
    pub package_name: String,
    pub path: Vec<String>,
}

/// Mathematical model of a [`RosFile`].
pub ghost struct RosFileView {
    pub package_name: Seq<char>,
    pub path: Seq<Seq<char>>,
}

impl View for RosFile {
    type V = RosFileView;

    open spec fn view(&self) -> RosFileView {
        RosFileView { package_name: self.package_name@, path: self.path.deep_view() }
    }
}

/// One file reported by a directory walk: the components of its path, root
/// first, and for each ancestor directory — the prefix of the first `i + 1`
/// components — whether it holds the package marker file `package.xml`.
pub struct FileEntry {
    pub components: Vec<String>,
    pub has_pkg_marker: Vec<bool>,
}

/// Mathematical model of a [`FileEntry`].
pub ghost struct FileEntryView {
    pub components: Seq<Seq<char>>,
    pub has_pkg_marker: Seq<bool>,
}

impl View for FileEntry {
    type V = FileEntryView;

    open spec fn view(&self) -> FileEntryView {
        FileEntryView {
            components: self.components.deep_view(),
            has_pkg_marker: self.has_pkg_marker@,
        }
    }
}

/// True when `i` is the index of the nearest marked ancestor: the last true
/// flag in root-first order, the first one met when walking upward from the
/// file.
pub open spec fn is_nearest_marker_at(m: Seq<bool>, i: int) -> bool {
    &&& 0 <= i < m.len()
    &&& m[i]
    &&& forall|k: int| i < k < m.len() ==> !m[k]
}

/// True when some ancestor is marked at all.
pub open spec fn has_marker(m: Seq<bool>) -> bool {
    exists|i: int| is_nearest_marker_at(m, i)
}

/// The index of the nearest marked ancestor.
pub open spec fn nearest_marker(m: Seq<bool>) -> int
    recommends
        has_marker(m),
{
    choose|i: int| is_nearest_marker_at(m, i)
}

/// True when the characters of `s` end with those of `suffix`.
pub open spec fn ends_with_text(s: Seq<char>, suffix: Seq<char>) -> bool {
    s.len() >= suffix.len() && s.skip(s.len() - suffix.len()) == suffix
}

/// True when the walked file's own name — its last path component — ends
/// with `suffix`.
pub open spec fn entry_matches(e: FileEntryView, suffix: Seq<char>) -> bool {
    e.components.len() > 0 && ends_with_text(e.components.last(), suffix)
}

/// A well-formed walk entry: one marker flag per path component, and at
/// least one ancestor marked. A matched file without any marked ancestor
/// has no package, which the discovery treats as fatal.
pub open spec fn entry_wf(e: FileEntryView) -> bool {
    e.components.len() == e.has_pkg_marker.len() && has_marker(e.has_pkg_marker)
}

/// The [`RosFile`] a well-formed entry stands for: the file's path, named
/// after the nearest marked ancestor directory.
pub open spec fn ros_file_of(e: FileEntryView) -> RosFileView {
    RosFileView { package_name: e.components[nearest_marker(e.has_pkg_marker)], path: e.components }
}

/// The files a walk yields for one suffix: the entries whose name matches,
/// each paired with its package.
pub open spec fn found_files(es: Seq<FileEntryView>, suffix: Seq<char>) -> Seq<RosFileView> {
    es.filter(|e: FileEntryView| entry_matches(e, suffix)).map_values(
        |e: FileEntryView| ros_file_of(e),
    )
}

/// True when the characters of `s` end with those of `suffix`, decided by
/// comparing characters from the back.
fn text_ends_with(s: &String, suffix: &str) -> (r: bool)
    ensures
        r == ends_with_text(s@, suffix@),
{
    let n = s.as_str().unicode_len();
    let m = suffix.unicode_len();
    if m > n {
        return false;
    }
    let mut k: usize = 0;
    while k < m
        invariant
            m <= n,
            n == s@.len(),
            m == suffix@.len(),
            k <= m,
            forall|t: int| 0 <= t < k ==> s@[n - m + t] == suffix@[t],
        decreases m - k,
    {
        if s.as_str().get_char(n - m + k) != suffix.get_char(k) {
            proof {
                if ends_with_text(s@, suffix@) {
                    assert(s@.skip(n - m)[k as int] == s@[n - m + k]);
                }
            }
            return false;
        }
        k += 1;
    }
    proof {
        assert(s@.skip(n - m) =~= suffix@);
    }
    true
}

/// Determines the package a file belongs to. `components` holds the file
/// path's components, root first; `has_pkg_marker[i]` says whether the
/// ancestor directory made of the first `i + 1` components holds the
/// package marker file `package.xml`. Walking upward from the file, the
/// package is named after the first marked ancestor met: the nearest one.
pub fn find_package_from_path(components: &Vec<String>, has_pkg_marker: &Vec<bool>) -> (r: String)
    requires
        components@.len() == has_pkg_marker@.len(),
        has_marker(has_pkg_marker@),
    ensures
        r@ == components.deep_view()[nearest_marker(has_pkg_marker@)],
{
    let mut i: usize = has_pkg_marker.len();
    while i > 0
        invariant
            components@.len() == has_pkg_marker@.len(),
            has_marker(has_pkg_marker@),
            i <= has_pkg_marker@.len(),
            forall|k: int| i <= k < has_pkg_marker@.len() ==> !has_pkg_marker@[k],
        decreases i,
    {
        i = i - 1;
        if has_pkg_marker[i] {
            proof {
                assert(is_nearest_marker_at(has_pkg_marker@, i as int));
                let i0 = nearest_marker(has_pkg_marker@);
                assert(is_nearest_marker_at(has_pkg_marker@, i0));
                if i0 > i as int {
                    assert(!has_pkg_marker@[i0]);
                } else if i0 < i as int {
                    assert(!has_pkg_marker@[i as int]);
                }
            }
            return components[i].clone();
        }
    }
    proof {
        let i0 = nearest_marker(has_pkg_marker@);
        assert(is_nearest_marker_at(has_pkg_marker@, i0));
        assert(false);
    }
    vstd::pervasive::unreached()
}

/// An owned copy of a path's components.
fn clone_components(v: &Vec<String>) -> (r: Vec<String>)
    ensures
        r@ == v@,
{
    let mut r: Vec<String> = Vec::new();
    let mut i: usize = 0;
    while i < v.len()
        invariant
            i <= v@.len(),
            r@ == v@.take(i as int),
        decreases v@.len() - i,
    {
        r.push(v[i].clone());
        proof {
            assert(r@ =~= v@.take(i as int + 1));
        }
        i += 1;
    }
    proof {
        assert(v@.take(v@.len() as int) =~= v@);
    }
    r
}

/// Searches the walked entries for files whose name ends with `suffix`;
/// each match is returned together with the package it belongs to.
pub fn recursive_find_files(entries: &Vec<FileEntry>, suffix: &str) -> (r: Vec<RosFile>)
    requires
        forall|i: int|
            0 <= i < entries@.len() ==> (entry_matches(#[trigger] entries@[i]@, suffix@)
                ==> entry_wf(entries@[i]@)),
    ensures
        r@.map_values(|f: RosFile| f@) == found_files(
            entries@.map_values(|e: FileEntry| e@),
            suffix@,
        ),
{
    let mut out: Vec<RosFile> = Vec::new();
    let mut i: usize = 0;
    proof {
        reveal(Seq::filter);
        assert(entries@.take(0).map_values(|e: FileEntry| e@) =~= Seq::<FileEntryView>::empty());
        assert(out@.map_values(|f: RosFile| f@) =~= found_files(
            entries@.take(0).map_values(|e: FileEntry| e@),
            suffix@,
        ));
    }
    while i < entries.len()
        invariant
            i <= entries@.len(),
            forall|t: int|
                0 <= t < entries@.len() ==> (entry_matches(#[trigger] entries@[t]@, suffix@)
                    ==> entry_wf(entries@[t]@)),
            out@.map_values(|f: RosFile| f@) == found_files(
                entries@.take(i as int).map_values(|e: FileEntry| e@),
                suffix@,
            ),
        decreases entries@.len() - i,
    {
        let ghost pre = entries@.take(i as int).map_values(|e: FileEntry| e@);
        let ghost post = entries@.take(i as int + 1).map_values(|e: FileEntry| e@);
        let ghost ev = entries@[i as int]@;
        let ghost pred = |e: FileEntryView| entry_matches(e, suffix@);
        proof {
            reveal(Seq::filter);
            assert(post.drop_last() =~= pre);
            assert(post.last() == ev);
        }
        let e = &entries[i];
        let cn = e.components.len();
        let matched = cn > 0 && text_ends_with(&e.components[cn - 1], suffix);
        proof {
            if cn > 0 {
                assert(ev.components.last() == e.components@[cn - 1]@);
            }
            assert(matched == entry_matches(ev, suffix@));
        }
        if matched {
            let ghost out0 = out@;
            let pkg = find_package_from_path(&e.components, &e.has_pkg_marker);
            let path = clone_components(&e.components);
            out.push(RosFile { package_name: pkg, path });
            proof {
                assert(out@ == out0.push(out@.last()));
                assert(out@.last()@ == ros_file_of(ev));
                assert(post.filter(pred) =~= pre.filter(pred).push(ev));
                assert(out@.map_values(|f: RosFile| f@) =~= out0.map_values(
                    |f: RosFile| f@,
                ).push(out@.last()@));
                assert(found_files(post, suffix@) =~= found_files(pre, suffix@).push(
                    ros_file_of(ev),
                ));
                assert(out@.map_values(|f: RosFile| f@) =~= found_files(post, suffix@));
            }
        } else {
            proof {
                assert(post.filter(pred) =~= pre.filter(pred));
                assert(out@.map_values(|f: RosFile| f@) =~= found_files(post, suffix@));
            }
        }
        i += 1;
    }
    proof {
        assert(entries@.take(entries@.len() as int) =~= entries@);
    }
    out
}

/// Searches the walked entries for message definition files (`.msg`).
pub fn recursive_find_msg_files(entries: &Vec<FileEntry>) -> (r: Vec<RosFile>)
    requires
        forall|i: int|
            0 <= i < entries@.len() ==> (entry_matches(#[trigger] entries@[i]@, ".msg"@)
                ==> entry_wf(entries@[i]@)),
    ensures
        r@.map_values(|f: RosFile| f@) == found_files(
            entries@.map_values(|e: FileEntry| e@),
            ".msg"@,
        ),
{
    recursive_find_files(entries, ".msg")
}

/// Searches the walked entries for service definition files (`.srv`).
pub fn recursive_find_srv_files(entries: &Vec<FileEntry>) -> (r: Vec<RosFile>)
    requires
        forall|i: int|
            0 <= i < entries@.len() ==> (entry_matches(#[trigger] entries@[i]@, ".srv"@)
                ==> entry_wf(entries@[i]@)),
    ensures
        r@.map_values(|f: RosFile| f@) == found_files(
            entries@.map_values(|e: FileEntry| e@),
            ".srv"@,
        ),
{
    recursive_find_files(entries, ".srv")
}

/// Searches the walked entries for action definition files (`.action`).
pub fn recursive_find_action_files(entries: &Vec<FileEntry>) -> (r: Vec<RosFile>)
    requires
        forall|i: int|
            0 <= i < entries@.len() ==> (entry_matches(#[trigger] entries@[i]@, ".action"@)
                ==> entry_wf(entries@[i]@)),
    ensures
        r@.map_values(|f: RosFile| f@) == found_files(
            entries@.map_values(|e: FileEntry| e@),
            ".action"@,
        ),
{
    recursive_find_files(entries, ".action")
}

} // verus!
