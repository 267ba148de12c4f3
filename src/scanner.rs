//! The scanner: which directory entries are enabled modules, and the merge
//! of the metadata directory with the separate content directory.
use vstd::prelude::*;
use crate::bytes::{bytes_eq, copy_bytes, join, join_path, views};
use crate::defs::{is_reserved, reserved};

verus! {

/// What a directory entry of the metadata directory is, as read from disk.
pub struct EntryProbe {
    pub name: Vec<u8>,
    pub is_dir: bool,
    /// Whether `<entry>/disable` exists.
    pub disable: bool,
    /// Whether `<entry>/remove` exists.
    pub remove: bool,
    /// Whether `<entry>/skip_mount` exists.
    pub skip_mount: bool,
}

/// An entry is an enabled module: a directory, not reserved, without any
/// marker file.
pub open spec fn enabled(e: EntryProbe) -> bool {
    e.is_dir && !is_reserved(e.name@) && !e.disable && !e.remove && !e.skip_mount
}

/// The ids of the enabled modules, in the order of the entries.
pub open spec fn enabled_ids(es: Seq<EntryProbe>) -> Seq<Seq<u8>>
    decreases es.len(),
{
    if es.len() == 0 {
        seq![]
    } else {
        let rest = enabled_ids(es.drop_last());
        if enabled(es.last()) {
            rest.push(es.last().name@)
        } else {
            rest
        }
    }
}

pub fn is_enabled(entry: &EntryProbe) -> (r: bool)
    ensures
        r == enabled(*entry),
{
    entry.is_dir && !reserved(entry.name.as_slice()) && !entry.disable && !entry.remove
        && !entry.skip_mount
}

/// The enabled module ids among the metadata directory's entries.
pub fn scan_enabled_ids(entries: &Vec<EntryProbe>) -> (r: Vec<Vec<u8>>)
    ensures
        views(r@) == enabled_ids(entries@),
{
    let mut r: Vec<Vec<u8>> = Vec::new();
    let mut i: usize = 0;
    while i < entries.len()
        invariant
            i <= entries@.len(),
            views(r@) == enabled_ids(entries@.subrange(0, i as int)),
        decreases entries.len() - i,
    {
        assert(entries@.subrange(0, i + 1).drop_last() =~= entries@.subrange(0, i as int));
        let e = &entries[i];
        if is_enabled(e) {
            let id = copy_bytes(e.name.as_slice());
            let ghost before = views(r@);
            r.push(id);
            assert(views(r@) =~= before.push(id@));
        }
        i = i + 1;
    }
    assert(entries@.subrange(0, i as int) =~= entries@);
    r
}

proof fn lemma_enabled_ids_from(es: Seq<EntryProbe>, x: Seq<u8>)
    requires
        enabled_ids(es).contains(x),
    ensures
        exists|j: int| 0 <= j < es.len() && enabled(#[trigger] es[j]) && es[j].name@ == x,
    decreases es.len(),
{
    let rest = enabled_ids(es.drop_last());
    if rest.contains(x) {
        lemma_enabled_ids_from(es.drop_last(), x);
        let j = choose|j: int| 0 <= j < es.len() - 1 && enabled(#[trigger] es.drop_last()[j]) && es.drop_last()[j].name@ == x;
        assert(es[j] == es.drop_last()[j]);
    } else {
        let k = choose|k: int| 0 <= k < enabled_ids(es).len() && enabled_ids(es)[k] == x;
        if k < rest.len() {
            assert(rest[k] == x);
        }
        assert(enabled(es.last()));
        assert(es[es.len() - 1] == es.last());
    }
}

/// Marker exclusion: an entry with a `disable`, `remove` or `skip_mount`
/// marker (names in a directory being distinct) is not among the enabled ids.
pub proof fn lemma_marker_excludes(es: Seq<EntryProbe>, i: int)
    requires
        0 <= i < es.len(),
        es[i].disable || es[i].remove || es[i].skip_mount,
        forall|a: int, b: int| 0 <= a < b < es.len() ==> (#[trigger] es[a]).name@ != (#[trigger] es[b]).name@,
    ensures
        !enabled_ids(es).contains(es[i].name@),
{
    if enabled_ids(es).contains(es[i].name@) {
        lemma_enabled_ids_from(es, es[i].name@);
        let j = choose|j: int| 0 <= j < es.len() && enabled(#[trigger] es[j]) && es[j].name@ == es[i].name@;
        assert(j != i);
        if j < i {
            assert(es[j].name@ != es[i].name@);
        } else {
            assert(es[i].name@ != es[j].name@);
        }
    }
}

/// A module id with the directory its content is read from.
pub struct ModuleRoot {
    pub id: Vec<u8>,
    pub path: Vec<u8>,
}

pub open spec fn root_views(rs: Seq<ModuleRoot>) -> Seq<(Seq<u8>, Seq<u8>)> {
    rs.map_values(|r: ModuleRoot| (r.id@, r.path@))
}

/// The registered roots of the enabled ids: `(id, join(dir, id))` for each id
/// that is not reserved, in order.
pub open spec fn registered(ids: Seq<Seq<u8>>, dir: Seq<u8>) -> Seq<(Seq<u8>, Seq<u8>)>
    decreases ids.len(),
{
    if ids.len() == 0 {
        seq![]
    } else {
        let rest = registered(ids.drop_last(), dir);
        if is_reserved(ids.last()) {
            rest
        } else {
            rest.push((ids.last(), join(dir, ids.last())))
        }
    }
}

/// Adds the content-directory entries to the registered roots, each whose id
/// is neither reserved nor registered yet, in order: the first registration
/// wins.
pub open spec fn merged(regs: Seq<(Seq<u8>, Seq<u8>)>, extra: Seq<(Seq<u8>, Seq<u8>)>) -> Seq<
    (Seq<u8>, Seq<u8>),
>
    decreases extra.len(),
{
    if extra.len() == 0 {
        regs
    } else {
        let rest = merged(regs, extra.drop_last());
        if is_reserved(extra.last().0) || exists|k: int|
            0 <= k < rest.len() && (#[trigger] rest[k]).0 == extra.last().0 {
            rest
        } else {
            rest.push(extra.last())
        }
    }
}

/// The active modules: each enabled id of the metadata directory with its
/// root under `content_dir`, then each subdirectory of the separate content
/// directory (`mnt_dirs`, name and path) whose id is not registered yet.
/// Reserved ids are never modules, from either directory.
pub fn scan_active_modules(enabled: &Vec<Vec<u8>>, content_dir: &[u8], mnt_dirs: &Vec<ModuleRoot>) -> (r:
    Vec<ModuleRoot>)
    ensures
        root_views(r@) == merged(registered(views(enabled@), content_dir@), root_views(mnt_dirs@)),
{
    let ghost ids = views(enabled@);
    let ghost regs = registered(ids, content_dir@);
    let mut r: Vec<ModuleRoot> = Vec::new();
    let mut i: usize = 0;
    while i < enabled.len()
        invariant
            i <= enabled@.len(),
            ids == views(enabled@),
            root_views(r@) == registered(ids.subrange(0, i as int), content_dir@),
        decreases enabled.len() - i,
    {
        assert(ids.subrange(0, i + 1).drop_last() =~= ids.subrange(0, i as int));
        assert(ids.subrange(0, i + 1).last() == enabled@[i as int]@);
        if !reserved(enabled[i].as_slice()) {
            let id = copy_bytes(enabled[i].as_slice());
            let path = join_path(content_dir, enabled[i].as_slice());
            let ghost before = root_views(r@);
            r.push(ModuleRoot { id, path });
            assert(root_views(r@) =~= before.push((id@, path@)));
        }
        i = i + 1;
    }
    assert(ids.subrange(0, i as int) =~= ids);
    let ghost extra = root_views(mnt_dirs@);
    let mut j: usize = 0;
    while j < mnt_dirs.len()
        invariant
            j <= mnt_dirs@.len(),
            extra == root_views(mnt_dirs@),
            regs == registered(ids, content_dir@),
            root_views(r@) == merged(regs, extra.subrange(0, j as int)),
        decreases mnt_dirs.len() - j,
    {
        let cand = &mnt_dirs[j];
        assert(extra.subrange(0, j + 1).drop_last() =~= extra.subrange(0, j as int));
        assert(extra.subrange(0, j + 1).last() == (cand.id@, cand.path@));
        let ghost cur = root_views(r@);
        let mut found = reserved(cand.id.as_slice());
        let mut k: usize = 0;
        while k < r.len() && !found
            invariant
                k <= r@.len(),
                cur == root_views(r@),
                found ==> is_reserved(cand.id@) || exists|t: int|
                    0 <= t < cur.len() && (#[trigger] cur[t]).0 == cand.id@,
                !found ==> !is_reserved(cand.id@),
                !found ==> forall|t: int| 0 <= t < k ==> (#[trigger] cur[t]).0 != cand.id@,
            decreases r.len() - k + (if found { 0int } else { 1int }),
        {
            assert(cur[k as int] == (r@[k as int].id@, r@[k as int].path@));
            if bytes_eq(r[k].id.as_slice(), cand.id.as_slice()) {
                found = true;
            } else {
                k = k + 1;
            }
        }
        if !found {
            let id = copy_bytes(cand.id.as_slice());
            let path = copy_bytes(cand.path.as_slice());
            r.push(ModuleRoot { id, path });
            assert(root_views(r@) =~= cur.push((cand.id@, cand.path@)));
        }
        j = j + 1;
    }
    assert(extra.subrange(0, j as int) =~= extra);
    r
}

} // verus!
