//! The sync engine's decisions: which staging entries are orphans, whether a
//! module must be copied again, and where SELinux labels are mirrored from.
use vstd::prelude::*;
use crate::bytes::{
    bytes_eq, contains_bytes, copy_bytes, has_prefix, join, join_path, starts_with, views, SLASH,
};
use crate::defs::{builtin_partition_list, builtin_partitions, is_reserved, reserved, Module};

verus! {

/// A top-level staging entry that is neither reserved nor an enabled
/// module's id.
pub open spec fn is_orphan(ids: Seq<Seq<u8>>, name: Seq<u8>) -> bool {
    !is_reserved(name) && !ids.contains(name)
}

/// The orphans among the entries, in order.
pub open spec fn orphans(ids: Seq<Seq<u8>>, entries: Seq<Seq<u8>>) -> Seq<Seq<u8>> {
    entries.filter(|e: Seq<u8>| is_orphan(ids, e))
}

/// The entries that stay.
pub open spec fn kept(ids: Seq<Seq<u8>>, entries: Seq<Seq<u8>>) -> Seq<Seq<u8>> {
    entries.filter(|e: Seq<u8>| !is_orphan(ids, e))
}

pub open spec fn module_ids(modules: Seq<Module>) -> Seq<Seq<u8>> {
    modules.map_values(|m: Module| m.id@)
}

/// The top-level staging entries to remove: every one that is neither
/// reserved nor the id of an enabled module.
pub fn prune_orphaned_modules(modules: &Vec<Module>, entries: &Vec<Vec<u8>>) -> (r: Vec<Vec<u8>>)
    ensures
        views(r@) == orphans(module_ids(modules@), views(entries@)),
{
    let mut ids: Vec<Vec<u8>> = Vec::new();
    let mut i: usize = 0;
    while i < modules.len()
        invariant
            i <= modules@.len(),
            views(ids@) == module_ids(modules@.subrange(0, i as int)),
        decreases modules.len() - i,
    {
        let id = copy_bytes(modules[i].id.as_slice());
        let ghost before = views(ids@);
        ids.push(id);
        assert(views(ids@) =~= before.push(id@));
        assert(module_ids(modules@.subrange(0, i + 1)) =~= module_ids(modules@.subrange(0, i as int)).push(modules@[i as int].id@));
        i = i + 1;
    }
    assert(modules@.subrange(0, i as int) =~= modules@);
    let ghost ms = module_ids(modules@);
    let ghost es = views(entries@);
    let mut r: Vec<Vec<u8>> = Vec::new();
    let mut j: usize = 0;
    while j < entries.len()
        invariant
            j <= entries@.len(),
            views(ids@) == ms,
            es == views(entries@),
            views(r@) == orphans(ms, es.subrange(0, j as int)),
        decreases entries.len() - j,
    {
        let name = &entries[j];
        assert(es.subrange(0, j + 1).drop_last() =~= es.subrange(0, j as int));
        assert(es.subrange(0, j + 1).last() == name@);
        let known = contains_bytes(&ids, name.as_slice());
        proof {
            reveal(Seq::filter);
            if known {
                let k = choose|k: int| 0 <= k < ids@.len() && (#[trigger] ids@[k])@ == name@;
                assert(ms[k] == name@);
            } else {
                assert forall|k: int| 0 <= k < ms.len() implies ms[k] != name@ by {
                    assert(ms[k] == ids@[k]@);
                }
            }
        }
        if !reserved(name.as_slice()) && !known {
            let e = copy_bytes(name.as_slice());
            let ghost before = views(r@);
            r.push(e);
            assert(views(r@) =~= before.push(e@));
        }
        j = j + 1;
    }
    assert(es.subrange(0, j as int) =~= es);
    r
}

/// Pruning is idempotent: once the orphans are removed, a second prune with
/// the same inventory finds nothing to remove.
pub proof fn lemma_prune_idempotent(ids: Seq<Seq<u8>>, entries: Seq<Seq<u8>>)
    ensures
        orphans(ids, kept(ids, entries)) == Seq::<Seq<u8>>::empty(),
    decreases entries.len(),
{
    reveal(Seq::filter);
    if entries.len() > 0 {
        lemma_prune_idempotent(ids, entries.drop_last());
        if !is_orphan(ids, entries.last()) {
            assert(kept(ids, entries) =~= kept(ids, entries.drop_last()).push(entries.last()));
            assert(kept(ids, entries).drop_last() =~= kept(ids, entries.drop_last()));
        }
    }
}

/// An entry that is not reserved and whose name is no enabled module's id is
/// pruned: a module that lost its place in the inventory leaves staging on
/// the next sync.
pub proof fn lemma_pruned_when_disabled(ids: Seq<Seq<u8>>, entries: Seq<Seq<u8>>, name: Seq<u8>)
    requires
        entries.contains(name),
        !is_reserved(name),
        !ids.contains(name),
    ensures
        orphans(ids, entries).contains(name),
{
}

/// Whether a module's staging copy must be replaced: the copy is missing,
/// either `module.prop` could not be read, or their bytes differ.
pub open spec fn must_sync(dst_exists: bool, src_prop: Option<Seq<u8>>, dst_prop: Option<Seq<u8>>) -> bool {
    match (src_prop, dst_prop) {
        (Some(s), Some(d)) => !dst_exists || s != d,
        _ => true,
    }
}

pub open spec fn prop_view(p: Option<Vec<u8>>) -> Option<Seq<u8>> {
    match p {
        Some(v) => Some(v@),
        None => None,
    }
}

/// `src_prop` and `dst_prop` are the bytes of the two `module.prop` files,
/// or `None` where the file is missing or could not be read.
pub fn should_sync(dst_exists: bool, src_prop: &Option<Vec<u8>>, dst_prop: &Option<Vec<u8>>) -> (r: bool)
    ensures
        r == must_sync(dst_exists, prop_view(*src_prop), prop_view(*dst_prop)),
{
    if !dst_exists {
        return true;
    }
    match (src_prop, dst_prop) {
        (Some(s), Some(d)) => !bytes_eq(s.as_slice(), d.as_slice()),
        _ => true,
    }
}

/// A module has content to sync: one of the built-in partitions is among
/// `with_files`, the partitions under its source that hold a file somewhere
/// below them.
pub open spec fn sync_content(with_files: Seq<Seq<u8>>) -> bool {
    exists|k: int| 0 <= k < builtin_partitions().len() && with_files.contains(#[trigger] builtin_partitions()[k])
}

pub fn has_sync_content(with_files: &Vec<Vec<u8>>) -> (r: bool)
    ensures
        r == sync_content(views(with_files@)),
{
    let parts = builtin_partition_list();
    let ghost bs = builtin_partitions();
    let ghost ws = views(with_files@);
    let mut k: usize = 0;
    while k < parts.len()
        invariant
            k <= parts@.len(),
            views(parts@) == bs,
            bs == builtin_partitions(),
            ws == views(with_files@),
            forall|j: int| 0 <= j < k ==> !ws.contains(#[trigger] bs[j]),
        decreases parts.len() - k,
    {
        assert(parts@[k as int]@ == bs[k as int]);
        let here = contains_bytes(with_files, parts[k].as_slice());
        proof {
            if here {
                let t = choose|t: int| 0 <= t < with_files@.len() && (#[trigger] with_files@[t])@ == parts@[k as int]@;
                assert(ws[t] == bs[k as int]);
            } else {
                assert forall|t: int| 0 <= t < ws.len() implies ws[t] != bs[k as int] by {
                    assert(ws[t] == with_files@[t]@);
                }
            }
        }
        if here {
            return true;
        }
        k = k + 1;
    }
    false
}

/// The real system path whose label a staging entry takes: the entry's path
/// below the module root, placed under `/`.
pub open spec fn system_path(module_root: Seq<u8>, current: Seq<u8>) -> Option<Seq<u8>> {
    if current == module_root {
        Some(seq![SLASH])
    } else if has_prefix(current, module_root.push(SLASH)) {
        Some(current.subrange(module_root.len() as int, current.len() as int))
    } else {
        None
    }
}

pub fn system_path_for(module_root: &[u8], current: &[u8]) -> (r: Option<Vec<u8>>)
    ensures
        prop_view(r) == system_path(module_root@, current@),
{
    if bytes_eq(current, module_root) {
        let mut r: Vec<u8> = Vec::new();
        r.push(SLASH);
        return Some(r);
    }
    let mut prefix = copy_bytes(module_root);
    prefix.push(SLASH);
    if starts_with(current, prefix.as_slice()) {
        let mut r: Vec<u8> = Vec::new();
        let mut i: usize = module_root.len();
        while i < current.len()
            invariant
                module_root@.len() <= i <= current@.len(),
                r@ == current@.subrange(module_root@.len() as int, i as int),
            decreases current.len() - i,
        {
            r.push(current[i]);
            assert(r@ =~= current@.subrange(module_root@.len() as int, i + 1));
            i = i + 1;
        }
        Some(r)
    } else {
        None
    }
}

/// The built-in partitions in `present`, in built-in order.
pub open spec fn repair_roots(module_root: Seq<u8>, present: Seq<Seq<u8>>) -> Seq<Seq<u8>> {
    builtin_partitions().filter(|p: Seq<u8>| present.contains(p)).map_values(
        |p: Seq<u8>| join(module_root, p),
    )
}

/// The partition roots under a freshly synced module whose labels are
/// repaired: `module_root/<p>` for each built-in partition `p` that is
/// present there.
pub fn repair_module_contexts(module_root: &[u8], present: &Vec<Vec<u8>>) -> (r: Vec<Vec<u8>>)
    ensures
        views(r@) == repair_roots(module_root@, views(present@)),
{
    let parts = builtin_partition_list();
    let ghost bs = builtin_partitions();
    let ghost ps = views(present@);
    let mut r: Vec<Vec<u8>> = Vec::new();
    let mut k: usize = 0;
    while k < parts.len()
        invariant
            k <= parts@.len(),
            views(parts@) == bs,
            bs == builtin_partitions(),
            ps == views(present@),
            views(r@) == bs.subrange(0, k as int).filter(|p: Seq<u8>| ps.contains(p)).map_values(
                |p: Seq<u8>| join(module_root@, p),
            ),
        decreases parts.len() - k,
    {
        let part = &parts[k];
        assert(part@ == bs[k as int]);
        assert(bs.subrange(0, k + 1).drop_last() =~= bs.subrange(0, k as int));
        let here = contains_bytes(present, part.as_slice());
        proof {
            reveal(Seq::filter);
            if here {
                let t = choose|t: int| 0 <= t < present@.len() && (#[trigger] present@[t])@ == part@;
                assert(ps[t] == part@);
            } else {
                assert forall|t: int| 0 <= t < ps.len() implies ps[t] != part@ by {
                    assert(ps[t] == present@[t]@);
                }
            }
        }
        if here {
            let root = join_path(module_root, part.as_slice());
            let ghost before = views(r@);
            r.push(root);
            assert(views(r@) =~= before.push(root@));
        }
        k = k + 1;
    }
    assert(bs.subrange(0, k as int) =~= bs);
    r
}

} // verus!
