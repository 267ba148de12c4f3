//! The mount planner: from the staged modules to a per-partition plan.
use vstd::prelude::*;
use crate::bytes::{
    contains_bytes, copy_bytes, insert_sorted, join, join_path, push_bytes, strictly_sorted, views, SLASH,
};
use crate::defs::{target_partition_list, target_partitions, Config, Mode};

verus! {

/// What the staging area holds for one module, as read from disk.
pub struct StagedModule {
    pub id: Vec<u8>,
    pub mode: Mode,
    /// Whether `staging/<id>` exists.
    pub present: bool,
    /// Partitions `p` for which `staging/<id>/<p>` is a directory with at
    /// least one entry.
    pub filled: Vec<Vec<u8>>,
}

/// One OverlayFS union to lay over a partition root.
pub struct OverlayOperation {
    pub target: Vec<u8>,
    /// Layers from top to bottom: the first one takes precedence.
    pub lowerdirs: Vec<Vec<u8>>,
}

pub struct MountPlan {
    pub overlay_ops: Vec<OverlayOperation>,
    pub magic_module_paths: Vec<Vec<u8>>,
    pub overlay_module_ids: Vec<Vec<u8>>,
    pub magic_module_ids: Vec<Vec<u8>>,
}

/// Whether the module has content in partition `p`.
pub open spec fn fills(m: StagedModule, p: Seq<u8>) -> bool {
    views(m.filled@).contains(p)
}

/// Whether the module has content in one of `parts`.
pub open spec fn meaningful(m: StagedModule, parts: Seq<Seq<u8>>) -> bool {
    exists|k: int| 0 <= k < parts.len() && fills(m, #[trigger] parts[k])
}

/// An `auto` module whose staged content reaches the partition.
pub open spec fn layers_into(m: StagedModule, p: Seq<u8>) -> bool {
    m.present && m.mode == Mode::Auto && fills(m, p)
}

/// The layers of partition `p`, in the order the modules come.
pub open spec fn layers(ms: Seq<StagedModule>, root: Seq<u8>, p: Seq<u8>) -> Seq<Seq<u8>>
    decreases ms.len(),
{
    if ms.len() == 0 {
        seq![]
    } else {
        let rest = layers(ms.drop_last(), root, p);
        if layers_into(ms.last(), p) {
            rest.push(join(join(root, ms.last().id@), p))
        } else {
            rest
        }
    }
}

/// A present `magic` module has content in partition `p`: the partition is
/// forced to the magic pass.
pub open spec fn forced_part(ms: Seq<StagedModule>, p: Seq<u8>) -> bool {
    exists|i: int|
        0 <= i < ms.len() && (#[trigger] ms[i]).present && ms[i].mode == Mode::Magic && fills(
            ms[i],
            p,
        )
}

/// The overlay operations: one per partition with layers that no `magic`
/// module forces to the magic pass, in partition order.
pub open spec fn operations(ms: Seq<StagedModule>, root: Seq<u8>, parts: Seq<Seq<u8>>) -> Seq<
    (Seq<u8>, Seq<Seq<u8>>),
>
    decreases parts.len(),
{
    if parts.len() == 0 {
        seq![]
    } else {
        let rest = operations(ms, root, parts.drop_last());
        let l = layers(ms, root, parts.last());
        if l.len() > 0 && !forced_part(ms, parts.last()) {
            rest.push((seq![SLASH] + parts.last(), l))
        } else {
            rest
        }
    }
}

pub open spec fn op_views(ops: Seq<OverlayOperation>) -> Seq<(Seq<u8>, Seq<Seq<u8>>)> {
    ops.map_values(|o: OverlayOperation| (o.target@, views(o.lowerdirs@)))
}

/// A module of the magic pass: present, with content in a forced partition,
/// whatever its own mode.
pub open spec fn is_magic_module(ms: Seq<StagedModule>, m: StagedModule, parts: Seq<Seq<u8>>) -> bool {
    m.present && exists|k: int|
        0 <= k < parts.len() && fills(m, #[trigger] parts[k]) && forced_part(ms, parts[k])
}

/// An `auto` module with content in a partition that is not forced.
pub open spec fn is_overlay_module(ms: Seq<StagedModule>, m: StagedModule, parts: Seq<Seq<u8>>) -> bool {
    m.present && m.mode == Mode::Auto && exists|k: int|
        0 <= k < parts.len() && fills(m, #[trigger] parts[k]) && !forced_part(ms, parts[k])
}

/// Staging roots of the magic-pass modules among `s` (modules of `ms`), in
/// the order they come.
pub open spec fn magic_paths(
    ms: Seq<StagedModule>,
    s: Seq<StagedModule>,
    root: Seq<u8>,
    parts: Seq<Seq<u8>>,
) -> Seq<Seq<u8>>
    decreases s.len(),
{
    if s.len() == 0 {
        seq![]
    } else {
        let rest = magic_paths(ms, s.drop_last(), root, parts);
        if is_magic_module(ms, s.last(), parts) {
            rest.push(join(root, s.last().id@))
        } else {
            rest
        }
    }
}

/// Ids of the modules of `s` (modules of `ms`) that go to the magic pass (or,
/// with `magic` false, that are overlay modules).
pub open spec fn id_set(ms: Seq<StagedModule>, s: Seq<StagedModule>, parts: Seq<Seq<u8>>, magic: bool) -> Set<
    Seq<u8>,
> {
    Set::new(
        |id: Seq<u8>|
            exists|i: int|
                0 <= i < s.len() && (#[trigger] s[i]).id@ == id && (if magic {
                    is_magic_module(ms, s[i], parts)
                } else {
                    is_overlay_module(ms, s[i], parts)
                }),
    )
}

/// Whether the module has content in one of the partitions.
pub fn has_meaningful_content(m: &StagedModule, partitions: &Vec<Vec<u8>>) -> (r: bool)
    ensures
        r == meaningful(*m, views(partitions@)),
{
    let ghost parts = views(partitions@);
    let mut k: usize = 0;
    while k < partitions.len()
        invariant
            k <= partitions@.len(),
            parts == views(partitions@),
            forall|j: int| 0 <= j < k ==> !fills(*m, #[trigger] parts[j]),
        decreases partitions.len() - k,
    {
        if contains_bytes(&m.filled, partitions[k].as_slice()) {
            proof {
                let i = choose|i: int| 0 <= i < m.filled@.len() && (#[trigger] m.filled@[i])@ == partitions@[k as int]@;
                assert(views(m.filled@)[i] == parts[k as int]);
            }
            return true;
        }
        proof {
            assert forall|i: int| 0 <= i < m.filled@.len() implies views(m.filled@)[i] != parts[k as int] by {
                assert(views(m.filled@)[i] == m.filled@[i]@);
            }
        }
        k = k + 1;
    }
    false
}

fn partition_layers(modules: &Vec<StagedModule>, storage_root: &Vec<u8>, part: &Vec<u8>) -> (r: Vec<
    Vec<u8>,
>)
    ensures
        views(r@) == layers(modules@, storage_root@, part@),
{
    let mut r: Vec<Vec<u8>> = Vec::new();
    let mut i: usize = 0;
    while i < modules.len()
        invariant
            i <= modules@.len(),
            views(r@) == layers(modules@.subrange(0, i as int), storage_root@, part@),
        decreases modules.len() - i,
    {
        let m = &modules[i];
        assert(modules@.subrange(0, i + 1).drop_last() =~= modules@.subrange(0, i as int));
        let filled = contains_bytes(&m.filled, part.as_slice());
        proof {
            if filled {
                let j = choose|j: int| 0 <= j < m.filled@.len() && (#[trigger] m.filled@[j])@ == part@;
                assert(views(m.filled@)[j] == part@);
            } else {
                assert forall|j: int| 0 <= j < m.filled@.len() implies views(m.filled@)[j] != part@ by {
                    assert(views(m.filled@)[j] == m.filled@[j]@);
                }
            }
        }
        if m.present && m.mode == Mode::Auto && filled {
            let base = join_path(storage_root.as_slice(), m.id.as_slice());
            let path = join_path(base.as_slice(), part.as_slice());
            r.push(path);
            assert(views(r@) =~= layers(modules@.subrange(0, i as int), storage_root@, part@).push(
                path@,
            ));
        }
        i = i + 1;
    }
    assert(modules@.subrange(0, i as int) =~= modules@);
    r
}

fn partition_forced(modules: &Vec<StagedModule>, part: &Vec<u8>) -> (r: bool)
    ensures
        r == forced_part(modules@, part@),
{
    let mut i: usize = 0;
    while i < modules.len()
        invariant
            i <= modules@.len(),
            forall|j: int|
                0 <= j < i ==> !((#[trigger] modules@[j]).present && modules@[j].mode == Mode::Magic
                    && fills(modules@[j], part@)),
        decreases modules.len() - i,
    {
        let m = &modules[i];
        if m.present && m.mode == Mode::Magic {
            let has = contains_bytes(&m.filled, part.as_slice());
            proof {
                if has {
                    let t = choose|t: int| 0 <= t < m.filled@.len() && (#[trigger] m.filled@[t])@ == part@;
                    assert(views(m.filled@)[t] == part@);
                } else {
                    assert forall|t: int| 0 <= t < m.filled@.len() implies views(m.filled@)[t] != part@ by {
                        assert(views(m.filled@)[t] == m.filled@[t]@);
                    }
                }
            }
            if has {
                return true;
            }
        }
        i = i + 1;
    }
    false
}

/// Whether the module has content in a partition whose forced flag is `want`.
fn fills_with_flag(
    modules: &Vec<StagedModule>,
    m: &StagedModule,
    parts: &Vec<Vec<u8>>,
    forced: &Vec<bool>,
    want: bool,
) -> (r: bool)
    requires
        forced@.len() == parts@.len(),
        forall|k: int| 0 <= k < parts@.len() ==> #[trigger] forced@[k] == forced_part(modules@, parts@[k]@),
    ensures
        r == exists|k: int|
            0 <= k < views(parts@).len() && fills(*m, #[trigger] views(parts@)[k]) && forced_part(
                modules@,
                views(parts@)[k],
            ) == want,
{
    let ghost ps = views(parts@);
    let mut k: usize = 0;
    while k < parts.len()
        invariant
            k <= parts@.len(),
            ps == views(parts@),
            forced@.len() == parts@.len(),
            forall|t: int| 0 <= t < parts@.len() ==> #[trigger] forced@[t] == forced_part(modules@, parts@[t]@),
            forall|j: int| 0 <= j < k ==> !(fills(*m, #[trigger] ps[j]) && forced_part(modules@, ps[j]) == want),
        decreases parts.len() - k,
    {
        assert(ps[k as int] == parts@[k as int]@);
        let has = contains_bytes(&m.filled, parts[k].as_slice());
        proof {
            if has {
                let t = choose|t: int| 0 <= t < m.filled@.len() && (#[trigger] m.filled@[t])@ == parts@[k as int]@;
                assert(views(m.filled@)[t] == ps[k as int]);
            } else {
                assert forall|t: int| 0 <= t < m.filled@.len() implies views(m.filled@)[t] != ps[k as int] by {
                    assert(views(m.filled@)[t] == m.filled@[t]@);
                }
            }
        }
        if has && forced[k] == want {
            return true;
        }
        k = k + 1;
    }
    false
}

/// Builds the mount plan from the staged modules, in the order given
/// (inventory order, ids descending, so the first layer is the highest).
///
/// Each partition with layers gets one operation; the magic modules' staging
/// roots go to the magic set; the two id lists are sorted and hold each id
/// once.
pub fn generate(config: &Config, modules: &Vec<StagedModule>, storage_root: &Vec<u8>) -> (r:
    MountPlan)
    ensures
        op_views(r.overlay_ops@) == operations(
            modules@,
            storage_root@,
            target_partitions(views(config.partitions@)),
        ),
        views(r.magic_module_paths@) == magic_paths(
            modules@,
            modules@,
            storage_root@,
            target_partitions(views(config.partitions@)),
        ),
        strictly_sorted(views(r.overlay_module_ids@)),
        views(r.overlay_module_ids@).to_set() == id_set(
            modules@,
            modules@,
            target_partitions(views(config.partitions@)),
            false,
        ),
        strictly_sorted(views(r.magic_module_ids@)),
        views(r.magic_module_ids@).to_set() == id_set(
            modules@,
            modules@,
            target_partitions(views(config.partitions@)),
            true,
        ),
{
    let parts = target_partition_list(&config.partitions);
    let ghost ps = views(parts@);
    let ghost ms = modules@;
    let ghost root = storage_root@;

    let mut forced: Vec<bool> = Vec::new();
    let mut f: usize = 0;
    while f < parts.len()
        invariant
            f <= parts@.len(),
            ms == modules@,
            forced@.len() == f,
            forall|k: int| 0 <= k < f ==> #[trigger] forced@[k] == forced_part(ms, parts@[k]@),
        decreases parts.len() - f,
    {
        let flag = partition_forced(modules, &parts[f]);
        forced.push(flag);
        f = f + 1;
    }

    let mut ops: Vec<OverlayOperation> = Vec::new();
    let mut k: usize = 0;
    while k < parts.len()
        invariant
            k <= parts@.len(),
            ps == views(parts@),
            ms == modules@,
            root == storage_root@,
            forced@.len() == parts@.len(),
            forall|t: int| 0 <= t < parts@.len() ==> #[trigger] forced@[t] == forced_part(ms, parts@[t]@),
            op_views(ops@) == operations(ms, root, ps.subrange(0, k as int)),
        decreases parts.len() - k,
    {
        let part = &parts[k];
        assert(ps.subrange(0, k + 1).drop_last() =~= ps.subrange(0, k as int));
        assert(ps.subrange(0, k + 1).last() == part@);
        let lowerdirs = partition_layers(modules, storage_root, part);
        assert(forced@[k as int] == forced_part(ms, part@));
        if lowerdirs.len() > 0 && !forced[k] {
            let mut target: Vec<u8> = Vec::new();
            target.push(SLASH);
            push_bytes(&mut target, part.as_slice());
            let op = OverlayOperation { target, lowerdirs };
            let ghost before = op_views(ops@);
            ops.push(op);
            assert(op_views(ops@) =~= before.push((seq![SLASH] + part@, views(op.lowerdirs@))));
        }
        k = k + 1;
    }
    assert(ps.subrange(0, k as int) =~= ps);

    let mut magic_module_paths: Vec<Vec<u8>> = Vec::new();
    let mut overlay_module_ids: Vec<Vec<u8>> = Vec::new();
    let mut magic_module_ids: Vec<Vec<u8>> = Vec::new();
    let mut i: usize = 0;
    while i < modules.len()
        invariant
            i <= ms.len(),
            ms == modules@,
            root == storage_root@,
            ps == views(parts@),
            forced@.len() == parts@.len(),
            forall|t: int| 0 <= t < parts@.len() ==> #[trigger] forced@[t] == forced_part(ms, parts@[t]@),
            views(magic_module_paths@) == magic_paths(ms, ms.subrange(0, i as int), root, ps),
            strictly_sorted(views(overlay_module_ids@)),
            strictly_sorted(views(magic_module_ids@)),
            views(overlay_module_ids@).to_set() == id_set(ms, ms.subrange(0, i as int), ps, false),
            views(magic_module_ids@).to_set() == id_set(ms, ms.subrange(0, i as int), ps, true),
        decreases modules.len() - i,
    {
        let m = &modules[i];
        let ghost pre = ms.subrange(0, i as int);
        let ghost cur = ms.subrange(0, i + 1);
        assert(cur.drop_last() =~= pre);
        let in_forced = fills_with_flag(modules, m, &parts, &forced, true);
        let in_free = fills_with_flag(modules, m, &parts, &forced, false);
        if m.present && in_forced {
            let path = join_path(storage_root.as_slice(), m.id.as_slice());
            magic_module_paths.push(path);
            assert(views(magic_module_paths@) =~= magic_paths(ms, pre, root, ps).push(path@));
            insert_sorted(&mut magic_module_ids, copy_bytes(m.id.as_slice()));
        }
        if m.present && m.mode == Mode::Auto && in_free {
            insert_sorted(&mut overlay_module_ids, copy_bytes(m.id.as_slice()));
        }
        proof {
            assert forall|magic: bool| #[trigger] id_set(ms, cur, ps, magic) == (if magic
                && is_magic_module(ms, ms[i as int], ps) || !magic && is_overlay_module(ms, ms[i as int], ps) {
                id_set(ms, pre, ps, magic).insert(ms[i as int].id@)
            } else {
                id_set(ms, pre, ps, magic)
            }) by {
                assert forall|id: Seq<u8>| id_set(ms, cur, ps, magic).contains(id) <==> (if magic
                    && is_magic_module(ms, ms[i as int], ps) || !magic && is_overlay_module(ms, ms[i as int], ps) {
                    id_set(ms, pre, ps, magic).insert(ms[i as int].id@)
                } else {
                    id_set(ms, pre, ps, magic)
                }).contains(id) by {
                    if id_set(ms, cur, ps, magic).contains(id) {
                        let j = choose|j: int|
                            0 <= j < cur.len() && (#[trigger] cur[j]).id@ == id && (if magic {
                                is_magic_module(ms, cur[j], ps)
                            } else {
                                is_overlay_module(ms, cur[j], ps)
                            });
                        if j < i {
                            assert(pre[j] == cur[j]);
                        }
                    }
                    if id_set(ms, pre, ps, magic).contains(id) {
                        let j = choose|j: int|
                            0 <= j < pre.len() && (#[trigger] pre[j]).id@ == id && (if magic {
                                is_magic_module(ms, pre[j], ps)
                            } else {
                                is_overlay_module(ms, pre[j], ps)
                            });
                        assert(cur[j] == pre[j]);
                    }
                    assert(cur[i as int] == ms[i as int]);
                }
                assert(id_set(ms, cur, ps, magic) =~= (if magic && is_magic_module(ms, ms[i as int], ps)
                    || !magic && is_overlay_module(ms, ms[i as int], ps) {
                    id_set(ms, pre, ps, magic).insert(ms[i as int].id@)
                } else {
                    id_set(ms, pre, ps, magic)
                }));
            }
        }
        i = i + 1;
    }
    assert(ms.subrange(0, i as int) =~= ms);
    MountPlan { overlay_ops: ops, magic_module_paths, overlay_module_ids, magic_module_ids }
}

proof fn lemma_operation_targets(ms: Seq<StagedModule>, root: Seq<u8>, parts: Seq<Seq<u8>>, t: int)
    requires
        0 <= t < operations(ms, root, parts).len(),
    ensures
        exists|k: int|
            0 <= k < parts.len() && operations(ms, root, parts)[t].0 == seq![SLASH] + #[trigger] parts[k]
                && !forced_part(ms, parts[k]),
    decreases parts.len(),
{
    let rest = operations(ms, root, parts.drop_last());
    if t < rest.len() {
        lemma_operation_targets(ms, root, parts.drop_last(), t);
        let k = choose|k: int|
            0 <= k < parts.len() - 1 && rest[t].0 == seq![SLASH] + #[trigger] parts.drop_last()[k]
                && !forced_part(ms, parts.drop_last()[k]);
        assert(parts[k] == parts.drop_last()[k]);
    } else {
        assert(parts[parts.len() - 1] == parts.last());
    }
}

proof fn lemma_magic_paths_has(
    ms: Seq<StagedModule>,
    s: Seq<StagedModule>,
    root: Seq<u8>,
    parts: Seq<Seq<u8>>,
    i: int,
)
    requires
        0 <= i < s.len(),
        is_magic_module(ms, s[i], parts),
    ensures
        magic_paths(ms, s, root, parts).contains(join(root, s[i].id@)),
    decreases s.len(),
{
    if i < s.len() - 1 {
        assert(s.drop_last()[i] == s[i]);
        lemma_magic_paths_has(ms, s.drop_last(), root, parts, i);
        let rest = magic_paths(ms, s.drop_last(), root, parts);
        let k = choose|k: int| 0 <= k < rest.len() && rest[k] == join(root, s[i].id@);
        if is_magic_module(ms, s.last(), parts) {
            assert(magic_paths(ms, s, root, parts)[k] == join(root, s[i].id@));
        }
    } else {
        assert(magic_paths(ms, s, root, parts).last() == join(root, s[i].id@));
    }
}

/// Magic propagation in the plan: when a present `magic` module has content
/// in partition `p`, no overlay operation targets `/p`, and the staging root
/// of every present module with content in `p`, whatever its mode, is in the
/// magic set.
pub proof fn lemma_plan_magic_propagation(
    ms: Seq<StagedModule>,
    root: Seq<u8>,
    parts: Seq<Seq<u8>>,
    p: Seq<u8>,
)
    requires
        parts.contains(p),
        forced_part(ms, p),
    ensures
        forall|t: int|
            0 <= t < operations(ms, root, parts).len() ==> (#[trigger] operations(ms, root, parts)[t]).0
                != seq![SLASH] + p,
        forall|i: int|
            0 <= i < ms.len() && (#[trigger] ms[i]).present && fills(ms[i], p) ==> magic_paths(
                ms,
                ms,
                root,
                parts,
            ).contains(join(root, ms[i].id@)),
{
    let kp = choose|k: int| 0 <= k < parts.len() && parts[k] == p;
    assert forall|t: int| 0 <= t < operations(ms, root, parts).len() implies (#[trigger] operations(
        ms,
        root,
        parts,
    )[t]).0 != seq![SLASH] + p by {
        lemma_operation_targets(ms, root, parts, t);
        let k = choose|k: int|
            0 <= k < parts.len() && operations(ms, root, parts)[t].0 == seq![SLASH] + #[trigger] parts[k]
                && !forced_part(ms, parts[k]);
        if operations(ms, root, parts)[t].0 == seq![SLASH] + p {
            assert((seq![SLASH] + parts[k]).drop_first() =~= parts[k]);
            assert((seq![SLASH] + p).drop_first() =~= p);
        }
    }
    assert forall|i: int| 0 <= i < ms.len() && (#[trigger] ms[i]).present && fills(ms[i], p) implies magic_paths(
        ms,
        ms,
        root,
        parts,
    ).contains(join(root, ms[i].id@)) by {
        assert(fills(ms[i], parts[kp]) && forced_part(ms, parts[kp]));
        lemma_magic_paths_has(ms, ms, root, parts, i);
    }
}

} // verus!
