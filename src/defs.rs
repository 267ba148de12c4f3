//! Fixed names: the built-in partitions, marker files, reserved ids and the
//! paths the engine works under.
use vstd::prelude::*;
use vstd::string::StringSliceAdditionalSpecFns;
use crate::bytes::{bytes_eq, contains_bytes, copy_bytes, views};

verus! {

/// Default content directory when no mount point has been recorded.
pub const FALLBACK_CONTENT_DIR: &'static str = "/data/adb/meta-hybrid/mnt/";

/// Directory of the engine's own configuration and logs.
pub const BASE_DIR: &'static str = "/data/adb/meta-hybrid/";

/// The daemon's log file.
pub const DAEMON_LOG_FILE: &'static str = "/data/adb/meta-hybrid/daemon.log";

/// Marker files: the presence of any of them disables a module.
pub const DISABLE_FILE_NAME: &'static str = "disable";
pub const REMOVE_FILE_NAME: &'static str = "remove";
pub const SKIP_MOUNT_FILE_NAME: &'static str = "skip_mount";

/// The descriptor file of a module.
pub const MODULE_PROP_NAME: &'static str = "module.prop";

/// Source label given to every overlay mount.
pub const OVERLAY_SOURCE: &'static str = "KSU";

/// Optional read-write directory for overlay upper and work dirs.
pub const SYSTEM_RW_DIR: &'static str = "/data/adb/meta-hybrid/rw";

/// Where the stealth kernel modules are installed.
pub const MODULE_LKM_DIR: &'static str = "/data/adb/modules/meta-hybrid/lkm/binaries";

/// The bytes of a text literal.
pub open spec fn bytes_of(s: &str) -> Seq<u8> {
    s.spec_bytes()
}

/// A byte copy of a constant name.
pub fn name_bytes(s: &str) -> (r: Vec<u8>)
    ensures
        r@ == bytes_of(s),
{
    copy_bytes(s.as_bytes())
}

/// The built-in partitions, in their fixed order.
pub open spec fn builtin_partitions() -> Seq<Seq<u8>> {
    seq![
        bytes_of("system"),
        bytes_of("vendor"),
        bytes_of("product"),
        bytes_of("system_ext"),
        bytes_of("odm"),
        bytes_of("oem"),
    ]
}

pub fn builtin_partition_list() -> (r: Vec<Vec<u8>>)
    ensures
        views(r@) == builtin_partitions(),
{
    let mut r: Vec<Vec<u8>> = Vec::new();
    r.push(name_bytes("system"));
    r.push(name_bytes("vendor"));
    r.push(name_bytes("product"));
    r.push(name_bytes("system_ext"));
    r.push(name_bytes("odm"));
    r.push(name_bytes("oem"));
    assert(views(r@) =~= builtin_partitions());
    r
}

/// A list with later repeats dropped, first occurrences kept in order.
pub open spec fn dedup(s: Seq<Seq<u8>>) -> Seq<Seq<u8>>
    decreases s.len(),
{
    if s.len() == 0 {
        s
    } else {
        let d = dedup(s.drop_last());
        if d.contains(s.last()) {
            d
        } else {
            d.push(s.last())
        }
    }
}

/// The partitions the engine considers: the built-in ones, then the
/// configured extras, each name once.
pub open spec fn target_partitions(extra: Seq<Seq<u8>>) -> Seq<Seq<u8>> {
    dedup(builtin_partitions() + extra)
}

/// Appends `name` unless an equal name is there already.
fn push_unique(r: &mut Vec<Vec<u8>>, name: &[u8])
    ensures
        views(final(r)@) == (if views(old(r)@).contains(name@) {
            views(old(r)@)
        } else {
            views(old(r)@).push(name@)
        }),
{
    if !contains_bytes(r, name) {
        proof {
            assert forall|k: int| 0 <= k < r@.len() implies views(r@)[k] != name@ by {
                assert(views(r@)[k] == r@[k]@);
            }
        }
        r.push(copy_bytes(name));
        assert(views(r@) =~= views(old(r)@).push(name@));
    } else {
        proof {
            let k = choose|k: int| 0 <= k < r@.len() && (#[trigger] r@[k])@ == name@;
            assert(views(r@)[k] == name@);
        }
    }
}

pub fn target_partition_list(extra: &Vec<Vec<u8>>) -> (r: Vec<Vec<u8>>)
    ensures
        views(r@) == target_partitions(views(extra@)),
{
    let builtin = builtin_partition_list();
    let ghost all = builtin_partitions() + views(extra@);
    let mut r: Vec<Vec<u8>> = Vec::new();
    let mut i: usize = 0;
    assert(builtin@.len() == views(builtin@).len());
    while i < builtin.len()
        invariant
            i <= builtin@.len(),
            builtin@.len() == 6,
            all == builtin_partitions() + views(extra@),
            views(builtin@) == builtin_partitions(),
            views(r@) == dedup(all.subrange(0, i as int)),
        decreases builtin.len() - i,
    {
        assert(builtin@[i as int]@ == all[i as int]);
        assert(all.subrange(0, i + 1).drop_last() =~= all.subrange(0, i as int));
        push_unique(&mut r, builtin[i].as_slice());
        i = i + 1;
    }
    let mut j: usize = 0;
    while j < extra.len()
        invariant
            i == builtin@.len(),
            builtin@.len() == 6,
            all == builtin_partitions() + views(extra@),
            j <= extra@.len(),
            views(builtin@) == builtin_partitions(),
            views(r@) == dedup(all.subrange(0, i + j)),
        decreases extra.len() - j,
    {
        assert(extra@[j as int]@ == all[i + j]);
        assert(all.subrange(0, i + j + 1).drop_last() =~= all.subrange(0, i + j));
        push_unique(&mut r, extra[j].as_slice());
        j = j + 1;
    }
    assert(all.subrange(0, i + j) =~= all);
    r
}

/// Ids that are never modules.
pub open spec fn is_reserved(id: Seq<u8>) -> bool {
    id == bytes_of("meta-hybrid") || id == bytes_of("lost+found")
}

pub fn reserved(id: &[u8]) -> (r: bool)
    ensures
        r == is_reserved(id@),
{
    bytes_eq(id, "meta-hybrid".as_bytes()) || bytes_eq(id, "lost+found".as_bytes())
}

/// How a module is mounted.
#[derive(PartialEq, Eq, Structural, Clone, Copy, Debug)]
pub enum Mode {
    Auto,
    Magic,
}

/// The mode a module is configured with: `magic` selects magic mount,
/// anything else (or nothing) means `auto`.
pub open spec fn mode_named(name: Seq<u8>) -> Mode {
    if name == bytes_of("magic") {
        Mode::Magic
    } else {
        Mode::Auto
    }
}

pub fn mode_of(name: &[u8]) -> (r: Mode)
    ensures
        r == mode_named(name@),
{
    if bytes_eq(name, "magic".as_bytes()) {
        Mode::Magic
    } else {
        Mode::Auto
    }
}

/// An enabled module of the inventory.
pub struct Module {
    /// Its directory name, unique among modules.
    pub id: Vec<u8>,
    /// Where its content comes from.
    pub source_path: Vec<u8>,
    pub mode: Mode,
}

/// User configuration that the planning steps read.
pub struct Config {
    /// Partitions to consider beyond the built-in ones.
    pub partitions: Vec<Vec<u8>>,
    /// Temporary directory for the magic-mount pass, if configured.
    pub tempdir: Option<Vec<u8>>,
    /// Source name handed to the magic-mount engine.
    pub mountsource: Vec<u8>,
}

} // verus!
