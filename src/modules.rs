//! Module descriptors: the status line written into `module.prop`, the
//! marker rule that enables a module, and reading a `key=value` property.
use vstd::prelude::*;
use crate::bytes::{bytes_eq, has_prefix, push_bytes};
use crate::defs::bytes_of;

verus! {

/// The byte `\n`.
pub const NL: u8 = 0x0a;

/// The byte `0`.
pub const ZERO: u8 = 0x30;

/// `description=😋 运行中喵～ (` in UTF-8.
pub open spec fn head_text() -> Seq<u8> {
    seq![
        0x64u8, 0x65, 0x73, 0x63, 0x72, 0x69, 0x70, 0x74, 0x69, 0x6f, 0x6e, 0x3d, 0xf0, 0x9f, 0x98,
        0x8b, 0x20, 0xe8, 0xbf, 0x90, 0xe8, 0xa1, 0x8c, 0xe4, 0xb8, 0xad, 0xe5, 0x96, 0xb5, 0xef,
        0xbd, 0x9e, 0x20, 0x28,
    ]
}

/// `Tmpfs) 🐾` or `Ext4) 💿` in UTF-8.
pub open spec fn storage_text(tmpfs: bool) -> Seq<u8> {
    if tmpfs {
        seq![0x54u8, 0x6d, 0x70, 0x66, 0x73, 0x29, 0x20, 0xf0, 0x9f, 0x90, 0xbe]
    } else {
        seq![0x45u8, 0x78, 0x74, 0x34, 0x29, 0x20, 0xf0, 0x9f, 0x92, 0xbf]
    }
}

/// ` | Overlay: `.
pub open spec fn overlay_text() -> Seq<u8> {
    seq![0x20u8, 0x7c, 0x20, 0x4f, 0x76, 0x65, 0x72, 0x6c, 0x61, 0x79, 0x3a, 0x20]
}

/// ` | Magic: `.
pub open spec fn magic_text() -> Seq<u8> {
    seq![0x20u8, 0x7c, 0x20, 0x4d, 0x61, 0x67, 0x69, 0x63, 0x3a, 0x20]
}

/// ` | 肉垫: 开启 ✨` in UTF-8: the stealth suffix.
pub open spec fn nuke_text() -> Seq<u8> {
    seq![
        0x20u8, 0x7c, 0x20, 0xe8, 0x82, 0x89, 0xe5, 0x9e, 0xab, 0x3a, 0x20, 0xe5, 0xbc, 0x80, 0xe5,
        0x90, 0xaf, 0x20, 0xe2, 0x9c, 0xa8,
    ]
}

/// The decimal digits of `n`.
pub open spec fn decimal(n: nat) -> Seq<u8>
    decreases n,
{
    if n < 10 {
        seq![(ZERO + n) as u8]
    } else {
        decimal(n / 10).push((ZERO + n % 10) as u8)
    }
}

/// The status line that replaces a module's description.
pub open spec fn status_line(tmpfs: bool, nuke_active: bool, overlay_count: nat, magic_count: nat) -> Seq<u8> {
    head_text() + storage_text(tmpfs) + overlay_text() + decimal(overlay_count) + magic_text()
        + decimal(magic_count) + if nuke_active {
        nuke_text()
    } else {
        seq![]
    }
}

fn push_decimal(v: &mut Vec<u8>, n: usize)
    ensures
        final(v)@ == old(v)@ + decimal(n as nat),
    decreases n,
{
    if n >= 10 {
        push_decimal(v, n / 10);
    }
    v.push(ZERO + (n % 10) as u8);
    assert(final(v)@ =~= old(v)@ + decimal(n as nat));
}

/// The status line for the storage mode (`tmpfs` or anything else, read as
/// ext4), the stealth flag and the two mount counts.
pub fn description_line(storage_mode: &str, nuke_active: bool, overlay_count: usize, magic_count: usize) -> (r:
    Vec<u8>)
    ensures
        r@ == status_line(
            bytes_of(storage_mode) == bytes_of("tmpfs"),
            nuke_active,
            overlay_count as nat,
            magic_count as nat,
        ),
{
    let tmpfs = bytes_eq(storage_mode.as_bytes(), "tmpfs".as_bytes());
    let mut r: Vec<u8> = vec![
        0x64u8, 0x65, 0x73, 0x63, 0x72, 0x69, 0x70, 0x74, 0x69, 0x6f, 0x6e, 0x3d, 0xf0, 0x9f, 0x98,
        0x8b, 0x20, 0xe8, 0xbf, 0x90, 0xe8, 0xa1, 0x8c, 0xe4, 0xb8, 0xad, 0xe5, 0x96, 0xb5, 0xef,
        0xbd, 0x9e, 0x20, 0x28,
    ];
    let storage: Vec<u8> = if tmpfs {
        vec![0x54u8, 0x6d, 0x70, 0x66, 0x73, 0x29, 0x20, 0xf0, 0x9f, 0x90, 0xbe]
    } else {
        vec![0x45u8, 0x78, 0x74, 0x34, 0x29, 0x20, 0xf0, 0x9f, 0x92, 0xbf]
    };
    push_bytes(&mut r, storage.as_slice());
    let overlay: Vec<u8> = vec![0x20u8, 0x7c, 0x20, 0x4f, 0x76, 0x65, 0x72, 0x6c, 0x61, 0x79, 0x3a, 0x20];
    push_bytes(&mut r, overlay.as_slice());
    push_decimal(&mut r, overlay_count);
    let magic: Vec<u8> = vec![0x20u8, 0x7c, 0x20, 0x4d, 0x61, 0x67, 0x69, 0x63, 0x3a, 0x20];
    push_bytes(&mut r, magic.as_slice());
    push_decimal(&mut r, magic_count);
    if nuke_active {
        let nuke: Vec<u8> = vec![
            0x20u8, 0x7c, 0x20, 0xe8, 0x82, 0x89, 0xe5, 0x9e, 0xab, 0x3a, 0x20, 0xe5, 0xbc, 0x80,
            0xe5, 0x90, 0xaf, 0x20, 0xe2, 0x9c, 0xa8,
        ];
        push_bytes(&mut r, nuke.as_slice());
    }
    assert(r@ =~= status_line(tmpfs, nuke_active, overlay_count as nat, magic_count as nat));
    r
}

/// `description=`: the key of the line that is rewritten.
pub open spec fn desc_key() -> Seq<u8> {
    seq![0x64u8, 0x65, 0x73, 0x63, 0x72, 0x69, 0x70, 0x74, 0x69, 0x6f, 0x6e, 0x3d]
}

/// No byte of `s` is a line break.
pub open spec fn single_line(s: Seq<u8>) -> bool {
    forall|k: int| 0 <= k < s.len() ==> #[trigger] s[k] != NL
}

/// Position `i` starts a line of `c`.
pub open spec fn line_start(c: Seq<u8>, i: int) -> bool {
    i == 0 || c[i - 1] == NL
}

/// A `description=` line starts at `i`.
pub open spec fn desc_at(c: Seq<u8>, i: int) -> bool {
    0 <= i <= c.len() && line_start(c, i) && has_prefix(c.subrange(i, c.len() as int), desc_key())
}

/// The first `description=` line starts at `i`.
pub open spec fn first_desc(c: Seq<u8>, i: int) -> bool {
    desc_at(c, i) && forall|j: int| 0 <= j < i ==> !desc_at(c, j)
}

/// The end of the line that holds position `i`: its line break, or the end.
pub open spec fn line_end(c: Seq<u8>, i: int) -> int
    decreases c.len() - i,
{
    if i >= c.len() || i < 0 {
        c.len() as int
    } else if c[i] == NL {
        i
    } else {
        line_end(c, i + 1)
    }
}

/// `c` with its first `description=` line (up to, not including, the line
/// break) replaced by `line`; unchanged when it has none.
pub open spec fn rewritten(c: Seq<u8>, line: Seq<u8>) -> Seq<u8> {
    if exists|i: int| first_desc(c, i) {
        let i = choose|i: int| first_desc(c, i);
        c.subrange(0, i) + line + c.subrange(line_end(c, i), c.len() as int)
    } else {
        c
    }
}

proof fn lemma_line_end(c: Seq<u8>, i: int)
    requires
        0 <= i <= c.len(),
    ensures
        i <= line_end(c, i) <= c.len(),
        line_end(c, i) < c.len() ==> c[line_end(c, i)] == NL,
        forall|k: int| i <= k < line_end(c, i) ==> c[k] != NL,
    decreases c.len() - i,
{
    if i < c.len() && c[i] != NL {
        lemma_line_end(c, i + 1);
    }
}

proof fn lemma_line_end_at(c: Seq<u8>, i: int, e: int)
    requires
        0 <= i <= e <= c.len(),
        e < c.len() ==> c[e] == NL,
        forall|k: int| i <= k < e ==> c[k] != NL,
    ensures
        line_end(c, i) == e,
    decreases e - i,
{
    if i < e {
        lemma_line_end_at(c, i + 1, e);
    }
}

proof fn lemma_first_desc_unique(c: Seq<u8>, i: int)
    requires
        first_desc(c, i),
    ensures
        (choose|j: int| first_desc(c, j)) == i,
{
    let j = choose|j: int| first_desc(c, j);
    assert(first_desc(c, j));
    if j < i {
        assert(!desc_at(c, j));
    } else if j > i {
        assert(!desc_at(c, i));
    }
}

/// Whether `key` occurs in `c` at `i`.
fn prefix_at(c: &[u8], i: usize, key: &[u8]) -> (r: bool)
    requires
        i <= c@.len(),
    ensures
        r == has_prefix(c@.subrange(i as int, c@.len() as int), key@),
{
    if key.len() > c.len() - i {
        return false;
    }
    let mut k: usize = 0;
    while k < key.len()
        invariant
            k <= key@.len(),
            i <= c@.len(),
            c@.len() <= usize::MAX,
            key@.len() <= c@.len() - i,
            c@.subrange(i as int, i + k) =~= key@.subrange(0, k as int),
        decreases key.len() - k,
    {
        if c[i + k] != key[k] {
            assert(c@.subrange(i as int, c@.len() as int).subrange(0, key@.len() as int)[k as int]
                == c@[i + k]);
            return false;
        }
        assert(c@.subrange(i as int, i + k + 1) =~= c@.subrange(i as int, i + k).push(c@[i + k]));
        assert(key@.subrange(0, k + 1) =~= key@.subrange(0, k as int).push(key@[k as int]));
        k = k + 1;
    }
    assert(c@.subrange(i as int, c@.len() as int).subrange(0, key@.len() as int) =~= c@.subrange(
        i as int,
        i + k,
    ));
    assert(key@ =~= key@.subrange(0, k as int));
    true
}

/// Appends `c[from..to]` to `v`.
fn push_range(v: &mut Vec<u8>, c: &[u8], from: usize, to: usize)
    requires
        from <= to <= c@.len(),
    ensures
        final(v)@ == old(v)@ + c@.subrange(from as int, to as int),
{
    let mut k: usize = from;
    while k < to
        invariant
            from <= k <= to,
            to <= c@.len(),
            v@ == old(v)@ + c@.subrange(from as int, k as int),
        decreases to - k,
    {
        v.push(c[k]);
        assert(v@ =~= old(v)@ + c@.subrange(from as int, k + 1));
        k = k + 1;
    }
}

/// Replaces the first `description=` line of `content` by `line`; every
/// other byte stays as it is.
pub fn replace_description(content: &[u8], line: &[u8]) -> (r: Vec<u8>)
    ensures
        r@ == rewritten(content@, line@),
{
    let key: Vec<u8> = vec![0x64u8, 0x65, 0x73, 0x63, 0x72, 0x69, 0x70, 0x74, 0x69, 0x6f, 0x6e, 0x3d];
    let ghost c = content@;
    let mut i: usize = 0;
    while i < content.len()
        invariant
            i <= c.len(),
            c == content@,
            key@ == desc_key(),
            forall|j: int| 0 <= j < i ==> !desc_at(c, j),
        decreases content.len() - i,
    {
        if (i == 0 || content[i - 1] == NL) && prefix_at(content, i, key.as_slice()) {
            let mut e: usize = i;
            while e < content.len() && content[e] != NL
                invariant
                    i <= e <= c.len(),
                    c == content@,
                    forall|k: int| i <= k < e ==> c[k] != NL,
                decreases content.len() - e,
            {
                e = e + 1;
            }
            proof {
                assert(desc_at(c, i as int));
                assert(first_desc(c, i as int));
                lemma_line_end_at(c, i as int, e as int);
                lemma_first_desc_unique(c, i as int);
            }
            let mut r: Vec<u8> = Vec::new();
            push_range(&mut r, content, 0, i);
            push_bytes(&mut r, line);
            push_range(&mut r, content, e, content.len());
            assert(r@ =~= c.subrange(0, i as int) + line@ + c.subrange(e as int, c.len() as int));
            return r;
        }
        i = i + 1;
    }
    proof {
        if exists|j: int| first_desc(c, j) {
            let j = choose|j: int| first_desc(c, j);
            assert(!desc_at(c, c.len() as int));
        }
    }
    let mut r: Vec<u8> = Vec::new();
    push_bytes(&mut r, content);
    r
}

/// Rewrites the description line of a `module.prop` text to the status
/// line for the given storage mode, stealth flag and mount counts.
pub fn update_description(
    content: &[u8],
    storage_mode: &str,
    nuke_active: bool,
    overlay_count: usize,
    magic_count: usize,
) -> (r: Vec<u8>)
    ensures
        r@ == rewritten(
            content@,
            status_line(
                bytes_of(storage_mode) == bytes_of("tmpfs"),
                nuke_active,
                overlay_count as nat,
                magic_count as nat,
            ),
        ),
{
    let line = description_line(storage_mode, nuke_active, overlay_count, magic_count);
    replace_description(content, line.as_slice())
}

proof fn lemma_decimal_single_line(n: nat)
    ensures
        single_line(decimal(n)),
    decreases n,
{
    if n >= 10 {
        lemma_decimal_single_line(n / 10);
    }
}

/// The status line is one line and starts with `description=`.
pub proof fn lemma_status_line_shape(tmpfs: bool, nuke_active: bool, overlay_count: nat, magic_count: nat)
    ensures
        single_line(status_line(tmpfs, nuke_active, overlay_count, magic_count)),
        has_prefix(status_line(tmpfs, nuke_active, overlay_count, magic_count), desc_key()),
{
    lemma_decimal_single_line(overlay_count);
    lemma_decimal_single_line(magic_count);
    let s = status_line(tmpfs, nuke_active, overlay_count, magic_count);
    assert(single_line(head_text()));
    assert(single_line(storage_text(tmpfs)));
    assert(single_line(overlay_text()));
    assert(single_line(magic_text()));
    assert(single_line(nuke_text()));
    assert(s.subrange(0, 12) =~= desc_key());
}

/// Rewriting twice with the same line gives what rewriting once gave, when
/// the line is a single `description=` line.
pub proof fn lemma_rewrite_idempotent(c: Seq<u8>, line: Seq<u8>)
    requires
        single_line(line),
        has_prefix(line, desc_key()),
    ensures
        rewritten(rewritten(c, line), line) == rewritten(c, line),
{
    if exists|i: int| first_desc(c, i) {
        let i = choose|i: int| first_desc(c, i);
        lemma_line_end(c, i);
        let e = line_end(c, i);
        let r = rewritten(c, line);
        assert(r =~= c.subrange(0, i) + line + c.subrange(e, c.len() as int));
        let n = line.len() as int;
        assert(r.subrange(i, r.len() as int).subrange(0, 12) =~= line.subrange(0, 12));
        assert(desc_at(r, i));
        assert forall|j: int| 0 <= j < i implies !desc_at(r, j) by {
            if desc_at(r, j) {
                if j + 12 <= i {
                    assert(c.subrange(j, c.len() as int).subrange(0, 12) =~= r.subrange(
                        j,
                        r.len() as int,
                    ).subrange(0, 12));
                    assert(desc_at(c, j));
                } else {
                    assert(r[i - 1] == c[i - 1]);
                    assert(r.subrange(j, r.len() as int).subrange(0, 12)[i - 1 - j] == r[i - 1]);
                }
            }
        }
        assert(first_desc(r, i));
        lemma_first_desc_unique(r, i);
        assert forall|k: int| i <= k < i + n implies r[k] != NL by {
            assert(r[k] == line[k - i]);
        }
        if e < c.len() {
            assert(r[i + n] == c[e]);
        }
        lemma_line_end_at(r, i, i + n);
        assert(rewritten(r, line) =~= r.subrange(0, i) + line + r.subrange(i + n, r.len() as int));
        assert(r.subrange(0, i) =~= c.subrange(0, i));
        assert(r.subrange(i + n, r.len() as int) =~= c.subrange(e, c.len() as int));
    }
}

/// Writing the same status twice leaves the same bytes as writing it once.
pub proof fn lemma_update_idempotent(
    c: Seq<u8>,
    tmpfs: bool,
    nuke_active: bool,
    overlay_count: nat,
    magic_count: nat,
)
    ensures
        rewritten(rewritten(c, status_line(tmpfs, nuke_active, overlay_count, magic_count)), status_line(tmpfs, nuke_active, overlay_count, magic_count))
            == rewritten(c, status_line(tmpfs, nuke_active, overlay_count, magic_count)),
{
    lemma_status_line_shape(tmpfs, nuke_active, overlay_count, magic_count);
    lemma_rewrite_idempotent(c, status_line(tmpfs, nuke_active, overlay_count, magic_count));
}

/// The byte `=`.
pub const EQ: u8 = 0x3d;

/// The byte `\r`.
pub const CR: u8 = 0x0d;

/// A `key=` line starts at `i`.
pub open spec fn prop_at(c: Seq<u8>, i: int, key: Seq<u8>) -> bool {
    0 <= i <= c.len() && line_start(c, i) && has_prefix(c.subrange(i, c.len() as int), key.push(EQ))
}

/// The first `key=` line starts at `i`.
pub open spec fn first_prop(c: Seq<u8>, i: int, key: Seq<u8>) -> bool {
    prop_at(c, i, key) && forall|j: int| 0 <= j < i ==> !prop_at(c, j, key)
}

/// Where the value that starts at `start` ends: at its line break, before a
/// carriage return that precedes it.
pub open spec fn value_end(c: Seq<u8>, start: int) -> int {
    let e = line_end(c, start);
    if start < e < c.len() && c[e - 1] == CR {
        e - 1
    } else {
        e
    }
}

/// The value of the first `key=value` line of `c`, if any.
pub open spec fn prop_value(c: Seq<u8>, key: Seq<u8>) -> Option<Seq<u8>> {
    if exists|i: int| first_prop(c, i, key) {
        let i = choose|i: int| first_prop(c, i, key);
        let start = i + key.len() + 1;
        Some(c.subrange(start, value_end(c, start)))
    } else {
        None
    }
}

proof fn lemma_first_prop_unique(c: Seq<u8>, i: int, key: Seq<u8>)
    requires
        first_prop(c, i, key),
    ensures
        (choose|j: int| first_prop(c, j, key)) == i,
{
    let j = choose|j: int| first_prop(c, j, key);
    assert(first_prop(c, j, key));
    if j < i {
        assert(!prop_at(c, j, key));
    } else if j > i {
        assert(!prop_at(c, i, key));
    }
}

/// The value of the first `key=value` line of a `module.prop` text.
pub fn read_prop(content: &[u8], key: &[u8]) -> (r: Option<Vec<u8>>)
    ensures
        match r {
            Some(v) => prop_value(content@, key@) == Some(v@),
            None => prop_value(content@, key@).is_none(),
        },
{
    let mut pattern: Vec<u8> = Vec::new();
    push_bytes(&mut pattern, key);
    pattern.push(EQ);
    let ghost c = content@;
    let mut i: usize = 0;
    while i < content.len()
        invariant
            i <= c.len(),
            c == content@,
            pattern@ == key@.push(EQ),
            forall|j: int| 0 <= j < i ==> !prop_at(c, j, key@),
        decreases content.len() - i,
    {
        if (i == 0 || content[i - 1] == NL) && prefix_at(content, i, pattern.as_slice()) {
            proof {
                assert(prop_at(c, i as int, key@));
                assert(first_prop(c, i as int, key@));
                lemma_first_prop_unique(c, i as int, key@);
            }
            let start = i + key.len() + 1;
            let mut e: usize = start;
            while e < content.len() && content[e] != NL
                invariant
                    start <= e <= c.len(),
                    c == content@,
                    forall|k: int| start <= k < e ==> c[k] != NL,
                decreases content.len() - e,
            {
                e = e + 1;
            }
            proof {
                lemma_line_end_at(c, start as int, e as int);
            }
            if start < e && e < content.len() && content[e - 1] == CR {
                e = e - 1;
            }
            let mut v: Vec<u8> = Vec::new();
            push_range(&mut v, content, start, e);
            return Some(v);
        }
        i = i + 1;
    }
    proof {
        if exists|j: int| first_prop(c, j, key@) {
            let j = choose|j: int| first_prop(c, j, key@);
            assert(!prop_at(c, c.len() as int, key@));
        }
    }
    None
}

} // verus!
