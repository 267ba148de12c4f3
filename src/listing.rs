//! The module list: one record per listed module, read from its
//! `module.prop`, and the list ordered by name.
use vstd::prelude::*;
use vstd::multiset::Multiset;
use vstd::seq_lib::lemma_multiset_commutative;
use crate::bytes::{bytes_lt, copy_bytes, lemma_lex_irreflexive, lemma_lex_transitive, lex_lt};
use crate::defs::{bytes_of, Mode};
use crate::modules::{prop_value, read_prop};

verus! {

/// One entry of the module list.
pub struct ModuleInfo {
    pub id: Vec<u8>,
    pub name: Vec<u8>,
    pub version: Vec<u8>,
    pub author: Vec<u8>,
    pub description: Vec<u8>,
    pub mode: Mode,
}

/// A property of the descriptor, or `default` when it is missing (or when
/// there is no descriptor at all).
pub open spec fn prop_or(prop: Option<Seq<u8>>, key: Seq<u8>, default: Seq<u8>) -> Seq<u8> {
    match prop {
        Some(c) => match prop_value(c, key) {
            Some(v) => v,
            None => default,
        },
        None => default,
    }
}

pub open spec fn content_view(p: Option<Vec<u8>>) -> Option<Seq<u8>> {
    match p {
        Some(v) => Some(v@),
        None => None,
    }
}

fn prop_or_default(prop: &Option<Vec<u8>>, key: &str, default: &[u8]) -> (r: Vec<u8>)
    ensures
        r@ == prop_or(content_view(*prop), bytes_of(key), default@),
{
    match prop {
        Some(c) => match read_prop(c.as_slice(), key.as_bytes()) {
            Some(v) => v,
            None => copy_bytes(default),
        },
        None => copy_bytes(default),
    }
}

/// The record of a module: `name` falls back to the id, the other
/// properties to empty; `prop` is the descriptor's content, if it could be
/// read.
pub fn module_info(id: &[u8], prop: &Option<Vec<u8>>, mode: Mode) -> (r: ModuleInfo)
    ensures
        r.id@ == id@,
        r.name@ == prop_or(content_view(*prop), bytes_of("name"), id@),
        r.version@ == prop_or(content_view(*prop), bytes_of("version"), seq![]),
        r.author@ == prop_or(content_view(*prop), bytes_of("author"), seq![]),
        r.description@ == prop_or(content_view(*prop), bytes_of("description"), seq![]),
        r.mode == mode,
{
    let empty: Vec<u8> = Vec::new();
    ModuleInfo {
        id: copy_bytes(id),
        name: prop_or_default(prop, "name", id),
        version: prop_or_default(prop, "version", empty.as_slice()),
        author: prop_or_default(prop, "author", empty.as_slice()),
        description: prop_or_default(prop, "description", empty.as_slice()),
        mode,
    }
}

/// Ordered by name: no entry's name is below an earlier one's.
pub open spec fn sorted_by_name(s: Seq<ModuleInfo>) -> bool {
    forall|i: int, j: int| 0 <= i < j < s.len() ==> !lex_lt(#[trigger] s[j].name@, #[trigger] s[i].name@)
}

proof fn lemma_insert_multiset(s: Seq<ModuleInfo>, pos: int, x: ModuleInfo)
    requires
        0 <= pos <= s.len(),
    ensures
        s.insert(pos, x).to_multiset() == s.to_multiset().insert(x),
{
    let a = s.subrange(0, pos);
    let b = s.subrange(pos, s.len() as int);
    assert(s.insert(pos, x) =~= a.push(x) + b);
    assert(s =~= a + b);
    lemma_multiset_commutative(a.push(x), b);
    lemma_multiset_commutative(a, b);
    a.to_multiset_ensures();
}

/// The same records, ordered by name.
pub fn sort_by_name(infos: Vec<ModuleInfo>) -> (r: Vec<ModuleInfo>)
    ensures
        sorted_by_name(r@),
        r@.to_multiset() == infos@.to_multiset(),
{
    let ghost orig = infos@;
    let mut rest = infos;
    let mut r: Vec<ModuleInfo> = Vec::new();
    proof {
        r@.to_multiset_ensures();
        assert(r@.to_multiset() =~= Multiset::empty());
        assert(r@.to_multiset().add(orig.to_multiset()) =~= orig.to_multiset());
    }
    while rest.len() > 0
        invariant
            sorted_by_name(r@),
            r@.to_multiset().add(rest@.to_multiset()) == orig.to_multiset(),
        decreases rest.len(),
    {
        let ghost before_rest = rest@;
        let x = rest.remove(0);
        proof {
            assert(before_rest =~= seq![x] + rest@);
            lemma_multiset_commutative(seq![x], rest@);
            seq![x].to_multiset_ensures();
        }
        let mut pos: usize = 0;
        while pos < r.len() && !bytes_lt(x.name.as_slice(), r[pos].name.as_slice())
            invariant
                pos <= r@.len(),
                forall|k: int| 0 <= k < pos ==> !lex_lt(x.name@, #[trigger] r@[k].name@),
            decreases r.len() - pos,
        {
            pos = pos + 1;
        }
        let ghost s0 = r@;
        proof {
            lemma_insert_multiset(s0, pos as int, x);
        }
        r.insert(pos, x);
        proof {
            let s1 = r@;
            assert forall|i: int, j: int| 0 <= i < j < s1.len() implies !lex_lt(
                #[trigger] s1[j].name@,
                #[trigger] s1[i].name@,
            ) by {
                if j == pos {
                    assert(s1[i] == s0[i]);
                } else if i == pos {
                    assert(s1[j] == s0[j - 1]);
                    if lex_lt(s0[j - 1].name@, x.name@) {
                        lemma_lex_transitive(s0[j - 1].name@, x.name@, s0[pos as int].name@);
                        if j - 1 == pos {
                            lemma_lex_irreflexive(s0[pos as int].name@);
                        }
                    }
                } else if i > pos {
                    assert(s1[i] == s0[i - 1]);
                    assert(s1[j] == s0[j - 1]);
                } else if j > pos {
                    assert(s1[i] == s0[i]);
                    assert(s1[j] == s0[j - 1]);
                } else {
                    assert(s1[i] == s0[i]);
                    assert(s1[j] == s0[j]);
                }
            }
        }
    }
    proof {
        rest@.to_multiset_ensures();
        assert(rest@.to_multiset() =~= Multiset::empty());
        assert(r@.to_multiset().add(rest@.to_multiset()) =~= r@.to_multiset());
    }
    r
}

} // verus!
