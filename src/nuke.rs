//! Choosing the stealth kernel module that matches the running kernel.
use vstd::prelude::*;
use crate::bytes::{has_prefix, push_bytes};

verus! {

/// The byte `.`.
pub const PERIOD: u8 = 0x2e;

/// `pat` occurs somewhere in `s`.
pub open spec fn occurs(s: Seq<u8>, pat: Seq<u8>) -> bool {
    exists|k: int| 0 <= k <= s.len() && #[trigger] has_prefix(s.subrange(k, s.len() as int), pat)
}

fn occurs_in(s: &[u8], pat: &[u8]) -> (r: bool)
    ensures
        r == occurs(s@, pat@),
{
    let n = s.len();
    let mut k: usize = 0;
    while k <= n
        invariant
            n == s@.len(),
            k <= s@.len() + 1,
            s@.len() <= usize::MAX,
            forall|j: int| 0 <= j < k ==> !has_prefix(#[trigger] s@.subrange(j, s@.len() as int), pat@),
        decreases n + 1 - k,
    {
        if pat.len() <= n - k {
            let mut t: usize = 0;
            while t < pat.len() && s[k + t] == pat[t]
                invariant
                    t <= pat@.len(),
                    k <= s@.len(),
                    n == s@.len(),
                    pat@.len() <= s@.len() - k,
                    s@.subrange(k as int, k + t) =~= pat@.subrange(0, t as int),
                decreases pat.len() - t,
            {
                assert(s@.subrange(k as int, k + t + 1) =~= s@.subrange(k as int, k + t).push(s@[k + t]));
                assert(pat@.subrange(0, t + 1) =~= pat@.subrange(0, t as int).push(pat@[t as int]));
                t = t + 1;
            }
            if t == pat.len() {
                assert(s@.subrange(k as int, s@.len() as int).subrange(0, pat@.len() as int) =~= s@.subrange(k as int, k + t));
                assert(pat@ =~= pat@.subrange(0, t as int));
                assert(has_prefix(s@.subrange(k as int, s@.len() as int), pat@));
                return true;
            }
            assert(s@.subrange(k as int, s@.len() as int).subrange(0, pat@.len() as int)[t as int] == s@[k + t]);
        }
        if k == n {
            assert(forall|j: int| 0 <= j <= s@.len() ==> !has_prefix(#[trigger] s@.subrange(j, s@.len() as int), pat@));
            return false;
        }
        k = k + 1;
    }
    false
}

/// The `major.minor` part of a kernel release: everything before its second
/// `.`; none when it has no `.` at all.
pub open spec fn short_release(uname: Seq<u8>) -> Option<Seq<u8>> {
    if exists|i: int| 0 <= i < uname.len() && uname[i] == PERIOD {
        let i = choose|i: int|
            0 <= i < uname.len() && uname[i] == PERIOD && forall|j: int|
                0 <= j < i ==> uname[j] != PERIOD;
        if exists|j: int| i < j < uname.len() && uname[j] == PERIOD {
            let j = choose|j: int|
                i < j < uname.len() && uname[j] == PERIOD && forall|t: int|
                    i < t < j ==> uname[t] != PERIOD;
            Some(uname.subrange(0, j))
        } else {
            Some(uname)
        }
    } else {
        None
    }
}

/// The first index at or after `from` where `s` holds a `.`, if any.
fn next_period(s: &[u8], from: usize) -> (r: Option<usize>)
    requires
        from <= s@.len(),
    ensures
        match r {
            Some(i) => from <= i < s@.len() && s@[i as int] == PERIOD && forall|t: int|
                from <= t < i ==> s@[t] != PERIOD,
            None => forall|t: int| from <= t < s@.len() ==> s@[t] != PERIOD,
        },
{
    let mut i = from;
    while i < s.len()
        invariant
            from <= i <= s@.len(),
            forall|t: int| from <= t < i ==> s@[t] != PERIOD,
        decreases s.len() - i,
    {
        if s[i] == PERIOD {
            return Some(i);
        }
        i = i + 1;
    }
    None
}

pub fn kernel_short(uname: &[u8]) -> (r: Option<Vec<u8>>)
    ensures
        match r {
            Some(v) => short_release(uname@) == Some(v@),
            None => short_release(uname@).is_none(),
        },
{
    let n = uname.len();
    match next_period(uname, 0) {
        None => None,
        Some(i) => {
            proof {
                let c = choose|c: int|
                    0 <= c < uname@.len() && uname@[c] == PERIOD && forall|j: int|
                        0 <= j < c ==> uname@[j] != PERIOD;
                assert(c == i) by {
                    if c < i {
                    } else if c > i {
                        assert(uname@[i as int] != PERIOD);
                    }
                }
            }
            let end = match next_period(uname, i + 1) {
                None => n,
                Some(j) => {
                    proof {
                        let c = choose|c: int|
                            i < c < uname@.len() && uname@[c] == PERIOD && forall|t: int|
                                i < t < c ==> uname@[t] != PERIOD;
                        assert(c == j) by {
                            if c < j {
                            } else if c > j {
                                assert(uname@[j as int] != PERIOD);
                            }
                        }
                    }
                    j
                },
            };
            let mut r: Vec<u8> = Vec::new();
            let mut k: usize = 0;
            while k < end
                invariant
                    k <= end <= uname@.len(),
                    r@ == uname@.subrange(0, k as int),
                decreases end - k,
            {
                r.push(uname[k]);
                assert(r@ =~= uname@.subrange(0, k + 1));
                k = k + 1;
            }
            assert(uname@.subrange(0, uname@.len() as int) =~= uname@);
            Some(r)
        },
    }
}

/// A file name built for this kernel and this Android version.
pub open spec fn exact_match(name: Seq<u8>, short: Seq<u8>, android: Seq<u8>) -> bool {
    occurs(name, short) && occurs(name, android)
}

/// `android` followed by the version.
pub open spec fn android_tag(ver: Seq<u8>) -> Seq<u8> {
    seq![0x61u8, 0x6e, 0x64, 0x72, 0x6f, 0x69, 0x64] + ver
}

/// The kernel module to load among the file `names`: the first built for this
/// kernel (`short`) and Android version, when the version is known and such a
/// file exists; else the first built for this kernel; none when no name
/// holds `short`.
pub fn select_module(names: &Vec<Vec<u8>>, short: &[u8], android_ver: &[u8]) -> (r: Option<usize>)
    ensures
        match r {
            Some(i) => i < names@.len() && if android_ver@.len() > 0 && exists|j: int|
                0 <= j < names@.len() && exact_match(
                    #[trigger] names@[j]@,
                    short@,
                    android_tag(android_ver@),
                ) {
                exact_match(names@[i as int]@, short@, android_tag(android_ver@)) && forall|j: int|
                    0 <= j < i ==> !exact_match(
                        #[trigger] names@[j]@,
                        short@,
                        android_tag(android_ver@),
                    )
            } else {
                occurs(names@[i as int]@, short@) && forall|j: int|
                    0 <= j < i ==> !occurs(#[trigger] names@[j]@, short@)
            },
            None => forall|j: int| 0 <= j < names@.len() ==> !occurs(#[trigger] names@[j]@, short@),
        },
{
    let mut tag: Vec<u8> = vec![0x61u8, 0x6e, 0x64, 0x72, 0x6f, 0x69, 0x64];
    push_bytes(&mut tag, android_ver);
    if android_ver.len() > 0 {
        let mut i: usize = 0;
        while i < names.len()
            invariant
                i <= names@.len(),
                android_ver@.len() > 0,
                tag@ == android_tag(android_ver@),
                forall|j: int| 0 <= j < i ==> !exact_match(#[trigger] names@[j]@, short@, tag@),
            decreases names.len() - i,
        {
            if occurs_in(names[i].as_slice(), short) && occurs_in(names[i].as_slice(), tag.as_slice()) {
                assert(exact_match(names@[i as int]@, short@, android_tag(android_ver@)));
                return Some(i);
            }
            i = i + 1;
        }
    }
    let mut i: usize = 0;
    while i < names.len()
        invariant
            i <= names@.len(),
            tag@ == android_tag(android_ver@),
            android_ver@.len() > 0 ==> forall|j: int|
                0 <= j < names@.len() ==> !exact_match(#[trigger] names@[j]@, short@, tag@),
            forall|j: int| 0 <= j < i ==> !occurs(#[trigger] names@[j]@, short@),
        decreases names.len() - i,
    {
        if occurs_in(names[i].as_slice(), short) {
            return Some(i);
        }
        i = i + 1;
    }
    None
}

} // verus!
