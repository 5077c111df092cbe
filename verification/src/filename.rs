use vstd::prelude::*;
use vstd::string::StrSliceExecFns;
use crate::timestamp::Timestamp;
use crate::timestamp::ts_of;
use crate::ids::uuid_of;
use crate::ids::parse_uuid;

verus! {

/// Ordering and identity pair of a rollout file, decoded from its name.
/// Files are ordered timestamp descending, then id descending.
#[derive(Clone, Copy, PartialEq, Eq, Structural, Debug)]
pub struct RolloutKey {
    pub ts: Timestamp,
    pub id: u128,
}

/// Strict total order on rollout keys: timestamp first, id second.
pub open spec fn key_lt(a: RolloutKey, b: RolloutKey) -> bool {
    a.ts.lt(b.ts) || (a.ts == b.ts && a.id < b.id)
}

/// Executable form of `key_lt`.
pub fn key_is_lt(a: &RolloutKey, b: &RolloutKey) -> (r: bool)
    ensures
        r == key_lt(*a, *b),
{
    if a.ts.is_lt(&b.ts) {
        true
    } else if b.ts.is_lt(&a.ts) {
        false
    } else {
        proof {
            assert(a.ts == b.ts);
        }
        a.id < b.id
    }
}

/// `key_lt` is a strict total order: exactly one of `a < b`, `b < a`, `a == b`.
pub proof fn lemma_key_order(a: RolloutKey, b: RolloutKey)
    ensures
        key_lt(a, b) || key_lt(b, a) || a == b,
        !(key_lt(a, b) && key_lt(b, a)),
        key_lt(a, b) ==> a != b,
{
}

pub proof fn lemma_key_lt_trans(a: RolloutKey, b: RolloutKey, c: RolloutKey)
    requires
        key_lt(a, b),
        key_lt(b, c),
    ensures
        key_lt(a, c),
{
}

pub open spec fn rollout_prefix() -> Seq<char> {
    "rollout-"@
}

pub open spec fn jsonl_suffix() -> Seq<char> {
    ".jsonl"@
}

/// The name carries the fixed `rollout-` prefix and `.jsonl` suffix.
pub open spec fn framed(name: Seq<char>) -> bool {
    &&& name.len() >= 14
    &&& name.subrange(0, 8) == rollout_prefix()
    &&& name.subrange(name.len() - 6, name.len() as int) == jsonl_suffix()
}

/// The stripped core between prefix and suffix.
pub open spec fn name_core(name: Seq<char>) -> Seq<char> {
    name.subrange(8, name.len() - 6)
}

/// The key obtained by splitting the core at position `i`: the suffix must be
/// a textual uuid and the prefix a valid timestamp, else nothing.
pub open spec fn split_key(core: Seq<char>, i: int) -> Option<RolloutKey> {
    if 0 <= i < core.len() && core[i] == '-' {
        match (ts_of(core.subrange(0, i)), uuid_of(core.subrange(i + 1, core.len() as int))) {
            (Some(t), Some(u)) => Some(RolloutKey { ts: t, id: u }),
            _ => None,
        }
    } else {
        None
    }
}

/// Scan candidate split points from position `i` leftwards, accepting the
/// first (rightmost) split whose halves both decode.
pub open spec fn scan_core(core: Seq<char>, i: int) -> Option<RolloutKey>
    decreases i + 1,
{
    if i < 0 {
        None
    } else if split_key(core, i) is Some {
        split_key(core, i)
    } else {
        scan_core(core, i - 1)
    }
}

/// What a file name denotes under the rollout grammar
/// `rollout-<ts>-<id>.jsonl`: the key of the rightmost split whose suffix is
/// a textual uuid and whose prefix is a valid timestamp, or nothing when the
/// name does not match the grammar.
pub open spec fn filename_key(name: Seq<char>) -> Option<RolloutKey> {
    if framed(name) {
        scan_core(name_core(name), name_core(name).len() - 1)
    } else {
        None
    }
}

proof fn lemma_scan_core_valid(core: Seq<char>, i: int)
    ensures
        match scan_core(core, i) {
            Some(k) => k.ts.valid(),
            None => true,
        },
    decreases i + 1,
{
    if i >= 0 && scan_core(core, i) is Some && split_key(core, i) is None {
        lemma_scan_core_valid(core, i - 1);
    }
}

/// A key decoded from a file name always carries a calendar-valid timestamp.
pub proof fn lemma_filename_key_valid(name: Seq<char>)
    ensures
        match filename_key(name) {
            Some(k) => k.ts.valid(),
            None => true,
        },
{
    if framed(name) {
        lemma_scan_core_valid(name_core(name), name_core(name).len() - 1);
    }
}

/// Decode a rollout file name. Because the timestamp itself contains
/// hyphens, candidate split points are scanned from the right end of the
/// stripped core, and the first split with a valid uuid suffix and a valid
/// timestamp prefix wins. Any non-matching name yields `None`.
pub fn parse_timestamp_uuid_from_filename(name: &str) -> (r: Option<RolloutKey>)
    ensures
        r == filename_key(name@),
{
    proof {
        reveal_strlit("rollout-");
        reveal_strlit(".jsonl");
    }
    let n = name.unicode_len();
    if n < 14 {
        proof {
            assert(!framed(name@));
        }
        return None;
    }
    if name.get_char(0) != 'r' || name.get_char(1) != 'o' || name.get_char(2) != 'l'
        || name.get_char(3) != 'l' || name.get_char(4) != 'o' || name.get_char(5) != 'u'
        || name.get_char(6) != 't' || name.get_char(7) != '-' {
        proof {
            assert(name@.subrange(0, 8) != rollout_prefix()) by {
                if name@.subrange(0, 8) == rollout_prefix() {
                    assert(name@.subrange(0, 8)[0] == 'r');
                    assert(name@.subrange(0, 8)[1] == 'o');
                    assert(name@.subrange(0, 8)[2] == 'l');
                    assert(name@.subrange(0, 8)[3] == 'l');
                    assert(name@.subrange(0, 8)[4] == 'o');
                    assert(name@.subrange(0, 8)[5] == 'u');
                    assert(name@.subrange(0, 8)[6] == 't');
                    assert(name@.subrange(0, 8)[7] == '-');
                }
            }
        }
        return None;
    }
    if name.get_char(n - 6) != '.' || name.get_char(n - 5) != 'j' || name.get_char(n - 4) != 's'
        || name.get_char(n - 3) != 'o' || name.get_char(n - 2) != 'n' || name.get_char(n - 1)
        != 'l' {
        proof {
            let tail = name@.subrange(name@.len() - 6, name@.len() as int);
            assert(tail != jsonl_suffix()) by {
                if tail == jsonl_suffix() {
                    assert(tail[0] == '.');
                    assert(tail[1] == 'j');
                    assert(tail[2] == 's');
                    assert(tail[3] == 'o');
                    assert(tail[4] == 'n');
                    assert(tail[5] == 'l');
                }
            }
        }
        return None;
    }
    proof {
        assert(name@.subrange(0, 8) =~= rollout_prefix());
        assert(name@.subrange(name@.len() - 6, name@.len() as int) =~= jsonl_suffix());
        assert(framed(name@));
    }
    let ghost core = name_core(name@);
    let clen = n - 14;
    proof {
        assert(core.len() == clen);
    }
    let mut i = clen;
    while i > 0
        invariant
            i <= clen,
            n == name@.len(),
            14 <= n,
            clen == n - 14,
            framed(name@),
            core == name_core(name@),
            scan_core(core, clen as int - 1) == scan_core(core, i as int - 1),
        decreases i,
    {
        let j = i - 1;
        proof {
            assert(core[j as int] == name@[8 + j]);
        }
        if name.get_char(8 + j) == '-' {
            let uuid_part = name.substring_char(8 + j + 1, n - 6);
            proof {
                assert(uuid_part@ =~= core.subrange(j + 1, core.len() as int));
            }
            if let Some(u) = parse_uuid(uuid_part) {
                let ts_part = name.substring_char(8, 8 + j);
                proof {
                    assert(ts_part@ =~= core.subrange(0, j as int));
                }
                if let Some(t) = crate::timestamp::parse_timestamp(ts_part) {
                    let key = RolloutKey { ts: t, id: u };
                    proof {
                        assert(split_key(core, j as int) == Some(key));
                        assert(scan_core(core, j as int) == Some(key));
                    }
                    return Some(key);
                } else {
                    proof {
                        assert(split_key(core, j as int) is None);
                    }
                }
            } else {
                proof {
                    assert(split_key(core, j as int) is None);
                }
            }
        } else {
            proof {
                assert(split_key(core, j as int) is None);
            }
        }
        i = j;
    }
    proof {
        assert(scan_core(core, -1) is None);
    }
    None
}

} // verus!
