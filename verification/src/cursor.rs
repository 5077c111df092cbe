use vstd::prelude::*;
use vstd::string::StrSliceExecFns;
use vstd::string::StringExecFns;
use crate::timestamp::ts_of;
use crate::timestamp::ts_format;
use crate::timestamp::format_timestamp;
use crate::timestamp::lemma_ts_round_trip;
use crate::timestamp::lemma_ts_format_no_pipe;
use crate::ids::uuid_of;
use crate::ids::uuid_text;
use crate::ids::parse_uuid;
use crate::ids::format_uuid;
use crate::filename::RolloutKey;

verus! {

/// Position of the first `|` at or after `i`, if any.
pub open spec fn first_pipe(s: Seq<char>, i: int) -> Option<int>
    decreases s.len() - i,
{
    if i < 0 || i >= s.len() {
        None
    } else if s[i] == '|' {
        Some(i)
    } else {
        first_pipe(s, i + 1)
    }
}

proof fn lemma_first_pipe_at(s: Seq<char>, i: int, p: int)
    requires
        0 <= i <= p < s.len(),
        s[p] == '|',
        forall|j: int| i <= j < p ==> s[j] != '|',
    ensures
        first_pipe(s, i) == Some(p),
    decreases p - i,
{
    if i < p {
        lemma_first_pipe_at(s, i + 1, p);
    }
}

/// What a cursor token denotes: the token is split on its first `|`; the left
/// half must be a valid timestamp and the right half a textual uuid. Any
/// failure means "no anchor", so that pagination restarts from the newest
/// file instead of erroring.
pub open spec fn cursor_key(tok: Seq<char>) -> Option<RolloutKey> {
    match first_pipe(tok, 0) {
        None => None,
        Some(p) => match (ts_of(tok.subrange(0, p)), uuid_of(
            tok.subrange(p + 1, tok.len() as int),
        )) {
            (Some(t), Some(u)) => Some(RolloutKey { ts: t, id: u }),
            _ => None,
        },
    }
}

/// The rendering of a key as a cursor token, `<ts>|<id>` with the timestamp
/// in the same zero-padded format used by the filename grammar.
pub open spec fn cursor_text(k: RolloutKey) -> Seq<char> {
    ts_format(k.ts) + seq!['|'] + uuid_text(k.id)
}

/// Decode a continuation token. A malformed token (missing separator, bad
/// timestamp, bad uuid) yields `None` rather than an error.
pub fn parse_cursor(token: &str) -> (r: Option<RolloutKey>)
    ensures
        r == cursor_key(token@),
{
    let n = token.unicode_len();
    let mut i: usize = 0;
    while i < n
        invariant
            i <= n,
            n == token@.len(),
            first_pipe(token@, 0) == first_pipe(token@, i as int),
        decreases n - i,
    {
        if token.get_char(i) == '|' {
            proof {
                assert(first_pipe(token@, i as int) == Some(i as int));
            }
            let ts_part = token.substring_char(0, i);
            let id_part = token.substring_char(i + 1, n);
            proof {
                assert(ts_part@ =~= token@.subrange(0, i as int));
                assert(id_part@ =~= token@.subrange(i as int + 1, token@.len() as int));
            }
            let uuid = match parse_uuid(id_part) {
                Some(u) => u,
                None => { return None },
            };
            let ts = match crate::timestamp::parse_timestamp(ts_part) {
                Some(t) => t,
                None => { return None },
            };
            return Some(RolloutKey { ts, id: uuid });
        }
        i = i + 1;
    }
    proof {
        assert(first_pipe(token@, n as int) is None);
    }
    None
}

/// Encode a key as a continuation token. Decoding the returned token yields
/// the same key again: a page's cursor always resumes exactly after the item
/// it was built from.
pub fn format_cursor(k: &RolloutKey) -> (r: String)
    requires
        k.ts.valid(),
    ensures
        r@ == cursor_text(*k),
        cursor_key(r@) == Some(*k),
{
    proof {
        reveal_strlit("|");
    }
    let mut out = format_timestamp(&k.ts);
    out.append("|");
    let id_str = format_uuid(k.id);
    out.append(id_str.as_str());
    proof {
        assert(out@ =~= cursor_text(*k));
        let s = out@;
        assert(s[19] == '|');
        assert(forall|j: int| 0 <= j < 19 ==> s[j] != '|') by {
            assert forall|j: int| 0 <= j < 19 implies s[j] != '|' by {
                assert(s[j] == ts_format(k.ts)[j]);
                lemma_ts_format_no_pipe(k.ts, j);
            }
        }
        lemma_first_pipe_at(s, 0, 19);
        assert(s.subrange(0, 19) =~= ts_format(k.ts));
        lemma_ts_round_trip(k.ts);
        assert(s.subrange(20, s.len() as int) =~= id_str@);
    }
    out
}

} // verus!
