use vstd::prelude::*;
use crate::filename::RolloutKey;
use crate::filename::key_lt;
use crate::filename::filename_key;
use crate::filename::lemma_key_order;
use crate::filename::lemma_key_lt_trans;
use crate::cursor::cursor_key;
use crate::sort::EntryS;
use crate::sort::entries_strictly_desc;
use crate::walk::DayDir;
use crate::walk::SessionsDir;
use crate::walk::decoded;
use crate::walk::day_entries;
use crate::pager::ScanState;
use crate::pager::init_state;
use crate::pager::file_step;
use crate::pager::scan_day;
use crate::pager::scan_days;
use crate::pager::day_boundary;
use crate::pager::at_or_after_anchor;
use crate::pager::all_days;
use crate::pager::page_state;
use crate::session::anchor_of;

verus! {

/// Every key of `s` lies strictly below `a`.
pub open spec fn all_below(s: Seq<EntryS>, a: RolloutKey) -> bool {
    forall|i: int| 0 <= i < s.len() ==> key_lt((#[trigger] s[i]).key, a)
}

/// The anchored scan's bookkeeping: everything selected so far is below the
/// anchor, and once the anchor is passed so is everything still to come.
pub open spec fn anchored_inv(st: ScanState, rest: Seq<EntryS>, a: RolloutKey) -> bool {
    &&& all_below(st.items, a)
    &&& (st.anchor_passed ==> all_below(rest, a))
}

proof fn lemma_drop_middle_strict(x: Seq<EntryS>, e: EntryS, y: Seq<EntryS>)
    requires
        entries_strictly_desc(x + seq![e] + y),
    ensures
        entries_strictly_desc(x + y),
{
    let big = x + seq![e] + y;
    assert forall|i: int, j: int| 0 <= i < j < (x + y).len() implies key_lt(
        (x + y)[j].key,
        (x + y)[i].key,
    ) by {
        let i2 = if i < x.len() {
            i
        } else {
            i + 1
        };
        let j2 = if j < x.len() {
            j
        } else {
            j + 1
        };
        assert((x + y)[i] == big[i2]);
        assert((x + y)[j] == big[j2]);
    }
}

proof fn lemma_file_step_props(
    st: ScanState,
    e: EntryS,
    rest: Seq<EntryS>,
    n: nat,
    anchor: Option<RolloutKey>,
)
    requires
        entries_strictly_desc(st.items + seq![e] + rest),
        match anchor {
            Some(a) => anchored_inv(st, seq![e] + rest, a),
            None => true,
        },
    ensures
        entries_strictly_desc(file_step(st, e, n, anchor).items + rest),
        match anchor {
            Some(a) => anchored_inv(file_step(st, e, n, anchor), rest, a),
            None => true,
        },
{
    let st2 = file_step(st, e, n, anchor);
    let taken = !st.stopped && !(st.scanned + 1 >= crate::MAX_SCAN_FILES as int && st.items.len()
        >= n) && !(!st.anchor_passed && at_or_after_anchor(e.key, anchor)) && st.items.len() != n;
    if taken {
        assert(st2.items =~= st.items.push(e));
        assert(st2.items + rest =~= st.items + seq![e] + rest);
    } else {
        assert(st2.items == st.items);
        lemma_drop_middle_strict(st.items, e, rest);
    }
    match anchor {
        Some(a) => {
            assert forall|i: int| 0 <= i < rest.len() && st2.anchor_passed implies key_lt(
                (#[trigger] rest[i]).key,
                a,
            ) by {
                if st.anchor_passed {
                    assert((seq![e] + rest)[i + 1] == rest[i]);
                } else if st2.anchor_passed {
                    // the anchor was passed on this very file, so its key is
                    // strictly below the anchor, and everything after it is
                    // strictly below that key.
                    assert(!at_or_after_anchor(e.key, anchor));
                    assert(key_lt(e.key, a));
                    let big = st.items + seq![e] + rest;
                    assert(big[st.items.len() as int] == e);
                    assert(big[st.items.len() + 1 + i] == rest[i]);
                    assert(key_lt(rest[i].key, e.key));
                    lemma_key_lt_trans(rest[i].key, e.key, a);
                }
            }
            if taken {
                assert forall|i: int| 0 <= i < st2.items.len() implies key_lt(
                    (#[trigger] st2.items[i]).key,
                    a,
                ) by {
                    if i < st.items.len() {
                        assert(st2.items[i] == st.items[i]);
                    } else {
                        assert(st2.items[i] == e);
                        if st.anchor_passed {
                            assert((seq![e] + rest)[0] == e);
                        }
                    }
                }
            }
        },
        None => {},
    }
}

proof fn lemma_scan_day_props(
    st: ScanState,
    day: Seq<EntryS>,
    rest: Seq<EntryS>,
    n: nat,
    anchor: Option<RolloutKey>,
)
    requires
        entries_strictly_desc(st.items + day + rest),
        match anchor {
            Some(a) => anchored_inv(st, day + rest, a),
            None => true,
        },
    ensures
        entries_strictly_desc(scan_day(st, day, n, anchor).items + rest),
        match anchor {
            Some(a) => anchored_inv(scan_day(st, day, n, anchor), rest, a),
            None => true,
        },
    decreases day.len(),
{
    if day.len() == 0 {
        assert(st.items + day + rest =~= st.items + rest);
        match anchor {
            Some(a) => {
                assert(day + rest =~= rest);
            },
            None => {},
        }
    } else {
        assert(st.items + day + rest =~= st.items + seq![day[0]] + (day.drop_first() + rest));
        assert(day + rest =~= seq![day[0]] + (day.drop_first() + rest));
        lemma_file_step_props(st, day[0], day.drop_first() + rest, n, anchor);
        let st1 = file_step(st, day[0], n, anchor);
        assert(st1.items + (day.drop_first() + rest) =~= st1.items + day.drop_first() + rest);
        lemma_scan_day_props(st1, day.drop_first(), rest, n, anchor);
    }
}

proof fn lemma_scan_days_props(
    st: ScanState,
    days: Seq<Seq<EntryS>>,
    n: nat,
    anchor: Option<RolloutKey>,
)
    requires
        entries_strictly_desc(st.items + days.flatten()),
        match anchor {
            Some(a) => anchored_inv(st, days.flatten(), a),
            None => true,
        },
    ensures
        entries_strictly_desc(scan_days(st, days, n, anchor).items),
        match anchor {
            Some(a) => all_below(scan_days(st, days, n, anchor).items, a),
            None => true,
        },
    decreases days.len(),
{
    if days.len() == 0 {
        assert(st.items + days.flatten() =~= st.items);
    } else {
        assert(days.flatten() == days.first() + days.drop_first().flatten());
        let stb = day_boundary(st);
        assert(stb.items == st.items && stb.anchor_passed == st.anchor_passed);
        assert(st.items + days.flatten() =~= st.items + days[0] + days.drop_first().flatten());
        lemma_scan_day_props(stb, days[0], days.drop_first().flatten(), n, anchor);
        let st1 = scan_day(stb, days[0], n, anchor);
        lemma_scan_days_props(st1, days.drop_first(), n, anchor);
    }
}

/// Law: whenever the flattened walk order of the snapshot is strictly
/// descending by key — as it is when every file sits in the shard its
/// timestamp names and no two files share a key — the items of any page are
/// strictly descending by key, so a page holds no duplicate keys.
pub proof fn lemma_page_items_strictly_descending(
    root: Seq<char>,
    snap: SessionsDir,
    n: nat,
    anchor: Option<RolloutKey>,
)
    requires
        entries_strictly_desc(all_days(root, snap).flatten()),
    ensures
        entries_strictly_desc(page_state(root, snap, n, anchor).items),
{
    let st0 = init_state(anchor);
    assert(st0.items + all_days(root, snap).flatten() =~= all_days(root, snap).flatten());
    lemma_scan_days_props(st0, all_days(root, snap), n, anchor);
}

/// Law: every item of a page anchored at key `a` lies strictly below `a`;
/// the anchor item itself and everything newer is skipped.
pub proof fn lemma_anchored_page_below_anchor(
    root: Seq<char>,
    snap: SessionsDir,
    n: nat,
    a: RolloutKey,
)
    requires
        entries_strictly_desc(all_days(root, snap).flatten()),
    ensures
        all_below(page_state(root, snap, n, Some(a)).items, a),
{
    let st0 = init_state(Some(a));
    assert(st0.items + all_days(root, snap).flatten() =~= all_days(root, snap).flatten());
    lemma_scan_days_props(st0, all_days(root, snap), n, Some(a));
}

/// Law: a follow-up page anchored at the last key of an earlier page shares
/// no item with that page — a previously returned item is never returned
/// again.
pub proof fn lemma_pages_disjoint(
    root: Seq<char>,
    snap: SessionsDir,
    n1: nat,
    n2: nat,
    anchor1: Option<RolloutKey>,
)
    requires
        entries_strictly_desc(all_days(root, snap).flatten()),
        page_state(root, snap, n1, anchor1).items.len() > 0,
    ensures
        ({
            let page1 = page_state(root, snap, n1, anchor1).items;
            let page2 = page_state(root, snap, n2, Some(page1.last().key)).items;
            forall|i: int, j: int|
                0 <= i < page1.len() && 0 <= j < page2.len() ==> (#[trigger] page1[i]).key != (
                #[trigger] page2[j]).key
        }),
{
    let page1 = page_state(root, snap, n1, anchor1).items;
    let a = page1.last().key;
    lemma_page_items_strictly_descending(root, snap, n1, anchor1);
    lemma_anchored_page_below_anchor(root, snap, n2, a);
    let page2 = page_state(root, snap, n2, Some(a)).items;
    assert forall|i: int, j: int|
        0 <= i < page1.len() && 0 <= j < page2.len() implies (#[trigger] page1[i]).key != (
    #[trigger] page2[j]).key by {
        assert(key_lt(page2[j].key, a));
        if i < page1.len() - 1 {
            assert(key_lt(page1[page1.len() - 1].key, page1[i].key));
            lemma_key_lt_trans(page2[j].key, a, page1[i].key);
            lemma_key_order(page1[i].key, page2[j].key);
        } else {
            lemma_key_order(page1[i].key, page2[j].key);
        }
    }
}

/// Law: the page is a function of the snapshot, the page size and the anchor
/// alone; repeating an identical request with no intervening change yields
/// the identical items, diagnostics and cursor.
pub proof fn lemma_page_idempotent(
    root: Seq<char>,
    snap: SessionsDir,
    n: nat,
    anchor: Option<RolloutKey>,
    again: SessionsDir,
)
    requires
        again == snap,
    ensures
        page_state(root, again, n, anchor) == page_state(root, snap, n, anchor),
{
}

/// Law: a cursor token that fails to decode anchors nothing: the request
/// runs exactly as a request without any cursor, restarting from the newest
/// file.
pub proof fn lemma_malformed_cursor_restarts(
    root: Seq<char>,
    snap: SessionsDir,
    n: nat,
    tok: Seq<char>,
)
    requires
        cursor_key(tok) is None,
    ensures
        page_state(root, snap, n, anchor_of(Some(tok))) == page_state(root, snap, n, anchor_of(None)),
{
}

/// The entries of `s` that lie strictly below the anchor, in order; with no
/// anchor, all of them.
pub open spec fn below(s: Seq<EntryS>, anchor: Option<RolloutKey>) -> Seq<EntryS>
    decreases s.len(),
{
    if s.len() == 0 {
        Seq::empty()
    } else if !at_or_after_anchor(s[0].key, anchor) {
        seq![s[0]] + below(s.drop_first(), anchor)
    } else {
        below(s.drop_first(), anchor)
    }
}

/// The first `k` entries of `s`, or all of them when `s` is shorter.
pub open spec fn first_n(s: Seq<EntryS>, k: int) -> Seq<EntryS> {
    if s.len() <= k {
        s
    } else {
        s.take(k)
    }
}

proof fn lemma_below_concat(x: Seq<EntryS>, y: Seq<EntryS>, anchor: Option<RolloutKey>)
    ensures
        below(x + y, anchor) == below(x, anchor) + below(y, anchor),
    decreases x.len(),
{
    if x.len() == 0 {
        assert(x + y =~= y);
        assert(below(x, anchor) + below(y, anchor) =~= below(y, anchor));
    } else {
        assert((x + y)[0] == x[0]);
        assert((x + y).drop_first() =~= x.drop_first() + y);
        lemma_below_concat(x.drop_first(), y, anchor);
        if !at_or_after_anchor(x[0].key, anchor) {
            assert(seq![x[0]] + (below(x.drop_first(), anchor) + below(y, anchor)) =~= (seq![x[0]]
                + below(x.drop_first(), anchor)) + below(y, anchor));
        }
    }
}

proof fn lemma_first_n_cons(e: EntryS, b: Seq<EntryS>, k: int)
    requires
        k >= 0,
    ensures
        first_n(seq![e] + b, k + 1) == seq![e] + first_n(b, k),
{
    if b.len() <= k {
        assert(first_n(seq![e] + b, k + 1) =~= seq![e] + b);
    } else {
        assert((seq![e] + b).take(k + 1) =~= seq![e] + b.take(k));
    }
}

proof fn lemma_first_n_concat(a: Seq<EntryS>, b: Seq<EntryS>, k: int)
    requires
        k >= 0,
    ensures
        first_n(a + b, k) == first_n(a, k) + first_n(b, k - first_n(a, k).len()),
{
    if a.len() <= k {
        if a.len() + b.len() <= k {
            assert(first_n(a + b, k) =~= a + first_n(b, k - a.len()));
        } else {
            assert((a + b).take(k) =~= a + b.take(k - a.len()));
        }
    } else {
        assert((a + b).take(k) =~= a.take(k));
        assert(first_n(b, 0) =~= Seq::<EntryS>::empty());
        assert(first_n(a, k) + first_n(b, 0) =~= a.take(k));
    }
}

proof fn lemma_scan_day_chr(st: ScanState, day: Seq<EntryS>, n: nat, anchor: Option<RolloutKey>)
    requires
        st.stopped ==> st.items.len() == n,
        st.items.len() <= n,
        st.scanned + day.len() < crate::MAX_SCAN_FILES as int,
        entries_strictly_desc(day),
        match anchor {
            Some(a) => st.anchor_passed ==> all_below(day, a),
            None => true,
        },
    ensures
        ({
            let r = scan_day(st, day, n, anchor);
            &&& r.items == st.items + first_n(below(day, anchor), n - st.items.len())
            &&& (r.stopped ==> r.items.len() == n)
            &&& r.items.len() <= n
            &&& r.scanned <= st.scanned + day.len()
        }),
    decreases day.len(),
{
    if day.len() == 0 {
        assert(st.items + first_n(below(day, anchor), n - st.items.len()) =~= st.items);
    } else {
        let e = day[0];
        let tail = day.drop_first();
        let st1 = file_step(st, e, n, anchor);
        assert(forall|i: int| 0 <= i < tail.len() ==> tail[i] == day[i + 1]);
        assert(entries_strictly_desc(tail));
        assert(st.scanned + 1 < crate::MAX_SCAN_FILES as int);
        // once an entry below the anchor is reached, everything after it in
        // the strictly descending day is below the anchor as well
        match anchor {
            Some(a) => {
                if st1.anchor_passed {
                    assert forall|i: int| 0 <= i < tail.len() implies key_lt(
                        (#[trigger] tail[i]).key,
                        a,
                    ) by {
                        if st.anchor_passed {
                            assert(all_below(day, a));
                            assert(day[i + 1] == tail[i]);
                        } else {
                            assert(!st.stopped);
                            assert(!at_or_after_anchor(e.key, anchor));
                            assert(key_lt(e.key, a));
                            assert(key_lt(day[i + 1].key, day[0].key));
                            lemma_key_lt_trans(tail[i].key, e.key, a);
                        }
                    }
                }
            },
            None => {},
        }
        if st.stopped {
            assert(st1 == st);
            lemma_scan_day_chr(st1, tail, n, anchor);
            assert(st.items + first_n(below(tail, anchor), 0) =~= st.items);
            assert(st.items + first_n(below(day, anchor), 0) =~= st.items);
        } else if !st.anchor_passed && at_or_after_anchor(e.key, anchor) {
            // skipped: the entry is also absent from `below`
            assert(st1.items == st.items && !st1.anchor_passed && !st1.stopped);
            lemma_scan_day_chr(st1, tail, n, anchor);
            assert(below(day, anchor) == below(tail, anchor));
        } else if st.items.len() == n {
            assert(st1.items == st.items && st1.stopped);
            lemma_scan_day_chr(st1, tail, n, anchor);
            assert(st.items + first_n(below(tail, anchor), 0) =~= st.items);
            assert(st.items + first_n(below(day, anchor), 0) =~= st.items);
        } else {
            // included
            assert(!at_or_after_anchor(e.key, anchor));
            assert(st1.items == st.items.push(e) && st1.anchor_passed && !st1.stopped);
            lemma_scan_day_chr(st1, tail, n, anchor);
            assert(below(day, anchor) == seq![e] + below(tail, anchor));
            let k = n - st.items.len() - 1;
            lemma_first_n_cons(e, below(tail, anchor), k);
            assert(st.items.push(e) + first_n(below(tail, anchor), k) =~= st.items + (seq![e]
                + first_n(below(tail, anchor), k)));
        }
    }
}

proof fn lemma_scan_days_chr(
    st: ScanState,
    days: Seq<Seq<EntryS>>,
    n: nat,
    anchor: Option<RolloutKey>,
)
    requires
        st.stopped ==> st.items.len() == n,
        st.items.len() <= n,
        st.scanned + days.flatten().len() < crate::MAX_SCAN_FILES as int,
        entries_strictly_desc(st.items + days.flatten()),
        match anchor {
            Some(a) => anchored_inv(st, days.flatten(), a),
            None => true,
        },
    ensures
        ({
            let r = scan_days(st, days, n, anchor);
            &&& r.items == st.items + first_n(below(days.flatten(), anchor), n - st.items.len())
            &&& (r.stopped ==> r.items.len() == n)
            &&& r.items.len() <= n
            &&& r.scanned <= st.scanned + days.flatten().len()
        }),
    decreases days.len(),
{
    if days.len() == 0 {
        assert(st.items + first_n(below(days.flatten(), anchor), n - st.items.len()) =~= st.items);
    } else {
        let day = days[0];
        let rest = days.drop_first();
        let flat = days.flatten();
        assert(flat == day + rest.flatten());
        assert(st.scanned < crate::MAX_SCAN_FILES as int);
        let stb = day_boundary(st);
        assert(stb == st);
        assert(entries_strictly_desc(day)) by {
            assert forall|i: int, j: int| 0 <= i < j < day.len() implies key_lt(
                day[j].key,
                day[i].key,
            ) by {
                let big = st.items + flat;
                assert(big[st.items.len() + i] == day[i]);
                assert(big[st.items.len() + j] == day[j]);
            }
        }
        match anchor {
            Some(a) => {
                if st.anchor_passed {
                    assert forall|i: int| 0 <= i < day.len() implies key_lt(
                        (#[trigger] day[i]).key,
                        a,
                    ) by {
                        assert(flat[i] == day[i]);
                    }
                }
            },
            None => {},
        }
        lemma_scan_day_chr(st, day, n, anchor);
        assert(st.items + flat =~= st.items + day + rest.flatten());
        match anchor {
            Some(a) => {
                assert(day + rest.flatten() =~= flat);
            },
            None => {},
        }
        lemma_scan_day_props(st, day, rest.flatten(), n, anchor);
        let st1 = scan_day(st, day, n, anchor);
        lemma_scan_days_chr(st1, rest, n, anchor);
        lemma_below_concat(day, rest.flatten(), anchor);
        let bd = below(day, anchor);
        let br = below(rest.flatten(), anchor);
        lemma_first_n_concat(bd, br, n - st.items.len());
        assert(st1.items =~= st.items + first_n(bd, n - st.items.len()));
        assert(n - st1.items.len() == n - st.items.len() - first_n(bd, n - st.items.len()).len());
        assert(scan_days(st, days, n, anchor).items =~= st.items + (first_n(
            bd,
            n - st.items.len(),
        ) + first_n(br, n - st1.items.len())));
    }
}

/// Law: when the scan cap plays no part (fewer decodable files than the
/// cap), a page holds exactly the first `page_size` entries strictly below
/// the anchor, in walk order. Successive pages therefore chain with no gap
/// and no overlap: each page resumes at the entry right after its anchor.
pub proof fn lemma_page_characterization(
    root: Seq<char>,
    snap: SessionsDir,
    n: nat,
    anchor: Option<RolloutKey>,
)
    requires
        entries_strictly_desc(all_days(root, snap).flatten()),
        all_days(root, snap).flatten().len() < crate::MAX_SCAN_FILES as int,
    ensures
        page_state(root, snap, n, anchor).items == first_n(
            below(all_days(root, snap).flatten(), anchor),
            n as int,
        ),
{
    let st0 = init_state(anchor);
    let flat = all_days(root, snap).flatten();
    assert(st0.items + flat =~= flat);
    lemma_scan_days_chr(st0, all_days(root, snap), n, anchor);
    assert(st0.items + first_n(below(flat, anchor), n as int) =~= first_n(
        below(flat, anchor),
        n as int,
    ));
}

proof fn lemma_decoded_same_prefix(prefix: Seq<char>, fa: Seq<String>, fb: Seq<String>, i: int)
    requires
        i <= fa.len(),
        i <= fb.len(),
        forall|j: int| 0 <= j < i ==> fa[j] == fb[j],
    ensures
        decoded(prefix, fa, i) == decoded(prefix, fb, i),
    decreases i,
{
    if i > 0 {
        lemma_decoded_same_prefix(prefix, fa, fb, i - 1);
    }
}

proof fn lemma_below_element(s: Seq<EntryS>, anchor: Option<RolloutKey>, q: int)
    requires
        0 <= q < below(s, anchor).len(),
    ensures
        exists|i: int| 0 <= i < s.len() && s[i] == below(s, anchor)[q],
    decreases s.len(),
{
    if s.len() == 0 {
    } else {
        let tail = s.drop_first();
        if !at_or_after_anchor(s[0].key, anchor) {
            if q == 0 {
                assert(below(s, anchor)[0] == s[0]);
            } else {
                lemma_below_element(tail, anchor, q - 1);
                let i = choose|i: int| 0 <= i < tail.len() && tail[i] == below(tail, anchor)[q - 1];
                assert(s[i + 1] == below(s, anchor)[q]);
            }
        } else {
            lemma_below_element(tail, anchor, q);
            let i = choose|i: int| 0 <= i < tail.len() && tail[i] == below(tail, anchor)[q];
            assert(s[i + 1] == below(s, anchor)[q]);
        }
    }
}

proof fn lemma_below_all(s: Seq<EntryS>, anchor: Option<RolloutKey>)
    requires
        forall|i: int| 0 <= i < s.len() ==> !at_or_after_anchor((#[trigger] s[i]).key, anchor),
    ensures
        below(s, anchor) == s,
    decreases s.len(),
{
    if s.len() > 0 {
        let tail = s.drop_first();
        assert(forall|i: int| 0 <= i < tail.len() ==> tail[i] == s[i + 1]);
        lemma_below_all(tail, anchor);
        assert(seq![s[0]] + tail =~= s);
    }
}

proof fn lemma_below_anchor_skip(s: Seq<EntryS>, anchor: Option<RolloutKey>, p: int)
    requires
        entries_strictly_desc(s),
        0 <= p < below(s, anchor).len(),
    ensures
        below(s, Some(below(s, anchor)[p].key)) == below(s, anchor).skip(p + 1),
    decreases s.len(),
{
    let b = below(s, anchor);
    let e = s[0];
    let tail = s.drop_first();
    assert(forall|i: int| 0 <= i < tail.len() ==> tail[i] == s[i + 1]);
    assert(entries_strictly_desc(tail));
    assert(forall|i: int| 0 <= i < tail.len() ==> key_lt((#[trigger] tail[i]).key, e.key));
    if at_or_after_anchor(e.key, anchor) {
        // the head is dropped by both filters
        let a = b[p].key;
        lemma_below_element(tail, anchor, p);
        let i = choose|i: int| 0 <= i < tail.len() && tail[i] == below(tail, anchor)[p];
        assert(key_lt(a, e.key));
        lemma_key_order(e.key, a);
        assert(at_or_after_anchor(e.key, Some(a)));
        lemma_below_anchor_skip(tail, anchor, p);
    } else {
        assert(b =~= seq![e] + below(tail, anchor));
        if p == 0 {
            let a = e.key;
            lemma_key_order(e.key, a);
            assert(at_or_after_anchor(e.key, Some(a)));
            assert forall|i: int| 0 <= i < tail.len() implies !at_or_after_anchor(
                (#[trigger] tail[i]).key,
                Some(a),
            ) by {
                assert(key_lt(tail[i].key, e.key));
            }
            lemma_below_all(tail, Some(a));
            assert forall|i: int| 0 <= i < tail.len() implies !at_or_after_anchor(
                (#[trigger] tail[i]).key,
                anchor,
            ) by {
                match anchor {
                    Some(a0) => {
                        assert(key_lt(e.key, a0));
                        lemma_key_lt_trans(tail[i].key, e.key, a0);
                    },
                    None => {},
                }
            }
            lemma_below_all(tail, anchor);
            assert(below(s, Some(a)) == tail);
            assert(b.skip(1) =~= below(tail, anchor));
        } else {
            let a = b[p].key;
            assert(b[p] == below(tail, anchor)[p - 1]);
            lemma_below_element(tail, anchor, p - 1);
            let i = choose|i: int| 0 <= i < tail.len() && tail[i] == below(tail, anchor)[p - 1];
            assert(key_lt(a, e.key));
            lemma_key_order(e.key, a);
            assert(at_or_after_anchor(e.key, Some(a)));
            lemma_below_anchor_skip(tail, anchor, p - 1);
            assert(b.skip(p + 1) =~= below(tail, anchor).skip(p));
        }
    }
}

/// Law: when the scan cap plays no part, a follow-up request of size `n2`
/// anchored at the cursor of a full earlier page of size `n1` continues
/// exactly where that page stopped: the two pages laid end to end are one
/// page of size `n1 + n2` — no gap and no overlap.
pub proof fn lemma_cursor_continuation(
    root: Seq<char>,
    snap: SessionsDir,
    n1: nat,
    n2: nat,
    anchor: Option<RolloutKey>,
)
    requires
        entries_strictly_desc(all_days(root, snap).flatten()),
        all_days(root, snap).flatten().len() < crate::MAX_SCAN_FILES as int,
        page_state(root, snap, n1, anchor).items.len() == n1 as int,
        n1 > 0,
    ensures
        ({
            let page1 = page_state(root, snap, n1, anchor).items;
            let page2 = page_state(root, snap, n2, Some(page1.last().key)).items;
            page1 + page2 == page_state(root, snap, (n1 + n2) as nat, anchor).items
        }),
{
    let flat = all_days(root, snap).flatten();
    let b0 = below(flat, anchor);
    lemma_page_characterization(root, snap, n1, anchor);
    let page1 = page_state(root, snap, n1, anchor).items;
    assert(b0.len() >= n1);
    assert(page1 =~= b0.take(n1 as int));
    assert(page1.last() == b0[n1 as int - 1]);
    let a = page1.last().key;
    lemma_below_anchor_skip(flat, anchor, n1 as int - 1);
    assert(below(flat, Some(a)) == b0.skip(n1 as int));
    lemma_page_characterization(root, snap, n2, Some(a));
    lemma_page_characterization(root, snap, (n1 + n2) as nat, anchor);
    assert(b0.take(n1 as int) + b0.skip(n1 as int) =~= b0);
    lemma_first_n_concat(b0.take(n1 as int), b0.skip(n1 as int), (n1 + n2) as int);
    assert(first_n(b0.take(n1 as int), (n1 + n2) as int) == b0.take(n1 as int));
    assert(first_n(b0, (n1 + n2) as int) == b0.take(n1 as int) + first_n(
        b0.skip(n1 as int),
        n2 as int,
    ));
}

/// Law: one day's prepared entries are strictly descending by key whenever
/// no two of the day's files decode to the same key — the uniqueness the
/// writer enforces. The page-level ordering laws build on this order.
pub proof fn lemma_day_entries_strictly_descending(prefix: Seq<char>, d: DayDir)
    requires
        crate::sort::distinct_keys(
            decoded(crate::walk::day_path(prefix, d), d.files@, d.files@.len() as int),
        ),
    ensures
        entries_strictly_desc(day_entries(prefix, d)),
{
    crate::sort::lemma_sort_entries_strict(
        decoded(crate::walk::day_path(prefix, d), d.files@, d.files@.len() as int),
    );
}

/// Law: a file whose name does not match the rollout grammar is invisible: a
/// day listing with it decodes to exactly the entries of the listing without
/// it, so it never reaches a page and never counts as scanned.
pub proof fn lemma_nonmatching_file_invisible(prefix: Seq<char>, d1: DayDir, d2: DayDir, g: String)
    requires
        filename_key(g@) is None,
        d2.name@ == d1.name@,
        d2.files@ == d1.files@.push(g),
    ensures
        day_entries(prefix, d2) == day_entries(prefix, d1),
{
    let dp = crate::walk::day_path(prefix, d1);
    assert(crate::walk::day_path(prefix, d2) == dp);
    let len1 = d1.files@.len() as int;
    assert(d2.files@[len1] == g);
    assert(decoded(dp, d2.files@, len1 + 1) == decoded(dp, d2.files@, len1));
    lemma_decoded_same_prefix(dp, d2.files@, d1.files@, len1);
}

} // verus!
