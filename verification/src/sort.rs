use vstd::prelude::*;
use crate::filename::RolloutKey;
use crate::filename::key_lt;
use crate::filename::key_is_lt;

verus! {

/// A numeric directory name: its parsed value and its position in the raw
/// listing, so that sorting picks a visiting order without moving the
/// listings themselves.
#[derive(Clone, Copy, PartialEq, Eq, Structural, Debug)]
pub struct DirRef {
    pub val: u32,
    pub idx: usize,
}

/// A rollout file selected while scanning: its ordering key and its full
/// path.
pub struct ScanFile {
    pub key: RolloutKey,
    pub path: String,
}

/// The mathematical content of a `ScanFile`.
#[verifier::ext_equal]
pub struct EntryS {
    pub key: RolloutKey,
    pub path: Seq<char>,
}

impl View for ScanFile {
    type V = EntryS;

    open spec fn view(&self) -> EntryS {
        EntryS { key: self.key, path: self.path@ }
    }
}

pub open spec fn views_of(s: Seq<ScanFile>) -> Seq<EntryS> {
    s.map_values(|f: ScanFile| f@)
}

/// Stable descending insertion: `x` goes after every element whose value is
/// at least `x.val`.
pub open spec fn insert_dir(s: Seq<DirRef>, x: DirRef) -> Seq<DirRef>
    decreases s.len(),
{
    if s.len() == 0 {
        seq![x]
    } else if s[0].val >= x.val {
        seq![s[0]] + insert_dir(s.drop_first(), x)
    } else {
        seq![x] + s
    }
}

/// Stable descending insertion sort by parsed value.
pub open spec fn sort_dirs(s: Seq<DirRef>) -> Seq<DirRef>
    decreases s.len(),
{
    if s.len() == 0 {
        Seq::empty()
    } else {
        insert_dir(sort_dirs(s.drop_last()), s.last())
    }
}

proof fn lemma_insert_dir_at(s: Seq<DirRef>, x: DirRef, j: int)
    requires
        0 <= j <= s.len(),
        forall|i: int| 0 <= i < j ==> s[i].val >= x.val,
        j < s.len() ==> s[j].val < x.val,
    ensures
        insert_dir(s, x) == s.subrange(0, j) + seq![x] + s.subrange(j, s.len() as int),
    decreases s.len(),
{
    if s.len() == 0 {
        assert(insert_dir(s, x) =~= s.subrange(0, j) + seq![x] + s.subrange(j, s.len() as int));
    } else if j == 0 {
        assert(insert_dir(s, x) =~= s.subrange(0, j) + seq![x] + s.subrange(j, s.len() as int));
    } else {
        lemma_insert_dir_at(s.drop_first(), x, j - 1);
        assert(insert_dir(s, x) =~= s.subrange(0, j) + seq![x] + s.subrange(j, s.len() as int));
    }
}

/// Descending insertion sort, executable, matching `sort_dirs` exactly.
pub fn sort_dirs_exec(v: Vec<DirRef>) -> (r: Vec<DirRef>)
    ensures
        r@ == sort_dirs(v@),
{
    let mut out: Vec<DirRef> = Vec::new();
    let mut k: usize = 0;
    while k < v.len()
        invariant
            k <= v.len(),
            out@ == sort_dirs(v@.take(k as int)),
        decreases v.len() - k,
    {
        let x = v[k];
        let mut j: usize = 0;
        while j < out.len() && out[j].val >= x.val
            invariant
                j <= out.len(),
                forall|i: int| 0 <= i < j ==> out@[i].val >= x.val,
            decreases out.len() - j,
        {
            j = j + 1;
        }
        let ghost prev = out@;
        out.insert(j, x);
        proof {
            lemma_insert_dir_at(prev, x, j as int);
            assert(out@ =~= prev.subrange(0, j as int) + seq![x] + prev.subrange(
                j as int,
                prev.len() as int,
            ));
            assert(v@.take(k as int + 1).drop_last() =~= v@.take(k as int));
            assert(v@.take(k as int + 1).last() == v@[k as int]);
        }
        k = k + 1;
    }
    proof {
        assert(v@.take(v@.len() as int) =~= v@);
    }
    out
}

/// Stable descending insertion by rollout key: `x` goes after every entry
/// whose key is not smaller.
pub open spec fn insert_entry(s: Seq<EntryS>, x: EntryS) -> Seq<EntryS>
    decreases s.len(),
{
    if s.len() == 0 {
        seq![x]
    } else if !key_lt(s[0].key, x.key) {
        seq![s[0]] + insert_entry(s.drop_first(), x)
    } else {
        seq![x] + s
    }
}

/// Stable descending insertion sort by rollout key (timestamp descending,
/// then id descending).
pub open spec fn sort_entries(s: Seq<EntryS>) -> Seq<EntryS>
    decreases s.len(),
{
    if s.len() == 0 {
        Seq::empty()
    } else {
        insert_entry(sort_entries(s.drop_last()), s.last())
    }
}

proof fn lemma_insert_entry_at(s: Seq<EntryS>, x: EntryS, j: int)
    requires
        0 <= j <= s.len(),
        forall|i: int| 0 <= i < j ==> !key_lt(s[i].key, x.key),
        j < s.len() ==> key_lt(s[j].key, x.key),
    ensures
        insert_entry(s, x) == s.subrange(0, j) + seq![x] + s.subrange(j, s.len() as int),
    decreases s.len(),
{
    if s.len() == 0 {
        assert(insert_entry(s, x) =~= s.subrange(0, j) + seq![x] + s.subrange(j, s.len() as int));
    } else if j == 0 {
        assert(insert_entry(s, x) =~= s.subrange(0, j) + seq![x] + s.subrange(j, s.len() as int));
    } else {
        lemma_insert_entry_at(s.drop_first(), x, j - 1);
        assert(insert_entry(s, x) =~= s.subrange(0, j) + seq![x] + s.subrange(j, s.len() as int));
    }
}

/// Descending insertion sort of scanned files, executable, matching
/// `sort_entries` on the views exactly.
pub fn sort_files_desc(v: Vec<ScanFile>) -> (r: Vec<ScanFile>)
    ensures
        views_of(r@) == sort_entries(views_of(v@)),
{
    let mut out: Vec<ScanFile> = Vec::new();
    let mut k: usize = 0;
    while k < v.len()
        invariant
            k <= v.len(),
            views_of(out@) == sort_entries(views_of(v@.take(k as int))),
        decreases v.len() - k,
    {
        let mut j: usize = 0;
        while j < out.len() && !key_is_lt(&out[j].key, &v[k].key)
            invariant
                k < v.len(),
                j <= out.len(),
                forall|i: int| 0 <= i < j ==> !key_lt(views_of(out@)[i].key, v@[k as int]@.key),
            decreases out.len() - j,
        {
            proof {
                assert(views_of(out@)[j as int].key == out@[j as int].key);
            }
            j = j + 1;
        }
        let ghost prev = views_of(out@);
        proof {
            assert(j < out.len() ==> key_lt(prev[j as int].key, v@[k as int]@.key)) by {
                if j < out.len() {
                    assert(views_of(out@)[j as int].key == out@[j as int].key);
                }
            }
        }
        let x = ScanFile { key: v[k].key, path: clone_string(&v[k].path) };
        proof {
            assert(x@ == v@[k as int]@);
        }
        out.insert(j, x);
        proof {
            lemma_insert_entry_at(prev, v@[k as int]@, j as int);
            assert(views_of(out@) =~~= prev.subrange(0, j as int) + seq![v@[k as int]@]
                + prev.subrange(j as int, prev.len() as int));
            assert(views_of(v@.take(k as int + 1)).drop_last() =~~= views_of(v@.take(k as int)));
            assert(views_of(v@.take(k as int + 1)).last() == v@[k as int]@);
            assert(views_of(out@) == sort_entries(views_of(v@.take(k as int + 1))));
        }
        k = k + 1;
    }
    proof {
        assert(v@.take(v@.len() as int) =~= v@);
    }
    out
}

/// Clone a string by value; the copy has the same characters.
pub fn clone_string(s: &String) -> (r: String)
    ensures
        r@ == s@,
{
    s.clone()
}

/// Strict descending order by key.
pub open spec fn entries_strictly_desc(s: Seq<EntryS>) -> bool {
    forall|i: int, j: int| 0 <= i < j < s.len() ==> key_lt(s[j].key, s[i].key)
}

/// Whether some entry of `s` carries key `k`.
pub open spec fn key_in(s: Seq<EntryS>, k: RolloutKey) -> bool {
    exists|i: int| 0 <= i < s.len() && s[i].key == k
}

proof fn lemma_insert_entry_keys(s: Seq<EntryS>, x: EntryS, k: RolloutKey)
    ensures
        key_in(insert_entry(s, x), k) <==> (key_in(s, k) || k == x.key),
    decreases s.len(),
{
    let r = insert_entry(s, x);
    if s.len() == 0 {
        assert(r[0] == x);
        if key_in(r, k) {
            let i = choose|i: int| 0 <= i < r.len() && r[i].key == k;
            assert(r[i] == x);
        }
    } else if !key_lt(s[0].key, x.key) {
        lemma_insert_entry_keys(s.drop_first(), x, k);
        let rr = insert_entry(s.drop_first(), x);
        assert(r =~~= seq![s[0]] + rr);
        if key_in(r, k) {
            let i = choose|i: int| 0 <= i < r.len() && r[i].key == k;
            if i == 0 {
                assert(s[0].key == k);
            } else {
                assert(rr[i - 1].key == k);
            }
        }
        if key_in(s, k) {
            let i = choose|i: int| 0 <= i < s.len() && s[i].key == k;
            if i == 0 {
                assert(r[0].key == k);
            } else {
                assert(s.drop_first()[i - 1].key == k);
                assert(key_in(s.drop_first(), k));
                let m = choose|m: int| 0 <= m < rr.len() && rr[m].key == k;
                assert(r[m + 1].key == k);
            }
        }
        if k == x.key {
            let m = choose|m: int| 0 <= m < rr.len() && rr[m].key == k;
            assert(r[m + 1].key == k);
        }
    } else {
        assert(r =~~= seq![x] + s);
        if key_in(r, k) {
            let i = choose|i: int| 0 <= i < r.len() && r[i].key == k;
            if i == 0 {
            } else {
                assert(s[i - 1].key == k);
            }
        }
        if key_in(s, k) {
            let i = choose|i: int| 0 <= i < s.len() && s[i].key == k;
            assert(r[i + 1].key == k);
        }
        if k == x.key {
            assert(r[0].key == k);
        }
    }
}

/// Keys survive sorting exactly.
pub proof fn lemma_sort_entries_keys(s: Seq<EntryS>, k: RolloutKey)
    ensures
        key_in(sort_entries(s), k) <==> key_in(s, k),
    decreases s.len(),
{
    if s.len() == 0 {
    } else {
        lemma_sort_entries_keys(s.drop_last(), k);
        lemma_insert_entry_keys(sort_entries(s.drop_last()), s.last(), k);
        if key_in(s, k) {
            let i = choose|i: int| 0 <= i < s.len() && s[i].key == k;
            if i < s.len() - 1 {
                assert(s.drop_last()[i].key == k);
            }
        }
        if key_in(s.drop_last(), k) {
            let i = choose|i: int| 0 <= i < s.drop_last().len() && s.drop_last()[i].key == k;
            assert(s[i].key == k);
        }
        if k == s.last().key {
            assert(s[s.len() - 1].key == k);
        }
    }
}

proof fn lemma_insert_entry_strict(s: Seq<EntryS>, x: EntryS)
    requires
        entries_strictly_desc(s),
        !key_in(s, x.key),
    ensures
        entries_strictly_desc(insert_entry(s, x)),
    decreases s.len(),
{
    let r = insert_entry(s, x);
    if s.len() == 0 {
    } else if !key_lt(s[0].key, x.key) {
        assert(forall|i: int| 0 <= i < s.drop_first().len() ==> s.drop_first()[i] == s[i + 1]);
        assert(!key_in(s.drop_first(), x.key)) by {
            if key_in(s.drop_first(), x.key) {
                let i = choose|i: int|
                    0 <= i < s.drop_first().len() && s.drop_first()[i].key == x.key;
                assert(s[i + 1].key == x.key);
            }
        }
        lemma_insert_entry_strict(s.drop_first(), x);
        let rr = insert_entry(s.drop_first(), x);
        assert(r =~~= seq![s[0]] + rr);
        // the head is strictly above x and above every entry of the tail;
        // everything in rr is either x or from the tail.
        crate::filename::lemma_key_order(s[0].key, x.key);
        assert(key_lt(x.key, s[0].key));
        assert forall|i: int, j: int| 0 <= i < j < r.len() implies key_lt(
            r[j].key,
            r[i].key,
        ) by {
            if i == 0 {
                lemma_insert_entry_keys(s.drop_first(), x, rr[j - 1].key);
                assert(key_in(rr, rr[j - 1].key));
                if rr[j - 1].key == x.key {
                } else {
                    let m = choose|m: int|
                        0 <= m < s.drop_first().len() && s.drop_first()[m].key == rr[j - 1].key;
                    assert(s[m + 1].key == rr[j - 1].key);
                    assert(key_lt(s[m + 1].key, s[0].key));
                }
            } else {
                assert(key_lt(rr[j - 1].key, rr[i - 1].key));
            }
        }
    } else {
        assert(r =~~= seq![x] + s);
        assert forall|i: int, j: int| 0 <= i < j < r.len() implies key_lt(
            r[j].key,
            r[i].key,
        ) by {
            if i == 0 {
                if j == 1 {
                } else {
                    assert(key_lt(s[j - 1].key, s[0].key));
                    crate::filename::lemma_key_lt_trans(s[j - 1].key, s[0].key, x.key);
                }
            }
        }
    }
}

/// Entries with pairwise distinct keys: every key occurs at most once.
pub open spec fn distinct_keys(s: Seq<EntryS>) -> bool {
    forall|i: int, j: int| 0 <= i < j < s.len() ==> s[i].key != s[j].key
}

/// Sorting entries with pairwise distinct keys yields a strictly descending
/// sequence.
pub proof fn lemma_sort_entries_strict(s: Seq<EntryS>)
    requires
        distinct_keys(s),
    ensures
        entries_strictly_desc(sort_entries(s)),
    decreases s.len(),
{
    if s.len() == 0 {
    } else {
        assert(forall|i: int| 0 <= i < s.drop_last().len() ==> s.drop_last()[i] == s[i]);
        lemma_sort_entries_strict(s.drop_last());
        lemma_sort_entries_keys(s.drop_last(), s.last().key);
        assert(!key_in(s.drop_last(), s.last().key)) by {
            if key_in(s.drop_last(), s.last().key) {
                let i = choose|i: int|
                    0 <= i < s.drop_last().len() && s.drop_last()[i].key == s.last().key;
                assert(s[i].key == s[s.len() - 1].key);
            }
        }
        lemma_insert_entry_strict(sort_entries(s.drop_last()), s.last());
    }
}

} // verus!
