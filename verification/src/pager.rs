use vstd::prelude::*;
use vstd::string::StringExecFns;
use crate::MAX_SCAN_FILES;
use crate::filename::RolloutKey;
use crate::filename::key_lt;
use crate::filename::key_is_lt;
use crate::cursor::cursor_text;
use crate::cursor::cursor_key;
use crate::cursor::format_cursor;
use crate::sort::DirRef;
use crate::sort::EntryS;
use crate::sort::ScanFile;
use crate::sort::views_of;
use crate::sort::sort_dirs;
use crate::sort::sort_dirs_exec;
use crate::sort::sort_entries;
use crate::sort::insert_entry;
use crate::walk::DayDir;
use crate::walk::MonthDir;
use crate::walk::YearDir;
use crate::walk::SessionsDir;
use crate::walk::slash;
use crate::walk::decoded;
use crate::walk::day_entries;
use crate::walk::keys_valid;
use crate::walk::day_refs;
use crate::walk::month_refs;
use crate::walk::year_refs;
use crate::walk::dir_idx_ok;
use crate::walk::build_day_refs;
use crate::walk::build_month_refs;
use crate::walk::build_year_refs;
use crate::walk::lemma_day_refs_idx;
use crate::walk::lemma_month_refs_idx;
use crate::walk::lemma_year_refs_idx;
use crate::walk::lemma_sort_dirs_idx;
use crate::walk::prepare_day;

verus! {

/// The scan's accumulated outcome: selected entries, the count of decoded
/// files seen, whether the anchor has been passed, and whether the walk has
/// stopped for good.
#[verifier::ext_equal]
pub struct ScanState {
    pub items: Seq<EntryS>,
    pub scanned: nat,
    pub anchor_passed: bool,
    pub stopped: bool,
}

/// The scan starts with nothing selected; with no anchor the very first file
/// already counts as past the anchor.
pub open spec fn init_state(anchor: Option<RolloutKey>) -> ScanState {
    ScanState { items: Seq::empty(), scanned: 0, anchor_passed: anchor is None, stopped: false }
}

/// A key at or newer than the anchor is skipped while the anchor has not
/// been passed.
pub open spec fn at_or_after_anchor(k: RolloutKey, anchor: Option<RolloutKey>) -> bool {
    match anchor {
        Some(a) => !key_lt(k, a),
        None => false,
    }
}

/// One file of a day's sorted list: it counts as scanned; once the cap is
/// reached and the page is full the walk stops at once; before the anchor is
/// passed, keys at or above the anchor are skipped and the first strictly
/// smaller key flips the anchor and is itself taken; a full page stops the
/// walk; otherwise the file is selected.
pub open spec fn file_step(
    st: ScanState,
    e: EntryS,
    page_size: nat,
    anchor: Option<RolloutKey>,
) -> ScanState {
    if st.stopped {
        st
    } else {
        let sc = st.scanned + 1;
        if sc >= MAX_SCAN_FILES as int && st.items.len() >= page_size {
            ScanState { items: st.items, scanned: sc, anchor_passed: st.anchor_passed, stopped: true }
        } else if !st.anchor_passed && at_or_after_anchor(e.key, anchor) {
            ScanState { items: st.items, scanned: sc, anchor_passed: false, stopped: false }
        } else if st.items.len() == page_size {
            ScanState { items: st.items, scanned: sc, anchor_passed: true, stopped: true }
        } else {
            ScanState { items: st.items.push(e), scanned: sc, anchor_passed: true, stopped: false }
        }
    }
}

/// A whole day's sorted file list, front to back.
pub open spec fn scan_day(
    st: ScanState,
    day: Seq<EntryS>,
    page_size: nat,
    anchor: Option<RolloutKey>,
) -> ScanState
    decreases day.len(),
{
    if day.len() == 0 {
        st
    } else {
        scan_day(file_step(st, day[0], page_size, anchor), day.drop_first(), page_size, anchor)
    }
}

/// The cap check at a shard boundary: once the cap has been reached, no
/// further shard is entered.
pub open spec fn day_boundary(st: ScanState) -> ScanState {
    if st.scanned >= MAX_SCAN_FILES as int {
        ScanState {
            items: st.items,
            scanned: st.scanned,
            anchor_passed: st.anchor_passed,
            stopped: true,
        }
    } else {
        st
    }
}

/// The walk over a sequence of day file lists, each preceded by the cap
/// check.
pub open spec fn scan_days(
    st: ScanState,
    days: Seq<Seq<EntryS>>,
    page_size: nat,
    anchor: Option<RolloutKey>,
) -> ScanState
    decreases days.len(),
{
    if days.len() == 0 {
        st
    } else {
        scan_days(
            scan_day(day_boundary(st), days[0], page_size, anchor),
            days.drop_first(),
            page_size,
            anchor,
        )
    }
}

/// Scanning a concatenation is scanning the parts in turn.
pub proof fn lemma_scan_days_concat(
    st: ScanState,
    a: Seq<Seq<EntryS>>,
    b: Seq<Seq<EntryS>>,
    page_size: nat,
    anchor: Option<RolloutKey>,
)
    ensures
        scan_days(st, a + b, page_size, anchor) == scan_days(
            scan_days(st, a, page_size, anchor),
            b,
            page_size,
            anchor,
        ),
    decreases a.len(),
{
    if a.len() == 0 {
        assert(a + b =~= b);
    } else {
        assert((a + b).drop_first() =~= a.drop_first() + b);
        assert((a + b)[0] == a[0]);
        lemma_scan_days_concat(
            scan_day(day_boundary(st), a[0], page_size, anchor),
            a.drop_first(),
            b,
            page_size,
            anchor,
        );
    }
}

/// The day lists of one month directory, in descending day order.
pub open spec fn days_list(prefix: Seq<char>, days: Seq<DayDir>, refs: Seq<DirRef>) -> Seq<
    Seq<EntryS>,
>
    decreases refs.len(),
{
    if refs.len() == 0 {
        Seq::empty()
    } else {
        days_list(prefix, days, refs.drop_last()) + seq![
            day_entries(prefix, days[refs.last().idx as int]),
        ]
    }
}

pub open spec fn month_days(prefix: Seq<char>, m: MonthDir) -> Seq<Seq<EntryS>> {
    days_list(
        prefix + m.name@ + slash(),
        m.days@,
        sort_dirs(day_refs(m.days@, m.days@.len() as int)),
    )
}

pub open spec fn months_list(prefix: Seq<char>, months: Seq<MonthDir>, refs: Seq<DirRef>) -> Seq<
    Seq<EntryS>,
>
    decreases refs.len(),
{
    if refs.len() == 0 {
        Seq::empty()
    } else {
        months_list(prefix, months, refs.drop_last()) + month_days(
            prefix,
            months[refs.last().idx as int],
        )
    }
}

pub open spec fn year_days(prefix: Seq<char>, y: YearDir) -> Seq<Seq<EntryS>> {
    months_list(
        prefix + y.name@ + slash(),
        y.months@,
        sort_dirs(month_refs(y.months@, y.months@.len() as int)),
    )
}

pub open spec fn years_list(prefix: Seq<char>, years: Seq<YearDir>, refs: Seq<DirRef>) -> Seq<
    Seq<EntryS>,
>
    decreases refs.len(),
{
    if refs.len() == 0 {
        Seq::empty()
    } else {
        years_list(prefix, years, refs.drop_last()) + year_days(
            prefix,
            years[refs.last().idx as int],
        )
    }
}

/// Every day file list of the whole tree, in walk order: years descending,
/// months descending, days descending.
pub open spec fn all_days(root: Seq<char>, snap: SessionsDir) -> Seq<Seq<EntryS>> {
    years_list(
        root + slash(),
        snap.years@,
        sort_dirs(year_refs(snap.years@, snap.years@.len() as int)),
    )
}

/// The complete outcome of one listing request on a snapshot.
pub open spec fn page_state(
    root: Seq<char>,
    snap: SessionsDir,
    page_size: nat,
    anchor: Option<RolloutKey>,
) -> ScanState {
    scan_days(init_state(anchor), all_days(root, snap), page_size, anchor)
}

proof fn lemma_insert_entry_len(s: Seq<EntryS>, x: EntryS)
    ensures
        insert_entry(s, x).len() == s.len() + 1,
    decreases s.len(),
{
    if s.len() > 0 && !key_lt(s[0].key, x.key) {
        lemma_insert_entry_len(s.drop_first(), x);
    }
}

pub proof fn lemma_sort_entries_len(s: Seq<EntryS>)
    ensures
        sort_entries(s).len() == s.len(),
    decreases s.len(),
{
    if s.len() > 0 {
        lemma_sort_entries_len(s.drop_last());
        lemma_insert_entry_len(sort_entries(s.drop_last()), s.last());
    }
}

proof fn lemma_decoded_len(prefix: Seq<char>, files: Seq<String>, i: int)
    ensures
        decoded(prefix, files, i).len() <= if i >= 0 {
            i
        } else {
            0
        },
    decreases i,
{
    if i > 0 {
        lemma_decoded_len(prefix, files, i - 1);
    }
}

/// Per-day listing lengths leave room for the scan counter.
pub open spec fn month_lens_ok(m: MonthDir) -> bool {
    forall|k: int|
        0 <= k < m.days@.len() ==> (#[trigger] m.days@[k]).files@.len() <= usize::MAX
            - MAX_SCAN_FILES
}

pub open spec fn year_lens_ok(y: YearDir) -> bool {
    forall|j: int| 0 <= j < y.months@.len() ==> month_lens_ok(#[trigger] y.months@[j])
}

pub open spec fn snap_lens_ok(snap: SessionsDir) -> bool {
    forall|i: int| 0 <= i < snap.years@.len() ==> year_lens_ok(#[trigger] snap.years@[i])
}

struct PageState {
    selected: Vec<ScanFile>,
    scanned: usize,
    anchor_passed: bool,
    stopped: bool,
}

impl View for PageState {
    type V = ScanState;

    closed spec fn view(&self) -> ScanState {
        ScanState {
            items: views_of(self.selected@),
            scanned: self.scanned as nat,
            anchor_passed: self.anchor_passed,
            stopped: self.stopped,
        }
    }
}

fn step_file(st: &mut PageState, f: ScanFile, page_size: usize, anchor: Option<RolloutKey>)
    requires
        !old(st).stopped ==> old(st).scanned < usize::MAX,
        f@.key.ts.valid(),
        keys_valid(views_of(old(st).selected@)),
    ensures
        final(st)@ == file_step(old(st)@, f@, page_size as nat, anchor),
        keys_valid(views_of(final(st).selected@)),
        final(st).scanned <= old(st).scanned + 1,
        old(st).stopped ==> *final(st) == *old(st),
{
    if st.stopped {
        return ;
    }
    st.scanned = st.scanned + 1;
    if st.scanned >= MAX_SCAN_FILES && st.selected.len() >= page_size {
        st.stopped = true;
        proof {
            assert(st@ =~~= file_step(old(st)@, f@, page_size as nat, anchor));
        }
        return ;
    }
    if !st.anchor_passed {
        let skip = match anchor {
            Some(a) => !key_is_lt(&f.key, &a),
            None => false,
        };
        if skip {
            proof {
                assert(st@ =~~= file_step(old(st)@, f@, page_size as nat, anchor));
            }
            return ;
        }
    }
    if st.selected.len() == page_size {
        st.anchor_passed = true;
        st.stopped = true;
        proof {
            assert(st@ =~~= file_step(old(st)@, f@, page_size as nat, anchor));
        }
        return ;
    }
    st.anchor_passed = true;
    let ghost prev = views_of(st.selected@);
    let ghost fv = f@;
    st.selected.push(f);
    proof {
        assert(views_of(st.selected@) =~~= prev.push(fv));
        assert(st@ =~~= file_step(old(st)@, fv, page_size as nat, anchor));
        assert forall|i: int| 0 <= i < views_of(st.selected@).len() implies (#[trigger] views_of(
            st.selected@,
        )[i]).key.ts.valid() by {
            if i < prev.len() {
                assert(views_of(st.selected@)[i] == prev[i]);
            } else {
                assert(views_of(st.selected@)[i] == fv);
            }
        }
    }
}

fn scan_day_exec(st: &mut PageState, day: Vec<ScanFile>, page_size: usize, anchor: Option<RolloutKey>)
    requires
        !old(st).stopped ==> old(st).scanned + day@.len() <= usize::MAX,
        keys_valid(views_of(day@)),
        keys_valid(views_of(old(st).selected@)),
    ensures
        final(st)@ == scan_day(old(st)@, views_of(day@), page_size as nat, anchor),
        keys_valid(views_of(final(st).selected@)),
{
    let ghost st0 = st@;
    let ghost full = views_of(day@);
    let mut day = day;
    while day.len() > 0
        invariant
            scan_day(st0, full, page_size as nat, anchor) == scan_day(
                st@,
                views_of(day@),
                page_size as nat,
                anchor,
            ),
            !st.stopped ==> st.scanned + day@.len() <= usize::MAX,
            keys_valid(views_of(day@)),
            keys_valid(views_of(st.selected@)),
        decreases day.len(),
    {
        let ghost prev_views = views_of(day@);
        let ghost prev_st = st@;
        let f = day.remove(0);
        proof {
            assert(views_of(day@) =~~= prev_views.drop_first());
            assert(f@ == prev_views[0]);
            assert(f@.key.ts.valid());
            assert forall|i: int| 0 <= i < views_of(day@).len() implies (#[trigger] views_of(
                day@,
            )[i]).key.ts.valid() by {
                assert(views_of(day@)[i] == prev_views[i + 1]);
            }
        }
        step_file(st, f, page_size, anchor);
        proof {
            assert(scan_day(prev_st, prev_views, page_size as nat, anchor) == scan_day(
                file_step(prev_st, prev_views[0], page_size as nat, anchor),
                prev_views.drop_first(),
                page_size as nat,
                anchor,
            ));
        }
    }
    proof {
        assert(views_of(day@) =~= Seq::<EntryS>::empty());
    }
}

fn scan_month_exec(
    st: &mut PageState,
    prefix: &str,
    m: &MonthDir,
    page_size: usize,
    anchor: Option<RolloutKey>,
)
    requires
        month_lens_ok(*m),
        keys_valid(views_of(old(st).selected@)),
    ensures
        final(st)@ == scan_days(old(st)@, month_days(prefix@, *m), page_size as nat, anchor),
        keys_valid(views_of(final(st).selected@)),
{
    let ghost st0 = st@;
    let mut mprefix = String::from_str(prefix);
    mprefix.append(m.name.as_str());
    mprefix.append("/");
    proof {
        assert(mprefix@ =~= prefix@ + m.name@ + slash());
    }
    let refs = sort_dirs_exec(build_day_refs(&m.days));
    proof {
        lemma_day_refs_idx(m.days@, m.days@.len() as int);
        lemma_sort_dirs_idx(day_refs(m.days@, m.days@.len() as int), m.days@.len() as int);
        assert(refs@.take(0) =~= Seq::<DirRef>::empty());
    }
    let mut r: usize = 0;
    while r < refs.len()
        invariant
            r <= refs.len(),
            refs@ == sort_dirs(day_refs(m.days@, m.days@.len() as int)),
            dir_idx_ok(refs@, m.days@.len() as int),
            mprefix@ == prefix@ + m.name@ + slash(),
            month_lens_ok(*m),
            keys_valid(views_of(st.selected@)),
            st@ == scan_days(
                st0,
                days_list(mprefix@, m.days@, refs@.take(r as int)),
                page_size as nat,
                anchor,
            ),
        decreases refs.len() - r,
    {
        let dref = refs[r];
        proof {
            assert(refs@[r as int].idx < m.days@.len());
        }
        let ghost pre = st@;
        if st.scanned >= MAX_SCAN_FILES {
            st.stopped = true;
        }
        proof {
            assert(st@ =~~= day_boundary(pre));
        }
        let day = &m.days[dref.idx];
        let files = prepare_day(mprefix.as_str(), day);
        proof {
            let dp = crate::walk::day_path(mprefix@, *day);
            lemma_decoded_len(dp, day.files@, day.files@.len() as int);
            lemma_sort_entries_len(decoded(dp, day.files@, day.files@.len() as int));
            assert(views_of(files@).len() == files@.len());
            assert(m.days@[dref.idx as int].files@.len() <= usize::MAX - MAX_SCAN_FILES);
            assert(files@.len() <= usize::MAX - MAX_SCAN_FILES);
        }
        let ghost mid = st@;
        scan_day_exec(st, files, page_size, anchor);
        proof {
            let dl = days_list(mprefix@, m.days@, refs@.take(r as int));
            let de = day_entries(mprefix@, m.days@[dref.idx as int]);
            lemma_scan_days_concat(st0, dl, seq![de], page_size as nat, anchor);
            assert(seq![de].drop_first() =~= Seq::<Seq<EntryS>>::empty());
            assert(seq![de][0] == de);
            let bmid = scan_day(day_boundary(pre), de, page_size as nat, anchor);
            assert(scan_days(pre, seq![de], page_size as nat, anchor) == scan_days(
                bmid,
                seq![de].drop_first(),
                page_size as nat,
                anchor,
            ));
            assert(scan_days(bmid, Seq::<Seq<EntryS>>::empty(), page_size as nat, anchor) == bmid);
            assert(refs@.take(r as int + 1).drop_last() =~= refs@.take(r as int));
            assert(refs@.take(r as int + 1).last() == refs@[r as int]);
            assert(days_list(mprefix@, m.days@, refs@.take(r as int + 1)) == dl + seq![de]);
            assert(st@ == scan_days(
                st0,
                days_list(mprefix@, m.days@, refs@.take(r as int + 1)),
                page_size as nat,
                anchor,
            ));
        }
        r = r + 1;
    }
    proof {
        assert(refs@.take(refs@.len() as int) =~= refs@);
    }
}

fn scan_year_exec(
    st: &mut PageState,
    prefix: &str,
    y: &YearDir,
    page_size: usize,
    anchor: Option<RolloutKey>,
)
    requires
        year_lens_ok(*y),
        keys_valid(views_of(old(st).selected@)),
    ensures
        final(st)@ == scan_days(old(st)@, year_days(prefix@, *y), page_size as nat, anchor),
        keys_valid(views_of(final(st).selected@)),
{
    let ghost st0 = st@;
    let mut yprefix = String::from_str(prefix);
    yprefix.append(y.name.as_str());
    yprefix.append("/");
    proof {
        assert(yprefix@ =~= prefix@ + y.name@ + slash());
    }
    let refs = sort_dirs_exec(build_month_refs(&y.months));
    proof {
        lemma_month_refs_idx(y.months@, y.months@.len() as int);
        lemma_sort_dirs_idx(month_refs(y.months@, y.months@.len() as int), y.months@.len() as int);
        assert(refs@.take(0) =~= Seq::<DirRef>::empty());
    }
    let mut r: usize = 0;
    while r < refs.len()
        invariant
            r <= refs.len(),
            refs@ == sort_dirs(month_refs(y.months@, y.months@.len() as int)),
            dir_idx_ok(refs@, y.months@.len() as int),
            yprefix@ == prefix@ + y.name@ + slash(),
            year_lens_ok(*y),
            keys_valid(views_of(st.selected@)),
            st@ == scan_days(
                st0,
                months_list(yprefix@, y.months@, refs@.take(r as int)),
                page_size as nat,
                anchor,
            ),
        decreases refs.len() - r,
    {
        let mref = refs[r];
        proof {
            assert(refs@[r as int].idx < y.months@.len());
        }
        let ghost pre = st@;
        let month = &y.months[mref.idx];
        scan_month_exec(st, yprefix.as_str(), month, page_size, anchor);
        proof {
            let ml = months_list(yprefix@, y.months@, refs@.take(r as int));
            let md = month_days(yprefix@, y.months@[mref.idx as int]);
            lemma_scan_days_concat(st0, ml, md, page_size as nat, anchor);
            assert(refs@.take(r as int + 1).drop_last() =~= refs@.take(r as int));
            assert(refs@.take(r as int + 1).last() == refs@[r as int]);
            assert(months_list(yprefix@, y.months@, refs@.take(r as int + 1)) == ml + md);
        }
        r = r + 1;
    }
    proof {
        assert(refs@.take(refs@.len() as int) =~= refs@);
    }
}

/// A page plan: the selected files in order, the scan diagnostics, and the
/// continuation token built from the last selected file.
pub struct PagePlan {
    pub selected: Vec<ScanFile>,
    pub scanned_files: usize,
    pub reached_scan_cap: bool,
    pub next_cursor: Option<String>,
}

/// The continuation token is present exactly when the page has items; it
/// renders the key of the last item and decodes back to that key.
pub open spec fn next_cursor_ok(next: Option<String>, ps: ScanState) -> bool {
    match next {
        None => ps.items.len() == 0,
        Some(c) => ps.items.len() > 0 && c@ == cursor_text(ps.items.last().key) && cursor_key(c@)
            == Some(ps.items.last().key),
    }
}

/// Walk the year, month and day shards of the snapshot in descending numeric
/// order, decode and order each day's rollout files, skip keys at or above
/// the anchor, select up to `page_size` files once the anchor is passed, and
/// count every decoded file scanned, honouring the scan cap at shard
/// boundaries.
pub fn traverse_directories_for_paths(
    root: &str,
    snap: &SessionsDir,
    page_size: usize,
    anchor: Option<RolloutKey>,
) -> (r: PagePlan)
    requires
        snap_lens_ok(*snap),
    ensures
        views_of(r.selected@) == page_state(root@, *snap, page_size as nat, anchor).items,
        r.scanned_files as nat == page_state(root@, *snap, page_size as nat, anchor).scanned,
        r.reached_scan_cap == (page_state(root@, *snap, page_size as nat, anchor).scanned
            >= MAX_SCAN_FILES as int),
        next_cursor_ok(r.next_cursor, page_state(root@, *snap, page_size as nat, anchor)),
        keys_valid(views_of(r.selected@)),
{
    let mut st = PageState {
        selected: Vec::new(),
        scanned: 0,
        anchor_passed: anchor.is_none(),
        stopped: false,
    };
    proof {
        assert(views_of(st.selected@) =~= Seq::<EntryS>::empty());
        assert(st@ =~~= init_state(anchor));
    }
    let ghost st0 = st@;
    let mut rprefix = String::from_str(root);
    rprefix.append("/");
    proof {
        assert(rprefix@ =~= root@ + slash());
    }
    let refs = sort_dirs_exec(build_year_refs(&snap.years));
    proof {
        lemma_year_refs_idx(snap.years@, snap.years@.len() as int);
        lemma_sort_dirs_idx(year_refs(snap.years@, snap.years@.len() as int), snap.years@.len() as int);
        assert(refs@.take(0) =~= Seq::<DirRef>::empty());
    }
    let mut r: usize = 0;
    while r < refs.len()
        invariant
            r <= refs.len(),
            refs@ == sort_dirs(year_refs(snap.years@, snap.years@.len() as int)),
            dir_idx_ok(refs@, snap.years@.len() as int),
            rprefix@ == root@ + slash(),
            snap_lens_ok(*snap),
            keys_valid(views_of(st.selected@)),
            st@ == scan_days(
                st0,
                years_list(rprefix@, snap.years@, refs@.take(r as int)),
                page_size as nat,
                anchor,
            ),
        decreases refs.len() - r,
    {
        let yref = refs[r];
        proof {
            assert(refs@[r as int].idx < snap.years@.len());
        }
        let year = &snap.years[yref.idx];
        scan_year_exec(&mut st, rprefix.as_str(), year, page_size, anchor);
        proof {
            let yl = years_list(rprefix@, snap.years@, refs@.take(r as int));
            let yd = year_days(rprefix@, snap.years@[yref.idx as int]);
            lemma_scan_days_concat(st0, yl, yd, page_size as nat, anchor);
            assert(refs@.take(r as int + 1).drop_last() =~= refs@.take(r as int));
            assert(refs@.take(r as int + 1).last() == refs@[r as int]);
            assert(years_list(rprefix@, snap.years@, refs@.take(r as int + 1)) == yl + yd);
        }
        r = r + 1;
    }
    proof {
        assert(refs@.take(refs@.len() as int) =~= refs@);
    }
    let next_cursor: Option<String> = if st.selected.len() == 0 {
        None
    } else {
        let idx = st.selected.len() - 1;
        let last_key = st.selected[idx].key;
        proof {
            assert(views_of(st.selected@)[idx as int] == st.selected@[idx as int]@);
            assert(views_of(st.selected@).last().key == last_key);
        }
        Some(format_cursor(&last_key))
    };
    let reached = st.scanned >= MAX_SCAN_FILES;
    PagePlan {
        selected: st.selected,
        scanned_files: st.scanned,
        reached_scan_cap: reached,
        next_cursor,
    }
}

} // verus!
