use vstd::prelude::*;
use vstd::string::StrSliceExecFns;
use vstd::string::StringExecFns;
use crate::timestamp::is_digit;
use crate::timestamp::digit_val;
use crate::filename::filename_key;
use crate::filename::lemma_filename_key_valid;
use crate::filename::parse_timestamp_uuid_from_filename;
use crate::sort::DirRef;
use crate::sort::EntryS;
use crate::sort::ScanFile;
use crate::sort::views_of;
use crate::sort::insert_dir;
use crate::sort::sort_dirs;
use crate::sort::sort_dirs_exec;
use crate::sort::sort_entries;
use crate::sort::sort_files_desc;
use crate::sort::lemma_sort_entries_keys;
use crate::sort::key_in;
use crate::sort::clone_string;

verus! {

/// Point-in-time listing of one day directory: its name and the names of the
/// plain files in it.
pub struct DayDir {
    pub name: String,
    pub files: Vec<String>,
}

/// Listing of one month directory: its name and its immediate
/// subdirectories.
pub struct MonthDir {
    pub name: String,
    pub days: Vec<DayDir>,
}

/// Listing of one year directory.
pub struct YearDir {
    pub name: String,
    pub months: Vec<MonthDir>,
}

/// Point-in-time snapshot of the sessions root: the year subdirectories with
/// their nested month and day listings. Listing order is whatever the
/// filesystem returned; the walker imposes its own order.
pub struct SessionsDir {
    pub years: Vec<YearDir>,
}

pub open spec fn slash() -> Seq<char> {
    "/"@
}

/// Decimal value of a digit string, most significant first.
pub open spec fn digits_val(s: Seq<char>) -> int
    decreases s.len(),
{
    if s.len() == 0 {
        0
    } else {
        digits_val(s.drop_last()) * 10 + digit_val(s.last())
    }
}

pub open spec fn pow10(n: nat) -> int
    decreases n,
{
    if n == 0 {
        1
    } else {
        10 * pow10((n - 1) as nat)
    }
}

proof fn lemma_digits_val_bound(s: Seq<char>, i: int)
    requires
        0 <= i <= s.len(),
        forall|j: int| 0 <= j < i ==> is_digit(s[j]),
    ensures
        0 <= digits_val(s.take(i)) < pow10(i as nat),
    decreases i,
{
    if i == 0 {
        assert(s.take(0) =~= Seq::empty());
    } else {
        lemma_digits_val_bound(s, i - 1);
        assert(s.take(i).drop_last() =~= s.take(i - 1));
        assert(s.take(i).last() == s[i - 1]);
    }
}

proof fn lemma_pow10_le(a: nat, b: nat)
    requires
        a <= b,
    ensures
        pow10(a) <= pow10(b),
        pow10(a) >= 1,
    decreases b,
{
    if a < b {
        lemma_pow10_le(a, (b - 1) as nat);
    } else if a > 0 {
        lemma_pow10_le((a - 1) as nat, (a - 1) as nat);
    }
}

/// A year directory name: all digits, one to nine of them ("numeric, any
/// width"); the value is its decimal reading.
pub open spec fn year_val(s: Seq<char>) -> Option<u32> {
    if 1 <= s.len() <= 9 && (forall|j: int| 0 <= j < s.len() ==> is_digit(s[j])) {
        Some(digits_val(s) as u32)
    } else {
        None
    }
}

/// A month or day directory name: exactly two digits.
pub open spec fn two_digit_val(s: Seq<char>) -> Option<u32> {
    if s.len() == 2 && is_digit(s[0]) && is_digit(s[1]) {
        Some((digit_val(s[0]) * 10 + digit_val(s[1])) as u32)
    } else {
        None
    }
}

/// Parse a year directory name, `None` for anything non-numeric.
pub fn parse_year_name(s: &str) -> (r: Option<u32>)
    ensures
        r == year_val(s@),
{
    let n = s.unicode_len();
    if n < 1 || n > 9 {
        return None;
    }
    let mut v: u32 = 0;
    let mut i: usize = 0;
    while i < n
        invariant
            i <= n,
            1 <= n <= 9,
            n == s@.len(),
            forall|j: int| 0 <= j < i ==> is_digit(s@[j]),
            v == digits_val(s@.take(i as int)),
        decreases n - i,
    {
        let d = match crate::timestamp::digit_of(s.get_char(i)) {
            Some(d) => d,
            None => { return None },
        };
        proof {
            lemma_digits_val_bound(s@, i as int);
            lemma_pow10_le(i as nat, 8);
            assert(pow10(0) == 1);
            assert(pow10(1) == 10);
            assert(pow10(2) == 100);
            assert(pow10(3) == 1000);
            assert(pow10(4) == 10000);
            assert(pow10(5) == 100000);
            assert(pow10(6) == 1000000);
            assert(pow10(7) == 10000000);
            assert(pow10(8) == 100000000);
            assert(v < 100000000);
        }
        v = v * 10 + d as u32;
        proof {
            assert(s@.take(i as int + 1).drop_last() =~= s@.take(i as int));
            assert(s@.take(i as int + 1).last() == s@[i as int]);
        }
        i = i + 1;
    }
    proof {
        assert(s@.take(n as int) =~= s@);
        lemma_digits_val_bound(s@, n as int);
    }
    Some(v)
}

/// Parse a two-digit month or day directory name.
pub fn parse_two_digit_name(s: &str) -> (r: Option<u32>)
    ensures
        r == two_digit_val(s@),
{
    let n = s.unicode_len();
    if n != 2 {
        return None;
    }
    let d0 = match crate::timestamp::digit_of(s.get_char(0)) {
        Some(d) => d,
        None => { return None },
    };
    let d1 = match crate::timestamp::digit_of(s.get_char(1)) {
        Some(d) => d,
        None => { return None },
    };
    Some(d0 as u32 * 10 + d1 as u32)
}

/// The parseable year directories among the first `i`, with their positions,
/// in listing order.
pub open spec fn year_refs(years: Seq<YearDir>, i: int) -> Seq<DirRef>
    decreases i,
{
    if i <= 0 {
        Seq::empty()
    } else {
        let rest = year_refs(years, i - 1);
        match year_val(years[i - 1].name@) {
            Some(v) => rest.push(DirRef { val: v, idx: (i - 1) as usize }),
            None => rest,
        }
    }
}

pub open spec fn month_refs(months: Seq<MonthDir>, i: int) -> Seq<DirRef>
    decreases i,
{
    if i <= 0 {
        Seq::empty()
    } else {
        let rest = month_refs(months, i - 1);
        match two_digit_val(months[i - 1].name@) {
            Some(v) => rest.push(DirRef { val: v, idx: (i - 1) as usize }),
            None => rest,
        }
    }
}

pub open spec fn day_refs(days: Seq<DayDir>, i: int) -> Seq<DirRef>
    decreases i,
{
    if i <= 0 {
        Seq::empty()
    } else {
        let rest = day_refs(days, i - 1);
        match two_digit_val(days[i - 1].name@) {
            Some(v) => rest.push(DirRef { val: v, idx: (i - 1) as usize }),
            None => rest,
        }
    }
}

/// Every position named by the refs is below `n`.
pub open spec fn dir_idx_ok(s: Seq<DirRef>, n: int) -> bool {
    forall|t: int| 0 <= t < s.len() ==> (#[trigger] s[t]).idx < n
}

proof fn lemma_insert_dir_idx(s: Seq<DirRef>, x: DirRef, n: int)
    requires
        dir_idx_ok(s, n),
        x.idx < n,
    ensures
        dir_idx_ok(insert_dir(s, x), n),
    decreases s.len(),
{
    let r = insert_dir(s, x);
    if s.len() == 0 {
    } else if s[0].val >= x.val {
        assert(forall|t: int|
            0 <= t < s.drop_first().len() ==> (#[trigger] s.drop_first()[t]) == s[t + 1]);
        lemma_insert_dir_idx(s.drop_first(), x, n);
        let rr = insert_dir(s.drop_first(), x);
        assert(r =~= seq![s[0]] + rr);
        assert forall|t: int| 0 <= t < r.len() implies (#[trigger] r[t]).idx < n by {
            if t > 0 {
                assert(r[t] == rr[t - 1]);
            }
        }
    } else {
        assert(r =~= seq![x] + s);
        assert forall|t: int| 0 <= t < r.len() implies (#[trigger] r[t]).idx < n by {
            if t > 0 {
                assert(r[t] == s[t - 1]);
            }
        }
    }
}

pub proof fn lemma_sort_dirs_idx(s: Seq<DirRef>, n: int)
    requires
        dir_idx_ok(s, n),
    ensures
        dir_idx_ok(sort_dirs(s), n),
    decreases s.len(),
{
    if s.len() > 0 {
        assert(forall|t: int|
            0 <= t < s.drop_last().len() ==> (#[trigger] s.drop_last()[t]) == s[t]);
        lemma_sort_dirs_idx(s.drop_last(), n);
        lemma_insert_dir_idx(sort_dirs(s.drop_last()), s.last(), n);
    }
}

pub proof fn lemma_year_refs_idx(years: Seq<YearDir>, i: int)
    requires
        i <= years.len(),
    ensures
        dir_idx_ok(year_refs(years, i), i),
    decreases i,
{
    if i > 0 {
        lemma_year_refs_idx(years, i - 1);
    }
}

pub proof fn lemma_month_refs_idx(months: Seq<MonthDir>, i: int)
    requires
        i <= months.len(),
    ensures
        dir_idx_ok(month_refs(months, i), i),
    decreases i,
{
    if i > 0 {
        lemma_month_refs_idx(months, i - 1);
    }
}

pub proof fn lemma_day_refs_idx(days: Seq<DayDir>, i: int)
    requires
        i <= days.len(),
    ensures
        dir_idx_ok(day_refs(days, i), i),
    decreases i,
{
    if i > 0 {
        lemma_day_refs_idx(days, i - 1);
    }
}

/// Collect the parseable year directories, in listing order.
pub fn build_year_refs(years: &Vec<YearDir>) -> (r: Vec<DirRef>)
    ensures
        r@ == year_refs(years@, years@.len() as int),
{
    let mut out: Vec<DirRef> = Vec::new();
    let mut k: usize = 0;
    while k < years.len()
        invariant
            k <= years.len(),
            out@ == year_refs(years@, k as int),
        decreases years.len() - k,
    {
        match parse_year_name(years[k].name.as_str()) {
            Some(v) => {
                out.push(DirRef { val: v, idx: k });
            },
            None => {},
        }
        k = k + 1;
    }
    out
}

pub fn build_month_refs(months: &Vec<MonthDir>) -> (r: Vec<DirRef>)
    ensures
        r@ == month_refs(months@, months@.len() as int),
{
    let mut out: Vec<DirRef> = Vec::new();
    let mut k: usize = 0;
    while k < months.len()
        invariant
            k <= months.len(),
            out@ == month_refs(months@, k as int),
        decreases months.len() - k,
    {
        match parse_two_digit_name(months[k].name.as_str()) {
            Some(v) => {
                out.push(DirRef { val: v, idx: k });
            },
            None => {},
        }
        k = k + 1;
    }
    out
}

pub fn build_day_refs(days: &Vec<DayDir>) -> (r: Vec<DirRef>)
    ensures
        r@ == day_refs(days@, days@.len() as int),
{
    let mut out: Vec<DirRef> = Vec::new();
    let mut k: usize = 0;
    while k < days.len()
        invariant
            k <= days.len(),
            out@ == day_refs(days@, k as int),
        decreases days.len() - k,
    {
        match parse_two_digit_name(days[k].name.as_str()) {
            Some(v) => {
                out.push(DirRef { val: v, idx: k });
            },
            None => {},
        }
        k = k + 1;
    }
    out
}

/// The entries decoded from the first `i` file names of a day directory, in
/// listing order, each carrying the full path `prefix + name`. Names that do
/// not match the rollout grammar contribute nothing.
pub open spec fn decoded(prefix: Seq<char>, files: Seq<String>, i: int) -> Seq<EntryS>
    decreases i,
{
    if i <= 0 {
        Seq::empty()
    } else {
        let rest = decoded(prefix, files, i - 1);
        match filename_key(files[i - 1]@) {
            Some(k) => rest.push(EntryS { key: k, path: prefix + files[i - 1]@ }),
            None => rest,
        }
    }
}

/// Every decoded entry has a calendar-valid timestamp in its key.
pub open spec fn keys_valid(s: Seq<EntryS>) -> bool {
    forall|i: int| 0 <= i < s.len() ==> (#[trigger] s[i]).key.ts.valid()
}

proof fn lemma_decoded_valid(prefix: Seq<char>, files: Seq<String>, i: int)
    ensures
        keys_valid(decoded(prefix, files, i)),
    decreases i,
{
    if i > 0 {
        lemma_decoded_valid(prefix, files, i - 1);
        lemma_filename_key_valid(files[i - 1]@);
    }
}

/// The full path prefix of files in a given day directory.
pub open spec fn day_path(prefix: Seq<char>, d: DayDir) -> Seq<char> {
    prefix + d.name@ + slash()
}

/// All rollout files of one day directory, keyed and sorted descending,
/// ready for the scan. `prefix` is the path of the parent month directory,
/// ending with a separator.
pub open spec fn day_entries(prefix: Seq<char>, d: DayDir) -> Seq<EntryS> {
    sort_entries(decoded(day_path(prefix, d), d.files@, d.files@.len() as int))
}

/// Decode, key and sort one day directory's listing.
pub fn prepare_day(prefix: &str, d: &DayDir) -> (r: Vec<ScanFile>)
    ensures
        views_of(r@) == day_entries(prefix@, *d),
        keys_valid(views_of(r@)),
{
    let mut fprefix = String::from_str(prefix);
    fprefix.append(d.name.as_str());
    fprefix.append("/");
    proof {
        assert(fprefix@ =~= day_path(prefix@, *d));
    }
    let mut out: Vec<ScanFile> = Vec::new();
    let mut k: usize = 0;
    while k < d.files.len()
        invariant
            k <= d.files.len(),
            fprefix@ == day_path(prefix@, *d),
            views_of(out@) == decoded(fprefix@, d.files@, k as int),
        decreases d.files.len() - k,
    {
        match parse_timestamp_uuid_from_filename(d.files[k].as_str()) {
            Some(key) => {
                let mut path = clone_string(&fprefix);
                path.append(d.files[k].as_str());
                let f = ScanFile { key, path };
                proof {
                    assert(f@ == (EntryS { key, path: fprefix@ + d.files@[k as int]@ }));
                }
                out.push(f);
                proof {
                    assert(views_of(out@) =~~= decoded(fprefix@, d.files@, k as int + 1));
                }
            },
            None => {
                proof {
                    assert(decoded(fprefix@, d.files@, k as int + 1) == decoded(
                        fprefix@,
                        d.files@,
                        k as int,
                    ));
                }
            },
        }
        k = k + 1;
    }
    let sorted = sort_files_desc(out);
    proof {
        let dec = decoded(fprefix@, d.files@, d.files@.len() as int);
        lemma_decoded_valid(fprefix@, d.files@, d.files@.len() as int);
        let sv = views_of(sorted@);
        assert forall|i: int| 0 <= i < sv.len() implies (#[trigger] sv[i]).key.ts.valid() by {
            assert(key_in(sv, sv[i].key));
            lemma_sort_entries_keys(dec, sv[i].key);
            let j = choose|j: int| 0 <= j < dec.len() && dec[j].key == sv[i].key;
            assert(dec[j].key.ts.valid());
        }
    }
    sorted
}

} // verus!
