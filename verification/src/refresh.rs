//! Refreshing the static GTFS data: which files are needed, reading them from
//! the downloaded archive, and in which slot (`active/` or `pending/`) they go.
use vstd::prelude::*;
use vstd::seq_lib::to_multiset_contains;
use crate::clock::{calendar_day, parse_calendar_day};
use crate::text::{
    char_seqs, chars_eq, chars_of, lines_of, spec_lines, spec_split, spec_trim, spec_trim_quotes,
    split_chars, string_from, string_views, trim_chars,
};

verus! {

// ---------------------------------------------------------------------------
// The files
// ---------------------------------------------------------------------------

/// The GTFS files that the schedule is built from.
pub open spec fn needed_file_names() -> Seq<Seq<char>> {
    seq!["routes.txt"@, "trips.txt"@, "stop_times.txt"@, "stops.txt"@, "calendar.txt"@]
}


/// The GTFS files that the schedule is built from, in the order they are handled.
pub fn needed_files() -> (res: Vec<String>)
    ensures
        string_views(res@) == needed_file_names(),
{
    let mut v: Vec<String> = Vec::new();
    v.push("routes.txt".to_owned());
    v.push("trips.txt".to_owned());
    v.push("stop_times.txt".to_owned());
    v.push("stops.txt".to_owned());
    v.push("calendar.txt".to_owned());
    assert(string_views(v@) =~= needed_file_names());
    v
}

/// The key of a file in a slot: `slot/name`.
pub open spec fn slot_key(slot: Seq<char>, name: Seq<char>) -> Seq<char> {
    slot + seq!['/'] + name
}

fn key_in(slot: &str, name: &String) -> (res: String)
    ensures
        res@ == slot_key(slot@, name@),
{
    let mut k = slot.to_owned();
    k.append("/");
    k.append(name.as_str());
    proof {
        reveal_strlit("/");
    }
    assert(k@ =~= slot_key(slot@, name@));
    k
}

// ---------------------------------------------------------------------------
// calendar.txt: the earliest start date
// ---------------------------------------------------------------------------

/// A CSV field without surrounding whitespace, then without surrounding double quotes.
pub open spec fn clean_field(f: Seq<char>) -> Seq<char> {
    spec_trim_quotes(spec_trim(f))
}

/// Where the first field named `name` stands.
pub open spec fn column_index(fields: Seq<Seq<char>>, name: Seq<char>) -> Option<int>
    decreases fields.len(),
{
    if fields.len() == 0 {
        None
    } else if clean_field(fields[0]) == name {
        Some(0)
    } else {
        match column_index(fields.drop_first(), name) {
            Some(k) => Some(k + 1),
            None => None,
        }
    }
}

/// The field at `idx` of a line that is not blank, cleaned, if the line has one there.
pub open spec fn field_at(line: Seq<char>, idx: int) -> Option<Seq<char>> {
    if spec_trim(line).len() == 0 {
        None
    } else {
        let fs = spec_split(line, ',');
        if 0 <= idx < fs.len() {
            Some(clean_field(fs[idx]))
        } else {
            None
        }
    }
}

pub open spec fn fields_at(lines: Seq<Seq<char>>, idx: int) -> Seq<Seq<char>>
    decreases lines.len(),
{
    if lines.len() == 0 {
        Seq::empty()
    } else {
        let prev = fields_at(lines.drop_last(), idx);
        match field_at(lines.last(), idx) {
            Some(f) => prev.push(f),
            None => prev,
        }
    }
}

/// The `start_date` fields of the rows of a calendar file, if its header names that column.
pub open spec fn spec_start_date_fields(csv: Seq<char>) -> Option<Seq<Seq<char>>> {
    let ls = spec_lines(csv);
    if ls.len() == 0 {
        None
    } else {
        match column_index(spec_split(ls[0], ','), "start_date"@) {
            Some(idx) => Some(fields_at(ls.drop_first(), idx)),
            None => None,
        }
    }
}

/// The earliest of the days that are present.
pub open spec fn earliest_day(days: Seq<Option<i32>>) -> Option<i32>
    decreases days.len(),
{
    if days.len() == 0 {
        None
    } else {
        let e = earliest_day(days.drop_last());
        match days.last() {
            Some(d) => Some(
                match e {
                    Some(x) => if x <= d {
                        x
                    } else {
                        d
                    },
                    None => d,
                },
            ),
            None => e,
        }
    }
}

/// The earliest day is one of the days given, no later than any of them, and
/// there is one exactly when some day is given.
pub proof fn law_earliest_day(days: Seq<Option<i32>>)
    ensures
        earliest_day(days) is Some <==> exists|k: int| 0 <= k < days.len() && days[k] is Some,
        earliest_day(days) matches Some(e) ==> exists|k: int|
            0 <= k < days.len() && days[k] == Some(e),
        forall|k: int|
            0 <= k < days.len() ==> match (earliest_day(days), #[trigger] days[k]) {
                (Some(e), Some(d)) => e <= d,
                _ => true,
            },
    decreases days.len(),
{
    if days.len() > 0 {
        let p = days.drop_last();
        law_earliest_day(p);
        assert forall|k: int| 0 <= k < p.len() implies days[k] == #[trigger] p[k] by {}
        let n = days.len() - 1;
        if earliest_day(p) is Some {
            let k = choose|k: int| 0 <= k < p.len() && p[k] is Some;
            assert(days[k] is Some);
        }
        assert forall|k: int| 0 <= k < days.len() implies match (
            earliest_day(days),
            #[trigger] days[k],
        ) {
            (Some(e), Some(d)) => e <= d,
            _ => true,
        } by {
            if k < n {
                assert(days[k] == p[k]);
                if let (Some(e), Some(d)) = (earliest_day(days), days[k]) {
                    assert(earliest_day(p) is Some);
                }
            }
        }
        match earliest_day(days) {
            Some(e) => {
                if days.last() is Some && (earliest_day(p) is None || days.last()->0 < earliest_day(
                    p,
                )->0) {
                    assert(days[n] == Some(e));
                } else {
                    let k = choose|k: int| 0 <= k < p.len() && p[k] == Some(e);
                    assert(days[k] == Some(e));
                }
            },
            None => {
                assert forall|k: int| 0 <= k < days.len() implies !(days[k] is Some) by {
                    if k < n {
                        assert(days[k] == p[k]);
                    }
                }
            },
        }
    }
}

/// The earliest start date of a calendar file, as a day number.
pub open spec fn spec_earliest_start_date(csv: Seq<char>) -> Option<i32> {
    match spec_start_date_fields(csv) {
        Some(fs) => earliest_day(fs.map_values(|f: Seq<char>| calendar_day(f))),
        None => None,
    }
}

/// The earliest day depends only on which days are given, not on their order
/// or how often each comes.
proof fn lemma_earliest_day_by_contents(a: Seq<Option<i32>>, b: Seq<Option<i32>>)
    requires
        forall|x: Option<i32>| a.contains(x) <==> b.contains(x),
    ensures
        earliest_day(a) == earliest_day(b),
{
    law_earliest_day(a);
    law_earliest_day(b);
    if earliest_day(a) is Some {
        let k = choose|k: int| 0 <= k < a.len() && a[k] is Some;
        assert(a.contains(a[k]));
        let j = choose|j: int| 0 <= j < b.len() && b[j] == a[k];
        assert(b[j] is Some);
    }
    if earliest_day(b) is Some {
        let k = choose|k: int| 0 <= k < b.len() && b[k] is Some;
        assert(b.contains(b[k]));
        let j = choose|j: int| 0 <= j < a.len() && a[j] == b[k];
        assert(a[j] is Some);
    }
    if let (Some(ea), Some(eb)) = (earliest_day(a), earliest_day(b)) {
        let ka = choose|k: int| 0 <= k < a.len() && a[k] == Some(ea);
        assert(a.contains(a[ka]));
        let jb = choose|j: int| 0 <= j < b.len() && b[j] == Some(ea);
        assert(match (earliest_day(b), b[jb]) {
            (Some(e), Some(d)) => e <= d,
            _ => true,
        });
        let kb = choose|k: int| 0 <= k < b.len() && b[k] == Some(eb);
        assert(b.contains(b[kb]));
        let ja = choose|j: int| 0 <= j < a.len() && a[j] == Some(eb);
        assert(match (earliest_day(a), a[ja]) {
            (Some(e), Some(d)) => e <= d,
            _ => true,
        });
    }
}

/// A field is among the fields at `idx` exactly when some line has it there.
proof fn lemma_fields_at_contains(lines: Seq<Seq<char>>, idx: int, f: Seq<char>)
    ensures
        fields_at(lines, idx).contains(f) <==> exists|k: int|
            0 <= k < lines.len() && field_at(#[trigger] lines[k], idx) == Some(f),
    decreases lines.len(),
{
    if lines.len() > 0 {
        let p = lines.drop_last();
        let n = lines.len() - 1;
        lemma_fields_at_contains(p, idx, f);
        let prev = fields_at(p, idx);
        if fields_at(lines, idx).contains(f) {
            let i = choose|i: int| 0 <= i < fields_at(lines, idx).len() && fields_at(lines, idx)[i] == f;
            if i < prev.len() {
                assert(prev[i] == f);
                assert(prev.contains(f));
                let k = choose|k: int| 0 <= k < p.len() && field_at(p[k], idx) == Some(f);
                assert(lines[k] == p[k]);
            } else {
                assert(field_at(lines[n], idx) == Some(f));
            }
        }
        if exists|k: int| 0 <= k < lines.len() && field_at(#[trigger] lines[k], idx) == Some(f) {
            let k = choose|k: int| 0 <= k < lines.len() && field_at(lines[k], idx) == Some(f);
            if k < n {
                assert(p[k] == lines[k]);
                let i = choose|i: int| 0 <= i < prev.len() && prev[i] == f;
                assert(fields_at(lines, idx)[i] == f);
            } else {
                assert(lines.last() == lines[k]);
                let all = fields_at(lines, idx);
                assert(all[all.len() - 1] == f);
            }
        }
    }
}

/// A day that the rows `l1` give at the column `idx` is one that the rows `l2`
/// give too, when `l2` holds the same rows.
proof fn lemma_days_shared(l1: Seq<Seq<char>>, l2: Seq<Seq<char>>, idx: int, x: Option<i32>)
    requires
        l1.to_multiset() == l2.to_multiset(),
        fields_at(l1, idx).map_values(|f: Seq<char>| calendar_day(f)).contains(x),
    ensures
        fields_at(l2, idx).map_values(|f: Seq<char>| calendar_day(f)).contains(x),
{
    let f1 = fields_at(l1, idx);
    let f2 = fields_at(l2, idx);
    let d1 = f1.map_values(|f: Seq<char>| calendar_day(f));
    let d2 = f2.map_values(|f: Seq<char>| calendar_day(f));
    let i = choose|i: int| 0 <= i < d1.len() && d1[i] == x;
    let f = f1[i];
    assert(f1.contains(f));
    lemma_fields_at_contains(l1, idx, f);
    let k = choose|k: int| 0 <= k < l1.len() && field_at(l1[k], idx) == Some(f);
    assert(l1.contains(l1[k]));
    to_multiset_contains(l1, l1[k]);
    to_multiset_contains(l2, l1[k]);
    let j = choose|j: int| 0 <= j < l2.len() && l2[j] == l1[k];
    lemma_fields_at_contains(l2, idx, f);
    assert(field_at(l2[j], idx) == Some(f));
    let i2 = choose|i2: int| 0 <= i2 < f2.len() && f2[i2] == f;
    assert(d2[i2] == x);
}

/// Reordering the rows of a calendar file, under the same header line, leaves
/// its earliest start date unchanged.
pub proof fn law_earliest_start_date_ignores_row_order(c1: Seq<char>, c2: Seq<char>)
    requires
        spec_lines(c1).len() > 0,
        spec_lines(c2).len() > 0,
        spec_lines(c1)[0] == spec_lines(c2)[0],
        spec_lines(c1).drop_first().to_multiset() == spec_lines(c2).drop_first().to_multiset(),
    ensures
        spec_earliest_start_date(c1) == spec_earliest_start_date(c2),
{
    let l1 = spec_lines(c1).drop_first();
    let l2 = spec_lines(c2).drop_first();
    if let Some(idx) = column_index(spec_split(spec_lines(c1)[0], ','), "start_date"@) {
        let d1 = fields_at(l1, idx).map_values(|f: Seq<char>| calendar_day(f));
        let d2 = fields_at(l2, idx).map_values(|f: Seq<char>| calendar_day(f));
        assert forall|x: Option<i32>| d1.contains(x) <==> d2.contains(x) by {
            if d1.contains(x) {
                lemma_days_shared(l1, l2, idx, x);
            }
            if d2.contains(x) {
                lemma_days_shared(l2, l1, idx, x);
            }
        }
        lemma_earliest_day_by_contents(d1, d2);
    }
}

fn clean(f: &Vec<char>) -> (res: Vec<char>)
    ensures
        res@ == clean_field(f@),
{
    let t = trim_chars(f, false);
    trim_chars(&t, true)
}

fn find_column(fields: &Vec<Vec<char>>, name: &Vec<char>) -> (res: Option<usize>)
    ensures
        match res {
            Some(i) => column_index(char_seqs(fields@), name@) == Some(i as int),
            None => column_index(char_seqs(fields@), name@) is None,
        },
{
    let ghost fv = char_seqs(fields@);
    let mut i: usize = 0;
    assert(fv.subrange(0, fv.len() as int) =~= fv);
    while i < fields.len()
        invariant
            i <= fields.len(),
            fv == char_seqs(fields@),
            column_index(fv, name@) == match column_index(
                fv.subrange(i as int, fv.len() as int),
                name@,
            ) {
                Some(k) => Some(k + i),
                None => None,
            },
        decreases fields.len() - i,
    {
        assert(fv.subrange(i as int, fv.len() as int).drop_first() =~= fv.subrange(
            i + 1,
            fv.len() as int,
        ));
        assert(fv.subrange(i as int, fv.len() as int)[0] == fields@[i as int]@);
        let c = clean(&fields[i]);
        if chars_eq(&c, name) {
            return Some(i);
        }
        i = i + 1;
    }
    None
}

/// The `start_date` fields of the rows of a calendar file, cleaned, in file
/// order; none if the file has no header line or the header has no such column.
pub fn start_date_fields(csv: &str) -> (res: Option<Vec<String>>)
    ensures
        match spec_start_date_fields(csv@) {
            Some(fs) => res matches Some(r) && string_views(r@) == fs,
            None => res is None,
        },
{
    let cs = chars_of(csv);
    let lines = lines_of(&cs);
    let ghost lv = char_seqs(lines@);
    if lines.len() == 0 {
        return None;
    }
    let header = split_chars(&lines[0], ',');
    let name = chars_of("start_date");
    let idx = match find_column(&header, &name) {
        Some(i) => i,
        None => return None,
    };
    assert(lv[0] == lines@[0]@);
    assert(lv == spec_lines(csv@));
    assert(column_index(spec_split(lv[0], ','), "start_date"@) == Some(idx as int));
    let ghost rest = lv.drop_first();
    let mut res: Vec<String> = Vec::new();
    let mut i: usize = 1;
    assert(rest.take(0) =~= Seq::<Seq<char>>::empty());
    while i < lines.len()
        invariant
            1 <= i <= lines.len(),
            lv == char_seqs(lines@),
            rest == lv.drop_first(),
            string_views(res@) == fields_at(rest.take(i - 1), idx as int),
        decreases lines.len() - i,
    {
        let line = &lines[i];
        assert(rest.take(i as int).drop_last() =~= rest.take(i - 1));
        assert(rest.take(i as int).last() == line@);
        let ghost before = string_views(res@);
        let t = trim_chars(line, false);
        if t.len() > 0 {
            let fields = split_chars(line, ',');
            if idx < fields.len() {
                assert(char_seqs(fields@)[idx as int] == fields@[idx as int]@);
                let f = clean(&fields[idx]);
                let s = string_from(&f);
                res.push(s);
                assert(string_views(res@) =~= before.push(f@));
            }
        }
        i = i + 1;
    }
    assert(rest.take(lines.len() - 1) =~= rest);
    Some(res)
}

/// The earliest of the days that are present.
pub fn earliest_of(days: &Vec<Option<i32>>) -> (res: Option<i32>)
    ensures
        res == earliest_day(days@),
{
    let mut earliest: Option<i32> = None;
    let mut i: usize = 0;
    while i < days.len()
        invariant
            i <= days.len(),
            earliest == earliest_day(days@.take(i as int)),
        decreases days.len() - i,
    {
        assert(days@.take(i + 1).drop_last() =~= days@.take(i as int));
        if let Some(d) = days[i] {
            earliest = Some(
                match earliest {
                    Some(e) => if e <= d {
                        e
                    } else {
                        d
                    },
                    None => d,
                },
            );
        }
        i = i + 1;
    }
    assert(days@.take(days.len() as int) =~= days@);
    earliest
}

/// Scans `calendar.txt` for the earliest `start_date` across all service rows,
/// as a day number; dates that chrono does not parse are passed over.
pub fn earliest_start_date(csv: &str) -> (res: Option<i32>)
    ensures
        res == spec_earliest_start_date(csv@),
{
    let fields = match start_date_fields(csv) {
        Some(f) => f,
        None => return None,
    };
    let ghost fv = string_views(fields@);
    let mut days: Vec<Option<i32>> = Vec::new();
    let mut i: usize = 0;
    while i < fields.len()
        invariant
            i <= fields.len(),
            fv == string_views(fields@),
            days@ == fv.take(i as int).map_values(|f: Seq<char>| calendar_day(f)),
        decreases fields.len() - i,
    {
        let d = parse_calendar_day(fields[i].as_str());
        days.push(d);
        assert(days@ =~= fv.take(i + 1).map_values(|f: Seq<char>| calendar_day(f)));
        i = i + 1;
    }
    assert(fv.take(fields.len() as int) =~= fv);
    earliest_of(&days)
}

// ---------------------------------------------------------------------------
// Slots
// ---------------------------------------------------------------------------

#[derive(PartialEq, Eq, Structural, Clone, Copy, Debug)]
pub enum Slot {
    /// The data in use.
    Active,
    /// Data whose service starts later, kept until it does.
    Pending,
}

pub open spec fn slot_name(slot: Slot) -> Seq<char> {
    match slot {
        Slot::Active => "active"@,
        Slot::Pending => "pending"@,
    }
}

impl Slot {
    /// The slot's key prefix.
    pub fn name(&self) -> (res: String)
        ensures
            res@ == slot_name(*self),
    {
        match self {
            Slot::Active => "active".to_owned(),
            Slot::Pending => "pending".to_owned(),
        }
    }
}

/// The slot for new data whose service starts on the day `start`: pending if
/// that day is still to come, active otherwise.
pub open spec fn spec_choose_slot(start: Option<i32>, today: i32) -> Slot {
    match start {
        Some(s) => if s > today {
            Slot::Pending
        } else {
            Slot::Active
        },
        None => Slot::Active,
    }
}

/// The slot for new data whose earliest service starts on the day `start`.
pub fn choose_slot(start: Option<i32>, today: i32) -> (res: Slot)
    ensures
        res == spec_choose_slot(start, today),
        (res == Slot::Pending) <==> (start matches Some(s) && s > today),
{
    match start {
        Some(s) => if s > today {
            Slot::Pending
        } else {
            Slot::Active
        },
        None => Slot::Active,
    }
}

/// New data goes to the pending slot exactly when its earliest start date is
/// known and later than today; else to the active slot, and then, and only
/// then, the pending copies of the needed files are deleted.
pub proof fn law_pending_exactly_when_future(start: Option<i32>, today: i32)
    ensures
        (spec_choose_slot(start, today) == Slot::Pending) <==> (start matches Some(s) && s > today),
        (spec_choose_slot(start, today) == Slot::Active) <==> !(start matches Some(s) && s > today),
        (spec_deletions(spec_choose_slot(start, today)).len() > 0) <==> !(start matches Some(s) && s
            > today),
{
}

/// A file: its name and its contents.
pub struct GtfsFile {
    pub name: String,
    pub contents: String,
}

/// A write to the store: the key and the contents.
pub struct Upload {
    pub key: String,
    pub contents: String,
}

/// What a refresh writes and deletes.
pub struct RefreshPlan {
    pub slot: Slot,
    pub uploads: Vec<Upload>,
    pub deletions: Vec<String>,
}

pub open spec fn file_views(v: Seq<GtfsFile>) -> Seq<(Seq<char>, Seq<char>)> {
    v.map_values(|f: GtfsFile| (f.name@, f.contents@))
}

pub open spec fn upload_views(v: Seq<Upload>) -> Seq<(Seq<char>, Seq<char>)> {
    v.map_values(|u: Upload| (u.key@, u.contents@))
}

/// The contents of the first file named `calendar.txt`, or nothing.
pub open spec fn calendar_contents(files: Seq<(Seq<char>, Seq<char>)>) -> Seq<char>
    decreases files.len(),
{
    if files.len() == 0 {
        Seq::empty()
    } else if files[0].0 == "calendar.txt"@ {
        files[0].1
    } else {
        calendar_contents(files.drop_first())
    }
}

/// Each file put under the slot's prefix, in order.
pub open spec fn spec_uploads(files: Seq<(Seq<char>, Seq<char>)>, slot: Slot) -> Seq<
    (Seq<char>, Seq<char>),
> {
    files.map_values(|f: (Seq<char>, Seq<char>)| (slot_key(slot_name(slot), f.0), f.1))
}

/// The pending copies of the needed files, when the new data is active; none otherwise.
pub open spec fn spec_deletions(slot: Slot) -> Seq<Seq<char>> {
    match slot {
        Slot::Active => needed_file_names().map_values(|n: Seq<char>| slot_key("pending"@, n)),
        Slot::Pending => Seq::empty(),
    }
}

fn calendar_file(files: &Vec<GtfsFile>) -> (res: String)
    ensures
        res@ == calendar_contents(file_views(files@)),
{
    let ghost fv = file_views(files@);
    let name = "calendar.txt".to_owned();
    let mut i: usize = 0;
    assert(fv.subrange(0, fv.len() as int) =~= fv);
    while i < files.len()
        invariant
            i <= files.len(),
            fv == file_views(files@),
            name@ == "calendar.txt"@,
            calendar_contents(fv) == calendar_contents(fv.subrange(i as int, fv.len() as int)),
        decreases files.len() - i,
    {
        assert(fv.subrange(i as int, fv.len() as int).drop_first() =~= fv.subrange(
            i + 1,
            fv.len() as int,
        ));
        if files[i].name == name {
            return files[i].contents.clone();
        }
        i = i + 1;
    }
    String::new()
}

/// Decides where fetched files go: under `pending/` when the calendar's
/// earliest start date is after `today`, else under `active/`, in which case
/// the pending copies of the needed files are deleted.
pub fn plan_refresh(files: &Vec<GtfsFile>, today: i32) -> (res: RefreshPlan)
    ensures
        res.slot == spec_choose_slot(
            spec_earliest_start_date(calendar_contents(file_views(files@))),
            today,
        ),
        upload_views(res.uploads@) == spec_uploads(file_views(files@), res.slot),
        string_views(res.deletions@) == spec_deletions(res.slot),
{
    let calendar = calendar_file(files);
    let start = earliest_start_date(calendar.as_str());
    let slot = choose_slot(start, today);
    let prefix = slot.name();
    let ghost fv = file_views(files@);
    let mut uploads: Vec<Upload> = Vec::new();
    let mut i: usize = 0;
    while i < files.len()
        invariant
            i <= files.len(),
            fv == file_views(files@),
            prefix@ == slot_name(slot),
            upload_views(uploads@) == spec_uploads(fv.take(i as int), slot),
        decreases files.len() - i,
    {
        let f = &files[i];
        let u = Upload { key: key_in(prefix.as_str(), &f.name), contents: f.contents.clone() };
        let ghost before = upload_views(uploads@);
        uploads.push(u);
        assert(upload_views(uploads@) =~= before.push((slot_key(slot_name(slot), f.name@), f.contents@)));
        assert(spec_uploads(fv.take(i + 1), slot) =~= spec_uploads(fv.take(i as int), slot).push(
            (slot_key(slot_name(slot), fv[i as int].0), fv[i as int].1),
        ));
        i = i + 1;
    }
    assert(fv.take(files.len() as int) =~= fv);
    let mut deletions: Vec<String> = Vec::new();
    if slot == Slot::Active {
        deletions = pending_keys();
    }
    assert(string_views(deletions@) =~= spec_deletions(slot));
    RefreshPlan { slot, uploads, deletions }
}

/// The keys of the needed files in the pending slot.
pub fn pending_keys() -> (res: Vec<String>)
    ensures
        string_views(res@) == needed_file_names().map_values(|n: Seq<char>| slot_key("pending"@, n)),
{
    let names = needed_files();
    let ghost nv = string_views(names@);
    let mut res: Vec<String> = Vec::new();
    let mut i: usize = 0;
    while i < names.len()
        invariant
            i <= names.len(),
            nv == string_views(names@),
            nv == needed_file_names(),
            string_views(res@) == nv.take(i as int).map_values(|n: Seq<char>| slot_key("pending"@, n)),
        decreases names.len() - i,
    {
        let k = key_in("pending", &names[i]);
        let ghost before = string_views(res@);
        res.push(k);
        assert(string_views(res@) =~= before.push(slot_key("pending"@, nv[i as int])));
        assert(nv.take(i + 1).map_values(|n: Seq<char>| slot_key("pending"@, n)) =~= nv.take(
            i as int,
        ).map_values(|n: Seq<char>| slot_key("pending"@, n)).push(slot_key("pending"@, nv[i as int])));
        i = i + 1;
    }
    assert(nv.take(names.len() as int) =~= nv);
    res
}

/// The key of the `i`th needed file in the slot `slot`.
pub open spec fn file_key(slot: Seq<char>, i: int) -> Seq<char> {
    slot_key(slot, needed_file_names()[i])
}

/// What the pending slot holds under a key.
pub enum PendingObject {
    /// No object.
    Missing,
    /// An object without a body.
    NoBody,
    /// The text of the object's body.
    Text(String),
}

/// The next thing that promoting pending data to the active slot does.
pub enum PromotionAction {
    /// Read the pending object `key` of the `index`th needed file.
    Fetch { index: usize, key: String },
    /// Write `contents` under the active key `key` of the `index`th needed file.
    Store { index: usize, key: String, contents: String },
    /// Delete the pending key `key` of the `index`th needed file.
    Remove { index: usize, key: String },
    /// Every needed file has moved.
    Done,
    /// Stop, with this message.
    Fail(String),
}

/// The action that starts on the `i`th needed file: fetch its pending object,
/// or, past the last file, done.
pub open spec fn starts_file(a: PromotionAction, i: int) -> bool {
    if 0 <= i < needed_file_names().len() {
        a matches PromotionAction::Fetch { index, key } && index == i && key@ == file_key(
            "pending"@,
            i,
        )
    } else {
        a is Done
    }
}

fn start_file(i: usize) -> (res: PromotionAction)
    ensures
        starts_file(res, i as int),
{
    let names = needed_files();
    if i < names.len() {
        assert(names@[i as int]@ == needed_file_names()[i as int]);
        PromotionAction::Fetch { index: i, key: key_in("pending", &names[i]) }
    } else {
        PromotionAction::Done
    }
}

/// Promoting pending data begins with the pending object of the first needed file.
pub fn promotion_start() -> (res: PromotionAction)
    ensures
        starts_file(res, 0),
{
    start_file(0)
}

/// After reading the pending object of the `index`th needed file: with no
/// object, stop with "`name` not found in pending slot"; with an object without
/// a body, stop with "`key` has no body"; else write its text under the file's
/// active key.
pub fn after_fetch(index: usize, object: PendingObject) -> (res: PromotionAction)
    ensures
        index < needed_file_names().len() ==> match object {
            PendingObject::Missing => res matches PromotionAction::Fail(m) && m@
                == needed_file_names()[index as int] + " not found in pending slot"@,
            PendingObject::NoBody => res matches PromotionAction::Fail(m) && m@ == file_key(
                "pending"@,
                index as int,
            ) + " has no body"@,
            PendingObject::Text(t) => res matches PromotionAction::Store { index: i, key, contents }
                && i == index && key@ == file_key("active"@, index as int) && contents@ == t@,
        },
        index >= needed_file_names().len() ==> res is Done,
{
    let names = needed_files();
    if index >= names.len() {
        return PromotionAction::Done;
    }
    let name = &names[index];
    assert(name@ == needed_file_names()[index as int]);
    proof {
        reveal_strlit("");
    }
    match object {
        PendingObject::Missing => {
            let m = message3(name.as_str(), " not found in pending slot", "", "");
            assert(m@ =~= name@ + " not found in pending slot"@);
            PromotionAction::Fail(m)
        },
        PendingObject::NoBody => {
            let key = key_in("pending", name);
            let m = message3(key.as_str(), " has no body", "", "");
            assert(m@ =~= key@ + " has no body"@);
            PromotionAction::Fail(m)
        },
        PendingObject::Text(contents) => PromotionAction::Store {
            index,
            key: key_in("active", name),
            contents,
        },
    }
}

/// After writing the `index`th needed file to the active slot: delete its
/// pending key.
pub fn after_store(index: usize) -> (res: PromotionAction)
    ensures
        index < needed_file_names().len() ==> (res matches PromotionAction::Remove { index: i, key }
            && i == index && key@ == file_key("pending"@, index as int)),
        index >= needed_file_names().len() ==> res is Done,
{
    let names = needed_files();
    if index >= names.len() {
        return PromotionAction::Done;
    }
    assert(names@[index as int]@ == needed_file_names()[index as int]);
    PromotionAction::Remove { index, key: key_in("pending", &names[index]) }
}

/// After deleting the pending key of the `index`th needed file, whether or not
/// the delete worked: go on with the next file.
pub fn after_remove(index: usize, _deleted: bool) -> (res: PromotionAction)
    ensures
        starts_file(res, index + 1),
{
    if index >= needed_files().len() {
        return PromotionAction::Done;
    }
    start_file(index + 1)
}

// ---------------------------------------------------------------------------
// Scheduled runs
// ---------------------------------------------------------------------------

/// What a cron trigger asks for.
#[derive(PartialEq, Eq, Structural, Clone, Copy, Debug)]
pub enum CronTask {
    /// Download the static GTFS data again (Mondays at 03:00).
    RefreshGtfs,
    /// Compute the departures (every 15 minutes).
    Departures,
}

/// The weekly refresh pattern, `0 3 * * 1`; any other pattern computes departures.
pub open spec fn spec_cron_task(cron: Seq<char>) -> CronTask {
    if cron == "0 3 * * 1"@ {
        CronTask::RefreshGtfs
    } else {
        CronTask::Departures
    }
}

/// The task for the cron pattern that fired.
pub fn cron_task(cron: &str) -> (res: CronTask)
    ensures
        res == spec_cron_task(cron@),
{
    let c = chars_of(cron);
    let weekly = chars_of("0 3 * * 1");
    if chars_eq(&c, &weekly) {
        CronTask::RefreshGtfs
    } else {
        CronTask::Departures
    }
}

// ---------------------------------------------------------------------------
// The downloaded archive
// ---------------------------------------------------------------------------

#[verifier::external_type_specification]
#[verifier::external_body]
#[verifier::reject_recursive_types(R)]
pub struct ExZipArchive<R>(zip::ZipArchive<R>);

#[verifier::external_type_specification]
#[verifier::external_body]
#[verifier::reject_recursive_types(T)]
pub struct ExCursor<T>(std::io::Cursor<T>);

#[verifier::external_type_specification]
#[verifier::external_body]
pub struct ExZipError(zip::result::ZipError);

/// Whether `zip::ZipArchive::new` reads the bytes `bytes` as an archive.
pub uninterp spec fn zip_opens(bytes: Seq<u8>) -> bool;

/// Whether `zip::ZipArchive::by_name` gives the entry `name` of the archive
/// read from `bytes` (it fails where there is no such entry, or where the
/// entry's header cannot be read).
pub uninterp spec fn zip_has_entry(bytes: Seq<u8>, name: Seq<char>) -> bool;

/// What `std::io::Read::read_to_string` gives on the entry `name` of the
/// archive read from `bytes`: its text, or `None` where it fails.
pub uninterp spec fn zip_entry_text(bytes: Seq<u8>, name: Seq<char>) -> Option<Seq<char>>;

/// The bytes that an open archive reads.
pub uninterp spec fn archive_source(archive: zip::ZipArchive<std::io::Cursor<Vec<u8>>>) -> Seq<u8>;

/// `zip::ZipArchive::new` over the downloaded bytes, read through a
/// `std::io::Cursor`: whether it opens is named by `zip_opens`, and the archive
/// it gives reads those bytes.
#[verifier::external_body]
fn open_archive(bytes: Vec<u8>) -> (res: Result<
    zip::ZipArchive<std::io::Cursor<Vec<u8>>>,
    zip::result::ZipError,
>)
    ensures
        res is Ok == zip_opens(bytes@),
        res matches Ok(a) ==> archive_source(a) == bytes@,
{
    zip::ZipArchive::new(std::io::Cursor::new(bytes))
}

/// What reading one entry of the archive gave.
enum EntryRead {
    /// The entry's text.
    Text(String),
    /// `by_name` failed; the error's text.
    Missing(String),
    /// `read_to_string` failed; the error's text.
    Unreadable(String),
}

/// `zip::ZipArchive::by_name`, then `std::io::Read::read_to_string` on the
/// entry it gives, into an empty `String`. Whether the entry is given is named
/// by `zip_has_entry`, and what it reads as by `zip_entry_text`; the archive
/// still reads the same bytes. The two calls stand in one wrapper because the
/// entry's type, `zip::read::ZipFile`, is bounded by `std::io::Read`, which
/// Verus is not given. What the error texts say is not stated.
#[verifier::external_body]
fn read_entry(archive: &mut zip::ZipArchive<std::io::Cursor<Vec<u8>>>, name: &str) -> (res: EntryRead)
    ensures
        archive_source(*final(archive)) == archive_source(*old(archive)),
        res is Missing == !zip_has_entry(archive_source(*old(archive)), name@),
        zip_has_entry(archive_source(*old(archive)), name@) ==> match zip_entry_text(
            archive_source(*old(archive)),
            name@,
        ) {
            Some(t) => res matches EntryRead::Text(s) && s@ == t,
            None => res is Unreadable,
        },
{
    match archive.by_name(name) {
        Err(e) => EntryRead::Missing(e.to_string()),
        Ok(mut file) => {
            let mut text = String::new();
            match std::io::Read::read_to_string(&mut file, &mut text) {
                Ok(_) => EntryRead::Text(text),
                Err(e) => EntryRead::Unreadable(e.to_string()),
            }
        },
    }
}

/// The text of a `zip::result::ZipError`, as its `Display` writes it. What
/// the text says is not stated.
#[verifier::external_body]
fn zip_error_text(e: &zip::result::ZipError) -> (res: String) {
    e.to_string()
}

pub open spec fn file_names(v: Seq<GtfsFile>) -> Seq<Seq<char>> {
    v.map_values(|f: GtfsFile| f.name@)
}

/// The entry `name` of the archive `bytes` is there and reads as text.
pub open spec fn entry_readable(bytes: Seq<u8>, name: Seq<char>) -> bool {
    zip_has_entry(bytes, name) && zip_entry_text(bytes, name) is Some
}

/// The archive `bytes` opens and holds each needed file as text.
pub open spec fn extractable(bytes: Seq<u8>) -> bool {
    zip_opens(bytes) && forall|k: int|
        0 <= k < needed_file_names().len() ==> entry_readable(bytes, #[trigger] needed_file_names()[k])
}

/// The message that extracting from the archive `bytes` fails with, given the
/// text `t` of the error that stopped it: the archive does not open, or the
/// first needed file, in order, that is missing or unreadable.
pub open spec fn extract_error(bytes: Seq<u8>, m: Seq<char>) -> bool {
    if !zip_opens(bytes) {
        exists|t: Seq<char>| m == "Failed to open zip: "@ + t
    } else {
        exists|k: int|
            0 <= k < needed_file_names().len() && !entry_readable(
                bytes,
                #[trigger] needed_file_names()[k],
            ) && (forall|j: int| 0 <= j < k ==> entry_readable(bytes, needed_file_names()[j])) && if zip_has_entry(
                bytes,
                needed_file_names()[k],
            ) {
                exists|t: Seq<char>| m == "Failed to read "@ + needed_file_names()[k] + ": "@ + t
            } else {
                exists|t: Seq<char>| m == "Missing "@ + needed_file_names()[k] + " in zip: "@ + t
            }
    }
}

fn message3(a: &str, b: &str, c: &str, d: &str) -> (res: String)
    ensures
        res@ == a@ + b@ + c@ + d@,
{
    let mut m = a.to_owned();
    m.append(b);
    m.append(c);
    m.append(d);
    m
}

/// Reads the needed files out of the downloaded archive, in the order of
/// `needed_files`; fails on the first that is missing or unreadable.
pub fn extract_gtfs_files(bytes: Vec<u8>) -> (res: Result<Vec<GtfsFile>, String>)
    ensures
        res is Ok == extractable(bytes@),
        match res {
            Ok(files) => file_names(files@) == needed_file_names() && forall|k: int|
                0 <= k < files@.len() ==> zip_entry_text(bytes@, needed_file_names()[k]) == Some(
                    #[trigger] files@[k].contents@,
                ),
            Err(m) => extract_error(bytes@, m@),
        },
{
    let ghost src = bytes@;
    let mut archive = match open_archive(bytes) {
        Ok(a) => a,
        Err(e) => {
            let t = zip_error_text(&e);
            let m = message3("Failed to open zip: ", t.as_str(), "", "");
            proof {
                reveal_strlit("");
                assert(m@ =~= "Failed to open zip: "@ + t@);
            }
            return Err(m);
        },
    };
    let names = needed_files();
    let mut files: Vec<GtfsFile> = Vec::new();
    let mut i: usize = 0;
    while i < names.len()
        invariant
            i <= names.len(),
            string_views(names@) == needed_file_names(),
            src == bytes@,
            zip_opens(src),
            archive_source(archive) == src,
            file_names(files@) == needed_file_names().take(i as int),
            forall|j: int| 0 <= j < i ==> entry_readable(src, #[trigger] needed_file_names()[j]),
            forall|j: int|
                0 <= j < i ==> zip_entry_text(src, needed_file_names()[j]) == Some(
                    #[trigger] files@[j].contents@,
                ),
        decreases names.len() - i,
    {
        let name = &names[i];
        let ghost n = needed_file_names()[i as int];
        assert(name@ == n);
        let contents = match read_entry(&mut archive, name.as_str()) {
            EntryRead::Text(text) => text,
            EntryRead::Missing(t) => {
                let m = message3("Missing ", name.as_str(), " in zip: ", t.as_str());
                assert(m@ == "Missing "@ + n + " in zip: "@ + t@);
                assert(!entry_readable(src, needed_file_names()[i as int]));
                return Err(m);
            },
            EntryRead::Unreadable(t) => {
                let m = message3("Failed to read ", name.as_str(), ": ", t.as_str());
                assert(m@ == "Failed to read "@ + n + ": "@ + t@);
                assert(!entry_readable(src, needed_file_names()[i as int]));
                return Err(m);
            },
        };
        let ghost before = file_names(files@);
        let f = GtfsFile { name: name.clone(), contents };
        files.push(f);
        assert(file_names(files@) =~= before.push(n));
        assert(needed_file_names().take(i + 1) =~= needed_file_names().take(i as int).push(n));
        i = i + 1;
    }
    assert(needed_file_names().take(5) =~= needed_file_names());
    Ok(files)
}

} // verus!
