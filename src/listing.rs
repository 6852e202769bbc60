//! The snapshot store's listings, read into values the engine judges, and
//! the guard that every destroy request passes first.
use vstd::prelude::*;

use crate::parse::{find_char, first_at, ParseError};
use crate::policy::RetentionPolicy;
use crate::schedule::ConfiguredDataSet;
use crate::snapshot::SnapshotMetadata;

verus! {

/// Why a listing of the snapshot store, or a request to it, was refused.
#[derive(Clone, Debug, PartialEq, Eq)]
pub enum StoreError {
    /// A row of the snapshot listing does not have four columns.
    BadRow,
    /// A creation time that neither known format reads.
    BadDatetime(String),
    /// A size that cannot be read as a number of bytes.
    BadSize(String),
    /// A row of the volume listing does not have two columns.
    BadDatasetRow,
    /// A volume's policy text was refused.
    BadPolicy(ParseError),
    /// The name given to destroy is not a snapshot's.
    NotASnapshot,
}

/// The mathematical content of a [`StoreError`].
pub enum StoreErrorView {
    BadRow,
    BadDatetime(Seq<char>),
    BadSize(Seq<char>),
    BadDatasetRow,
    BadPolicy(ParseError),
    NotASnapshot,
}

impl View for StoreError {
    type V = StoreErrorView;

    open spec fn view(&self) -> StoreErrorView {
        match self {
            StoreError::BadRow => StoreErrorView::BadRow,
            StoreError::BadDatetime(s) => StoreErrorView::BadDatetime(s@),
            StoreError::BadSize(s) => StoreErrorView::BadSize(s@),
            StoreError::BadDatasetRow => StoreErrorView::BadDatasetRow,
            StoreError::BadPolicy(e) => StoreErrorView::BadPolicy(*e),
            StoreError::NotASnapshot => StoreErrorView::NotASnapshot,
        }
    }
}

/// The sentence that says what `e` found wrong.
pub open spec fn store_message(e: StoreErrorView) -> Seq<char> {
    match e {
        StoreErrorView::BadRow => "list snapshots parse error"@,
        StoreErrorView::BadDatetime(s) => "can't parse datetime: "@ + s,
        StoreErrorView::BadSize(s) => "can't parse size: "@ + s,
        StoreErrorView::BadDatasetRow => "list datasets parse error"@,
        StoreErrorView::BadPolicy(p) => "invalid retention policy: "@ + crate::parse::parse_message(p),
        StoreErrorView::NotASnapshot => "Tried to destroy something that is not a snapshot"@,
    }
}

impl StoreError {
    /// A sentence that says what was wrong.
    pub fn to_string(&self) -> (text: String)
        ensures
            text@ == store_message(self@),
    {
        match self {
            StoreError::BadRow => String::from_str("list snapshots parse error"),
            StoreError::BadDatetime(s) => String::from_str("can't parse datetime: ").concat(s.as_str()),
            StoreError::BadSize(s) => String::from_str("can't parse size: ").concat(s.as_str()),
            StoreError::BadDatasetRow => String::from_str("list datasets parse error"),
            StoreError::BadPolicy(e) => String::from_str("invalid retention policy: ").concat(e.message()),
            StoreError::NotASnapshot => String::from_str("Tried to destroy something that is not a snapshot"),
        }
    }
}

/// The seconds since the epoch, read as UTC, of `text` in the chrono
/// `format`; `None` when the text does not match it.
pub uninterp spec fn naive_timestamp_of(text: Seq<char>, format: Seq<char>) -> Option<i64>;

/// The number of bytes that byte_unit reads in `text`; `None` when it reads none.
pub uninterp spec fn byte_count_of(text: Seq<char>) -> Option<u128>;

/// Relies on chrono's `NaiveDateTime::parse_from_str`, with the result read
/// as UTC by `and_utc().timestamp()`: a function of the two texts alone.
#[verifier::external_body]
fn parse_naive_timestamp(text: &str, format: &str) -> (seconds: Option<i64>)
    ensures
        seconds == naive_timestamp_of(text@, format@),
{
    match chrono::NaiveDateTime::parse_from_str(text, format) {
        Ok(t) => Some(t.and_utc().timestamp()),
        Err(_) => None,
    }
}

/// The longest size text handed to byte_unit. With at most this many digits
/// the value stays below 10^17, and even in zebibytes (2^70 bytes each) the
/// count fits in a `u128`; byte_unit multiplies without a check and would
/// panic on longer numbers.
pub const MAX_SIZE_TEXT: usize = 17;

/// Relies on byte_unit's `Byte::from_str` and `Byte::get_bytes`: a function
/// of the text alone. The bound on the length keeps its unchecked
/// multiplication by the unit from overflowing.
#[verifier::external_body]
fn parse_byte_count(text: &str) -> (bytes: Option<u128>)
    requires
        text@.len() <= MAX_SIZE_TEXT,
    ensures
        bytes == byte_count_of(text@),
{
    match byte_unit::Byte::from_str(text) {
        Ok(b) => Some(b.get_bytes()),
        Err(_) => None,
    }
}

/// The RFC 3339 text, to the second and with a `Z` for UTC, of the time
/// `seconds` after the epoch; `None` where chrono cannot represent it.
pub uninterp spec fn rfc3339_of(seconds: i64) -> Option<Seq<char>>;

/// Relies on chrono's `DateTime::from_timestamp` and
/// `to_rfc3339_opts(SecondsFormat::Secs, true)`: a function of the seconds alone.
#[verifier::external_body]
fn rfc3339_text(seconds: i64) -> (text: Option<String>)
    ensures
        match text {
            Some(t) => rfc3339_of(seconds) == Some(t@),
            None => rfc3339_of(seconds) is None,
        },
{
    match chrono::DateTime::from_timestamp(seconds, 0) {
        Some(t) => Some(t.to_rfc3339_opts(chrono::SecondsFormat::Secs, true)),
        None => None,
    }
}

/// The name of the snapshot of `dataset` taken at `seconds` after the epoch:
/// `<dataset>@<RFC 3339 time>-autosnap`. `None` where the time cannot be written.
pub fn snapshot_name(dataset: &str, seconds: i64) -> (name: Option<String>)
    ensures
        match name {
            Some(n) => rfc3339_of(seconds) matches Some(t) && n@ == dataset@ + "@"@ + t + "-autosnap"@,
            None => rfc3339_of(seconds) is None,
        },
{
    match rfc3339_text(seconds) {
        None => None,
        Some(time) => {
            let name = String::from_str(dataset).concat("@").concat(time.as_str()).concat("-autosnap");
            Some(name)
        },
    }
}

/// The format of the store's creation times, as in `Sat Oct 2 09:59 2021`.
pub open spec fn long_format() -> Seq<char> {
    "%a %b %e %H:%M %Y"@
}

/// The format of creation times given as seconds since the epoch.
pub open spec fn seconds_format() -> Seq<char> {
    "%s"@
}

/// The creation time that `text` gives, in the long format or else in
/// seconds since the epoch.
pub open spec fn datetime_of(text: Seq<char>) -> Option<i64> {
    match naive_timestamp_of(text, long_format()) {
        Some(t) => Some(t),
        None => naive_timestamp_of(text, seconds_format()),
    }
}

/// The store writes sizes with a bare binary prefix letter (`1.2M` for
/// 1.2 MiB); the text byte_unit is given spells the unit out.
pub open spec fn size_text_of(text: Seq<char>) -> Seq<char> {
    if text.len() > 0 && (text.last() == 'K' || text.last() == 'M' || text.last() == 'G' || text.last() == 'T'
        || text.last() == 'P' || text.last() == 'E' || text.last() == 'Z') {
        text + "iB"@
    } else {
        text
    }
}

/// The size in bytes that the store's size text `text` stands for; `None`
/// when byte_unit does not read it or the spelled-out text is longer than
/// `MAX_SIZE_TEXT`.
pub open spec fn size_of(text: Seq<char>) -> Option<u128> {
    if size_text_of(text).len() <= MAX_SIZE_TEXT {
        byte_count_of(size_text_of(text))
    } else {
        None
    }
}

/// The creation time that the two readings of `text` give: the long format
/// wins, then seconds since the epoch; neither refuses the text.
pub fn datetime_from(long: Option<i64>, epoch_seconds: Option<i64>, text: &str) -> (created: Result<i64, StoreError>)
    ensures
        match (long, epoch_seconds) {
            (Some(t), _) => created == Ok::<i64, StoreError>(t),
            (None, Some(t)) => created == Ok::<i64, StoreError>(t),
            (None, None) => created matches Err(e) && e@ == StoreErrorView::BadDatetime(text@),
        },
{
    match long {
        Some(t) => Ok(t),
        None => match epoch_seconds {
            Some(t) => Ok(t),
            None => Err(StoreError::BadDatetime(String::from_str(text))),
        },
    }
}

/// Reads a creation time of the snapshot listing.
pub fn parse_datetime(text: &str) -> (created: Result<i64, StoreError>)
    ensures
        created matches Ok(t) ==> datetime_of(text@) == Some(t),
        created matches Err(e) ==> datetime_of(text@) is None && e@ == StoreErrorView::BadDatetime(text@),
{
    proof {
        reveal_strlit("%a %b %e %H:%M %Y");
        reveal_strlit("%s");
    }
    let long = parse_naive_timestamp(text, "%a %b %e %H:%M %Y");
    let epoch_seconds = parse_naive_timestamp(text, "%s");
    datetime_from(long, epoch_seconds, text)
}

/// The text handed to byte_unit for the store's size text `text`.
pub fn size_text(text: &str) -> (spelled: String)
    ensures
        spelled@ == size_text_of(text@),
{
    let n = text.unicode_len();
    if n > 0 {
        let last = text.get_char(n - 1);
        if last == 'K' || last == 'M' || last == 'G' || last == 'T' || last == 'P' || last == 'E' || last == 'Z' {
            proof {
                reveal_strlit("iB");
            }
            return String::from_str(text).concat("iB");
        }
    }
    String::from_str(text)
}

/// Reads a size of the snapshot listing, in bytes.
pub fn parse_used(text: &str) -> (used: Result<u128, StoreError>)
    ensures
        used matches Ok(b) ==> size_of(text@) == Some(b),
        used matches Err(e) ==> size_of(text@) is None && e@ == StoreErrorView::BadSize(text@),
{
    let spelled = size_text(text);
    if spelled.as_str().unicode_len() > MAX_SIZE_TEXT {
        return Err(StoreError::BadSize(String::from_str(text)));
    }
    used_from(parse_byte_count(spelled.as_str()), text)
}

/// The size that byte_unit's reading `bytes` of the size text `text` gives.
pub fn used_from(bytes: Option<u128>, text: &str) -> (used: Result<u128, StoreError>)
    ensures
        match bytes {
            Some(b) => used == Ok::<u128, StoreError>(b),
            None => used matches Err(e) && e@ == StoreErrorView::BadSize(text@),
        },
{
    match bytes {
        Some(b) => Ok(b),
        None => Err(StoreError::BadSize(String::from_str(text))),
    }
}

/// The text of each cell of `rows`.
pub open spec fn rows_view(rows: Seq<Vec<String>>) -> Seq<Seq<Seq<char>>> {
    rows.map_values(|r: Vec<String>| r@.map_values(|c: String| c@))
}

/// Name, creation time and size of each snapshot, in order.
pub open spec fn snapshots_view(snaps: Seq<SnapshotMetadata>) -> Seq<(Seq<char>, i64, u128)> {
    snaps.map_values(|m: SnapshotMetadata| (m.name@, m.created, m.used))
}

/// The snapshots that the listing rows `rows` (name, creation, size, policy
/// property) describe, in order. A row whose property is `-` is left out;
/// the first row that cannot be read decides the error.
pub open spec fn listing_of(rows: Seq<Seq<Seq<char>>>) -> Result<Seq<(Seq<char>, i64, u128)>, StoreErrorView>
    decreases rows.len(),
{
    if rows.len() == 0 {
        Ok(Seq::empty())
    } else {
        match listing_of(rows.drop_last()) {
            Err(e) => Err(e),
            Ok(done) => {
                let row = rows.last();
                if row.len() != 4 {
                    Err(StoreErrorView::BadRow)
                } else if row[3] == "-"@ {
                    Ok(done)
                } else {
                    match datetime_of(row[1]) {
                        None => Err(StoreErrorView::BadDatetime(row[1])),
                        Some(t) => match size_of(row[2]) {
                            None => Err(StoreErrorView::BadSize(row[2])),
                            Some(b) => Ok(done.push((row[0], t, b))),
                        },
                    }
                }
            },
        }
    }
}

/// `text` is a single `-`, the store's mark for a property that is not set.
fn is_unset(text: &str) -> (unset: bool)
    ensures
        unset == (text@ == "-"@),
{
    proof {
        reveal_strlit("-");
    }
    let unset = text.unicode_len() == 1 && text.get_char(0) == '-';
    assert(unset ==> text@ =~= "-"@);
    unset
}

/// Reads the rows of the store's snapshot listing.
pub fn parse_snapshots(lines: Vec<Vec<String>>) -> (snapshots: Result<Vec<SnapshotMetadata>, StoreError>)
    ensures
        match (snapshots, listing_of(rows_view(lines@))) {
            (Ok(v), Ok(s)) => snapshots_view(v@) == s,
            (Err(e), Err(k)) => e@ == k,
            _ => false,
        },
{
    let ghost rows = rows_view(lines@);
    let mut snapshots: Vec<SnapshotMetadata> = Vec::new();
    let mut k: usize = 0;
    assert(rows.take(0) =~= Seq::<Seq<Seq<char>>>::empty());
    assert(snapshots_view(snapshots@) =~= Seq::<(Seq<char>, i64, u128)>::empty());
    while k < lines.len()
        invariant
            k <= lines@.len(),
            rows == rows_view(lines@),
            listing_of(rows.take(k as int)) == Ok::<Seq<(Seq<char>, i64, u128)>, StoreErrorView>(
                snapshots_view(snapshots@),
            ),
        decreases lines@.len() - k,
    {
        let line = &lines[k];
        assert(rows.take(k + 1).drop_last() =~= rows.take(k as int));
        assert(rows.take(k + 1).last() == line@.map_values(|c: String| c@));
        let ghost row = line@.map_values(|c: String| c@);
        if line.len() != 4 {
            proof {
                lemma_listing_prefix_err(rows, k + 1);
                assert(rows.take(k + 1) =~= rows.take(k as int).push(row));
            }
            return Err(StoreError::BadRow);
        }
        assert(row[3] == line@[3]@);
        if is_unset(line[3].as_str()) {
            k = k + 1;
            continue;
        }
        let created = match parse_datetime(line[1].as_str()) {
            Ok(t) => t,
            Err(e) => {
                proof {
                    lemma_listing_prefix_err(rows, k + 1);
                }
                return Err(e);
            },
        };
        let used = match parse_used(line[2].as_str()) {
            Ok(b) => b,
            Err(e) => {
                proof {
                    lemma_listing_prefix_err(rows, k + 1);
                }
                return Err(e);
            },
        };
        let ghost before = snapshots@;
        snapshots.push(SnapshotMetadata { name: line[0].clone(), created, used });
        assert(snapshots_view(snapshots@) =~= snapshots_view(before).push((row[0], created, used)));
        k = k + 1;
    }
    assert(rows.take(lines@.len() as int) =~= rows);
    Ok(snapshots)
}

proof fn lemma_listing_prefix_err(rows: Seq<Seq<Seq<char>>>, q: int)
    requires
        0 <= q <= rows.len(),
        listing_of(rows.take(q)) is Err,
    ensures
        listing_of(rows) == listing_of(rows.take(q)),
    decreases rows.len(),
{
    if rows.len() > q {
        assert(rows.drop_last().take(q) =~= rows.take(q));
        lemma_listing_prefix_err(rows.drop_last(), q);
    } else {
        assert(rows.take(q) =~= rows);
    }
}

/// The volume a snapshot belongs to: its name up to the first `@`.
pub open spec fn dataset_of(name: Seq<char>) -> Seq<char> {
    name.take(first_at(name, '@', 0))
}

proof fn lemma_first_at(s: Seq<char>, c: char, from: int)
    requires
        0 <= from <= s.len(),
    ensures
        from <= first_at(s, c, from) <= s.len(),
        first_at(s, c, from) < s.len() ==> s[first_at(s, c, from)] == c,
        forall|i: int| from <= i < first_at(s, c, from) ==> s[i] != c,
    decreases s.len() - from,
{
    if from < s.len() && s[from] != c {
        lemma_first_at(s, c, from + 1);
    }
}

/// `c` occurs in `name` exactly when the search for it stops before the end.
pub proof fn lemma_contains_iff_found(name: Seq<char>, c: char)
    ensures
        name.contains(c) <==> first_at(name, c, 0) < name.len(),
{
    lemma_first_at(name, c, 0);
    if name.contains(c) {
        let i = choose|i: int| 0 <= i < name.len() && name[i] == c;
        assert(first_at(name, c, 0) <= i);
    }
}

/// The name is that of a snapshot: it holds an `@` between volume and tag.
pub fn is_snapshot_name(name: &str) -> (snapshot: bool)
    ensures
        snapshot == name@.contains('@'),
{
    proof {
        lemma_contains_iff_found(name@, '@');
    }
    find_char(name, '@') < name.unicode_len()
}

/// The guard in front of every destroy request: the store's destroy verb
/// takes volumes too, so only a snapshot's name may pass.
pub fn check_destroy_target(snapshot: &SnapshotMetadata) -> (checked: Result<(), StoreError>)
    ensures
        checked is Ok <==> snapshot.name@.contains('@'),
        checked matches Err(e) ==> e == StoreError::NotASnapshot,
{
    if is_snapshot_name(snapshot.name.as_str()) {
        Ok(())
    } else {
        Err(StoreError::NotASnapshot)
    }
}

impl SnapshotMetadata {
    /// The volume this snapshot belongs to.
    pub fn dataset(&self) -> (volume: &str)
        requires
            self.name@.contains('@'),
        ensures
            volume@ == dataset_of(self.name@),
    {
        proof {
            lemma_contains_iff_found(self.name@, '@');
        }
        let at = find_char(self.name.as_str(), '@');
        let volume = self.name.as_str().substring_char(0, at);
        assert(volume@ =~= dataset_of(self.name@));
        volume
    }
}

/// The volumes that the rows `rows` (name, policy text) put under this
/// tool's care, in order; a row whose policy is `-` is left out, and the
/// first row that cannot be read decides the error.
pub open spec fn configured_of(rows: Seq<Seq<Seq<char>>>) -> Result<Seq<(Seq<char>, Seq<crate::rule::RetentionRule>)>, StoreErrorView>
    decreases rows.len(),
{
    if rows.len() == 0 {
        Ok(Seq::empty())
    } else {
        match configured_of(rows.drop_last()) {
            Err(e) => Err(e),
            Ok(done) => {
                let row = rows.last();
                if row.len() != 2 {
                    Err(StoreErrorView::BadDatasetRow)
                } else if row[1] == "-"@ {
                    Ok(done)
                } else {
                    match crate::parse::policy_of(row[1]) {
                        Err(e) => Err(StoreErrorView::BadPolicy(e)),
                        Ok(rules) => Ok(done.push((row[0], rules))),
                    }
                }
            },
        }
    }
}

/// Name and rules of each configured volume, in order.
pub open spec fn configured_view(v: Seq<(String, RetentionPolicy)>) -> Seq<(Seq<char>, Seq<crate::rule::RetentionRule>)> {
    v.map_values(|e: (String, RetentionPolicy)| (e.0@, e.1.rules()))
}

proof fn lemma_configured_prefix_err(rows: Seq<Seq<Seq<char>>>, q: int)
    requires
        0 <= q <= rows.len(),
        configured_of(rows.take(q)) is Err,
    ensures
        configured_of(rows) == configured_of(rows.take(q)),
    decreases rows.len(),
{
    if rows.len() > q {
        assert(rows.drop_last().take(q) =~= rows.take(q));
        lemma_configured_prefix_err(rows.drop_last(), q);
    } else {
        assert(rows.take(q) =~= rows);
    }
}

/// Reads the rows of the store's volume listing: each volume's name and the
/// text of its retention policy.
pub fn parse_datasets(rows: Vec<Vec<String>>) -> (datasets: Result<Vec<(String, RetentionPolicy)>, StoreError>)
    ensures
        match (datasets, configured_of(rows_view(rows@))) {
            (Ok(v), Ok(s)) => configured_view(v@) == s,
            (Err(e), Err(k)) => e@ == k,
            _ => false,
        },
        datasets matches Ok(v) ==> forall|k: int| 0 <= k < v@.len() ==> (#[trigger] v@[k]).1.wf(),
{
    let ghost all = rows_view(rows@);
    let mut datasets: Vec<(String, RetentionPolicy)> = Vec::new();
    let mut k: usize = 0;
    assert(all.take(0) =~= Seq::<Seq<Seq<char>>>::empty());
    assert(configured_view(datasets@) =~= Seq::<(Seq<char>, Seq<crate::rule::RetentionRule>)>::empty());
    while k < rows.len()
        invariant
            k <= rows@.len(),
            all == rows_view(rows@),
            configured_of(all.take(k as int)) == Ok::<Seq<(Seq<char>, Seq<crate::rule::RetentionRule>)>, StoreErrorView>(
                configured_view(datasets@),
            ),
            forall|j: int| 0 <= j < datasets@.len() ==> (#[trigger] datasets@[j]).1.wf(),
        decreases rows@.len() - k,
    {
        let row = &rows[k];
        assert(all.take(k + 1).drop_last() =~= all.take(k as int));
        let ghost cells = row@.map_values(|c: String| c@);
        assert(all.take(k + 1).last() == cells);
        if row.len() != 2 {
            proof {
                lemma_configured_prefix_err(all, k + 1);
            }
            return Err(StoreError::BadDatasetRow);
        }
        assert(cells[1] == row@[1]@);
        if is_unset(row[1].as_str()) {
            k = k + 1;
            continue;
        }
        match RetentionPolicy::from_str(row[1].as_str()) {
            Err(e) => {
                proof {
                    lemma_configured_prefix_err(all, k + 1);
                }
                return Err(StoreError::BadPolicy(e));
            },
            Ok(policy) => {
                let ghost before = datasets@;
                datasets.push((row[0].clone(), policy));
                assert(configured_view(datasets@) =~= configured_view(before).push((cells[0], policy.rules())));
            },
        }
        k = k + 1;
    }
    assert(all.take(rows@.len() as int) =~= all);
    Ok(datasets)
}

/// The snapshots of `snaps` that belong to the volume `volume`, in order.
pub open spec fn of_dataset(snaps: Seq<SnapshotMetadata>, volume: Seq<char>) -> Seq<SnapshotMetadata>
    decreases snaps.len(),
{
    if snaps.len() == 0 {
        snaps
    } else {
        let earlier = of_dataset(snaps.drop_last(), volume);
        if dataset_of(snaps.last().name@) == volume {
            earlier.push(snaps.last())
        } else {
            earlier
        }
    }
}

/// Newest first: no snapshot is created after one listed before it.
pub open spec fn newest_first(snaps: Seq<SnapshotMetadata>) -> bool {
    forall|i: int, j: int| 0 <= i < j < snaps.len() ==> #[trigger] snaps[i].created >= #[trigger] snaps[j].created
}

/// Where `snap` goes in the newest-first `sorted`, searching from `j`:
/// after every snapshot created no earlier.
pub open spec fn newest_insertion_point(sorted: Seq<SnapshotMetadata>, snap: SnapshotMetadata, j: int) -> int
    decreases sorted.len() - j,
{
    if j >= sorted.len() {
        sorted.len() as int
    } else if sorted[j].created < snap.created {
        j
    } else {
        newest_insertion_point(sorted, snap, j + 1)
    }
}

/// `snaps` sorted newest first; snapshots created in the same second keep
/// the order in which they are listed.
pub open spec fn sort_newest_first(snaps: Seq<SnapshotMetadata>) -> Seq<SnapshotMetadata>
    decreases snaps.len(),
{
    if snaps.len() == 0 {
        snaps
    } else {
        let sorted = sort_newest_first(snaps.drop_last());
        sorted.insert(newest_insertion_point(sorted, snaps.last(), 0), snaps.last())
    }
}

/// Inserts `snap` after every snapshot of `sorted` created no earlier.
fn insert_newest_first(sorted: &mut Vec<SnapshotMetadata>, snap: SnapshotMetadata)
    requires
        newest_first(old(sorted)@),
    ensures
        newest_first(final(sorted)@),
        final(sorted)@.to_multiset() == old(sorted)@.to_multiset().insert(snap),
        final(sorted)@ == old(sorted)@.insert(newest_insertion_point(old(sorted)@, snap, 0), snap),
{
    let mut pos: usize = 0;
    while pos < sorted.len() && sorted[pos].created >= snap.created
        invariant
            pos <= sorted@.len(),
            newest_insertion_point(sorted@, snap, 0) == newest_insertion_point(sorted@, snap, pos as int),
            newest_first(sorted@),
            forall|j: int| 0 <= j < pos ==> #[trigger] sorted@[j].created >= snap.created,
        decreases sorted@.len() - pos,
    {
        pos = pos + 1;
    }
    let ghost before = sorted@;
    proof {
        before.insert_ensures(pos as int, snap);
        vstd::seq_lib::to_multiset_insert(before, pos as int, snap);
    }
    sorted.insert(pos, snap);
    proof {
        let after = sorted@;
        assert forall|i: int, j: int| 0 <= i < j < after.len() implies #[trigger] after[i].created
            >= #[trigger] after[j].created by {
            if j < pos {
            } else if j == pos {
            } else if i <= pos {
                assert(after[j] == before[j - 1]);
                assert(before[pos as int].created < snap.created);
                if j - 1 > pos {
                    assert(before[pos as int].created >= before[j - 1].created);
                }
            } else {
                assert(after[i] == before[i - 1]);
                assert(after[j] == before[j - 1]);
            }
        }
    }
}

/// The snapshots of `snapshots` that belong to `volume`, newest first.
fn collect_dataset(snapshots: &Vec<SnapshotMetadata>, volume: &String) -> (members: Vec<SnapshotMetadata>)
    requires
        forall|i: int| 0 <= i < snapshots@.len() ==> (#[trigger] snapshots@[i]).name@.contains('@'),
    ensures
        newest_first(members@),
        members@.to_multiset() == of_dataset(snapshots@, volume@).to_multiset(),
        members@ == sort_newest_first(of_dataset(snapshots@, volume@)),
{
    let mut members: Vec<SnapshotMetadata> = Vec::new();
    let mut i: usize = 0;
    assert(snapshots@.take(0) =~= Seq::<SnapshotMetadata>::empty());
    while i < snapshots.len()
        invariant
            i <= snapshots@.len(),
            forall|i: int| 0 <= i < snapshots@.len() ==> (#[trigger] snapshots@[i]).name@.contains('@'),
            newest_first(members@),
            members@.to_multiset() == of_dataset(snapshots@.take(i as int), volume@).to_multiset(),
            members@ == sort_newest_first(of_dataset(snapshots@.take(i as int), volume@)),
        decreases snapshots@.len() - i,
    {
        assert(snapshots@.take(i + 1).drop_last() =~= snapshots@.take(i as int));
        let key = String::from_str(snapshots[i].dataset());
        if key == *volume {
            let snap = snapshots[i].duplicate();
            proof {
                let earlier = of_dataset(snapshots@.take(i as int), volume@);
                vstd::seq_lib::to_multiset_build(earlier, snap);
                assert(snapshots@.take(i + 1).last() == snap);
                assert(of_dataset(snapshots@.take(i + 1), volume@) == earlier.push(snap));
                assert(earlier.push(snap).drop_last() =~= earlier);
            }
            insert_newest_first(&mut members, snap);
        }
        i = i + 1;
    }
    assert(snapshots@.take(snapshots@.len() as int) =~= snapshots@);
    members
}

/// The first position at or after `from` of a snapshot of the volume `key`
/// in `snaps`, or the length of `snaps` when there is none.
pub open spec fn first_listed(snaps: Seq<SnapshotMetadata>, key: Seq<char>, from: int) -> int
    decreases snaps.len() - from,
{
    if from >= snaps.len() {
        snaps.len() as int
    } else if dataset_of(snaps[from].name@) == key {
        from
    } else {
        first_listed(snaps, key, from + 1)
    }
}

proof fn lemma_first_listed_skips(snaps: Seq<SnapshotMetadata>, key: Seq<char>, from: int, i: int)
    requires
        0 <= from <= i <= snaps.len(),
        forall|j: int| from <= j < i ==> dataset_of((#[trigger] snaps[j]).name@) != key,
    ensures
        first_listed(snaps, key, from) == first_listed(snaps, key, i),
    decreases i - from,
{
    if from < i {
        lemma_first_listed_skips(snaps, key, from + 1, i);
    }
}

/// `key` is the volume of one of `groups`.
pub open spec fn group_named(groups: Seq<(String, Vec<SnapshotMetadata>)>, key: Seq<char>) -> bool {
    exists|a: int| 0 <= a < groups.len() && (#[trigger] groups[a]).0@ == key
}

/// `key` is the text of one of `names`.
pub open spec fn named(names: Seq<String>, key: Seq<char>) -> bool {
    exists|a: int| 0 <= a < names.len() && (#[trigger] names[a])@ == key
}

/// Splits a snapshot listing by volume: one entry per volume, in the order
/// in which its first snapshot is listed, with its snapshots newest first
/// (snapshots of the same second keep their listing order). Refused when a
/// name is not a snapshot's.
pub fn group_by_dataset(snapshots: Vec<SnapshotMetadata>) -> (groups: Result<Vec<(String, Vec<SnapshotMetadata>)>, StoreError>)
    ensures
        groups is Ok <==> forall|i: int| 0 <= i < snapshots@.len() ==> (#[trigger] snapshots@[i]).name@.contains('@'),
        groups matches Err(e) ==> e == StoreError::NotASnapshot,
        groups matches Ok(g) ==> {
            &&& forall|a: int, b: int| 0 <= a < b < g@.len() ==> (#[trigger] g@[a]).0@ != (#[trigger] g@[b]).0@
            &&& forall|i: int| 0 <= i < snapshots@.len() ==> #[trigger] group_named(g@, dataset_of(snapshots@[i].name@))
            &&& forall|a: int| 0 <= a < g@.len() ==> newest_first((#[trigger] g@[a]).1@)
            &&& forall|a: int| 0 <= a < g@.len() ==> (#[trigger] g@[a]).1@.to_multiset() == of_dataset(snapshots@, g@[a].0@).to_multiset()
            &&& forall|a: int| 0 <= a < g@.len() ==> (#[trigger] g@[a]).1@ == sort_newest_first(of_dataset(snapshots@, g@[a].0@))
            &&& forall|a: int, b: int| 0 <= a < b < g@.len() ==> first_listed(snapshots@, (#[trigger] g@[a]).0@, 0) < first_listed(
                snapshots@,
                (#[trigger] g@[b]).0@,
                0,
            )
        },
{
    let mut names: Vec<String> = Vec::new();
    let mut i: usize = 0;
    while i < snapshots.len()
        invariant
            i <= snapshots@.len(),
            forall|j: int| 0 <= j < i ==> (#[trigger] snapshots@[j]).name@.contains('@'),
            forall|a: int, b: int| 0 <= a < b < names@.len() ==> (#[trigger] names@[a])@ != (#[trigger] names@[b])@,
            forall|j: int| 0 <= j < i ==> named(names@, dataset_of((#[trigger] snapshots@[j]).name@)),
            forall|a: int| 0 <= a < names@.len() ==> first_listed(snapshots@, (#[trigger] names@[a])@, 0) < i,
            forall|a: int, b: int| 0 <= a < b < names@.len() ==> first_listed(snapshots@, (#[trigger] names@[a])@, 0) < first_listed(
                snapshots@,
                (#[trigger] names@[b])@,
                0,
            ),
        decreases snapshots@.len() - i,
    {
        if !is_snapshot_name(snapshots[i].name.as_str()) {
            return Err(StoreError::NotASnapshot);
        }
        let key = String::from_str(snapshots[i].dataset());
        let mut a: usize = 0;
        let mut known = false;
        while a < names.len() && !known
            invariant
                a <= names@.len(),
                known ==> a < names@.len() && names@[a as int]@ == key@,
                !known ==> forall|b: int| 0 <= b < a ==> (#[trigger] names@[b])@ != key@,
            decreases names@.len() - a + if known { 0int } else { 1int },
        {
            if names[a] == key {
                known = true;
            } else {
                a = a + 1;
            }
        }
        let ghost before = names@;
        proof {
            if !known {
                assert forall|j: int| 0 <= j < i implies dataset_of((#[trigger] snapshots@[j]).name@) != key@ by {
                    assert(named(before, dataset_of(snapshots@[j].name@)));
                    let w = choose|w: int| 0 <= w < before.len() && (#[trigger] before[w])@ == dataset_of(snapshots@[j].name@);
                }
                lemma_first_listed_skips(snapshots@, key@, 0, i as int);
                assert(first_listed(snapshots@, key@, 0) == i);
            }
        }
        if !known {
            names.push(key);
        }
        proof {
            assert forall|a: int, b: int| 0 <= a < b < names@.len() implies first_listed(snapshots@, (#[trigger] names@[a])@, 0)
                < first_listed(snapshots@, (#[trigger] names@[b])@, 0) by {
                assert(names@[a] == before[a]);
                if b < before.len() {
                    assert(names@[b] == before[b]);
                }
            }
            assert forall|a: int| 0 <= a < names@.len() implies first_listed(snapshots@, (#[trigger] names@[a])@, 0) < i + 1 by {
                if a < before.len() {
                    assert(names@[a] == before[a]);
                }
            }
            assert forall|j: int| 0 <= j < i + 1 implies named(names@, dataset_of((#[trigger] snapshots@[j]).name@)) by {
                if j < i {
                    let w = choose|w: int| 0 <= w < before.len() && (#[trigger] before[w])@ == dataset_of(snapshots@[j].name@);
                    assert(names@[w] == before[w]);
                } else if known {
                    assert(names@[a as int]@ == dataset_of(snapshots@[j].name@));
                } else {
                    assert(names@[before.len() as int]@ == dataset_of(snapshots@[j].name@));
                }
            }
        }
        i = i + 1;
    }
    assert(i == snapshots@.len());
    let mut groups: Vec<(String, Vec<SnapshotMetadata>)> = Vec::new();
    for g in 0..names.len()
        invariant
            forall|i: int| 0 <= i < snapshots@.len() ==> (#[trigger] snapshots@[i]).name@.contains('@'),
            forall|a: int, b: int| 0 <= a < b < names@.len() ==> (#[trigger] names@[a])@ != (#[trigger] names@[b])@,
            forall|j: int| 0 <= j < snapshots@.len() ==> named(names@, dataset_of((#[trigger] snapshots@[j]).name@)),
            groups@.len() == g,
            forall|b: int| 0 <= b < g ==> (#[trigger] groups@[b]).0@ == names@[b]@,
            forall|b: int| 0 <= b < g ==> newest_first((#[trigger] groups@[b]).1@),
            forall|b: int| 0 <= b < g ==> (#[trigger] groups@[b]).1@.to_multiset() == of_dataset(snapshots@, groups@[b].0@).to_multiset(),
            forall|b: int| 0 <= b < g ==> (#[trigger] groups@[b]).1@ == sort_newest_first(of_dataset(snapshots@, groups@[b].0@)),
            forall|a: int, b: int| 0 <= a < b < names@.len() ==> first_listed(snapshots@, (#[trigger] names@[a])@, 0) < first_listed(
                snapshots@,
                (#[trigger] names@[b])@,
                0,
            ),
    {
        let members = collect_dataset(&snapshots, &names[g]);
        groups.push((names[g].clone(), members));
    }
    proof {
        assert forall|i: int| 0 <= i < snapshots@.len() implies #[trigger] group_named(groups@, dataset_of(snapshots@[i].name@)) by {
            assert(named(names@, dataset_of(snapshots@[i].name@)));
            let w = choose|w: int| 0 <= w < names@.len() && (#[trigger] names@[w])@ == dataset_of(snapshots@[i].name@);
            assert(groups@[w].0@ == names@[w]@);
        }
        assert forall|a: int, b: int| 0 <= a < b < groups@.len() implies (#[trigger] groups@[a]).0@ != (#[trigger] groups@[b]).0@ by {
            assert(groups@[a].0@ == names@[a]@);
            assert(groups@[b].0@ == names@[b]@);
        }
        assert forall|a: int, b: int| 0 <= a < b < groups@.len() implies first_listed(snapshots@, (#[trigger] groups@[a]).0@, 0)
            < first_listed(snapshots@, (#[trigger] groups@[b]).0@, 0) by {
            assert(groups@[a].0@ == names@[a]@);
            assert(groups@[b].0@ == names@[b]@);
        }
    }
    Ok(groups)
}

/// The names, in order, of the volumes among `rows` (name, policy text)
/// whose policy is not set.
pub open spec fn unconfigured_of(rows: Seq<Seq<Seq<char>>>) -> Seq<Seq<char>>
    decreases rows.len(),
{
    if rows.len() == 0 {
        Seq::empty()
    } else {
        let earlier = unconfigured_of(rows.drop_last());
        let row = rows.last();
        if row.len() == 2 && row[1] == "-"@ {
            earlier.push(row[0])
        } else {
            earlier
        }
    }
}

/// The volumes of the store's volume listing that have no policy yet.
pub fn unconfigured_datasets(rows: &Vec<Vec<String>>) -> (names: Vec<String>)
    ensures
        names@.map_values(|n: String| n@) == unconfigured_of(rows_view(rows@)),
{
    let ghost all = rows_view(rows@);
    let mut names: Vec<String> = Vec::new();
    assert(all.take(0) =~= Seq::<Seq<Seq<char>>>::empty());
    assert(names@.map_values(|n: String| n@) =~= Seq::<Seq<char>>::empty());
    for k in 0..rows.len()
        invariant
            all == rows_view(rows@),
            names@.map_values(|n: String| n@) == unconfigured_of(all.take(k as int)),
    {
        assert(all.take(k + 1).drop_last() =~= all.take(k as int));
        let ghost cells = rows@[k as int]@.map_values(|c: String| c@);
        assert(all.take(k + 1).last() == cells);
        let row = &rows[k];
        if row.len() == 2 {
            assert(cells[1] == row@[1]@);
            if is_unset(row[1].as_str()) {
                let ghost before = names@;
                names.push(row[0].clone());
                assert(names@.map_values(|n: String| n@) =~= before.map_values(|n: String| n@).push(cells[0]));
            }
        }
    }
    assert(all.take(rows@.len() as int) =~= all);
    names
}

/// The snapshots of the first group of `groups`, from position `from` on,
/// whose volume is `key`; none when no group has it.
pub open spec fn group_for(groups: Seq<(String, Vec<SnapshotMetadata>)>, key: Seq<char>, from: int) -> Seq<SnapshotMetadata>
    decreases groups.len() - from,
{
    if from >= groups.len() {
        Seq::empty()
    } else if groups[from].0@ == key {
        groups[from].1@
    } else {
        group_for(groups, key, from + 1)
    }
}

fn copy_snapshots(snapshots: &Vec<SnapshotMetadata>) -> (copy: Vec<SnapshotMetadata>)
    ensures
        copy@ == snapshots@,
{
    let mut copy: Vec<SnapshotMetadata> = Vec::new();
    for i in 0..snapshots.len()
        invariant
            copy@ == snapshots@.take(i as int),
    {
        copy.push(snapshots[i].duplicate());
        assert(snapshots@.take(i + 1) =~= snapshots@.take(i as int).push(snapshots@[i as int]));
    }
    assert(snapshots@.take(snapshots@.len() as int) =~= snapshots@);
    copy
}

/// Puts each configured volume together with its snapshots, as
/// `group_by_dataset` split them; a volume without snapshots gets none.
pub fn configured_datasets(
    datasets: Vec<(String, RetentionPolicy)>,
    groups: &Vec<(String, Vec<SnapshotMetadata>)>,
) -> (configured: Vec<ConfiguredDataSet>)
    ensures
        configured@.len() == datasets@.len(),
        forall|k: int| 0 <= k < datasets@.len() ==> {
            &&& (#[trigger] configured@[k]).path == datasets@[k].0
            &&& configured@[k].retention_policy == datasets@[k].1
            &&& configured@[k].sorted_snapshots@ == group_for(groups@, datasets@[k].0@, 0)
        },
{
    let ghost all = datasets@;
    let mut rest = datasets;
    let mut configured: Vec<ConfiguredDataSet> = Vec::new();
    while rest.len() > 0
        invariant
            configured@.len() + rest@.len() == all.len(),
            rest@ == all.skip(configured@.len() as int),
            forall|k: int| 0 <= k < configured@.len() ==> {
                &&& (#[trigger] configured@[k]).path == all[k].0
                &&& configured@[k].retention_policy == all[k].1
                &&& configured@[k].sorted_snapshots@ == group_for(groups@, all[k].0@, 0)
            },
        decreases rest@.len(),
    {
        let (path, policy) = rest.remove(0);
        let mut g: usize = 0;
        while g < groups.len() && !(groups[g].0 == path)
            invariant
                g <= groups@.len(),
                group_for(groups@, path@, 0) == group_for(groups@, path@, g as int),
            decreases groups@.len() - g,
        {
            g = g + 1;
        }
        let snapshots = if g < groups.len() {
            copy_snapshots(&groups[g].1)
        } else {
            Vec::new()
        };
        let ghost before = configured@;
        configured.push(ConfiguredDataSet { path, retention_policy: policy, sorted_snapshots: snapshots });
        assert(all.skip(before.len() as int).drop_first() =~= all.skip(configured@.len() as int));
    }
    configured
}

} // verus!
