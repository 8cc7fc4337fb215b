use vstd::prelude::*;
use vstd::string::*;

use crate::error::AppError;
use crate::model::MonitorStatus;
use crate::time::{
    days_before, days_before_spec, delta_seconds, parse_stored_time, rfc3339_utc_parse, seconds_between,
    Timestamp,
};

verus! {

/// A single recorded heartbeat to be persisted.
#[derive(Debug, Clone, Copy, PartialEq, Eq)]
pub struct Beat {
    pub monitor_id: i64,
    pub time: Timestamp,
    pub status: MonitorStatus,
    pub ping_ms: Option<u32>,
}

/// An uptime window to aggregate over.
#[derive(Debug, Clone, Copy, PartialEq, Eq, Structural)]
pub enum Window {
    Day,
    Week,
    Month,
}

impl Window {
    /// Length of the window in days: 1, 7 and 30.
    pub open spec fn length_days(self) -> u32 {
        match self {
            Window::Day => 1,
            Window::Week => 7,
            Window::Month => 30,
        }
    }

    /// Length of the window in days.
    pub fn days(&self) -> (d: u32)
        ensures
            d == self.length_days(),
    {
        match self {
            Window::Day => 1,
            Window::Week => 7,
            Window::Month => 30,
        }
    }

    /// Length of the window in seconds.
    pub fn seconds(&self) -> (s: i64)
        ensures
            s == 86400 * self.length_days(),
    {
        86400 * (self.days() as i64)
    }
}

/// The windows are a day, a week and thirty days long.
pub proof fn lemma_window_lengths()
    ensures
        Window::Day.length_days() == 1,
        Window::Week.length_days() == 7,
        Window::Month.length_days() == 30,
{
}

/// Do-nothing heartbeat store: records nothing, reports zero uptime and no incidents.
pub struct NoopStore;

impl NoopStore {
    /// The store (it has no state).
    pub fn new() -> (s: NoopStore)
        ensures
            s == NoopStore,
    {
        NoopStore
    }
}

/// Start of `window` ending at `now`; `None` when that leaves chrono's range.
pub fn window_start(now: Timestamp, window: Window) -> (res: Option<Timestamp>)
    requires
        now.wf(),
    ensures
        res == days_before_spec(now, window.length_days() as int),
        res matches Some(t) ==> t.wf(),
{
    days_before(now, window.days())
}

/// Cutoff before which stored heartbeats are pruned: `retention_days` before `now`.
pub fn retention_cutoff(now: Timestamp, retention_days: u32) -> (res: Option<Timestamp>)
    requires
        now.wf(),
    ensures
        res == days_before_spec(now, retention_days as int),
        res matches Some(t) ==> t.wf(),
{
    days_before(now, retention_days)
}

/// Covered seconds of a window: from the later of `oldest` and `start` up to `now`,
/// whole seconds, never negative.
pub open spec fn covered_seconds_spec(now: Timestamp, start: Timestamp, oldest: Timestamp) -> int {
    let effective = if oldest.lt(start) {
        start
    } else {
        oldest
    };
    let d = delta_seconds(now, effective);
    if d < 0 {
        0
    } else {
        d
    }
}

/// The whole seconds from the later of `start` and `oldest` up to `now`, 0 if that is
/// negative: the part of a window that stored history backs.
pub open spec fn elapsed_since_later(now: Timestamp, start: Timestamp, oldest: Timestamp) -> int {
    if start.le(oldest) {
        if delta_seconds(now, oldest) < 0 {
            0
        } else {
            delta_seconds(now, oldest)
        }
    } else if delta_seconds(now, start) < 0 {
        0
    } else {
        delta_seconds(now, start)
    }
}

/// Coverage counts only what history backs: the covered seconds are the whole seconds from
/// the oldest stored beat to `now` when that beat lies at or after the window's start, and
/// from the window's start to `now` when history reaches back further; 0 where that time
/// is negative.
pub proof fn lemma_covered_seconds_is_backed_time(now: Timestamp, start: Timestamp, oldest: Timestamp)
    ensures
        covered_seconds_spec(now, start, oldest) == elapsed_since_later(now, start, oldest),
        start.le(oldest) ==> covered_seconds_spec(now, start, oldest) == (if delta_seconds(
            now,
            oldest,
        ) < 0 {
            0
        } else {
            delta_seconds(now, oldest)
        }),
        oldest.lt(start) ==> covered_seconds_spec(now, start, oldest) == (if delta_seconds(
            now,
            start,
        ) < 0 {
            0
        } else {
            delta_seconds(now, start)
        }),
        covered_seconds_spec(now, start, oldest) >= 0,
        start.le(oldest) && oldest.le(now) && now.nanos < 1_000_000_000 && oldest.nanos < 1_000_000_000
            ==> covered_seconds_spec(now, start, oldest) == now.secs - oldest.secs - (if now.nanos
            < oldest.nanos {
            1int
        } else {
            0int
        }),
{
    if start.le(oldest) && oldest.le(now) && now.nanos < 1_000_000_000 && oldest.nanos < 1_000_000_000 {
        crate::time::lemma_delta_seconds_elapsed(now, oldest);
    }
}

/// Covered seconds of the window from `start` to `now`, given its oldest stored beat.
pub fn covered_seconds(now: Timestamp, start: Timestamp, oldest: Timestamp) -> (c: i64)
    requires
        now.wf(),
        start.wf(),
        oldest.wf(),
    ensures
        c == covered_seconds_spec(now, start, oldest),
        c >= 0,
        start.le(oldest) ==> c == (if delta_seconds(now, oldest) < 0 {
            0
        } else {
            delta_seconds(now, oldest)
        }),
        oldest.lt(start) ==> c == (if delta_seconds(now, start) < 0 {
            0
        } else {
            delta_seconds(now, start)
        }),
{
    let effective = if oldest.is_before(&start) {
        start
    } else {
        oldest
    };
    let d = seconds_between(now, effective);
    if d < 0 {
        0
    } else {
        d
    }
}

/// Coverage never exceeds the window: for a current time that is not a leap second (as
/// `Utc::now()` never is), the covered seconds of a window lie between 0 and its length,
/// so `covered / window` lies in [0, 1].
pub proof fn lemma_coverage_within_window(now: Timestamp, window: Window, start: Timestamp, oldest: Timestamp)
    requires
        now.wf(),
        now.nanos < 1_000_000_000,
        oldest.wf(),
        days_before_spec(now, window.length_days() as int) == Some(start),
    ensures
        0 <= covered_seconds_spec(now, start, oldest) <= 86400 * window.length_days(),
{
    let w = 86400 * window.length_days();
    assert(start.secs == now.secs - w && start.nanos == now.nanos);
    let e = if oldest.lt(start) {
        start
    } else {
        oldest
    };
    assert(e.secs > start.secs || (e.secs == start.secs && e.nanos >= now.nanos));
    let d = delta_seconds(now, e);
    assert(d <= w);
}

/// How many seconds of the window starting at `start` and ending at `now` the stored
/// history covers, given the stored time of the oldest beat in it (`None`: no beat, so
/// `Ok(None)`). A malformed stored time is a storage error.
pub fn coverage_seconds(now: Timestamp, start: Timestamp, oldest: Option<&str>) -> (res: Result<Option<i64>, AppError>)
    requires
        now.wf(),
        start.wf(),
    ensures
        match oldest {
            None => res == Ok::<Option<i64>, AppError>(None),
            Some(s) => match (res, rfc3339_utc_parse(s@)) {
                (Ok(Some(c)), Ok((secs, nanos))) => c == covered_seconds_spec(
                    now,
                    start,
                    Timestamp { secs, nanos },
                ) && c >= 0 && c == elapsed_since_later(now, start, Timestamp { secs, nanos }),
                (Err(AppError::Store(m)), Err(e)) => m@ == e,
                _ => false,
            },
        },
{
    match oldest {
        None => Ok(None),
        Some(s) => match parse_stored_time(s) {
            Ok(t) => Ok(Some(covered_seconds(now, start, t))),
            Err(e) => Err(e),
        },
    }
}

/// The database URL with a leading `sqlite://` removed.
pub open spec fn without_scheme(url: Seq<char>) -> Seq<char> {
    let scheme = seq!['s', 'q', 'l', 'i', 't', 'e', ':', '/', '/'];
    if url.len() >= 9 && url.subrange(0, 9) == scheme {
        url.subrange(9, url.len() as int)
    } else {
        url
    }
}

/// The part of `s` before the first `?`.
pub open spec fn before_query(s: Seq<char>) -> Seq<char>
    decreases s.len(),
{
    if s.len() == 0 {
        s
    } else if s[0] == '?' {
        Seq::empty()
    } else {
        seq![s[0]] + before_query(s.drop_first())
    }
}

/// The file path of a file-based SQLite URL: scheme and query removed; `None` for an
/// in-memory database (empty path, or one starting with `:`).
pub open spec fn sqlite_path_spec(url: Seq<char>) -> Option<Seq<char>> {
    let p = before_query(without_scheme(url));
    if p.len() == 0 || p[0] == ':' {
        None
    } else {
        Some(p)
    }
}

proof fn lemma_before_query_prefix(s: Seq<char>, i: int)
    requires
        0 <= i <= s.len(),
        forall|j: int| 0 <= j < i ==> s[j] != '?',
    ensures
        before_query(s) == s.subrange(0, i) + before_query(s.subrange(i, s.len() as int)),
    decreases i,
{
    if i > 0 {
        lemma_before_query_prefix(s.drop_first(), i - 1);
        assert(s.drop_first().subrange(0, i - 1) =~= s.subrange(1, i));
        assert(s.drop_first().subrange(i - 1, s.len() - 1) =~= s.subrange(i, s.len() as int));
        assert(seq![s[0]] + s.subrange(1, i) =~= s.subrange(0, i));
    } else {
        assert(s.subrange(0, 0) =~= Seq::<char>::empty());
        assert(s.subrange(0, s.len() as int) =~= s);
    }
}

/// A SQLite URL names the file between its `sqlite://` scheme and any `?` query, and an
/// in-memory database (a path starting with `:`, or none) names no file.
pub proof fn lemma_sqlite_url_names_file(path: Seq<char>, query: Seq<char>)
    ensures
        path.len() > 0 && path[0] != ':' && (forall|i: int| 0 <= i < path.len() ==> path[i] != '?')
            ==> sqlite_path_spec(seq!['s', 'q', 'l', 'i', 't', 'e', ':', '/', '/'] + path) == Some(path)
            && sqlite_path_spec(seq!['s', 'q', 'l', 'i', 't', 'e', ':', '/', '/'] + path + seq!['?']
            + query) == Some(path),
        sqlite_path_spec(seq!['s', 'q', 'l', 'i', 't', 'e', ':', '/', '/'] + seq![':'] + query) is None,
        sqlite_path_spec(seq!['s', 'q', 'l', 'i', 't', 'e', ':', '/', '/']) is None,
{
    let scheme = seq!['s', 'q', 'l', 'i', 't', 'e', ':', '/', '/'];
    if path.len() > 0 && path[0] != ':' && (forall|i: int| 0 <= i < path.len() ==> path[i] != '?') {
        let u1 = scheme + path;
        assert(u1.subrange(0, 9) =~= scheme);
        assert(without_scheme(u1) =~= path);
        lemma_before_query_prefix(path, path.len() as int);
        assert(path.subrange(0, path.len() as int) =~= path);
        assert(path.subrange(path.len() as int, path.len() as int) =~= Seq::<char>::empty());
        let u2 = scheme + path + seq!['?'] + query;
        let rest = path + seq!['?'] + query;
        assert(u2.subrange(0, 9) =~= scheme);
        assert(without_scheme(u2) =~= rest);
        lemma_before_query_prefix(rest, path.len() as int);
        assert(rest.subrange(0, path.len() as int) =~= path);
        let tail = rest.subrange(path.len() as int, rest.len() as int);
        assert(tail[0] == '?');
        assert(before_query(tail) =~= Seq::<char>::empty());
        assert(path + Seq::<char>::empty() =~= path);
    }
    let u3 = scheme + seq![':'] + query;
    assert(u3.subrange(0, 9) =~= scheme);
    assert(without_scheme(u3) =~= seq![':'] + query);
    let r3 = seq![':'] + query;
    assert(r3[0] != '?');
    assert(r3.drop_first() =~= query);
    assert(scheme.subrange(0, 9) =~= scheme);
    assert(without_scheme(scheme) =~= Seq::<char>::empty());
}

/// The path of the SQLite database file named by `database_url`, whose parent directory
/// must exist before connecting; `None` for an in-memory database.
pub fn sqlite_file_path(database_url: &str) -> (res: Option<String>)
    ensures
        match res {
            Some(p) => sqlite_path_spec(database_url@) == Some(p@),
            None => sqlite_path_spec(database_url@) is None,
        },
{
    let n = database_url.unicode_len();
    let scheme = "sqlite://";
    proof {
        reveal_strlit("sqlite://");
    }
    let mut has_scheme = n >= 9;
    let mut i: usize = 0;
    while i < 9 && has_scheme
        invariant
            i <= 9,
            n == database_url@.len(),
            scheme@ == seq!['s', 'q', 'l', 'i', 't', 'e', ':', '/', '/'],
            has_scheme ==> n >= 9 && forall|j: int| 0 <= j < i ==> database_url@[j] == scheme@[j],
            !has_scheme ==> !(n >= 9 && database_url@.subrange(0, 9) == scheme@),
        decreases 9 - i,
    {
        if database_url.get_char(i) != scheme.get_char(i) {
            proof {
                if n >= 9 && database_url@.subrange(0, 9) == scheme@ {
                    assert(database_url@.subrange(0, 9)[i as int] == database_url@[i as int]);
                }
            }
            has_scheme = false;
        }
        i = i + 1;
    }
    let rest = if has_scheme {
        assert(database_url@.subrange(0, 9) =~= scheme@);
        database_url.substring_char(9, n)
    } else {
        database_url.substring_char(0, n)
    };
    assert(database_url@.subrange(0, n as int) =~= database_url@);
    assert(rest@ == without_scheme(database_url@));
    let m = rest.unicode_len();
    let mut q: usize = 0;
    while q < m && rest.get_char(q) != '?'
        invariant
            q <= m,
            m == rest@.len(),
            forall|j: int| 0 <= j < q ==> rest@[j] != '?',
        decreases m - q,
    {
        q = q + 1;
    }
    proof {
        lemma_before_query_prefix(rest@, q as int);
        if q < m {
            let tail = rest@.subrange(q as int, m as int);
            assert(tail[0] == '?');
            assert(before_query(tail) =~= Seq::<char>::empty());
        } else {
            assert(rest@.subrange(q as int, m as int) =~= Seq::<char>::empty());
        }
    }
    let path = rest.substring_char(0, q);
    assert(path@ =~= before_query(rest@));
    if q == 0 || path.get_char(0) == ':' {
        None
    } else {
        Some(String::from_str(path))
    }
}

/// A path component that reads the same on every platform: not empty, and free of the
/// separators `/` and `\\` and of `:` (which starts a Windows prefix).
pub open spec fn plain_component(s: Seq<char>) -> bool {
    s.len() > 0 && forall|i: int| 0 <= i < s.len() ==> #[trigger] s[i] != '/' && s[i] != '\\' && s[i]
        != ':'
}

/// `p` is a directory `dir` and a file name, `dir/name`, both plain components, the name
/// neither `.` nor `..`.
pub open spec fn dir_then_file(p: Seq<char>, dir: Seq<char>) -> bool {
    exists|name: Seq<char>|
        p == dir + seq!['/'] + name && plain_component(dir) && plain_component(name) && name
            != seq!['.'] && name != seq!['.', '.']
}

/// `parent` is `Some(dir)` wherever `p` is `dir/name` of two plain components.
pub open spec fn parent_of_plain_path(p: Seq<char>, parent: Option<String>) -> bool {
    forall|dir: Seq<char>| #[trigger] dir_then_file(p, dir) ==> (parent matches Some(q) && q@ == dir)
}

/// Calls `std::path::Path::new(p).parent()` and hands the parent back as text. Claimed, as
/// std documents it ("the path without its final component"): a parent is a strict prefix
/// of `p`, cut at a separator (ASCII, so the text conversion keeps it exactly); and a path
/// `dir/name` of two plain components, the name not `.` or `..`, has the parent `dir` on
/// every platform. Which component is final in other paths (other separators, prefixes,
/// roots) depends on the platform and is left unsaid.
#[verifier::external_body]
fn path_parent(p: &str) -> (res: Option<String>)
    ensures
        res matches Some(q) ==> q@.len() < p@.len() && q@ == p@.subrange(0, q@.len() as int),
        parent_of_plain_path(p@, res),
{
    match std::path::Path::new(p).parent() {
        Some(q) => Some(q.to_string_lossy().into_owned()),
        None => None,
    }
}

/// The directory that has to exist before a file whose parent is `parent` can be created:
/// `None` where there is no parent, or where it is empty (the working directory).
pub fn parent_dir_to_create(parent: Option<String>) -> (res: Option<String>)
    ensures
        match parent {
            Some(d) => if d@.len() > 0 {
                res == Some(d)
            } else {
                res is None
            },
            None => res is None,
        },
{
    match parent {
        Some(d) => if d.as_str().unicode_len() > 0 {
            Some(d)
        } else {
            None
        },
        None => None,
    }
}

/// The directory to create before connecting to the SQLite database named by
/// `database_url`: the parent of its file (the file path without its final component)
/// where that is not empty; `None` for an in-memory database and for a file in the working
/// directory.
pub fn sqlite_parent_dir(database_url: &str) -> (res: Option<String>)
    ensures
        sqlite_path_spec(database_url@) is None ==> res is None,
        forall|p: Seq<char>, dir: Seq<char>|
            sqlite_path_spec(database_url@) == Some(p) && #[trigger] dir_then_file(p, dir) ==> (res matches Some(
                d,
            ) && d@ == dir),
        res matches Some(d) ==> d@.len() > 0 && exists|p: Seq<char>|
            sqlite_path_spec(database_url@) == Some(p) && d@.len() < p.len() && d@ == p.subrange(
                0,
                d@.len() as int,
            ),
{
    match sqlite_file_path(database_url) {
        Some(path) => {
            let res = parent_dir_to_create(path_parent(path.as_str()));
            assert(res matches Some(d) ==> sqlite_path_spec(database_url@) == Some(path@));
            res
        },
        None => None,
    }
}

} // verus!
