//! The log of file transfers and its search.

use vstd::prelude::*;
use vstd::string::*;
use crate::text::{chars_of, find_from, first_from, occurs_at};

verus! {

/// A point in time: seconds since 1970-01-01 00:00:00 UTC, and nanoseconds
/// into that second.
#[derive(Clone, Copy, Debug)]
pub struct Timestamp {
    pub secs: i64,
    pub nanos: u32,
}

/// A record that a peer stored a file: which peer, which file, when, and the
/// network's password, which the record carries.
#[derive(Debug)]
pub struct FileTransferLog {
    pub peer_id: String,
    pub file_name: String,
    pub timestamp: Timestamp,
    pub password: String,
}

impl Clone for FileTransferLog {
    fn clone(&self) -> (res: Self)
        ensures
            res == *self,
    {
        FileTransferLog {
            peer_id: self.peer_id.clone(),
            file_name: self.file_name.clone(),
            timestamp: self.timestamp,
            password: self.password.clone(),
        }
    }
}

/// The day (counted from 1970-01-01, UTC) in which a second falls.
pub open spec fn utc_day(secs: int) -> int {
    secs / 86400
}

/// `needle` stands somewhere in `hay` (as `str::contains` answers).
pub open spec fn contains_text(hay: Seq<char>, needle: Seq<char>) -> bool {
    first_from(hay, needle, 0) is Some
}

/// A log entry passes a search: the same peer where one is asked for, a file
/// name holding the asked text where one is asked for, and the same UTC day
/// where a date is asked for.
pub open spec fn log_matches(
    log: FileTransferLog,
    peer_id: Option<Seq<char>>,
    file_name: Option<Seq<char>>,
    date: Option<Timestamp>,
) -> bool {
    &&& (match peer_id {
        Some(id) => log.peer_id@ == id,
        None => true,
    })
    &&& (match file_name {
        Some(name) => contains_text(log.file_name@, name),
        None => true,
    })
    &&& (match date {
        Some(d) => utc_day(log.timestamp.secs as int) == utc_day(d.secs as int),
        None => true,
    })
}

/// The entries of `logs` that pass the search, in their order.
pub open spec fn matching_logs(
    logs: Seq<FileTransferLog>,
    peer_id: Option<Seq<char>>,
    file_name: Option<Seq<char>>,
    date: Option<Timestamp>,
) -> Seq<FileTransferLog>
    decreases logs.len(),
{
    if logs.len() == 0 {
        Seq::empty()
    } else if log_matches(logs.last(), peer_id, file_name, date) {
        matching_logs(logs.drop_last(), peer_id, file_name, date).push(logs.last())
    } else {
        matching_logs(logs.drop_last(), peer_id, file_name, date)
    }
}

/// `needle` stands in `hay` at some index.
pub open spec fn holds_text(hay: Seq<char>, needle: Seq<char>) -> bool {
    exists|p: int|
        0 <= p && p + needle.len() <= hay.len() && #[trigger] hay.subrange(p, p + needle.len())
            == needle
}

/// The second `secs` falls in the same UTC day as the second `ref_secs`: in
/// the 86400 seconds from the midnight at or before `ref_secs`.
pub open spec fn same_utc_day(secs: int, ref_secs: int) -> bool {
    let midnight = ref_secs - ref_secs % 86400;
    midnight <= secs < midnight + 86400
}

/// What a search asks of an entry, condition by condition.
pub open spec fn asked_of(
    log: FileTransferLog,
    peer_id: Option<Seq<char>>,
    file_name: Option<Seq<char>>,
    date: Option<Timestamp>,
) -> bool {
    &&& peer_id is Some ==> log.peer_id@ == peer_id.unwrap()
    &&& file_name is Some ==> holds_text(log.file_name@, file_name.unwrap())
    &&& date is Some ==> same_utc_day(log.timestamp.secs as int, date.unwrap().secs as int)
}

/// A search returns entries of the log, no more than the log holds: each one
/// is of the peer asked for, of a file whose name holds the text asked for
/// and made on the UTC day of the date asked for, each condition where it is
/// given; and every entry of the log that meets them all is returned.
pub proof fn search_returns_exactly_what_is_asked(
    logs: Seq<FileTransferLog>,
    peer_id: Option<Seq<char>>,
    file_name: Option<Seq<char>>,
    date: Option<Timestamp>,
)
    ensures
        matching_logs(logs, peer_id, file_name, date).len() <= logs.len(),
        forall|i: int|
            0 <= i < matching_logs(logs, peer_id, file_name, date).len() ==> {
                let e = #[trigger] matching_logs(logs, peer_id, file_name, date)[i];
                logs.contains(e) && asked_of(e, peer_id, file_name, date)
            },
        forall|j: int|
            0 <= j < logs.len() && asked_of(#[trigger] logs[j], peer_id, file_name, date)
                ==> matching_logs(logs, peer_id, file_name, date).contains(logs[j]),
{
    lemma_matching_sound(logs, peer_id, file_name, date);
    lemma_matching_complete(logs, peer_id, file_name, date);
    let r = matching_logs(logs, peer_id, file_name, date);
    assert forall|i: int| 0 <= i < r.len() implies {
        let e = #[trigger] r[i];
        logs.contains(e) && asked_of(e, peer_id, file_name, date)
    } by {
        lemma_matches_is_asked(r[i], peer_id, file_name, date);
    }
    assert forall|j: int| 0 <= j < logs.len() && asked_of(#[trigger] logs[j], peer_id, file_name, date)
        implies r.contains(logs[j]) by {
        lemma_matches_is_asked(logs[j], peer_id, file_name, date);
    }
}

/// A search keeps, in their order, exactly the entries of the log that meet
/// every condition it asks.
pub proof fn search_is_the_log_filtered(
    logs: Seq<FileTransferLog>,
    peer_id: Option<Seq<char>>,
    file_name: Option<Seq<char>>,
    date: Option<Timestamp>,
)
    ensures
        matching_logs(logs, peer_id, file_name, date) == logs.filter(
            |e: FileTransferLog| asked_of(e, peer_id, file_name, date),
        ),
    decreases logs.len(),
{
    reveal(Seq::filter);
    if logs.len() > 0 {
        search_is_the_log_filtered(logs.drop_last(), peer_id, file_name, date);
        lemma_matches_is_asked(logs.last(), peer_id, file_name, date);
    } else {
        assert(logs =~= Seq::<FileTransferLog>::empty());
    }
}

/// A search that names a peer returns only that peer's entries, whatever
/// else it asks.
pub proof fn search_by_peer_keeps_to_the_peer(
    logs: Seq<FileTransferLog>,
    peer: Seq<char>,
    file_name: Option<Seq<char>>,
    date: Option<Timestamp>,
)
    ensures
        forall|i: int|
            0 <= i < matching_logs(logs, Some(peer), file_name, date).len() ==> (#[trigger] matching_logs(
                logs,
                Some(peer),
                file_name,
                date,
            )[i]).peer_id@ == peer,
{
    search_returns_exactly_what_is_asked(logs, Some(peer), file_name, date);
}

/// A search with a date returns only entries made on that UTC day.
pub proof fn search_by_date_keeps_to_the_day(
    logs: Seq<FileTransferLog>,
    peer_id: Option<Seq<char>>,
    file_name: Option<Seq<char>>,
    date: Timestamp,
)
    ensures
        forall|i: int|
            0 <= i < matching_logs(logs, peer_id, file_name, Some(date)).len() ==> same_utc_day(
                (#[trigger] matching_logs(logs, peer_id, file_name, Some(date))[i]).timestamp.secs as int,
                date.secs as int,
            ),
{
    search_returns_exactly_what_is_asked(logs, peer_id, file_name, Some(date));
}

proof fn lemma_matching_sound(
    logs: Seq<FileTransferLog>,
    peer_id: Option<Seq<char>>,
    file_name: Option<Seq<char>>,
    date: Option<Timestamp>,
)
    ensures
        matching_logs(logs, peer_id, file_name, date).len() <= logs.len(),
        forall|i: int|
            0 <= i < matching_logs(logs, peer_id, file_name, date).len() ==> logs.contains(
                #[trigger] matching_logs(logs, peer_id, file_name, date)[i],
            ) && log_matches(matching_logs(logs, peer_id, file_name, date)[i], peer_id, file_name, date),
    decreases logs.len(),
{
    if logs.len() > 0 {
        let d = logs.drop_last();
        lemma_matching_sound(d, peer_id, file_name, date);
        let r = matching_logs(logs, peer_id, file_name, date);
        let rd = matching_logs(d, peer_id, file_name, date);
        assert forall|i: int| 0 <= i < r.len() implies logs.contains(#[trigger] r[i]) && log_matches(
            r[i],
            peer_id,
            file_name,
            date,
        ) by {
            if i < rd.len() {
                assert(r[i] == rd[i]);
                let w = choose|w: int| 0 <= w < d.len() && d[w] == rd[i];
                assert(logs[w] == d[w]);
            } else {
                assert(r[i] == logs.last());
                assert(logs[logs.len() - 1] == logs.last());
            }
        }
    }
}

proof fn lemma_matching_complete(
    logs: Seq<FileTransferLog>,
    peer_id: Option<Seq<char>>,
    file_name: Option<Seq<char>>,
    date: Option<Timestamp>,
)
    ensures
        forall|j: int|
            0 <= j < logs.len() && log_matches(#[trigger] logs[j], peer_id, file_name, date)
                ==> matching_logs(logs, peer_id, file_name, date).contains(logs[j]),
    decreases logs.len(),
{
    if logs.len() > 0 {
        let d = logs.drop_last();
        lemma_matching_complete(d, peer_id, file_name, date);
        let r = matching_logs(logs, peer_id, file_name, date);
        let rd = matching_logs(d, peer_id, file_name, date);
        assert forall|j: int| 0 <= j < logs.len() && log_matches(#[trigger] logs[j], peer_id, file_name, date)
            implies r.contains(logs[j]) by {
            if j < d.len() {
                assert(d[j] == logs[j]);
                assert(rd.contains(d[j]));
                let w = choose|w: int| 0 <= w < rd.len() && rd[w] == d[j];
                assert(r[w] == rd[w]);
            } else {
                assert(r[r.len() - 1] == logs[j]);
            }
        }
    }
}

proof fn lemma_first_from_found(s: Seq<char>, pat: Seq<char>, i: int, p: int)
    requires
        0 <= i <= p,
        occurs_at(s, pat, p),
    ensures
        first_from(s, pat, i) is Some,
    decreases p - i,
{
    if i < p && !occurs_at(s, pat, i) {
        lemma_first_from_found(s, pat, i + 1, p);
    }
}

proof fn lemma_first_from_occurs(s: Seq<char>, pat: Seq<char>, i: int)
    requires
        first_from(s, pat, i) is Some,
    ensures
        occurs_at(s, pat, first_from(s, pat, i).unwrap()),
    decreases s.len() + 1 - i,
{
    if !(i < 0 || i + pat.len() > s.len()) && !occurs_at(s, pat, i) {
        lemma_first_from_occurs(s, pat, i + 1);
    }
}

proof fn lemma_matches_is_asked(
    log: FileTransferLog,
    peer_id: Option<Seq<char>>,
    file_name: Option<Seq<char>>,
    date: Option<Timestamp>,
)
    ensures
        log_matches(log, peer_id, file_name, date) <==> asked_of(log, peer_id, file_name, date),
{
    if let Some(n) = file_name {
        let hay = log.file_name@;
        if contains_text(hay, n) {
            lemma_first_from_occurs(hay, n, 0);
            let p = first_from(hay, n, 0).unwrap();
            assert(hay.subrange(p, p + n.len()) == n);
        }
        if holds_text(hay, n) {
            let p = choose|p: int|
                0 <= p && p + n.len() <= hay.len() && #[trigger] hay.subrange(p, p + n.len()) == n;
            lemma_first_from_found(hay, n, 0, p);
        }
    }
    if let Some(d) = date {
        let a = log.timestamp.secs as int;
        let b = d.secs as int;
        vstd::arithmetic::div_mod::lemma_fundamental_div_mod(a, 86400);
        vstd::arithmetic::div_mod::lemma_fundamental_div_mod(b, 86400);
        vstd::arithmetic::div_mod::lemma_mod_bound(a, 86400);
        vstd::arithmetic::div_mod::lemma_mod_bound(b, 86400);
        let q = b / 86400;
        assert(b - b % 86400 == q * 86400);
        if same_utc_day(a, b) {
            vstd::arithmetic::div_mod::lemma_fundamental_div_mod_converse(a, 86400, q, a - q * 86400);
        }
        if utc_day(a) == utc_day(b) {
            assert(a == 86400 * q + a % 86400);
        }
    }
}

pub open spec fn opt_view(s: Option<&str>) -> Option<Seq<char>> {
    match s {
        Some(x) => Some(x@),
        None => None,
    }
}

/// The day (counted from 1970-01-01, UTC) in which `secs` falls.
pub fn day_of(secs: i64) -> (day: i64)
    ensures
        day == utc_day(secs as int),
{
    match secs.checked_div_euclid(86400) {
        Some(d) => d,
        None => 0,
    }
}

/// The entries of `logs` for the peer `peer_id`, of a file whose name holds
/// `file_name` and made on the day of `date`, each condition only where it is
/// given, in their order.
pub fn search_transfer_log(
    logs: &Vec<FileTransferLog>,
    peer_id: Option<&str>,
    file_name: Option<&str>,
    date: Option<Timestamp>,
) -> (res: Vec<FileTransferLog>)
    ensures
        res@ == matching_logs(logs@, opt_view(peer_id), opt_view(file_name), date),
{
    let want_peer: Option<String> = match peer_id {
        Some(id) => Some(String::from_str(id)),
        None => None,
    };
    let want_name: Option<Vec<char>> = match file_name {
        Some(name) => Some(chars_of(name)),
        None => None,
    };
    let want_day: Option<i64> = match date {
        Some(d) => Some(day_of(d.secs)),
        None => None,
    };
    let ghost pv = opt_view(peer_id);
    let ghost fv = opt_view(file_name);
    let mut res: Vec<FileTransferLog> = Vec::new();
    let mut i: usize = 0;
    while i < logs.len()
        invariant
            i <= logs@.len(),
            res@ == matching_logs(logs@.take(i as int), pv, fv, date),
            match want_peer {
                Some(p) => pv == Some(p@),
                None => pv is None,
            },
            match want_name {
                Some(n) => fv == Some(n@),
                None => fv is None,
            },
            match want_day {
                Some(d) => date is Some && d == utc_day(date.unwrap().secs as int),
                None => date is None,
            },
        decreases logs.len() - i,
    {
        let log = &logs[i];
        let peer_ok = match &want_peer {
            Some(p) => log.peer_id == *p,
            None => true,
        };
        let name_ok = match &want_name {
            Some(n) => {
                let hay = chars_of(log.file_name.as_str());
                find_from(&hay, n, 0).is_some()
            },
            None => true,
        };
        let day_ok = match want_day {
            Some(d) => day_of(log.timestamp.secs) == d,
            None => true,
        };
        assert(logs@.take(i + 1).drop_last() =~= logs@.take(i as int));
        if peer_ok && name_ok && day_ok {
            res.push(log.clone());
        }
        i = i + 1;
    }
    assert(logs@.take(i as int) =~= logs@);
    res
}

} // verus!
