use vstd::prelude::*;
use crate::config::CompiledPersona;
use crate::persona::{ValveEvent, ValveEventView, match_personas, matched_events, content_view,
    event_views};
use crate::codec::{chronicle_line, spec_event_json};

verus! {

/// The kind of a filesystem notification, as the OS watcher classifies it.
#[derive(Clone, Copy, Debug, PartialEq, Eq, Structural)]
pub enum FsEventKind {
    Create,
    Modify,
    Remove,
    /// Access, attribute or rename-boundary notifications.
    Other,
}

/// Only create, modify and remove notifications drive matching;
/// metadata-only events are discarded.
pub open spec fn spec_relevant(k: FsEventKind) -> bool {
    k is Create || k is Modify || k is Remove
}

pub fn relevant_kind(k: FsEventKind) -> (r: bool)
    ensures
        r == spec_relevant(k),
{
    match k {
        FsEventKind::Other => false,
        _ => true,
    }
}

/// The affected path relative to the watched root: the empty path for
/// the root itself, the suffix across a `/` separator for a path lying
/// strictly under the root, and nothing for a path outside it.
pub open spec fn spec_rel_path(root: Seq<char>, path: Seq<char>) -> Option<Seq<char>> {
    if path == root {
        Some(Seq::empty())
    } else if path.len() > root.len() + 1 && path.take(root.len() as int) == root
        && path[root.len() as int] == '/' {
        Some(path.skip(root.len() as int + 1))
    } else {
        None
    }
}

/// Strips the watched root from an affected path.
pub fn rel_path(root: &str, path: &str) -> (r: Option<String>)
    ensures
        match spec_rel_path(root@, path@) {
            Some(rel) => r is Some && r.unwrap()@ == rel,
            None => r is None,
        },
{
    if crate::text::str_eq(root, path) {
        return Some(String::new());
    }
    let rn = root.unicode_len();
    let pn = path.unicode_len();
    if pn <= rn || pn - rn <= 1 {
        return None;
    }
    let mut i: usize = 0;
    while i < rn
        invariant
            rn == root@.len(),
            pn == path@.len(),
            pn > rn + 1,
            i <= rn,
            forall|j: int| 0 <= j < i ==> path@[j] == root@[j],
        decreases rn - i,
    {
        if path.get_char(i) != root.get_char(i) {
            assert(path@.take(rn as int)[i as int] != root@[i as int]);
            return None;
        }
        i += 1;
    }
    assert(path@.take(rn as int) =~= root@);
    if path.get_char(rn) != '/' {
        return None;
    }
    let rel = path.substring_char(rn + 1, pn);
    Some(String::from_str(rel))
}

/// The chronicle lines one filesystem notification yields for one
/// affected path: nothing for an irrelevant kind or a path outside the
/// root, else one serialized line per matched persona, in persona order.
pub open spec fn spec_event_lines(
    personas: Seq<CompiledPersona>,
    repo: Seq<char>,
    kind: FsEventKind,
    path: Seq<char>,
    content: Option<Seq<char>>,
    ts: int,
) -> Seq<Seq<char>> {
    if !spec_relevant(kind) {
        Seq::empty()
    } else {
        match spec_rel_path(repo, path) {
            None => Seq::empty(),
            Some(rel) => matched_events(personas, repo, rel, content, ts)
                .map_values(|e: ValveEventView| spec_event_json(e) + seq!['\n']),
        }
    }
}

/// Turns one filesystem notification into chronicle records.
///
/// `content` is the affected file's text where it could be read as
/// UTF-8; the caller appends each returned line to the chronicle with a
/// single write.
pub fn event_lines(
    personas: &Vec<CompiledPersona>,
    repo: &String,
    kind: FsEventKind,
    path: &String,
    content: Option<&String>,
    timestamp: i64,
) -> (r: Vec<String>)
    ensures
        r@.map_values(|s: String| s@) == spec_event_lines(
            personas@, repo@, kind, path@, content_view(content), timestamp as int),
{
    let mut out: Vec<String> = Vec::new();
    if !relevant_kind(kind) {
        assert(out@.map_values(|s: String| s@) =~= Seq::<Seq<char>>::empty());
        return out;
    }
    let rel = match rel_path(repo.as_str(), path.as_str()) {
        None => {
            assert(out@.map_values(|s: String| s@) =~= Seq::<Seq<char>>::empty());
            return out;
        },
        Some(rel) => rel,
    };
    let events = match_personas(personas, repo, &rel, content, timestamp);
    let ghost matched = matched_events(
        personas@, repo@, rel@, content_view(content), timestamp as int);
    let n = events.len();
    let mut i: usize = 0;
    while i < n
        invariant
            n == events@.len(),
            i <= n,
            out@.len() == i,
            event_views(events@) == matched,
            forall|j: int| 0 <= j < i
                ==> (#[trigger] out@[j])@ == spec_event_json(matched[j]) + seq!['\n'],
        decreases n - i,
    {
        assert(event_views(events@)[i as int] == events@[i as int]@);
        let line = chronicle_line(&events[i]);
        out.push(line);
        i += 1;
    }
    proof {
        assert(out@.map_values(|s: String| s@) =~= matched.map_values(
            |e: ValveEventView| spec_event_json(e) + seq!['\n']));
    }
    out
}

/// Relies on `chrono::Utc::now` and `DateTime::timestamp_millis`: the
/// clock reading at the call, as milliseconds since the epoch, UTC.
/// Nothing is assumed of the value.
#[verifier::external_body]
fn now_millis() -> (r: i64) {
    chrono::Utc::now().timestamp_millis()
}

/// `event_lines`, stamped with the clock at the call. Whatever the
/// clock read, the records are exactly those of `spec_event_lines` for
/// that reading.
pub fn event_lines_now(
    personas: &Vec<CompiledPersona>,
    repo: &String,
    kind: FsEventKind,
    path: &String,
    content: Option<&String>,
) -> (r: Vec<String>)
    ensures
        exists|ts: i64| r@.map_values(|s: String| s@) == spec_event_lines(
            personas@, repo@, kind, path@, content_view(content), ts as int),
{
    let ts = now_millis();
    let r = event_lines(personas, repo, kind, path, content, ts);
    proof {
        assert(r@.map_values(|s: String| s@) == spec_event_lines(
            personas@, repo@, kind, path@, content_view(content), ts as int));
    }
    r
}

} // verus!
