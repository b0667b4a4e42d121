//! Duration cache: audio file durations are kept, so that re-runs skip expensive ffprobe
//! calls for unchanged files.
//!
//! Cache entries are keyed by absolute path and validated against
//! (mtime, file_size) to detect changes.

use crate::json;
use crate::json::{parse_bytes, Json, Tree};
use crate::number;
use crate::number::to_millionths;
use crate::path;
use crate::path::{clean_path, join_paths};
use crate::path_laws;
use crate::stderr;
use crate::stderr::number_at;
use crate::text;
use crate::text::{push_text, same_text};
use vstd::prelude::*;

verus! {

/// The duration of a file in microseconds, as it was when the file had this modification
/// time (seconds) and size.
#[derive(Debug, Clone, Copy, PartialEq, Eq, Structural)]
pub struct CacheEntry {
    pub duration: i64,
    pub modified: u64,
    pub size: u64,
}

/// The durations of files, by their absolute paths.
#[derive(Debug)]
pub struct DurationCache {
    entries: Vec<(String, CacheEntry)>,
}

/// The map that a list of entries stands for; later entries supersede earlier ones.
pub open spec fn entry_map(v: Seq<(String, CacheEntry)>) -> Map<Seq<char>, CacheEntry>
    decreases v.len(),
{
    if v.len() == 0 {
        Map::empty()
    } else {
        entry_map(v.drop_last()).insert(v.last().0@, v.last().1)
    }
}

impl View for DurationCache {
    type V = Map<Seq<char>, CacheEntry>;

    closed spec fn view(&self) -> Map<Seq<char>, CacheEntry> {
        entry_map(self.entries@)
    }
}

/// Where the last entry with a key stands; negative where there is none.
spec fn last_place(v: Seq<(String, CacheEntry)>, key: Seq<char>) -> int
    decreases v.len(),
{
    if v.len() == 0 {
        -1
    } else if v.last().0@ == key {
        v.len() - 1
    } else {
        last_place(v.drop_last(), key)
    }
}

proof fn lemma_last_place(v: Seq<(String, CacheEntry)>, key: Seq<char>)
    ensures
        -1 <= last_place(v, key) < v.len(),
        last_place(v, key) >= 0 <==> entry_map(v).dom().contains(key),
        last_place(v, key) >= 0 ==> {
            &&& v[last_place(v, key)].0@ == key
            &&& entry_map(v)[key] == v[last_place(v, key)].1
        },
    decreases v.len(),
{
    if v.len() > 0 && v.last().0@ != key {
        lemma_last_place(v.drop_last(), key);
    }
}

/// Replacing the last entry of a key is inserting into the map.
proof fn lemma_replace(v: Seq<(String, CacheEntry)>, key: String, e: CacheEntry)
    requires
        last_place(v, key@) >= 0,
    ensures
        entry_map(v.update(last_place(v, key@), (key, e))) == entry_map(v).insert(key@, e),
    decreases v.len(),
{
    lemma_last_place(v, key@);
    let i = last_place(v, key@);
    let w = v.update(i, (key, e));
    if v.last().0@ == key@ {
        assert(w.drop_last() =~= v.drop_last());
        assert(entry_map(w) =~= entry_map(v).insert(key@, e));
    } else {
        lemma_last_place(v.drop_last(), key@);
        lemma_replace(v.drop_last(), key, e);
        assert(w.drop_last() =~= v.drop_last().update(i, (key, e)));
        assert(entry_map(w) =~= entry_map(v).insert(key@, e));
    }
}

impl DurationCache {
    /// A cache without entries.
    pub fn new() -> (r: DurationCache)
        ensures
            r@ == Map::<Seq<char>, CacheEntry>::empty(),
    {
        DurationCache { entries: Vec::new() }
    }

    /// The cache that a list of entries stands for.
    pub fn from_entries(entries: Vec<(String, CacheEntry)>) -> (r: DurationCache)
        ensures
            r@ == entry_map(entries@),
    {
        DurationCache { entries }
    }

    /// A list of entries that stands for the cache.
    pub fn entries(&self) -> (r: &Vec<(String, CacheEntry)>)
        ensures
            entry_map(r@) == self@,
    {
        &self.entries
    }

    fn find(&self, key: &str) -> (r: Option<usize>)
        ensures
            match r {
                Some(i) => i == last_place(self.entries@, key@) && i < self.entries@.len(),
                None => last_place(self.entries@, key@) == -1,
            },
    {
        let mut i: usize = self.entries.len();
        assert(self.entries@.take(i as int) =~= self.entries@);
        while i > 0
            invariant
                i <= self.entries@.len(),
                last_place(self.entries@, key@) == last_place(self.entries@.take(i as int), key@),
            decreases i,
        {
            assert(self.entries@.take(i as int).drop_last() =~= self.entries@.take(i - 1));
            let e = &self.entries[i - 1];
            if same_text(e.0.as_str(), key) {
                return Some(i - 1);
            }
            i -= 1;
        }
        None
    }

    /// The entry of a file.
    pub fn get(&self, key: &str) -> (r: Option<CacheEntry>)
        ensures
            r == if self@.dom().contains(key@) {
                Some(self@[key@])
            } else {
                None
            },
    {
        proof {
            lemma_last_place(self.entries@, key@);
        }
        match self.find(key) {
            Some(i) => Some(self.entries[i].1),
            None => None,
        }
    }

    /// Sets the entry of a file.
    pub fn insert(&mut self, key: &str, entry: CacheEntry)
        ensures
            final(self)@ == old(self)@.insert(key@, entry),
    {
        let k = key.to_owned();
        match self.find(key) {
            Some(i) => {
                proof {
                    lemma_replace(self.entries@, k, entry);
                }
                self.entries.set(i, (k, entry));
            },
            None => {
                let ghost before = self.entries@;
                self.entries.push((k, entry));
                assert(self.entries@.drop_last() =~= before);
            },
        }
    }
}

// ─── Looking up and probing ────────────────────────────────────

/// What a file's duration comes from.
#[derive(Debug, Clone, Copy, PartialEq, Eq, Structural)]
pub enum Lookup {
    /// The file cannot be read: it has no duration.
    Unreadable,
    /// The cache holds the duration, and the file has not changed since.
    Cached(i64),
    /// The file has to be probed; its modification time and size go into the cache.
    Probe { modified: u64, size: u64 },
}

/// What the cache says of a file with this modification time and size.
pub open spec fn lookup(
    cache: Map<Seq<char>, CacheEntry>,
    key: Seq<char>,
    metadata: Option<(u64, u64)>,
) -> Lookup {
    match metadata {
        None => Lookup::Unreadable,
        Some((modified, size)) => if cache.dom().contains(key) && cache[key].modified == modified
            && cache[key].size == size {
            Lookup::Cached(cache[key].duration)
        } else {
            Lookup::Probe { modified, size }
        },
    }
}

/// The cache key of a file: its absolute path, with only the parts that count.
pub open spec fn key_of(current_dir: Seq<char>, file: Seq<char>) -> Seq<char> {
    path::clean(path::join(current_dir, file))
}

/// The cache key of a file: its absolute path, however it is spelled.
pub fn cache_key(current_dir: &str, file: &str) -> (r: String)
    ensures
        r@ == key_of(current_dir@, file@),
{
    clean_path(join_paths(current_dir, file).as_str())
}

/// The first half of finding a duration: looks the file up in the cache, given its
/// `(mtime_secs, file_size)` where those can be read.
pub fn lookup_duration(cache: &DurationCache, key: &str, metadata: Option<(u64, u64)>) -> (r: Lookup)
    ensures
        r == lookup(cache@, key@, metadata),
{
    match metadata {
        None => Lookup::Unreadable,
        Some((modified, size)) => {
            if let Some(e) = cache.get(key) {
                if e.modified == modified && e.size == size {
                    return Lookup::Cached(e.duration);
                }
            }
            Lookup::Probe { modified, size }
        },
    }
}

/// The arguments that make ffprobe print the format of a file as JSON.
pub open spec fn duration_probe_arguments(file: Seq<char>) -> Seq<Seq<char>> {
    seq!["-v"@, "quiet"@, "-print_format"@, "json"@, "-show_format"@, file]
}

/// The arguments that make ffprobe print the format of a file as JSON.
pub fn duration_probe_args(file: &str) -> (r: Vec<String>)
    ensures
        text::texts(r@) == duration_probe_arguments(file@),
{
    let mut args: Vec<String> = Vec::new();
    assert(text::texts(args@) =~= seq![]);
    push_text(&mut args, "-v");
    push_text(&mut args, "quiet");
    push_text(&mut args, "-print_format");
    push_text(&mut args, "json");
    push_text(&mut args, "-show_format");
    push_text(&mut args, file);
    assert(text::texts(args@) =~= duration_probe_arguments(file@));
    args
}

/// The duration in a document that ffprobe printed, in microseconds.
pub open spec fn duration_in(t: Tree) -> Option<int> {
    match json::field(t, "format"@) {
        Some(format) => match stderr::number_field(format, "duration"@) {
            Some(n) => Some(number::millionths_of(n)),
            None => None,
        },
        None => None,
    }
}

/// The duration in a document that ffprobe printed.
pub fn duration_from(j: &Json) -> (r: Option<i64>)
    ensures
        match r {
            Some(d) => duration_in(j.tree()) == Some(d as int),
            None => duration_in(j.tree()) is None,
        },
{
    match j.get("format") {
        Some(format) => match number_at(format, "duration") {
            Some(n) => Some(to_millionths(n)),
            None => None,
        },
        None => None,
    }
}

/// The duration in what ffprobe printed, if it printed anything.
pub open spec fn probed_duration(stdout: Option<Vec<u8>>) -> Option<int> {
    match stdout {
        None => None,
        Some(bytes) => match json::document_in_bytes(bytes@) {
            None => None,
            Some(t) => duration_in(t),
        },
    }
}

/// The cache after a file with this modification time and size was probed, with what was found.
pub open spec fn after_probing(
    cache: Map<Seq<char>, CacheEntry>,
    key: Seq<char>,
    modified: u64,
    size: u64,
    found: Option<i64>,
) -> Map<Seq<char>, CacheEntry> {
    match found {
        Some(duration) => cache.insert(key, CacheEntry { duration, modified, size }),
        None => cache,
    }
}

/// The second half of finding a duration: reads it from what ffprobe printed and keeps it
/// in the cache. `stdout` is `None` where ffprobe failed. Nothing is kept of a failure.
pub fn get_duration(
    cache: &mut DurationCache,
    key: &str,
    modified: u64,
    size: u64,
    stdout: &Option<Vec<u8>>,
) -> (r: Option<i64>)
    ensures
        match r {
            Some(d) => probed_duration(*stdout) == Some(d as int),
            None => probed_duration(*stdout) is None,
        },
        final(cache)@ == after_probing(old(cache)@, key@, modified, size, r),
{
    match stdout {
        None => None,
        Some(bytes) => match parse_bytes(bytes) {
            None => None,
            Some(j) => match duration_from(&j) {
                None => None,
                Some(duration) => {
                    cache.insert(key, CacheEntry { duration, modified, size });
                    Some(duration)
                },
            },
        },
    }
}

/// A file is not probed again as long as its modification time and size stay the same: what
/// was found is what the next lookup gives. A file with another time or size is probed.
pub proof fn law_unchanged_files_are_not_probed(
    cache: Map<Seq<char>, CacheEntry>,
    key: Seq<char>,
    e: CacheEntry,
    modified: u64,
    size: u64,
)
    ensures
        lookup(cache.insert(key, e), key, Some((e.modified, e.size))) == Lookup::Cached(e.duration),
        modified != e.modified || size != e.size ==> lookup(
            cache.insert(key, e),
            key,
            Some((modified, size)),
        ) == (Lookup::Probe { modified, size }),
{
}

/// What is kept of one file does not change what is known of another.
pub proof fn law_files_are_kept_apart(
    cache: Map<Seq<char>, CacheEntry>,
    key: Seq<char>,
    other: Seq<char>,
    e: CacheEntry,
    metadata: Option<(u64, u64)>,
)
    requires
        key != other,
    ensures
        lookup(cache.insert(key, e), other, metadata) == lookup(cache, other, metadata),
{
}

proof fn lemma_absolute(dir: Seq<char>, file: Seq<char>)
    requires
        path::is_absolute(dir),
    ensures
        path::is_absolute(path::join(dir, file)),
{
    let p = path::join(dir, file);
    if !path::is_absolute(file) {
        assert(p[0] == dir[0]);
    }
}

/// Two spellings share a key exactly if, seen from the current directory, they have the same
/// parts.
pub proof fn law_spellings_share_a_key(dir: Seq<char>, a: Seq<char>, b: Seq<char>)
    requires
        path::is_absolute(dir),
    ensures
        key_of(dir, a) == key_of(dir, b) <==> path::components(path::join(dir, a))
            == path::components(path::join(dir, b)),
{
    lemma_absolute(dir, a);
    lemma_absolute(dir, b);
    path_laws::law_cleaning_keeps_components(path::join(dir, a));
    path_laws::law_cleaning_keeps_components(path::join(dir, b));
}

/// A file has one key, whether it is named from the current directory, with a `.` in front, or
/// by its absolute path.
pub proof fn law_relative_and_absolute_share_a_key(dir: Seq<char>, rel: Seq<char>, from: Seq<char>)
    requires
        path::is_absolute(dir),
        !path::is_absolute(rel),
    ensures
        key_of(from, path::join(dir, rel)) == key_of(dir, rel),
        key_of(dir, seq!['.', '/'] + rel) == key_of(dir, rel),
{
    lemma_absolute(dir, rel);
    let dotted = seq!['.', '/'] + rel;
    assert(dotted[0] == '.');
    path_laws::law_joining_adds_components(dir, rel);
    path_laws::law_joining_adds_components(dir, dotted);
    path_laws::law_leading_dot_does_not_count(rel);
    law_spellings_share_a_key(dir, dotted, rel);
}

/// What was found of a file under one spelling is known under every other that has the same
/// parts: the file is not probed again, and is kept once.
pub proof fn law_found_under_every_spelling(
    cache: Map<Seq<char>, CacheEntry>,
    dir: Seq<char>,
    a: Seq<char>,
    b: Seq<char>,
    e: CacheEntry,
)
    requires
        path::is_absolute(dir),
        path::components(path::join(dir, a)) == path::components(path::join(dir, b)),
    ensures
        lookup(cache.insert(key_of(dir, a), e), key_of(dir, b), Some((e.modified, e.size)))
            == Lookup::Cached(e.duration),
        cache.insert(key_of(dir, a), e).insert(key_of(dir, b), e) == cache.insert(
            key_of(dir, a),
            e,
        ),
{
    law_spellings_share_a_key(dir, a, b);
    assert(cache.insert(key_of(dir, a), e).insert(key_of(dir, b), e) =~= cache.insert(
        key_of(dir, a),
        e,
    ));
}

/// What was found of a file is what the next lookup gives as long as its modification time and
/// size stay the same, and whatever else is probed in between; where nothing was found, nothing
/// is known that was not known before.
pub proof fn law_found_durations_are_kept(
    cache: Map<Seq<char>, CacheEntry>,
    key: Seq<char>,
    modified: u64,
    size: u64,
    found: Option<i64>,
    other: Seq<char>,
    metadata: Option<(u64, u64)>,
)
    requires
        other != key,
    ensures
        ({
            let after = after_probing(cache, key, modified, size, found);
            &&& found matches Some(d) ==> lookup(after, key, Some((modified, size)))
                == Lookup::Cached(d)
            &&& lookup(after, other, metadata) == lookup(cache, other, metadata)
            &&& found is None ==> lookup(after, key, metadata) == lookup(cache, key, metadata)
            &&& lookup(after, key, None) == Lookup::Unreadable
        }),
{
}

} // verus!
