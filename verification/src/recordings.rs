//! Where recordings lie.

use vstd::prelude::*;
use vstd::string::*;

use crate::text::same_text;

verus! {

/// The path of a recording that was begun at a date and time.
pub open spec fn path_of(out_dir: Seq<char>, stamp: Seq<char>) -> Seq<char> {
    out_dir + "/ticks_"@ + stamp + ".jsonl"@
}

/// The path of a recording that is begun at a date and time.
pub fn recording_path(out_dir: &str, stamp: &str) -> (r: String)
    ensures
        r@ == path_of(out_dir@, stamp@),
{
    let mut r: String = out_dir.to_owned();
    r.append("/ticks_");
    r.append(stamp);
    r.append(".jsonl");
    r
}

/// An entry of a directory: whether it is a file, the extension of its name, and when it was last
/// changed, in nanoseconds from some fixed time, where that is known.
pub struct Entry {
    pub is_file: bool,
    pub extension: Option<String>,
    pub modified: Option<i128>,
}

/// Whether an entry may be a recording: whether it is a file, has the extension, and a known age.
pub open spec fn candidate(e: Entry) -> bool {
    &&& e.is_file
    &&& e.extension matches Some(x) && x@ == "jsonl"@
    &&& e.modified is Some
}

/// Whether the entry at a place is the latest recording: none is younger, and of those as young
/// it is the first.
pub open spec fn is_latest(entries: Seq<Entry>, i: int) -> bool {
    &&& 0 <= i < entries.len()
    &&& candidate(entries[i])
    &&& forall|j: int|
        0 <= j < entries.len() && candidate(#[trigger] entries[j]) ==> entries[j].modified->0
            <= entries[i].modified->0 && (j < i ==> entries[j].modified->0
            < entries[i].modified->0)
}

/// Whether `r` is the place of the latest recording; none where there is no recording.
pub open spec fn is_found(entries: Seq<Entry>, r: Option<usize>) -> bool {
    match r {
        Some(i) => is_latest(entries, i as int),
        None => forall|j: int| 0 <= j < entries.len() ==> !candidate(#[trigger] entries[j]),
    }
}

/// Finds the latest recording of a directory.
pub fn find_latest_jsonl(entries: &Vec<Entry>) -> (r: Option<usize>)
    ensures
        is_found(entries@, r),
{
    let mut best: Option<usize> = None;
    let mut i: usize = 0;
    while i < entries.len()
        invariant
            i <= entries.len(),
            match best {
                Some(b) => is_latest(entries@.take(i as int), b as int),
                None => forall|j: int| 0 <= j < i ==> !candidate(#[trigger] entries@[j]),
            },
        decreases entries.len() - i,
    {
        let ghost seen = entries@.take(i as int);
        let ghost more = entries@.take(i + 1);
        let mut is_recording: bool = false;
        if let Some(x) = &entries[i].extension {
            is_recording = same_text(x.as_str(), "jsonl");
        }
        if is_recording && entries[i].is_file {
            if let Some(modified) = entries[i].modified {
                let mut is_younger: bool = true;
                if let Some(b) = best {
                    assert(candidate(seen[b as int]));
                    if let Some(t) = entries[b].modified {
                        is_younger = t < modified;
                    }
                }
                if is_younger {
                    best = Some(i);
                }
            }
        }
        proof {
            assert forall|j: int| 0 <= j < i implies #[trigger] seen[j] == more[j] by {}
            if best is Some {
                let b = best->0 as int;
                assert(candidate(more[b]));
                assert forall|j: int|
                    0 <= j < more.len() && candidate(#[trigger] more[j]) implies more[j].modified->0
                    <= more[b].modified->0 && (j < b ==> more[j].modified->0
                    < more[b].modified->0) by {
                    if j < i {
                        assert(candidate(seen[j]));
                        assert(entries@[j] == seen[j]);
                    }
                }
            }
        }
        i = i + 1;
    }
    proof {
        assert(entries@.take(i as int) =~= entries@);
    }
    best
}

/// Only one entry of a directory is the latest recording.
pub proof fn latest_is_unique(entries: Seq<Entry>, i: int, j: int)
    requires
        is_latest(entries, i),
        is_latest(entries, j),
    ensures
        i == j,
{
    assert(candidate(entries[i]));
    assert(candidate(entries[j]));
}

} // verus!
