//! What is handed to whoever prints the outcome.
//!
//! Objects to delete are named by the index file of their canonical key, one
//! per line; archives to delete by their origin, one per line. The summary
//! gives the counts and the number of bytes reclaimed, the latter also as a
//! text with a binary unit.

use crate::intern::texts;
use crate::record::RecordStore;
use crate::sweep::Sweep;
use vstd::prelude::*;
use vstd::string::*;

verus! {

/// What follows the key in the name of an object's index file.
pub open spec fn index_suffix() -> Seq<char> {
    seq!['.', 'n', 'a', 'r', 'i', 'n', 'f', 'o']
}

/// The line that names the index file of the object with canonical key
/// `key`.
pub open spec fn index_line(key: Seq<char>) -> Seq<char> {
    key + index_suffix() + seq!['\n']
}

/// The line that names the archive at `url`.
pub open spec fn origin_line(url: Seq<char>) -> Seq<char> {
    url + seq!['\n']
}

/// The lines for the objects `delete`, then those for the archives
/// `delete_origins`.
pub open spec fn lines_for(
    keys: Seq<Seq<char>>,
    origins: Seq<Seq<char>>,
    delete: Seq<usize>,
    delete_origins: Seq<usize>,
) -> Seq<Seq<char>> {
    delete.map_values(|a: usize| index_line(keys[a as int])) + delete_origins.map_values(
        |k: usize| origin_line(origins[k as int]),
    )
}

/// The text that `byte_unit` gives for a number of bytes when asked for the
/// fitting binary unit.
pub uninterp spec fn size_text(bytes: u128) -> Seq<char>;

/// A number of bytes as a text with the fitting binary unit, by
/// `byte_unit::Byte::from_bytes`, `Byte::get_appropriate_unit` with binary
/// multiples, and the `Display` of the `AdjustedByte` that comes back. The
/// text depends on the number alone; what it is in detail is left to
/// `byte_unit`.
#[verifier::external_body]
fn format_size(bytes: u128) -> (text: String)
    ensures
        text@ == size_text(bytes),
{
    byte_unit::Byte::from_bytes(bytes).get_appropriate_unit(true).to_string()
}

/// The line that names the index file of the object with canonical key
/// `key`.
pub fn index_file_line(key: &str) -> (line: String)
    ensures
        line@ == index_line(key@),
{
    let mut line = String::from_str(key);
    proof {
        reveal_strlit(".narinfo\n");
        assert(".narinfo\n"@ =~= index_suffix() + seq!['\n']);
    }
    line.append(".narinfo\n");
    assert(line@ =~= index_line(key@));
    line
}

/// The line that names the archive at `url`.
pub fn origin_file_line(url: &str) -> (line: String)
    ensures
        line@ == origin_line(url@),
{
    let mut line = String::from_str(url);
    proof {
        reveal_strlit("\n");
        assert("\n"@ =~= seq!['\n']);
    }
    line.append("\n");
    line
}

/// The lines to print for a sweep: one for every object to delete, then one
/// for every archive to delete.
pub fn deletion_lines(store: &RecordStore, sweep: &Sweep) -> (lines: Vec<String>)
    requires
        store.wf(),
        sweep.within(*store),
    ensures
        texts(lines@) == lines_for(
            store.keys(),
            store.origins(),
            sweep.delete@,
            sweep.delete_origins@,
        ),
{
    let ghost keys = store.keys();
    let ghost origins = store.origins();
    let ghost first = sweep.delete@.map_values(|a: usize| index_line(keys[a as int]));
    let mut lines: Vec<String> = Vec::new();
    let mut i: usize = 0;
    while i < sweep.delete.len()
        invariant
            i <= sweep.delete.len(),
            store.wf(),
            keys == store.keys(),
            first == sweep.delete@.map_values(|a: usize| index_line(keys[a as int])),
            forall|i: int| 0 <= i < sweep.delete.len() ==> (#[trigger] sweep.delete@[i]) < store.kept().len(),
            texts(lines@) == first.take(i as int),
        decreases sweep.delete.len() - i,
    {
        let line = index_file_line(store.key(sweep.delete[i]).as_str());
        proof {
            assert(texts(lines@.push(line)) =~= texts(lines@).push(line@));
            assert(first.take(i + 1) =~= first.take(i as int).push(first[i as int]));
        }
        lines.push(line);
        i += 1;
    }
    let ghost second = sweep.delete_origins@.map_values(|k: usize| origin_line(origins[k as int]));
    let mut j: usize = 0;
    assert(first.take(i as int) =~= first);
    assert(first + second.take(0) =~= first);
    while j < sweep.delete_origins.len()
        invariant
            j <= sweep.delete_origins.len(),
            store.wf(),
            origins == store.origins(),
            second == sweep.delete_origins@.map_values(|k: usize| origin_line(origins[k as int])),
            forall|i: int|
                0 <= i < sweep.delete_origins.len() ==> (#[trigger] sweep.delete_origins@[i])
                    < store.origins().len(),
            texts(lines@) == first + second.take(j as int),
        decreases sweep.delete_origins.len() - j,
    {
        let line = origin_file_line(store.origin(sweep.delete_origins[j]).as_str());
        proof {
            assert(texts(lines@.push(line)) =~= texts(lines@).push(line@));
            assert(first + second.take(j + 1) =~= (first + second.take(j as int)).push(
                second[j as int],
            ));
        }
        lines.push(line);
        j += 1;
    }
    assert(second.take(j as int) =~= second);
    lines
}

/// The counts and sizes that sum up a sweep.
#[derive(Debug, Clone, PartialEq, Eq)]
pub struct Summary {
    /// How many objects are to be deleted.
    pub paths_to_delete: usize,
    /// How many objects the store holds.
    pub paths: usize,
    /// How many archives are to be deleted.
    pub nars_to_delete: usize,
    /// How many archives there are.
    pub nars: usize,
    /// How many bytes deleting the archives reclaims.
    pub reclaimable: u128,
    /// The same number of bytes as a text with a binary unit.
    pub size: String,
}

/// Sums up a sweep over the objects of `store`.
pub fn summarize(store: &RecordStore, sweep: &Sweep) -> (summary: Summary)
    requires
        store.wf(),
    ensures
        summary.paths_to_delete == sweep.delete.len(),
        summary.paths == store.kept().len(),
        summary.nars_to_delete == sweep.delete_origins.len(),
        summary.nars == store.origins().len(),
        summary.reclaimable == sweep.reclaimable,
        summary.size@ == size_text(sweep.reclaimable),
{
    Summary {
        paths_to_delete: sweep.delete.len(),
        paths: store.len(),
        nars_to_delete: sweep.delete_origins.len(),
        nars: store.origin_count(),
        reclaimable: sweep.reclaimable,
        size: format_size(sweep.reclaimable),
    }
}

/// The number of closures that must be added before progress is reported
/// again.
pub const PROGRESS_STEP: usize = 20;

/// Whether progress is to be reported: more than `PROGRESS_STEP` closures
/// have been computed since the last report.
pub fn progress_due(computed: usize, last_reported: usize) -> (due: bool)
    ensures
        due == (computed > last_reported + PROGRESS_STEP),
{
    computed > last_reported && computed - last_reported > PROGRESS_STEP
}

} // verus!
