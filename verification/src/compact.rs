//! Manual-compaction planning for the durable engine.
//!
//! Picking which files a ranged compaction rewrites, and with what
//! output settings, is plain logic over the per-level file metadata the
//! engine reports; the engine itself performs the compaction.

use vstd::prelude::*;

use crate::byteorder::{bytes_le, bytes_lt, lex_le, lex_lt};

verus! {

/// One table file of the durable engine, as its metadata reports it.
pub struct SstFileMeta {
    pub name: Vec<u8>,
    pub level: usize,
    pub smallest_key: Vec<u8>,
    pub largest_key: Vec<u8>,
}

/// Compression applied to a compaction's output.
#[derive(Clone, Copy, PartialEq, Eq, Structural, Debug)]
pub enum CompressionType {
    NoCompression,
    Snappy,
    Zlib,
    Lz4,
    Lz4hc,
    Zstd,
}

/// Whether a ranged compaction must rewrite this file: it sits below the
/// output level and its key span is not wholly outside `[start, end)`.
pub open spec fn file_selected(
    f: SstFileMeta,
    start: Option<Seq<u8>>,
    end: Option<Seq<u8>>,
    output_level: usize,
) -> bool {
    &&& f.level < output_level
    &&& (end matches Some(e) ==> !lex_le(e, f.smallest_key@))
    &&& (start matches Some(s) ==> !lex_lt(f.largest_key@, s))
}

pub open spec fn selected_upto(
    files: Seq<SstFileMeta>,
    start: Option<Seq<u8>>,
    end: Option<Seq<u8>>,
    output_level: usize,
    n: int,
) -> Seq<Seq<u8>>
    decreases n,
{
    if n <= 0 {
        Seq::empty()
    } else if file_selected(files[n - 1], start, end, output_level) {
        selected_upto(files, start, end, output_level, n - 1).push(files[n - 1].name@)
    } else {
        selected_upto(files, start, end, output_level, n - 1)
    }
}

pub open spec fn selected_files(
    files: Seq<SstFileMeta>,
    start: Option<Seq<u8>>,
    end: Option<Seq<u8>>,
    output_level: usize,
) -> Seq<Seq<u8>> {
    selected_upto(files, start, end, output_level, files.len() as int)
}

/// The names of the files a compaction of `[start, end)` into
/// `output_level` must rewrite: every file on a lower level whose span
/// touches the range. `None` bounds leave that side open.
pub fn select_files_for_range(
    files: &Vec<SstFileMeta>,
    start: &Option<Vec<u8>>,
    end: &Option<Vec<u8>>,
    output_level: usize,
) -> (r: Vec<Vec<u8>>)
    ensures
        r@.map_values(|n: Vec<u8>| n@) == selected_files(
            files@,
            match *start {
                Some(s) => Some(s@),
                None => None,
            },
            match *end {
                Some(e) => Some(e@),
                None => None,
            },
            output_level,
        ),
{
    let ghost sv: Option<Seq<u8>> = match start {
        Some(s) => Some(s@),
        None => None,
    };
    let ghost ev: Option<Seq<u8>> = match end {
        Some(e) => Some(e@),
        None => None,
    };
    let mut r: Vec<Vec<u8>> = Vec::new();
    let mut i: usize = 0;
    while i < files.len()
        invariant
            i <= files@.len(),
            sv == (match start {
                Some(s) => Some(s@),
                None => None,
            }),
            ev == (match end {
                Some(e) => Some(e@),
                None => None,
            }),
            r@.map_values(|n: Vec<u8>| n@) == selected_upto(files@, sv, ev, output_level, i as int),
        decreases files@.len() - i,
    {
        let ghost rsnap = r@;
        let f = &files[i];
        let end_ok = match end {
            Some(e) => !bytes_le(e.as_slice(), f.smallest_key.as_slice()),
            None => true,
        };
        let start_ok = match start {
            Some(s) => !bytes_lt(f.largest_key.as_slice(), s.as_slice()),
            None => true,
        };
        proof {
            assert(end_ok == (ev matches Some(e) ==> !lex_le(e, files@[i as int].smallest_key@)));
            assert(start_ok == (sv matches Some(st) ==> !lex_lt(files@[i as int].largest_key@, st)));
        }
        if f.level < output_level && end_ok && start_ok {
            r.push(vstd::slice::slice_to_vec(f.name.as_slice()));
            proof {
                assert(file_selected(files@[i as int], sv, ev, output_level));
                assert(selected_upto(files@, sv, ev, output_level, i as int + 1) == selected_upto(
                    files@,
                    sv,
                    ev,
                    output_level,
                    i as int,
                ).push(files@[i as int].name@));
                assert(r@.map_values(|n: Vec<u8>| n@) =~= rsnap.map_values(|n: Vec<u8>| n@).push(
                    files@[i as int].name@,
                ));
            }
        } else {
            proof {
                assert(!file_selected(files@[i as int], sv, ev, output_level));
                assert(selected_upto(files@, sv, ev, output_level, i as int + 1) == selected_upto(
                    files@,
                    sv,
                    ev,
                    output_level,
                    i as int,
                ));
            }
        }
        i += 1;
    }
    r
}

/// The level a compaction writes to: the requested one, or the engine's
/// bottom level.
pub fn compaction_output_level(requested: Option<usize>, num_levels: usize) -> (r: usize)
    requires
        num_levels > 0,
    ensures
        requested matches Some(l) ==> r == l,
        requested is None ==> r == num_levels - 1,
{
    match requested {
        Some(l) => l,
        None => num_levels - 1,
    }
}

/// The compression of the output level: the per-level table's entry, or
/// none when the table is shorter.
pub fn pick_output_compression(per_level: &Vec<CompressionType>, output_level: usize) -> (r:
    CompressionType)
    ensures
        output_level < per_level@.len() ==> r == per_level@[output_level as int],
        output_level >= per_level@.len() ==> r == CompressionType::NoCompression,
{
    if output_level < per_level.len() {
        per_level[output_level]
    } else {
        CompressionType::NoCompression
    }
}

/// How many subcompactions a ranged compaction runs: one per processor,
/// capped at 32.
pub fn subcompactions_for(cpus: usize) -> (r: usize)
    ensures
        r == if cpus <= 32 {
            cpus
        } else {
            32
        },
{
    if cpus <= 32 {
        cpus
    } else {
        32
    }
}

/// Whether any column family has automatic compactions switched off,
/// given each family's flag.
pub fn auto_compactions_is_disabled(flags: &Vec<bool>) -> (r: bool)
    ensures
        r == exists|i: int| 0 <= i < flags@.len() && flags@[i],
{
    let mut i: usize = 0;
    while i < flags.len()
        invariant
            i <= flags@.len(),
            forall|j: int| 0 <= j < i ==> !flags@[j],
        decreases flags@.len() - i,
    {
        if flags[i] {
            return true;
        }
        i += 1;
    }
    false
}

} // verus!
