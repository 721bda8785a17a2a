//! Snapshot of the existing dynamic-partition host, parsed from the
//! human-readable output of the external metadata-dump tool.

use vstd::prelude::*;

use crate::errors::UpdateError;
use crate::text::{dec_value, is_digit, is_ws, matches_at, parse_u64_dec};
use crate::words::{key_first_sector, key_header_flags, key_metadata_max_size,
    key_metadata_slot_count, key_size, val_virtual_ab, key_first_sector_bytes,
    key_header_flags_bytes, key_metadata_max_size_bytes, key_metadata_slot_count_bytes,
    key_size_bytes, val_virtual_ab_bytes};

verus! {

/// Snapshot of the dynamic-partition host. A field whose label does
/// not occur in the dump keeps its zero default. Immutable once
/// parsed.
#[derive(Clone, Copy, PartialEq, Eq, Structural, Debug)]
pub struct SuperLayoutInfo {
    /// Bytes reserved per metadata slot copy.
    pub metadata_size: u64,
    /// Number of metadata slot copies; selects the layout algorithm.
    pub metadata_slot_count: u64,
    /// Total addressable bytes of the host partition.
    pub device_size: u64,
    /// First usable offset in bytes (the dump gives 512-byte sectors).
    pub first_sector_bytes: u64,
    /// Whether the host uses virtual A/B snapshotting.
    pub is_virtual_ab: bool,
}

/// A word byte: letter, digit or underscore.
pub open spec fn is_word_byte(b: u8) -> bool {
    is_digit(b) || (65 <= b <= 90) || (97 <= b <= 122) || b == 95
}

/// First position at or after `j` that is not whitespace.
pub open spec fn skip_ws_from(d: Seq<u8>, j: int) -> int
    decreases d.len() - j when 0 <= j <= d.len()
{
    if j < d.len() && is_ws(d[j]) {
        skip_ws_from(d, j + 1)
    } else {
        j
    }
}

/// End of the run of digit (or word) bytes starting at `j`.
pub open spec fn class_end(d: Seq<u8>, j: int, word: bool) -> int
    decreases d.len() - j when 0 <= j <= d.len()
{
    if j < d.len() && (if word {
        is_word_byte(d[j])
    } else {
        is_digit(d[j])
    }) {
        class_end(d, j + 1, word)
    } else {
        j
    }
}

/// The label stands at `i`, followed by at least one whitespace byte
/// and then at least one byte of the value class: one full match of
/// the field pattern.
pub open spec fn key_match_at(d: Seq<u8>, i: int, key: Seq<u8>, word: bool) -> bool {
    &&& 0 <= i
    &&& i + key.len() <= d.len()
    &&& d.subrange(i, i + key.len()) == key
    &&& {
        let w = skip_ws_from(d, i + key.len());
        &&& w > i + key.len()
        &&& w < d.len()
        &&& (if word {
            is_word_byte(d[w])
        } else {
            is_digit(d[w])
        })
    }
}

/// The first full match of the field pattern at or after `i`.
pub open spec fn find_key(d: Seq<u8>, key: Seq<u8>, i: int, word: bool) -> Option<int>
    decreases d.len() - i when 0 <= i
{
    if i >= d.len() {
        None
    } else if key_match_at(d, i, key, word) {
        Some(i)
    } else {
        find_key(d, key, i + 1, word)
    }
}

/// The value of a labelled field: the run of digit (or word) bytes
/// after the first full match of the label, if any.
pub open spec fn field_run(d: Seq<u8>, key: Seq<u8>, word: bool) -> Option<Seq<u8>> {
    match find_key(d, key, 0, word) {
        None => None,
        Some(i) => {
            let w = skip_ws_from(d, i + key.len());
            Some(d.subrange(w, class_end(d, w, word)))
        },
    }
}

proof fn lemma_skip_ws_at(d: Seq<u8>, j: int, w: int)
    requires
        0 <= j <= w <= d.len(),
        forall|t: int| j <= t < w ==> is_ws(#[trigger] d[t]),
        w < d.len() ==> !is_ws(d[w]),
    ensures
        skip_ws_from(d, j) == w,
    decreases w - j,
{
    if j < w {
        lemma_skip_ws_at(d, j + 1, w);
    }
}

proof fn lemma_class_end_at(d: Seq<u8>, j: int, e: int, word: bool)
    requires
        0 <= j <= e <= d.len(),
        forall|t: int|
            j <= t < e ==> (if word {
                is_word_byte(#[trigger] d[t])
            } else {
                is_digit(d[t])
            }),
        e < d.len() ==> !(if word {
            is_word_byte(d[e])
        } else {
            is_digit(d[e])
        }),
    ensures
        class_end(d, j, word) == e,
    decreases e - j,
{
    if j < e {
        lemma_class_end_at(d, j + 1, e, word);
    }
}

proof fn lemma_find_key_here(d: Seq<u8>, key: Seq<u8>, i: int, word: bool)
    requires
        0 <= i <= d.len(),
        forall|j: int| 0 <= j < i ==> !key_match_at(d, j, key, word),
        key_match_at(d, i, key, word),
    ensures
        find_key(d, key, 0, word) == Some(i),
{
    lemma_find_key_from(d, key, 0, i, word);
}

proof fn lemma_find_key_from(d: Seq<u8>, key: Seq<u8>, s: int, i: int, word: bool)
    requires
        0 <= s <= i <= d.len(),
        forall|j: int| s <= j < i ==> !key_match_at(d, j, key, word),
        key_match_at(d, i, key, word),
    ensures
        find_key(d, key, s, word) == Some(i),
    decreases i - s,
{
    if s < i {
        lemma_find_key_from(d, key, s + 1, i, word);
    } else {
        assert(i < d.len());
    }
}

proof fn lemma_find_key_none(d: Seq<u8>, key: Seq<u8>, s: int, word: bool)
    requires
        0 <= s <= d.len(),
        forall|j: int| s <= j < d.len() ==> !key_match_at(d, j, key, word),
    ensures
        find_key(d, key, s, word) is None,
    decreases d.len() - s,
{
    if s < d.len() {
        lemma_find_key_none(d, key, s + 1, word);
    }
}

/// One byte of the value class.
fn class_byte(b: u8, word: bool) -> (r: bool)
    ensures
        r == (if word {
            is_word_byte(b)
        } else {
            is_digit(b)
        }),
{
    if word {
        (48 <= b && b <= 57) || (65 <= b && b <= 90) || (97 <= b && b <= 122) || b == 95
    } else {
        48 <= b && b <= 57
    }
}

/// Finds the value run of a labelled field, as `field_run` defines it.
fn find_field(d: &[u8], key: &[u8], word: bool) -> (r: Option<(usize, usize)>)
    ensures
        r matches Some(we) ==> {
            &&& we.0 <= we.1 <= d@.len()
            &&& field_run(d@, key@, word) == Some(d@.subrange(we.0 as int, we.1 as int))
            &&& we.1 > we.0
            &&& (forall|t: int|
                we.0 <= t < we.1 ==> (if word {
                    is_word_byte(#[trigger] d@[t])
                } else {
                    is_digit(#[trigger] d@[t])
                }))
        },
        r is None ==> field_run(d@, key@, word) is None,
{
    let dlen = d.len();
    let mut i: usize = 0;
    while i < dlen
        invariant
            dlen == d@.len() <= usize::MAX,
            0 <= i <= dlen,
            forall|j: int| 0 <= j < i ==> !key_match_at(d@, j, key@, word),
        decreases dlen - i,
    {
        if key.len() <= dlen - i && matches_at(d, i, key) {
            // The label stands here; find where the whitespace run
            // after it ends.
            let start = i + key.len();
            let mut w: usize = start;
            while w < dlen && crate::text::ws_byte(d[w])
                invariant
                    dlen == d@.len() <= usize::MAX,
                    start <= w <= dlen,
                    forall|t: int| start <= t < w ==> is_ws(#[trigger] d@[t]),
                decreases dlen - w,
            {
                w = w + 1;
            }
            proof {
                lemma_skip_ws_at(d@, start as int, w as int);
            }
            let good = w > start && w < dlen && class_byte(d[w], word);
            if good {
                let mut e: usize = w;
                while e < dlen && class_byte(d[e], word)
                    invariant
                        dlen == d@.len() <= usize::MAX,
                        w <= e <= dlen,
                        forall|t: int|
                            w <= t < e ==> (if word {
                                is_word_byte(#[trigger] d@[t])
                            } else {
                                is_digit(#[trigger] d@[t])
                            }),
                    decreases dlen - e,
                {
                    e = e + 1;
                }
                proof {
                    lemma_class_end_at(d@, w as int, e as int, word);
                    assert(key_match_at(d@, i as int, key@, word));
                    lemma_find_key_here(d@, key@, i as int, word);
                }
                return Some((w, e));
            }
            proof {
                assert(!key_match_at(d@, i as int, key@, word));
            }
        } else {
            proof {
                assert(!key_match_at(d@, i as int, key@, word));
            }
        }
        i = i + 1;
    }
    proof {
        lemma_find_key_none(d@, key@, 0, word);
    }
    None
}

/// The snapshot a metadata dump denotes. A labelled number too large
/// for 64 bits, or a first-sector offset whose byte value does not
/// fit, is a `NumberOverflow` error.
pub open spec fn spec_parse_lpdump(d: Seq<u8>) -> Result<SuperLayoutInfo, UpdateError> {
    let ms = field_run(d, key_metadata_max_size(), false);
    let sc = field_run(d, key_metadata_slot_count(), false);
    let fs = field_run(d, key_first_sector(), false);
    let sz = field_run(d, key_size(), false);
    let fl = field_run(d, key_header_flags(), true);
    if ms is Some && dec_value(ms->0) > u64::MAX {
        Err(UpdateError::NumberOverflow)
    } else if sc is Some && dec_value(sc->0) > u64::MAX {
        Err(UpdateError::NumberOverflow)
    } else if fs is Some && dec_value(fs->0) * 512 > u64::MAX {
        Err(UpdateError::NumberOverflow)
    } else if sz is Some && dec_value(sz->0) > u64::MAX {
        Err(UpdateError::NumberOverflow)
    } else {
        Ok(
            SuperLayoutInfo {
                metadata_size: if ms is Some {
                    dec_value(ms->0) as u64
                } else {
                    0
                },
                metadata_slot_count: if sc is Some {
                    dec_value(sc->0) as u64
                } else {
                    0
                },
                device_size: if sz is Some {
                    dec_value(sz->0) as u64
                } else {
                    0
                },
                first_sector_bytes: if fs is Some {
                    (dec_value(fs->0) * 512) as u64
                } else {
                    0
                },
                is_virtual_ab: fl is Some && fl->0 == val_virtual_ab(),
            },
        )
    }
}

/// Parses the metadata-dump output: each labelled field is searched
/// for anywhere in the text, the first full match counts; the
/// first-sector count is converted from 512-byte sectors to bytes.
pub fn parse_lpdump_output(d: &[u8]) -> (r: Result<SuperLayoutInfo, UpdateError>)
    ensures
        r == spec_parse_lpdump(d@),
{
    let mut info = SuperLayoutInfo {
        metadata_size: 0,
        metadata_slot_count: 0,
        device_size: 0,
        first_sector_bytes: 0,
        is_virtual_ab: false,
    };
    let key_ms = key_metadata_max_size_bytes();
    match find_field(d, key_ms.as_slice(), false) {
        Some((w, e)) => {
            match parse_u64_dec(vstd::slice::slice_subrange(d, w, e)) {
                Some(v) => {
                    info.metadata_size = v;
                },
                None => {
                    return Err(UpdateError::NumberOverflow);
                },
            }
        },
        None => {},
    }
    let key_sc = key_metadata_slot_count_bytes();
    match find_field(d, key_sc.as_slice(), false) {
        Some((w, e)) => {
            match parse_u64_dec(vstd::slice::slice_subrange(d, w, e)) {
                Some(v) => {
                    info.metadata_slot_count = v;
                },
                None => {
                    return Err(UpdateError::NumberOverflow);
                },
            }
        },
        None => {},
    }
    let key_fs = key_first_sector_bytes();
    match find_field(d, key_fs.as_slice(), false) {
        Some((w, e)) => {
            match parse_u64_dec(vstd::slice::slice_subrange(d, w, e)) {
                Some(v) => {
                    if v > u64::MAX / 512 {
                        return Err(UpdateError::NumberOverflow);
                    }
                    info.first_sector_bytes = v * 512;
                },
                None => {
                    return Err(UpdateError::NumberOverflow);
                },
            }
        },
        None => {},
    }
    let key_sz = key_size_bytes();
    match find_field(d, key_sz.as_slice(), false) {
        Some((w, e)) => {
            match parse_u64_dec(vstd::slice::slice_subrange(d, w, e)) {
                Some(v) => {
                    info.device_size = v;
                },
                None => {
                    return Err(UpdateError::NumberOverflow);
                },
            }
        },
        None => {},
    }
    let key_fl = key_header_flags_bytes();
    match find_field(d, key_fl.as_slice(), true) {
        Some((w, e)) => {
            let run = vstd::slice::slice_subrange(d, w, e);
            let word = val_virtual_ab_bytes();
            if crate::text::bytes_eq(run, word.as_slice()) {
                info.is_virtual_ab = true;
            }
        },
        None => {},
    }
    Ok(info)
}

} // verus!
