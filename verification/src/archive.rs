//! Resolving which sparse images of the archive to decode against a
//! destination partition: the three addressing modes of the flash
//! directive, and auto-detection of the contiguous numeric chunk range
//! for a base name.

use vstd::prelude::*;

use crate::errors::UpdateError;
use crate::text::{all_digits, dec_value, is_digit, is_suffix, parse_u64_dec,
    starts_with, ends_with};

verus! {

/// `".*"` as bytes: the marker of the auto-detect addressing mode.
pub open spec fn dot_star() -> Seq<u8> {
    seq![46u8, 42]
}

/// Builds `".*"` as a byte vector.
pub fn dot_star_bytes() -> (r: Vec<u8>)
    ensures
        r@ == dot_star(),
{
    let mut v: Vec<u8> = Vec::new();
    v.push(46);
    v.push(42);
    proof {
        assert(v@ =~= dot_star());
    }
    v
}

/// How a flash directive addresses its sparse images.
#[derive(Debug, PartialEq, Eq)]
pub enum FlashPlan {
    /// One named image, decoded once.
    Single { entry: Vec<u8>, partition: Vec<u8> },
    /// An explicit numbered range `base.start` to `base.end`.
    Range { base: Vec<u8>, start: u64, end: u64, partition: Vec<u8> },
    /// The range is to be detected by scanning the archive entries.
    AutoDetect { base: Vec<u8>, partition: Vec<u8> },
}

pub enum FlashPlanV {
    Single { entry: Seq<u8>, partition: Seq<u8> },
    Range { base: Seq<u8>, start: int, end: int, partition: Seq<u8> },
    AutoDetect { base: Seq<u8>, partition: Seq<u8> },
}

impl View for FlashPlan {
    type V = FlashPlanV;

    open spec fn view(&self) -> FlashPlanV {
        match self {
            FlashPlan::Single { entry, partition } => FlashPlanV::Single {
                entry: entry@,
                partition: partition@,
            },
            FlashPlan::Range { base, start, end, partition } => FlashPlanV::Range {
                base: base@,
                start: *start as int,
                end: *end as int,
                partition: partition@,
            },
            FlashPlan::AutoDetect { base, partition } => FlashPlanV::AutoDetect {
                base: base@,
                partition: partition@,
            },
        }
    }
}

/// The addressing mode a directive's arguments select, `args[1]` being
/// the image name. A name ending in `.*` asks for auto-detection
/// against `args[2]`; otherwise an all-digit `args[2]` (even empty)
/// selects the explicit range `[args[2], args[3]]` against `args[4]`;
/// otherwise the name is a single image against `args[2]`. An absent
/// argument is `MissingArgument`; a range bound that is empty or does
/// not fit is `BadNumber`.
pub open spec fn spec_flash_plan(args: Seq<Seq<u8>>) -> Result<FlashPlanV, UpdateError> {
    if args.len() < 2 {
        Err(UpdateError::MissingArgument)
    } else {
        let name = args[1];
        if is_suffix(dot_star(), name) {
            if args.len() < 3 {
                Err(UpdateError::MissingArgument)
            } else {
                Ok(
                    FlashPlanV::AutoDetect {
                        base: name.subrange(0, name.len() - 2),
                        partition: args[2],
                    },
                )
            }
        } else if args.len() < 3 {
            Err(UpdateError::MissingArgument)
        } else if all_digits(args[2]) {
            if args[2].len() == 0 || dec_value(args[2]) > u64::MAX {
                Err(UpdateError::BadNumber)
            } else if args.len() < 4 {
                Err(UpdateError::MissingArgument)
            } else if !(args[3].len() > 0 && all_digits(args[3]) && dec_value(args[3])
                <= u64::MAX) {
                Err(UpdateError::BadNumber)
            } else if args.len() < 5 {
                Err(UpdateError::MissingArgument)
            } else {
                Ok(
                    FlashPlanV::Range {
                        base: name,
                        start: dec_value(args[2]) as int,
                        end: dec_value(args[3]) as int,
                        partition: args[4],
                    },
                )
            }
        } else {
            Ok(FlashPlanV::Single { entry: name, partition: args[2] })
        }
    }
}

fn copy_bytes(src: &Vec<u8>) -> (r: Vec<u8>)
    ensures
        r@ == src@,
{
    vstd::slice::slice_to_vec(src.as_slice())
}

/// Checks that every byte of a token is a decimal digit.
fn all_digits_exec(s: &[u8]) -> (r: bool)
    ensures
        r == all_digits(s@),
{
    let mut i: usize = 0;
    while i < s.len()
        invariant
            0 <= i <= s@.len(),
            forall|j: int| 0 <= j < i ==> is_digit(#[trigger] s@[j]),
        decreases s@.len() - i,
    {
        let b = s[i];
        if b < 48 || b > 57 {
            return false;
        }
        i = i + 1;
    }
    true
}

/// Resolves the addressing mode of a flash directive.
pub fn plan_flash(args: &Vec<Vec<u8>>) -> (r: Result<FlashPlan, UpdateError>)
    ensures
        r matches Ok(p) ==> Ok::<FlashPlanV, UpdateError>(p@) == spec_flash_plan(args.deep_view()),
        r matches Err(e) ==> Err::<FlashPlanV, UpdateError>(e) == spec_flash_plan(args.deep_view()),
{
    let ghost av = args.deep_view();
    proof {
        assert(av.len() == args@.len());
    }
    if args.len() < 2 {
        return Err(UpdateError::MissingArgument);
    }
    proof {
        assert(av[1] == args@[1]@);
    }
    let name = &args[1];
    let marker = dot_star_bytes();
    if ends_with(name.as_slice(), marker.as_slice()) {
        if args.len() < 3 {
            return Err(UpdateError::MissingArgument);
        }
        proof {
            assert(av[2] == args@[2]@);
        }
        let base = vstd::slice::slice_to_vec(vstd::slice::slice_subrange(
            name.as_slice(),
            0,
            name.len() - 2,
        ));
        return Ok(FlashPlan::AutoDetect { base, partition: copy_bytes(&args[2]) });
    }
    if args.len() < 3 {
        return Err(UpdateError::MissingArgument);
    }
    proof {
        assert(av[2] == args@[2]@);
    }
    if all_digits_exec(args[2].as_slice()) {
        let start = match parse_u64_dec(args[2].as_slice()) {
            Some(v) => v,
            None => {
                return Err(UpdateError::BadNumber);
            },
        };
        if args.len() < 4 {
            return Err(UpdateError::MissingArgument);
        }
        proof {
            assert(av[3] == args@[3]@);
        }
        let end = match parse_u64_dec(args[3].as_slice()) {
            Some(v) => v,
            None => {
                return Err(UpdateError::BadNumber);
            },
        };
        if args.len() < 5 {
            return Err(UpdateError::MissingArgument);
        }
        proof {
            assert(av[4] == args@[4]@);
        }
        return Ok(
            FlashPlan::Range {
                base: copy_bytes(name),
                start,
                end,
                partition: copy_bytes(&args[4]),
            },
        );
    }
    Ok(FlashPlan::Single { entry: copy_bytes(name), partition: copy_bytes(&args[2]) })
}

/// An archive entry belongs to the chunk family of a base name when it
/// is the base, a dot, and a numeric suffix that fits.
pub open spec fn matches_chunk_entry(name: Seq<u8>, base: Seq<u8>) -> bool {
    &&& name.len() >= base.len() + 2
    &&& name.subrange(0, base.len() as int) == base
    &&& name[base.len() as int] == 46
    &&& all_digits(name.subrange(base.len() as int + 1, name.len() as int))
    &&& dec_value(name.subrange(base.len() as int + 1, name.len() as int)) <= u64::MAX
}

/// The numeric suffix of a chunk entry.
pub open spec fn chunk_entry_index(name: Seq<u8>, base: Seq<u8>) -> int {
    dec_value(name.subrange(base.len() as int + 1, name.len() as int)) as int
}

/// Scans the archive entry names for `base.N` chunks and returns the
/// smallest and largest numeric suffix found, inclusive. Fails with
/// `NoChunksFound` exactly when no entry matches. Entries between the
/// bounds may be missing: decoding attempts them and fails there,
/// distinctly from range detection.
pub fn detect_chunk_range(base: &[u8], names: &Vec<Vec<u8>>) -> (r: Result<(u64, u64), UpdateError>)
    ensures
        (r is Ok) == (exists|i: int|
            0 <= i < names.deep_view().len() && matches_chunk_entry(
                #[trigger] names.deep_view()[i],
                base@,
            )),
        r matches Ok(lohi) ==> {
            &&& (exists|i: int|
                0 <= i < names.deep_view().len() && matches_chunk_entry(
                    #[trigger] names.deep_view()[i],
                    base@,
                ) && chunk_entry_index(names.deep_view()[i], base@) == lohi.0 as int)
            &&& (exists|i: int|
                0 <= i < names.deep_view().len() && matches_chunk_entry(
                    #[trigger] names.deep_view()[i],
                    base@,
                ) && chunk_entry_index(names.deep_view()[i], base@) == lohi.1 as int)
            &&& (forall|i: int|
                0 <= i < names.deep_view().len() && matches_chunk_entry(
                    #[trigger] names.deep_view()[i],
                    base@,
                ) ==> lohi.0 as int <= chunk_entry_index(names.deep_view()[i], base@)
                    <= lohi.1 as int)
        },
        r matches Err(e) ==> e == UpdateError::NoChunksFound,
{
    let ghost d = names.deep_view();
    let mut found: bool = false;
    let mut lo: u64 = 0;
    let mut hi: u64 = 0;
    let mut i: usize = 0;
    while i < names.len()
        invariant
            d == names.deep_view(),
            d.len() == names@.len(),
            0 <= i <= names@.len(),
            found == (exists|j: int|
                0 <= j < i && matches_chunk_entry(#[trigger] d[j], base@)),
            found ==> (exists|j: int|
                0 <= j < i && matches_chunk_entry(#[trigger] d[j], base@) && chunk_entry_index(
                    d[j],
                    base@,
                ) == lo as int),
            found ==> (exists|j: int|
                0 <= j < i && matches_chunk_entry(#[trigger] d[j], base@) && chunk_entry_index(
                    d[j],
                    base@,
                ) == hi as int),
            forall|j: int|
                0 <= j < i && matches_chunk_entry(#[trigger] d[j], base@) ==> lo as int
                    <= chunk_entry_index(d[j], base@) <= hi as int,
        decreases names@.len() - i,
    {
        proof {
            assert(d[i as int] == names@[i as int]@);
        }
        let name = &names[i];
        if name.len() >= 2 && base.len() <= name.len() - 2 && starts_with(name.as_slice(), base)
            && name[base.len()] == 46 {
            let tail = vstd::slice::slice_subrange(name.as_slice(), base.len() + 1, name.len());
            proof {
                assert(tail@ =~= d[i as int].subrange(base@.len() as int + 1, d[i as int].len() as int));
            }
            match parse_u64_dec(tail) {
                Some(v) => {
                    proof {
                        assert(matches_chunk_entry(d[i as int], base@));
                        assert(chunk_entry_index(d[i as int], base@) == v as int);
                    }
                    if !found {
                        lo = v;
                        hi = v;
                        found = true;
                    } else {
                        if v < lo {
                            lo = v;
                        }
                        if v > hi {
                            hi = v;
                        }
                    }
                },
                None => {
                    proof {
                        assert(!matches_chunk_entry(d[i as int], base@));
                    }
                },
            }
        } else {
            proof {
                assert(!matches_chunk_entry(d[i as int], base@));
            }
        }
        i = i + 1;
    }
    if found {
        Ok((lo, hi))
    } else {
        Err(UpdateError::NoChunksFound)
    }
}

} // verus!
