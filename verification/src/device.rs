//! Small device-facing decisions: compatibility of the running device
//! against an allow-list, active-slot suffix resolution, flash-method
//! dispatch, the verity status test, and the end-of-device write
//! classification.

use vstd::prelude::*;

use crate::text::{bytes_eq, contains_bytes, contains_seq, lower_byte, to_lower_bytes,
    trim_bytes, trimmed, concat_bytes};
use crate::words::{underscore, underscore_bytes, word_disabled, word_disabled_bytes};

verus! {

/// Splitting on commas: every comma ends a token, and the final token
/// is kept even when empty.
pub open spec fn comma_tokens_acc(s: Seq<u8>, cur: Seq<u8>, acc: Seq<Seq<u8>>) -> Seq<Seq<u8>>
    decreases s.len(),
{
    if s.len() == 0 {
        acc.push(cur)
    } else if s[0] == 44 {
        comma_tokens_acc(s.drop_first(), Seq::empty(), acc.push(cur))
    } else {
        comma_tokens_acc(s.drop_first(), cur.push(s[0]), acc)
    }
}

/// The comma-separated fields of a byte string.
pub open spec fn comma_tokens(s: Seq<u8>) -> Seq<Seq<u8>> {
    comma_tokens_acc(s, Seq::empty(), Seq::empty())
}

/// Splits on commas, keeping empty fields.
pub fn split_commas(s: &[u8]) -> (r: Vec<Vec<u8>>)
    ensures
        r.deep_view() == comma_tokens(s@),
{
    let mut cur: Vec<u8> = Vec::new();
    let mut acc: Vec<Vec<u8>> = Vec::new();
    let mut i: usize = 0;
    proof {
        assert(s@.subrange(0, s@.len() as int) =~= s@);
        assert(acc.deep_view() =~= Seq::<Seq<u8>>::empty());
    }
    while i < s.len()
        invariant
            0 <= i <= s@.len(),
            comma_tokens(s@) == comma_tokens_acc(
                s@.subrange(i as int, s@.len() as int),
                cur@,
                acc.deep_view(),
            ),
        decreases s@.len() - i,
    {
        let ghost rest = s@.subrange(i as int, s@.len() as int);
        proof {
            assert(rest[0] == s@[i as int]);
            assert(rest.drop_first() =~= s@.subrange(i + 1, s@.len() as int));
        }
        let b = s[i];
        if b == 44 {
            let ghost old_acc = acc.deep_view();
            let ghost cur_v = cur@;
            acc.push(cur);
            proof {
                assert(acc.deep_view() =~~= old_acc.push(cur_v));
            }
            cur = Vec::new();
            proof {
                assert(cur@ =~= Seq::<u8>::empty());
            }
        } else {
            cur.push(b);
        }
        i = i + 1;
    }
    proof {
        assert(s@.subrange(s@.len() as int, s@.len() as int) =~= Seq::<u8>::empty());
    }
    let ghost old_acc = acc.deep_view();
    let ghost cur_v = cur@;
    acc.push(cur);
    proof {
        assert(acc.deep_view() =~~= old_acc.push(cur_v));
    }
    acc
}

/// One allow-list entry admits the device when the device name equals
/// the trimmed entry or contains it as a substring.
pub open spec fn entry_admits(current: Seq<u8>, entry: Seq<u8>) -> bool {
    current == trimmed(entry) || contains_seq(current, trimmed(entry))
}

/// A device name is allowed when some comma-separated entry of the
/// allow-list admits it.
pub open spec fn spec_device_allowed(current: Seq<u8>, allowed_csv: Seq<u8>) -> bool {
    exists|i: int|
        0 <= i < comma_tokens(allowed_csv).len() && entry_admits(
            current,
            #[trigger] comma_tokens(allowed_csv)[i],
        )
}

/// Tests a device name against the comma-separated allow-list.
pub fn device_allowed(current: &[u8], allowed_csv: &[u8]) -> (r: bool)
    ensures
        r == spec_device_allowed(current@, allowed_csv@),
{
    let entries = split_commas(allowed_csv);
    let ghost ts = comma_tokens(allowed_csv@);
    let mut i: usize = 0;
    while i < entries.len()
        invariant
            entries.deep_view() == ts,
            ts == comma_tokens(allowed_csv@),
            ts.len() == entries@.len(),
            0 <= i <= entries@.len(),
            forall|j: int| 0 <= j < i ==> !entry_admits(current@, #[trigger] ts[j]),
        decreases entries@.len() - i,
    {
        proof {
            assert(ts[i as int] == entries@[i as int]@);
        }
        let t = trim_bytes(entries[i].as_slice());
        if bytes_eq(current, t.as_slice()) || contains_bytes(current, t.as_slice()) {
            proof {
                assert(entry_admits(current@, comma_tokens(allowed_csv@)[i as int]));
            }
            return true;
        }
        i = i + 1;
    }
    false
}

/// The active slot suffix from the two boot properties: the first,
/// trimmed, when not empty; else an underscore prepended to the
/// trimmed second, when that is not empty; else empty (a single-slot
/// device).
pub open spec fn spec_slot_suffix(prop_suffix: Seq<u8>, prop_slot: Seq<u8>) -> Seq<u8> {
    if trimmed(prop_suffix).len() > 0 {
        trimmed(prop_suffix)
    } else if trimmed(prop_slot).len() > 0 {
        underscore() + trimmed(prop_slot)
    } else {
        Seq::empty()
    }
}

/// Resolves the active slot suffix from the two boot properties.
pub fn slot_suffix_from_props(prop_suffix: &[u8], prop_slot: &[u8]) -> (r: Vec<u8>)
    ensures
        r@ == spec_slot_suffix(prop_suffix@, prop_slot@),
{
    let t1 = trim_bytes(prop_suffix);
    if t1.len() > 0 {
        return t1;
    }
    let t2 = trim_bytes(prop_slot);
    if t2.len() > 0 {
        let u = underscore_bytes();
        return concat_bytes(u.as_slice(), t2.as_slice());
    }
    let r: Vec<u8> = Vec::new();
    proof {
        assert(r@ =~= Seq::<u8>::empty());
    }
    r
}

/// The flash methods a `package_flash_partition` directive selects.
#[derive(Clone, Copy, PartialEq, Eq, Structural, Debug)]
pub enum FlashMethod {
    /// A zstd-compressed raw stream.
    ZstdStream,
    /// A gzip-compressed raw stream.
    GzStream,
    /// A sparse image.
    Sparse,
    /// Anything else: reported and skipped.
    Unknown,
}

/// The method a directive's first argument selects: `0` zstd, `1`
/// gzip, `2` sparse, anything else unknown.
pub open spec fn spec_flash_method(arg: Seq<u8>) -> FlashMethod {
    if arg == seq![48u8] {
        FlashMethod::ZstdStream
    } else if arg == seq![49u8] {
        FlashMethod::GzStream
    } else if arg == seq![50u8] {
        FlashMethod::Sparse
    } else {
        FlashMethod::Unknown
    }
}

/// Dispatches on the method argument of a flash directive.
pub fn parse_flash_method(arg: &[u8]) -> (r: FlashMethod)
    ensures
        r == spec_flash_method(arg@),
{
    if arg.len() == 1 {
        let b = arg[0];
        proof {
            assert(arg@ =~= seq![arg@[0]]);
        }
        if b == 48 {
            return FlashMethod::ZstdStream;
        }
        if b == 49 {
            return FlashMethod::GzStream;
        }
        if b == 50 {
            return FlashMethod::Sparse;
        }
        return FlashMethod::Unknown;
    }
    proof {
        assert(arg@.len() != 1);
        assert(seq![48u8].len() == 1);
        assert(seq![49u8].len() == 1);
        assert(seq![50u8].len() == 1);
    }
    FlashMethod::Unknown
}

/// Whether a verity status message says verification is already
/// disabled: the lower-cased text contains the word.
pub open spec fn spec_verity_disabled(msg: Seq<u8>) -> bool {
    contains_seq(msg.map_values(|b: u8| lower_byte(b)), word_disabled())
}

/// Tests a verity status message for the disabled state.
pub fn verity_already_disabled(msg: &[u8]) -> (r: bool)
    ensures
        r == spec_verity_disabled(msg@),
{
    let low = to_lower_bytes(msg);
    let w = word_disabled_bytes();
    contains_bytes(low.as_slice(), w.as_slice())
}

/// A failed write is the benign end-of-device case exactly when its
/// kind is a zero-length write or its raw code is the out-of-space
/// code 28: trailing don't-care regions may legitimately exceed the
/// addressable device, so such a failure is a successful no-op.
pub fn is_end_of_device(kind_write_zero: bool, raw_os_code: Option<i32>) -> (r: bool)
    ensures
        r == (kind_write_zero || raw_os_code == Some(28i32)),
{
    if kind_write_zero {
        return true;
    }
    match raw_os_code {
        Some(c) => c == 28,
        None => false,
    }
}

} // verus!
