//! The literal byte strings of the external formats: op-list
//! directives, metadata-dump field labels, reserved device-node names
//! and slot suffixes. Byte-string literals cannot stand in verified
//! code, so each word has its byte sequence spelled out once, with an
//! executable builder proved against it.

use vstd::prelude::*;

verus! {

/// `"auto_detect_active_slot"` as bytes.
pub open spec fn kw_auto_detect() -> Seq<u8> {
    seq![97u8, 117, 116, 111, 95, 100, 101, 116, 101, 99, 116, 95, 97, 99, 116, 105, 118, 101, 95, 115, 108, 111, 116]
}

/// Builds `"auto_detect_active_slot"` as a byte vector.
pub fn kw_auto_detect_bytes() -> (r: Vec<u8>)
    ensures
        r@ == kw_auto_detect(),
{
    let mut v: Vec<u8> = Vec::new();
    v.push(97);
    v.push(117);
    v.push(116);
    v.push(111);
    v.push(95);
    v.push(100);
    v.push(101);
    v.push(116);
    v.push(101);
    v.push(99);
    v.push(116);
    v.push(95);
    v.push(97);
    v.push(99);
    v.push(116);
    v.push(105);
    v.push(118);
    v.push(101);
    v.push(95);
    v.push(115);
    v.push(108);
    v.push(111);
    v.push(116);
    proof {
        assert(v@ =~= kw_auto_detect());
    }
    v
}

/// `"add_group"` as bytes.
pub open spec fn kw_add_group() -> Seq<u8> {
    seq![97u8, 100, 100, 95, 103, 114, 111, 117, 112]
}

/// Builds `"add_group"` as a byte vector.
pub fn kw_add_group_bytes() -> (r: Vec<u8>)
    ensures
        r@ == kw_add_group(),
{
    let mut v: Vec<u8> = Vec::new();
    v.push(97);
    v.push(100);
    v.push(100);
    v.push(95);
    v.push(103);
    v.push(114);
    v.push(111);
    v.push(117);
    v.push(112);
    proof {
        assert(v@ =~= kw_add_group());
    }
    v
}

/// `"add"` as bytes.
pub open spec fn kw_add() -> Seq<u8> {
    seq![97u8, 100, 100]
}

/// Builds `"add"` as a byte vector.
pub fn kw_add_bytes() -> (r: Vec<u8>)
    ensures
        r@ == kw_add(),
{
    let mut v: Vec<u8> = Vec::new();
    v.push(97);
    v.push(100);
    v.push(100);
    proof {
        assert(v@ =~= kw_add());
    }
    v
}

/// `"resize"` as bytes.
pub open spec fn kw_resize() -> Seq<u8> {
    seq![114u8, 101, 115, 105, 122, 101]
}

/// Builds `"resize"` as a byte vector.
pub fn kw_resize_bytes() -> (r: Vec<u8>)
    ensures
        r@ == kw_resize(),
{
    let mut v: Vec<u8> = Vec::new();
    v.push(114);
    v.push(101);
    v.push(115);
    v.push(105);
    v.push(122);
    v.push(101);
    proof {
        assert(v@ =~= kw_resize());
    }
    v
}

/// `"remove_all_groups"` as bytes.
pub open spec fn kw_remove_all() -> Seq<u8> {
    seq![114u8, 101, 109, 111, 118, 101, 95, 97, 108, 108, 95, 103, 114, 111, 117, 112, 115]
}

/// Builds `"remove_all_groups"` as a byte vector.
pub fn kw_remove_all_bytes() -> (r: Vec<u8>)
    ensures
        r@ == kw_remove_all(),
{
    let mut v: Vec<u8> = Vec::new();
    v.push(114);
    v.push(101);
    v.push(109);
    v.push(111);
    v.push(118);
    v.push(101);
    v.push(95);
    v.push(97);
    v.push(108);
    v.push(108);
    v.push(95);
    v.push(103);
    v.push(114);
    v.push(111);
    v.push(117);
    v.push(112);
    v.push(115);
    proof {
        assert(v@ =~= kw_remove_all());
    }
    v
}

/// `"auto"` as bytes.
pub open spec fn word_auto() -> Seq<u8> {
    seq![97u8, 117, 116, 111]
}

/// Builds `"auto"` as a byte vector.
pub fn word_auto_bytes() -> (r: Vec<u8>)
    ensures
        r@ == word_auto(),
{
    let mut v: Vec<u8> = Vec::new();
    v.push(97);
    v.push(117);
    v.push(116);
    v.push(111);
    proof {
        assert(v@ =~= word_auto());
    }
    v
}

/// `"_a"` as bytes.
pub open spec fn sfx_a() -> Seq<u8> {
    seq![95u8, 97]
}

/// Builds `"_a"` as a byte vector.
pub fn sfx_a_bytes() -> (r: Vec<u8>)
    ensures
        r@ == sfx_a(),
{
    let mut v: Vec<u8> = Vec::new();
    v.push(95);
    v.push(97);
    proof {
        assert(v@ =~= sfx_a());
    }
    v
}

/// `"_b"` as bytes.
pub open spec fn sfx_b() -> Seq<u8> {
    seq![95u8, 98]
}

/// Builds `"_b"` as a byte vector.
pub fn sfx_b_bytes() -> (r: Vec<u8>)
    ensures
        r@ == sfx_b(),
{
    let mut v: Vec<u8> = Vec::new();
    v.push(95);
    v.push(98);
    proof {
        assert(v@ =~= sfx_b());
    }
    v
}

/// `"_"` as bytes.
pub open spec fn underscore() -> Seq<u8> {
    seq![95u8]
}

/// Builds `"_"` as a byte vector.
pub fn underscore_bytes() -> (r: Vec<u8>)
    ensures
        r@ == underscore(),
{
    let mut v: Vec<u8> = Vec::new();
    v.push(95);
    proof {
        assert(v@ =~= underscore());
    }
    v
}

/// `"control"` as bytes.
pub open spec fn name_control() -> Seq<u8> {
    seq![99u8, 111, 110, 116, 114, 111, 108]
}

/// Builds `"control"` as a byte vector.
pub fn name_control_bytes() -> (r: Vec<u8>)
    ensures
        r@ == name_control(),
{
    let mut v: Vec<u8> = Vec::new();
    v.push(99);
    v.push(111);
    v.push(110);
    v.push(116);
    v.push(114);
    v.push(111);
    v.push(108);
    proof {
        assert(v@ =~= name_control());
    }
    v
}

/// `"userdata"` as bytes.
pub open spec fn name_userdata() -> Seq<u8> {
    seq![117u8, 115, 101, 114, 100, 97, 116, 97]
}

/// Builds `"userdata"` as a byte vector.
pub fn name_userdata_bytes() -> (r: Vec<u8>)
    ensures
        r@ == name_userdata(),
{
    let mut v: Vec<u8> = Vec::new();
    v.push(117);
    v.push(115);
    v.push(101);
    v.push(114);
    v.push(100);
    v.push(97);
    v.push(116);
    v.push(97);
    proof {
        assert(v@ =~= name_userdata());
    }
    v
}

/// `"metadata"` as bytes.
pub open spec fn name_metadata() -> Seq<u8> {
    seq![109u8, 101, 116, 97, 100, 97, 116, 97]
}

/// Builds `"metadata"` as a byte vector.
pub fn name_metadata_bytes() -> (r: Vec<u8>)
    ensures
        r@ == name_metadata(),
{
    let mut v: Vec<u8> = Vec::new();
    v.push(109);
    v.push(101);
    v.push(116);
    v.push(97);
    v.push(100);
    v.push(97);
    v.push(116);
    v.push(97);
    proof {
        assert(v@ =~= name_metadata());
    }
    v
}

/// `"Metadata max size:"` as bytes.
pub open spec fn key_metadata_max_size() -> Seq<u8> {
    seq![77u8, 101, 116, 97, 100, 97, 116, 97, 32, 109, 97, 120, 32, 115, 105, 122, 101, 58]
}

/// Builds `"Metadata max size:"` as a byte vector.
pub fn key_metadata_max_size_bytes() -> (r: Vec<u8>)
    ensures
        r@ == key_metadata_max_size(),
{
    let mut v: Vec<u8> = Vec::new();
    v.push(77);
    v.push(101);
    v.push(116);
    v.push(97);
    v.push(100);
    v.push(97);
    v.push(116);
    v.push(97);
    v.push(32);
    v.push(109);
    v.push(97);
    v.push(120);
    v.push(32);
    v.push(115);
    v.push(105);
    v.push(122);
    v.push(101);
    v.push(58);
    proof {
        assert(v@ =~= key_metadata_max_size());
    }
    v
}

/// `"Metadata slot count:"` as bytes.
pub open spec fn key_metadata_slot_count() -> Seq<u8> {
    seq![77u8, 101, 116, 97, 100, 97, 116, 97, 32, 115, 108, 111, 116, 32, 99, 111, 117, 110, 116, 58]
}

/// Builds `"Metadata slot count:"` as a byte vector.
pub fn key_metadata_slot_count_bytes() -> (r: Vec<u8>)
    ensures
        r@ == key_metadata_slot_count(),
{
    let mut v: Vec<u8> = Vec::new();
    v.push(77);
    v.push(101);
    v.push(116);
    v.push(97);
    v.push(100);
    v.push(97);
    v.push(116);
    v.push(97);
    v.push(32);
    v.push(115);
    v.push(108);
    v.push(111);
    v.push(116);
    v.push(32);
    v.push(99);
    v.push(111);
    v.push(117);
    v.push(110);
    v.push(116);
    v.push(58);
    proof {
        assert(v@ =~= key_metadata_slot_count());
    }
    v
}

/// `"First sector:"` as bytes.
pub open spec fn key_first_sector() -> Seq<u8> {
    seq![70u8, 105, 114, 115, 116, 32, 115, 101, 99, 116, 111, 114, 58]
}

/// Builds `"First sector:"` as a byte vector.
pub fn key_first_sector_bytes() -> (r: Vec<u8>)
    ensures
        r@ == key_first_sector(),
{
    let mut v: Vec<u8> = Vec::new();
    v.push(70);
    v.push(105);
    v.push(114);
    v.push(115);
    v.push(116);
    v.push(32);
    v.push(115);
    v.push(101);
    v.push(99);
    v.push(116);
    v.push(111);
    v.push(114);
    v.push(58);
    proof {
        assert(v@ =~= key_first_sector());
    }
    v
}

/// `"Size:"` as bytes.
pub open spec fn key_size() -> Seq<u8> {
    seq![83u8, 105, 122, 101, 58]
}

/// Builds `"Size:"` as a byte vector.
pub fn key_size_bytes() -> (r: Vec<u8>)
    ensures
        r@ == key_size(),
{
    let mut v: Vec<u8> = Vec::new();
    v.push(83);
    v.push(105);
    v.push(122);
    v.push(101);
    v.push(58);
    proof {
        assert(v@ =~= key_size());
    }
    v
}

/// `"Header flags:"` as bytes.
pub open spec fn key_header_flags() -> Seq<u8> {
    seq![72u8, 101, 97, 100, 101, 114, 32, 102, 108, 97, 103, 115, 58]
}

/// Builds `"Header flags:"` as a byte vector.
pub fn key_header_flags_bytes() -> (r: Vec<u8>)
    ensures
        r@ == key_header_flags(),
{
    let mut v: Vec<u8> = Vec::new();
    v.push(72);
    v.push(101);
    v.push(97);
    v.push(100);
    v.push(101);
    v.push(114);
    v.push(32);
    v.push(102);
    v.push(108);
    v.push(97);
    v.push(103);
    v.push(115);
    v.push(58);
    proof {
        assert(v@ =~= key_header_flags());
    }
    v
}

/// `"virtual_ab_device"` as bytes.
pub open spec fn val_virtual_ab() -> Seq<u8> {
    seq![118u8, 105, 114, 116, 117, 97, 108, 95, 97, 98, 95, 100, 101, 118, 105, 99, 101]
}

/// Builds `"virtual_ab_device"` as a byte vector.
pub fn val_virtual_ab_bytes() -> (r: Vec<u8>)
    ensures
        r@ == val_virtual_ab(),
{
    let mut v: Vec<u8> = Vec::new();
    v.push(118);
    v.push(105);
    v.push(114);
    v.push(116);
    v.push(117);
    v.push(97);
    v.push(108);
    v.push(95);
    v.push(97);
    v.push(98);
    v.push(95);
    v.push(100);
    v.push(101);
    v.push(118);
    v.push(105);
    v.push(99);
    v.push(101);
    proof {
        assert(v@ =~= val_virtual_ab());
    }
    v
}

/// `"disabled"` as bytes.
pub open spec fn word_disabled() -> Seq<u8> {
    seq![100u8, 105, 115, 97, 98, 108, 101, 100]
}

/// Builds `"disabled"` as a byte vector.
pub fn word_disabled_bytes() -> (r: Vec<u8>)
    ensures
        r@ == word_disabled(),
{
    let mut v: Vec<u8> = Vec::new();
    v.push(100);
    v.push(105);
    v.push(115);
    v.push(97);
    v.push(98);
    v.push(108);
    v.push(101);
    v.push(100);
    proof {
        assert(v@ =~= word_disabled());
    }
    v
}

} // verus!
