//! Metadata tags: a 32-bit word holding a valid bit, an 11-bit type,
//! a 10-bit id and a 10-bit size.
use vstd::prelude::*;
use crate::defines::{LfsSize, LfsTag, LfsType};

verus! {

/// The tag with the given type, id and size.
pub open spec fn spec_mktag(type_: u32, id: u32, size: u32) -> u32 {
    (type_ * 0x100000 + id * 0x400 + size) as u32
}

/// Whether the tag's valid bit (the top bit) is clear.
pub open spec fn spec_tag_isvalid(tag: u32) -> bool {
    tag < 0x80000000
}

/// Whether the tag's size field holds the all-ones deletion marker.
pub open spec fn spec_tag_isdelete(tag: u32) -> bool {
    tag % 0x400 == 0x3ff
}

/// The 11-bit type of a tag.
pub open spec fn spec_tag_type3(tag: u32) -> u16 {
    ((tag / 0x100000) % 0x800) as u16
}

/// The 10-bit id of a tag.
pub open spec fn spec_tag_id(tag: u32) -> u16 {
    ((tag / 0x400) % 0x400) as u16
}

/// The 10-bit size of a tag.
pub open spec fn spec_tag_size(tag: u32) -> u32 {
    tag % 0x400
}

/// The bytes a tag and its data take on disk.
pub open spec fn spec_tag_dsize(tag: u32) -> u32 {
    if spec_tag_isdelete(tag) {
        4
    } else {
        (4 + spec_tag_size(tag)) as u32
    }
}

/// Builds a tag from a type, an id and a size.
#[allow(non_snake_case)]
pub fn LFS_MKTAG(type_: u32, id: u32, size: u32) -> (tag: LfsTag)
    requires
        type_ < 0x1000,
        id < 0x400,
        size < 0x400,
    ensures
        tag == spec_mktag(type_, id, size),
{
    assert((type_ << 20u32) | (id << 10u32) | size == type_ * 0x100000 + id * 0x400 + size)
        by (bit_vector)
        requires
            type_ < 0x1000,
            id < 0x400,
            size < 0x400,
    ;
    (type_ << 20u32) | (id << 10u32) | size
}

/// Builds a tag from a metadata type, an id and a size.
pub fn lfs_mktag(type_: LfsType, id: u16, size: u32) -> (tag: LfsTag)
    requires
        id < 0x400,
        size < 0x400,
    ensures
        tag == spec_mktag(type_.spec_value() as u32, id as u32, size),
{
    LFS_MKTAG(type_.value() as u32, id as u32, size)
}

/// Whether the tag is valid, that is its top bit is clear.
pub fn lfs_tag_isvalid(tag: LfsTag) -> (r: bool)
    ensures
        r == spec_tag_isvalid(tag),
{
    assert((tag & 0x80000000) == 0 <==> tag < 0x80000000) by (bit_vector);
    (tag & 0x80000000) == 0
}

/// Whether the tag marks a deletion: its size field is all ones.
pub fn lfs_tag_isdelete(tag: LfsTag) -> (r: bool)
    ensures
        r == spec_tag_isdelete(tag),
{
    assert(((((tag << 22u32) as i32) >> 22u32) == -1i32) <==> (tag % 0x400 == 0x3ff))
        by (bit_vector);
    (((tag << 22u32) as i32) >> 22u32) == -1i32
}

/// The 3-bit major type of a tag, in bits 8 to 10.
pub fn lfs_tag_type1(tag: LfsTag) -> (r: u16)
    ensures
        r == ((tag / 0x10000000) % 8) * 0x100,
{
    assert((tag & 0x70000000) >> 20u32 == ((tag / 0x10000000) % 8) * 0x100) by (bit_vector);
    ((tag & 0x70000000) >> 20u32) as u16
}

/// The 4-bit major type and chunk top bit of a tag, in bits 7 to 10.
pub fn lfs_tag_type2(tag: LfsTag) -> (r: u16)
    ensures
        r == ((tag / 0x8000000) % 16) * 0x80,
{
    assert((tag & 0x78000000) >> 20u32 == ((tag / 0x8000000) % 16) * 0x80) by (bit_vector);
    ((tag & 0x78000000) >> 20u32) as u16
}

/// The 11-bit type of a tag.
pub fn lfs_tag_type3(tag: LfsTag) -> (r: u16)
    ensures
        r == spec_tag_type3(tag),
{
    assert((tag & 0x7ff00000) >> 20u32 == (tag / 0x100000) % 0x800) by (bit_vector);
    ((tag & 0x7ff00000) >> 20u32) as u16
}

/// The 8-bit chunk of a tag's type.
pub fn lfs_tag_chunk(tag: LfsTag) -> (r: u8)
    ensures
        r == (tag / 0x100000) % 0x100,
{
    assert((tag & 0x0ff00000) >> 20u32 == (tag / 0x100000) % 0x100) by (bit_vector);
    ((tag & 0x0ff00000) >> 20u32) as u8
}

/// The chunk of a tag read as a signed id adjustment.
pub fn lfs_tag_splice(tag: LfsTag) -> (r: i8)
    ensures
        r == (if (tag / 0x100000) % 0x100 < 0x80 {
            ((tag / 0x100000) % 0x100) as int
        } else {
            (tag / 0x100000) % 0x100 - 0x100
        }),
{
    let c = lfs_tag_chunk(tag);
    if c < 0x80 {
        c as i8
    } else {
        (c as i16 - 0x100) as i8
    }
}

/// The 10-bit id of a tag.
pub fn lfs_tag_id(tag: LfsTag) -> (r: u16)
    ensures
        r == spec_tag_id(tag),
{
    assert((tag & 0x000ffc00) >> 10u32 == (tag / 0x400) % 0x400) by (bit_vector);
    ((tag & 0x000ffc00) >> 10u32) as u16
}

/// The 10-bit size of a tag.
pub fn lfs_tag_size(tag: LfsTag) -> (r: LfsSize)
    ensures
        r == spec_tag_size(tag),
{
    assert(tag & 0x000003ff == tag % 0x400) by (bit_vector);
    tag & 0x000003ff
}

/// The bytes a tag and its data take on disk; a deletion carries no data.
pub fn lfs_tag_dsize(tag: LfsTag) -> (r: LfsSize)
    ensures
        r == spec_tag_dsize(tag),
        4 <= r <= 4 + 0x3fe,
{
    let d: u32 = if lfs_tag_isdelete(tag) { 1 } else { 0 };
    let s = lfs_tag_size(tag.wrapping_add(d));
    proof {
        if d == 1 {
            assert(tag % 0x400 == 0x3ff ==> (tag.wrapping_add(1)) % 0x400 == 0) by (bit_vector);
        }
    }
    4 + s
}

/// A tag's fields read back give the type, id and size it was built from.
pub proof fn lemma_tag_fields_roundtrip(type_: u32, id: u32, size: u32)
    requires
        type_ < 0x800,
        id < 0x400,
        size < 0x400,
    ensures
        spec_tag_type3(spec_mktag(type_, id, size)) == type_,
        spec_tag_id(spec_mktag(type_, id, size)) == id,
        spec_tag_size(spec_mktag(type_, id, size)) == size,
        spec_tag_isvalid(spec_mktag(type_, id, size)),
{
    let t = spec_mktag(type_, id, size);
    assert(t == type_ * 0x100000 + id * 0x400 + size);
    assert(((type_ * 0x100000 + id * 0x400 + size) / 0x100000) % 0x800 == type_) by (nonlinear_arith)
        requires
            type_ < 0x800,
            id < 0x400,
            size < 0x400,
    ;
    assert(((type_ * 0x100000 + id * 0x400 + size) / 0x400) % 0x400 == id) by (nonlinear_arith)
        requires
            type_ < 0x800,
            id < 0x400,
            size < 0x400,
    ;
    assert((type_ * 0x100000 + id * 0x400 + size) % 0x400 == size) by (nonlinear_arith)
        requires
            type_ < 0x800,
            id < 0x400,
            size < 0x400,
    ;
}

/// A tag that is not a deletion takes four bytes plus its size on disk.
pub proof fn lemma_tag_dsize_nondelete(tag: u32)
    requires
        !spec_tag_isdelete(tag),
    ensures
        spec_tag_dsize(tag) == 4 + spec_tag_size(tag),
{
}

} // verus!
