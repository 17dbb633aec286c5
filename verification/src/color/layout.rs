//! The byte layout of a minimal ICC profile that holds a single `vcgt` tag,
//! and the proof that parsing reads back what the layout stores.
use vstd::prelude::*;

use vstd::arithmetic::div_mod::{lemma_fundamental_div_mod, lemma_mod_bound};

use super::vcgt::{
    be_i32, be_u16, be_u32, formula_channel_at, formula_channel_valid, parse_icc, table_channel,
    FormulaChannel, VcgtContent, VcgtError,
};

verus! {

/// Big-endian bytes of a 16-bit number.
pub open spec fn u16_be_bytes(v: u16) -> Seq<u8> {
    seq![(v / 256) as u8, (v % 256) as u8]
}

/// Big-endian bytes of a 32-bit number.
pub open spec fn u32_be_bytes(v: u32) -> Seq<u8> {
    u16_be_bytes((v / 65536) as u16) + u16_be_bytes((v % 65536) as u16)
}

/// Big-endian bytes of a 32-bit two's-complement number.
pub open spec fn i32_be_bytes(v: i32) -> Seq<u8> {
    if v < 0 {
        u32_be_bytes((v + 4294967296) as u32)
    } else {
        u32_be_bytes(v as u32)
    }
}

/// The entries of a ramp, each as two big-endian bytes.
pub open spec fn ramp_be_bytes(ramp: Seq<u16>) -> Seq<u8> {
    Seq::new(
        2 * ramp.len(),
        |k: int|
            if k % 2 == 0 {
                (ramp[k / 2] / 256) as u8
            } else {
                (ramp[k / 2] % 256) as u8
            },
    )
}

/// The tag signature `vcgt`.
pub open spec fn vcgt_signature() -> Seq<u8> {
    seq![0x76u8, 0x63u8, 0x67u8, 0x74u8]
}

/// A 128-byte ICC header that is all zero but for the `acsp` signature.
pub open spec fn icc_header() -> Seq<u8> {
    Seq::new(
        128,
        |i: int|
            if i == 36 {
                0x61u8
            } else if i == 37 {
                0x63u8
            } else if i == 38 {
                0x73u8
            } else if i == 39 {
                0x70u8
            } else {
                0u8
            },
    )
}

/// A table-type `vcgt` tag with three channels of `count` entries of
/// `entry_size` bytes, followed by the entry bytes.
pub open spec fn table_tag(count: u16, entry_size: u16, entries: Seq<u8>) -> Seq<u8> {
    vcgt_signature() + u32_be_bytes(0) + u32_be_bytes(0) + u16_be_bytes(3) + u16_be_bytes(count)
        + u16_be_bytes(entry_size) + entries
}

/// The parameters of one formula channel.
pub open spec fn formula_channel_bytes(c: FormulaChannel) -> Seq<u8> {
    i32_be_bytes(c.gamma) + i32_be_bytes(c.min) + i32_be_bytes(c.max)
}

/// A formula-type `vcgt` tag with the red, green and blue parameters.
pub open spec fn formula_tag(red: FormulaChannel, green: FormulaChannel, blue: FormulaChannel) -> Seq<
    u8,
> {
    vcgt_signature() + u32_be_bytes(0) + u32_be_bytes(1) + formula_channel_bytes(red)
        + formula_channel_bytes(green) + formula_channel_bytes(blue)
}

/// An ICC profile with one tag table entry, `vcgt`, whose data `tag` follows
/// the table directly (at offset 144).
pub open spec fn single_tag_profile(tag: Seq<u8>) -> Seq<u8> {
    icc_header() + u32_be_bytes(1) + vcgt_signature() + u32_be_bytes(144) + u32_be_bytes(
        tag.len() as u32,
    ) + tag
}

proof fn lemma_u16_be_bytes(s: Seq<u8>, i: int, v: u16)
    requires
        0 <= i,
        i + 2 <= s.len(),
        s.subrange(i, i + 2) == u16_be_bytes(v),
    ensures
        be_u16(s, i) == v,
{
    assert(s[i] == s.subrange(i, i + 2)[0]);
    assert(s[i + 1] == s.subrange(i, i + 2)[1]);
    lemma_fundamental_div_mod(v as int, 256);
    lemma_mod_bound(v as int, 256);
}

proof fn lemma_u32_be_bytes(s: Seq<u8>, i: int, v: u32)
    requires
        0 <= i,
        i + 4 <= s.len(),
        s.subrange(i, i + 4) == u32_be_bytes(v),
    ensures
        be_u32(s, i) == v,
{
    let hi = (v / 65536) as int;
    let lo = (v % 65536) as int;
    lemma_fundamental_div_mod(v as int, 65536);
    lemma_mod_bound(v as int, 65536);
    lemma_fundamental_div_mod(hi, 256);
    lemma_mod_bound(hi, 256);
    lemma_fundamental_div_mod(lo, 256);
    lemma_mod_bound(lo, 256);
    let b = u32_be_bytes(v);
    assert(s[i] == b[0] && s[i + 1] == b[1] && s[i + 2] == b[2] && s[i + 3] == b[3]) by {
        assert(s[i] == s.subrange(i, i + 4)[0]);
        assert(s[i + 1] == s.subrange(i, i + 4)[1]);
        assert(s[i + 2] == s.subrange(i, i + 4)[2]);
        assert(s[i + 3] == s.subrange(i, i + 4)[3]);
    }
}

/// The profile's header, tag count and tag table entry locate `tag` as the
/// profile's `vcgt` data.
proof fn lemma_single_tag_profile_locates_tag(tag: Seq<u8>)
    requires
        18 <= tag.len() <= 0xffff_ffff,
    ensures
        parse_icc(single_tag_profile(tag)) == super::vcgt::parse_vcgt_tag(tag),
{
    let p = single_tag_profile(tag);
    let prefix = icc_header() + u32_be_bytes(1) + vcgt_signature() + u32_be_bytes(144)
        + u32_be_bytes(tag.len() as u32);
    assert(p == prefix + tag);
    assert(prefix.len() == 144);
    assert(p.len() == 144 + tag.len());
    assert(p[36] == 0x61 && p[37] == 0x63 && p[38] == 0x73 && p[39] == 0x70);
    assert(p.subrange(128, 132) =~= u32_be_bytes(1));
    lemma_u32_be_bytes(p, 128, 1);
    assert(p[132] == 0x76 && p[133] == 0x63 && p[134] == 0x67 && p[135] == 0x74);
    assert(p.subrange(136, 140) =~= u32_be_bytes(144));
    lemma_u32_be_bytes(p, 136, 144);
    assert(p.subrange(140, 144) =~= u32_be_bytes(tag.len() as u32));
    lemma_u32_be_bytes(p, 140, tag.len() as u32);
    assert(super::vcgt::first_vcgt_entry(p, 1, 0) == Some(0int));
    assert(p.subrange(144, 144 + tag.len() as int) =~= tag);
}

/// The fixed fields of a table tag read back as written, and its entries
/// follow at offset 18.
proof fn lemma_table_tag_fields(count: u16, entry_size: u16, entries: Seq<u8>)
    ensures
        ({
            let tag = table_tag(count, entry_size, entries);
            &&& tag.len() == 18 + entries.len()
            &&& be_u32(tag, 8) == 0
            &&& be_u16(tag, 12) == 3
            &&& be_u16(tag, 14) == count
            &&& be_u16(tag, 16) == entry_size
            &&& forall|k: int| 0 <= k < entries.len() ==> #[trigger] tag[18 + k] == entries[k]
        }),
{
    let tag = table_tag(count, entry_size, entries);
    let head = vcgt_signature() + u32_be_bytes(0) + u32_be_bytes(0) + u16_be_bytes(3)
        + u16_be_bytes(count) + u16_be_bytes(entry_size);
    assert(tag == head + entries);
    assert(head.len() == 18);
    assert(tag.subrange(8, 12) =~= u32_be_bytes(0));
    lemma_u32_be_bytes(tag, 8, 0);
    assert(tag.subrange(12, 14) =~= u16_be_bytes(3));
    lemma_u16_be_bytes(tag, 12, 3);
    assert(tag.subrange(14, 16) =~= u16_be_bytes(count));
    lemma_u16_be_bytes(tag, 14, count);
    assert(tag.subrange(16, 18) =~= u16_be_bytes(entry_size));
    lemma_u16_be_bytes(tag, 16, entry_size);
}

/// A table tag with three channels of `count` entries of `entry_size` bytes,
/// whose entries fill the rest of the tag, is read as its three channels.
proof fn lemma_table_tag_parses(count: u16, entry_size: u16, entries: Seq<u8>)
    requires
        count >= 1,
        entry_size == 1 || entry_size == 2,
        entries.len() == 3 * (count * entry_size),
    ensures
        ({
            let tag = table_tag(count, entry_size, entries);
            let len = count * entry_size;
            super::vcgt::parse_vcgt_tag(tag) == Ok::<VcgtContent, VcgtError>(
                VcgtContent::Table {
                    red: table_channel(tag, 18, count as int, entry_size as int),
                    green: table_channel(tag, 18 + len, count as int, entry_size as int),
                    blue: table_channel(tag, 18 + 2 * len, count as int, entry_size as int),
                },
            )
        }),
{
    lemma_table_tag_fields(count, entry_size, entries);
}

/// A channel's entries, laid out by `ramp_be_bytes` at `start`, read back as
/// the ramp.
proof fn lemma_ramp_be_bytes_read_back(tag: Seq<u8>, start: int, ramp: Seq<u16>)
    requires
        0 <= start,
        start + 2 * ramp.len() <= tag.len(),
        forall|k: int| 0 <= k < 2 * ramp.len() ==> tag[start + k] == #[trigger] ramp_be_bytes(ramp)[k],
    ensures
        table_channel(tag, start, ramp.len() as int, 2) == ramp,
{
    let n = ramp.len() as int;
    let bytes = ramp_be_bytes(ramp);
    assert forall|j: int| 0 <= j < n implies table_channel(tag, start, n, 2)[j] == ramp[j] by {
        assert(tag[start + 2 * j] == bytes[2 * j]);
        assert(tag[start + (2 * j + 1)] == bytes[2 * j + 1]);
        assert((2 * j) % 2 == 0 && (2 * j) / 2 == j);
        assert((2 * j + 1) % 2 == 1 && (2 * j + 1) / 2 == j);
        let v = ramp[j] as int;
        lemma_fundamental_div_mod(v, 256);
        lemma_mod_bound(v, 256);
    }
    assert(table_channel(tag, start, n, 2) =~= ramp);
}

/// A profile holding three 16-bit ramps of equal, non-zero length in a table
/// `vcgt` tag parses back to exactly those ramps.
pub proof fn lemma_table16_profile_parses_back(red: Seq<u16>, green: Seq<u16>, blue: Seq<u16>)
    requires
        1 <= red.len() <= 65535,
        green.len() == red.len(),
        blue.len() == red.len(),
    ensures
        parse_icc(
            single_tag_profile(
                table_tag(
                    red.len() as u16,
                    2,
                    ramp_be_bytes(red) + ramp_be_bytes(green) + ramp_be_bytes(blue),
                ),
            ),
        ) == Ok::<VcgtContent, VcgtError>(VcgtContent::Table { red, green, blue }),
{
    let n = red.len() as int;
    let rb = ramp_be_bytes(red);
    let gb = ramp_be_bytes(green);
    let bb = ramp_be_bytes(blue);
    let entries = rb + gb + bb;
    let tag = table_tag(n as u16, 2, entries);
    assert(entries.len() == 3 * (n * 2));
    lemma_table_tag_fields(n as u16, 2, entries);
    lemma_table_tag_parses(n as u16, 2, entries);
    lemma_single_tag_profile_locates_tag(tag);
    assert forall|k: int| 0 <= k < 2 * n implies tag[18 + k] == #[trigger] rb[k] by {
        assert(entries[k] == rb[k]);
    }
    assert forall|k: int| 0 <= k < 2 * n implies tag[(18 + 2 * n) + k] == #[trigger] gb[k] by {
        assert(tag[18 + (2 * n + k)] == entries[2 * n + k]);
        assert(entries[2 * n + k] == gb[k]);
    }
    assert forall|k: int| 0 <= k < 2 * n implies tag[(18 + 4 * n) + k] == #[trigger] bb[k] by {
        assert(tag[18 + (4 * n + k)] == entries[4 * n + k]);
        assert(entries[4 * n + k] == bb[k]);
    }
    lemma_ramp_be_bytes_read_back(tag, 18, red);
    lemma_ramp_be_bytes_read_back(tag, 18 + 2 * n, green);
    lemma_ramp_be_bytes_read_back(tag, 18 + 4 * n, blue);
    assert(n * 2 == 2 * n);
}

/// A profile holding three 8-bit ramps of equal, non-zero length in a table
/// `vcgt` tag parses back to those ramps scaled to 16 bits (each entry times
/// 257, so that 0 stays 0 and 255 becomes 65535).
pub proof fn lemma_table8_profile_parses_back(red: Seq<u8>, green: Seq<u8>, blue: Seq<u8>)
    requires
        1 <= red.len() <= 65535,
        green.len() == red.len(),
        blue.len() == red.len(),
    ensures
        parse_icc(single_tag_profile(table_tag(red.len() as u16, 1, red + green + blue)))
            == Ok::<VcgtContent, VcgtError>(
            VcgtContent::Table {
                red: red.map_values(|b: u8| (b * 257) as u16),
                green: green.map_values(|b: u8| (b * 257) as u16),
                blue: blue.map_values(|b: u8| (b * 257) as u16),
            },
        ),
{
    let n = red.len() as int;
    let entries = red + green + blue;
    let tag = table_tag(n as u16, 1, entries);
    assert(entries.len() == 3 * (n * 1));
    lemma_table_tag_fields(n as u16, 1, entries);
    lemma_table_tag_parses(n as u16, 1, entries);
    lemma_single_tag_profile_locates_tag(tag);
    assert(n * 1 == n);
    assert forall|j: int| 0 <= j < n implies tag[18 + j] == red[j] by {
        assert(entries[j] == red[j]);
    }
    assert forall|j: int| 0 <= j < n implies tag[18 + n + j] == green[j] by {
        assert(tag[18 + (n + j)] == entries[n + j]);
    }
    assert forall|j: int| 0 <= j < n implies tag[18 + 2 * n + j] == blue[j] by {
        assert(tag[18 + (2 * n + j)] == entries[2 * n + j]);
    }
    assert(table_channel(tag, 18, n, 1) =~= red.map_values(|b: u8| (b * 257) as u16));
    assert(table_channel(tag, 18 + n, n, 1) =~= green.map_values(|b: u8| (b * 257) as u16));
    assert(table_channel(tag, 18 + 2 * n, n, 1) =~= blue.map_values(|b: u8| (b * 257) as u16));
}

proof fn lemma_i32_be_bytes(s: Seq<u8>, i: int, v: i32)
    requires
        0 <= i,
        i + 4 <= s.len(),
        s.subrange(i, i + 4) == i32_be_bytes(v),
    ensures
        be_i32(s, i) == v,
{
    if v < 0 {
        lemma_u32_be_bytes(s, i, (v + 4294967296) as u32);
    } else {
        lemma_u32_be_bytes(s, i, v as u32);
    }
}

/// The parameters written by `formula_channel_bytes` at `offset` read back.
proof fn lemma_formula_channel_read_back(tag: Seq<u8>, offset: int, c: FormulaChannel)
    requires
        0 <= offset,
        offset + 12 <= tag.len(),
        tag.subrange(offset, offset + 12) == formula_channel_bytes(c),
    ensures
        formula_channel_at(tag, offset) == c,
{
    let b = formula_channel_bytes(c);
    assert(tag.subrange(offset, offset + 4) =~= i32_be_bytes(c.gamma)) by {
        assert(tag.subrange(offset, offset + 4) =~= b.subrange(0, 4));
    }
    assert(tag.subrange(offset + 4, offset + 8) =~= i32_be_bytes(c.min)) by {
        assert(tag.subrange(offset + 4, offset + 8) =~= b.subrange(4, 8));
    }
    assert(tag.subrange(offset + 8, offset + 12) =~= i32_be_bytes(c.max)) by {
        assert(tag.subrange(offset + 8, offset + 12) =~= b.subrange(8, 12));
    }
    lemma_i32_be_bytes(tag, offset, c.gamma);
    lemma_i32_be_bytes(tag, offset + 4, c.min);
    lemma_i32_be_bytes(tag, offset + 8, c.max);
}

/// A profile holding a formula `vcgt` tag parses back to its three channels'
/// parameters when every channel has a positive exponent and ordered bounds,
/// and is refused as invalid otherwise.
pub proof fn lemma_formula_profile_parses_back(
    red: FormulaChannel,
    green: FormulaChannel,
    blue: FormulaChannel,
)
    ensures
        parse_icc(single_tag_profile(formula_tag(red, green, blue))) == if formula_channel_valid(
            red,
        ) && formula_channel_valid(green) && formula_channel_valid(blue) {
            Ok::<VcgtContent, VcgtError>(
                VcgtContent::Formula { red_curve: red, green_curve: green, blue_curve: blue },
            )
        } else {
            Err::<VcgtContent, VcgtError>(VcgtError::InvalidFormulaParameters)
        },
{
    let tag = formula_tag(red, green, blue);
    let head = vcgt_signature() + u32_be_bytes(0) + u32_be_bytes(1);
    assert(head.len() == 12);
    assert(tag.len() == 48);
    lemma_single_tag_profile_locates_tag(tag);
    assert(tag.subrange(8, 12) =~= u32_be_bytes(1));
    lemma_u32_be_bytes(tag, 8, 1);
    assert(tag.subrange(12, 24) =~= formula_channel_bytes(red));
    assert(tag.subrange(24, 36) =~= formula_channel_bytes(green));
    assert(tag.subrange(36, 48) =~= formula_channel_bytes(blue));
    lemma_formula_channel_read_back(tag, 12, red);
    lemma_formula_channel_read_back(tag, 24, green);
    lemma_formula_channel_read_back(tag, 36, blue);
}

} // verus!
