use vstd::prelude::*;

use super::ramp::resample_spec;

pub use super::ramp::{fuse_gamma, resample_vcgt};

verus! {

#[verifier::external_type_specification]
#[verifier::external_body]
pub struct ExIoError(std::io::Error);

/// ICC/VCGT parsing errors.
#[derive(Debug)]
pub enum VcgtError {
    Io(std::io::Error),
    FileTooLarge,
    HeaderTooShort,
    InvalidIccMagic,
    InvalidTagTable,
    TagNotFound,
    VcgtDataTooShort,
    UnsupportedGammaType(u32),
    UnsupportedChannels(u16),
    UnsupportedEntrySize(u16),
    TableTruncated,
    InvalidFormulaParameters,
}

impl From<std::io::Error> for VcgtError {
    fn from(err: std::io::Error) -> (r: Self) {
        VcgtError::Io(err)
    }
}

impl vstd::std_specs::convert::FromSpecImpl<std::io::Error> for VcgtError {
    open spec fn obeys_from_spec() -> bool {
        true
    }

    open spec fn from_spec(err: std::io::Error) -> Self {
        VcgtError::Io(err)
    }
}

/// Parsed VCGT with 16-bit RGB ramps.
#[derive(Debug, Clone, PartialEq, Eq)]
pub struct Vcgt {
    pub red: Vec<u16>,
    pub green: Vec<u16>,
    pub blue: Vec<u16>,
}

/// The parameters of one channel of a formula-type `vcgt` tag, as signed
/// 16.16 fixed-point numbers (the value is the raw number divided by 65536):
/// the channel's curve is `min + (max - min) * x^gamma` over `x` in `[0, 1]`.
#[derive(Debug, Clone, Copy, PartialEq, Eq)]
pub struct FormulaChannel {
    pub gamma: i32,
    pub min: i32,
    pub max: i32,
}

/// What a `vcgt` tag describes: three explicit ramps, or three formula
/// channels.
pub enum VcgtContent {
    Table { red: Seq<u16>, green: Seq<u16>, blue: Seq<u16> },
    Formula { red_curve: FormulaChannel, green_curve: FormulaChannel, blue_curve: FormulaChannel },
}

/// Max ICC size (4 MiB) to prevent OOM.
pub const MAX_ICC_SIZE: u64 = 4194304;

// ---------------------------------------------------------------------------
// Byte-level model
// ---------------------------------------------------------------------------

/// Big-endian 16-bit number at `i`.
pub open spec fn be_u16(s: Seq<u8>, i: int) -> u16 {
    (s[i] * 256 + s[i + 1]) as u16
}

/// Big-endian 32-bit number at `i`.
pub open spec fn be_u32(s: Seq<u8>, i: int) -> u32 {
    (s[i] * 16777216 + s[i + 1] * 65536 + s[i + 2] * 256 + s[i + 3]) as u32
}

/// Big-endian two's-complement 32-bit number at `i`.
pub open spec fn be_i32(s: Seq<u8>, i: int) -> i32 {
    let u = be_u32(s, i) as int;
    if u >= 2147483648 {
        (u - 4294967296) as i32
    } else {
        u as i32
    }
}

/// The four bytes at `i` are `a b c d`.
pub open spec fn has_signature(s: Seq<u8>, i: int, a: u8, b: u8, c: u8, d: u8) -> bool {
    &&& s[i] == a
    &&& s[i + 1] == b
    &&& s[i + 2] == c
    &&& s[i + 3] == d
}

/// The ICC header carries the signature `acsp` at offset 36.
pub open spec fn has_icc_magic(data: Seq<u8>) -> bool {
    has_signature(data, 36, 0x61, 0x63, 0x73, 0x70)
}

/// Offset of tag table entry `k` (each entry is 12 bytes after the 4-byte count).
pub open spec fn tag_entry_offset(k: int) -> int {
    132 + 12 * k
}

/// Tag table entry `k` has the signature `vcgt`.
pub open spec fn is_vcgt_entry(data: Seq<u8>, k: int) -> bool {
    has_signature(data, tag_entry_offset(k), 0x76, 0x63, 0x67, 0x74)
}

/// The first tag table entry at or after `k`, below `count`, that is a
/// `vcgt` entry.
pub open spec fn first_vcgt_entry(data: Seq<u8>, count: int, k: int) -> Option<int>
    decreases count - k,
{
    if k >= count {
        None
    } else if is_vcgt_entry(data, k) {
        Some(k)
    } else {
        first_vcgt_entry(data, count, k + 1)
    }
}

/// Table entry `j` of a channel whose entries start at `start`: one byte
/// scaled to 16 bits (times 257), or a big-endian 16-bit number.
pub open spec fn table_entry(tag: Seq<u8>, start: int, size: int, j: int) -> u16 {
    if size == 1 {
        (tag[start + j] * 257) as u16
    } else {
        be_u16(tag, start + 2 * j)
    }
}

/// The `count` entries of a channel that start at `start`.
pub open spec fn table_channel(tag: Seq<u8>, start: int, count: int, size: int) -> Seq<u16> {
    Seq::new(count as nat, |j: int| table_entry(tag, start, size, j))
}

/// A table-type `vcgt` tag: three channels, a non-zero entry count, entries
/// of 1 or 2 bytes, and the three channels' entries one after the other from
/// offset 18.
pub open spec fn parse_table(tag: Seq<u8>) -> Result<VcgtContent, VcgtError> {
    if tag.len() < 18 {
        Err(VcgtError::VcgtDataTooShort)
    } else {
        let channels = be_u16(tag, 12);
        let count = be_u16(tag, 14) as int;
        let size = be_u16(tag, 16) as int;
        if channels != 3 {
            Err(VcgtError::UnsupportedChannels(channels))
        } else if count == 0 {
            Err(VcgtError::TableTruncated)
        } else if size != 1 && size != 2 {
            Err(VcgtError::UnsupportedEntrySize(size as u16))
        } else if tag.len() < 18 + 3 * (count * size) {
            Err(VcgtError::TableTruncated)
        } else {
            let len = count * size;
            Ok(
                VcgtContent::Table {
                    red: table_channel(tag, 18, count, size),
                    green: table_channel(tag, 18 + len, count, size),
                    blue: table_channel(tag, 18 + 2 * len, count, size),
                },
            )
        }
    }
}

/// The formula parameters stored at `offset`.
pub open spec fn formula_channel_at(tag: Seq<u8>, offset: int) -> FormulaChannel {
    FormulaChannel {
        gamma: be_i32(tag, offset),
        min: be_i32(tag, offset + 4),
        max: be_i32(tag, offset + 8),
    }
}

/// A formula channel is usable when its exponent is positive and its bounds
/// are in order.
pub open spec fn formula_channel_valid(c: FormulaChannel) -> bool {
    c.gamma > 0 && c.min <= c.max
}

/// A formula-type `vcgt` tag: three channels of parameters at offsets 12, 24
/// and 36.
pub open spec fn parse_formula(tag: Seq<u8>) -> Result<VcgtContent, VcgtError> {
    if tag.len() < 48 {
        Err(VcgtError::VcgtDataTooShort)
    } else {
        let red = formula_channel_at(tag, 12);
        let green = formula_channel_at(tag, 24);
        let blue = formula_channel_at(tag, 36);
        if !formula_channel_valid(red) || !formula_channel_valid(green) || !formula_channel_valid(
            blue,
        ) {
            Err(VcgtError::InvalidFormulaParameters)
        } else {
            Ok(VcgtContent::Formula { red_curve: red, green_curve: green, blue_curve: blue })
        }
    }
}

/// The contents of a `vcgt` tag, by its gamma type (0 = table, 1 = formula).
pub open spec fn parse_vcgt_tag(tag: Seq<u8>) -> Result<VcgtContent, VcgtError> {
    let gamma_type = be_u32(tag, 8);
    if gamma_type == 0 {
        parse_table(tag)
    } else if gamma_type == 1 {
        parse_formula(tag)
    } else {
        Err(VcgtError::UnsupportedGammaType(gamma_type))
    }
}

/// The `vcgt` contents of an ICC profile: a 128-byte header with the `acsp`
/// signature, a tag count at 128, the tag table after it, and the first
/// `vcgt` entry's offset and size locating at least 18 bytes of tag data
/// inside the profile.
pub open spec fn parse_icc(data: Seq<u8>) -> Result<VcgtContent, VcgtError> {
    if data.len() < 128 {
        Err(VcgtError::HeaderTooShort)
    } else if !has_icc_magic(data) {
        Err(VcgtError::InvalidIccMagic)
    } else if data.len() < 132 {
        Err(VcgtError::InvalidTagTable)
    } else {
        let count = be_u32(data, 128) as int;
        if data.len() < tag_entry_offset(count) {
            Err(VcgtError::InvalidTagTable)
        } else {
            match first_vcgt_entry(data, count, 0) {
                None => Err(VcgtError::TagNotFound),
                Some(k) => {
                    let offset = be_u32(data, tag_entry_offset(k) + 4) as int;
                    let size = be_u32(data, tag_entry_offset(k) + 8) as int;
                    if offset + size > data.len() || size < 18 {
                        Err(VcgtError::VcgtDataTooShort)
                    } else {
                        parse_vcgt_tag(data.subrange(offset, offset + size))
                    }
                },
            }
        }
    }
}

/// A parsed table holds three channels of the same, non-zero length.
pub proof fn lemma_parsed_table_channels_match(data: Seq<u8>)
    ensures
        parse_icc(data) matches Ok(VcgtContent::Table { red, green, blue }) ==> {
            &&& red.len() >= 1
            &&& green.len() == red.len()
            &&& blue.len() == red.len()
        },
{
}

/// `r` is what parsing gives for `content`: the same error, the same three
/// table ramps, or the three ramps that `evaluate` produced for the three
/// formula channels.
pub open spec fn decoded_as<F: Fn(FormulaChannel) -> Vec<u16>>(
    content: Result<VcgtContent, VcgtError>,
    r: Result<Vcgt, VcgtError>,
    evaluate: F,
) -> bool {
    match content {
        Err(e) => r == Err::<Vcgt, VcgtError>(e),
        Ok(VcgtContent::Table { red, green, blue }) => {
            &&& r is Ok
            &&& r->Ok_0.red@ == red
            &&& r->Ok_0.green@ == green
            &&& r->Ok_0.blue@ == blue
        },
        Ok(VcgtContent::Formula { red_curve, green_curve, blue_curve }) => {
            &&& r is Ok
            &&& call_ensures(evaluate, (red_curve,), r->Ok_0.red)
            &&& call_ensures(evaluate, (green_curve,), r->Ok_0.green)
            &&& call_ensures(evaluate, (blue_curve,), r->Ok_0.blue)
        },
    }
}

/// A profile of `len` bytes is over the size limit.
pub fn exceeds_max_icc_size(len: u64) -> (r: bool)
    ensures
        r == (len > MAX_ICC_SIZE),
{
    len > MAX_ICC_SIZE
}

// ---------------------------------------------------------------------------
// Byte readers
// ---------------------------------------------------------------------------

fn read_be_u16(s: &[u8], i: usize) -> (v: u16)
    requires
        i + 2 <= s@.len(),
    ensures
        v == be_u16(s@, i as int),
{
    (s[i] as u16) * 256 + (s[i + 1] as u16)
}

fn read_be_u32(s: &[u8], i: usize) -> (v: u32)
    requires
        i + 4 <= s@.len(),
    ensures
        v == be_u32(s@, i as int),
{
    (s[i] as u32) * 16777216 + (s[i + 1] as u32) * 65536 + (s[i + 2] as u32) * 256 + (s[i
        + 3] as u32)
}

fn read_be_i32(s: &[u8], i: usize) -> (v: i32)
    requires
        i + 4 <= s@.len(),
    ensures
        v == be_i32(s@, i as int),
{
    let u = read_be_u32(s, i);
    if u >= 2147483648 {
        ((u - 2147483648) as i32) + i32::MIN
    } else {
        u as i32
    }
}

fn signature_at(s: &[u8], i: usize, a: u8, b: u8, c: u8, d: u8) -> (r: bool)
    requires
        i + 4 <= s@.len(),
    ensures
        r == has_signature(s@, i as int, a, b, c, d),
{
    s[i] == a && s[i + 1] == b && s[i + 2] == c && s[i + 3] == d
}

// ---------------------------------------------------------------------------
// Parsing
// ---------------------------------------------------------------------------

/// Index of the first `vcgt` entry among the first `count` tag table entries.
fn find_vcgt_entry(data: &[u8], count: usize) -> (r: Option<usize>)
    requires
        tag_entry_offset(count as int) <= data@.len(),
    ensures
        match r {
            Some(k) => k < count && first_vcgt_entry(data@, count as int, 0) == Some(k as int),
            None => first_vcgt_entry(data@, count as int, 0) is None,
        },
{
    let len = data.len();
    let mut i: usize = 0;
    while i < count
        invariant
            i <= count,
            len == data@.len(),
            tag_entry_offset(count as int) <= data@.len(),
            first_vcgt_entry(data@, count as int, 0) == first_vcgt_entry(data@, count as int, i as int),
        decreases count - i,
    {
        let entry = 132 + 12 * i;
        if signature_at(data, entry, 0x76, 0x63, 0x67, 0x74) {
            return Some(i);
        }
        i = i + 1;
    }
    None
}

/// The `count` entries of one channel, starting at `start`.
fn decode_channel(tag: &[u8], start: usize, count: usize, size: usize) -> (out: Vec<u16>)
    requires
        size == 1 || size == 2,
        start + count * size <= tag@.len(),
    ensures
        out@ == table_channel(tag@, start as int, count as int, size as int),
{
    let len = tag.len();
    let mut out: Vec<u16> = Vec::with_capacity(count);
    let mut j: usize = 0;
    while j < count
        invariant
            size == 1 || size == 2,
            start + count * size <= tag@.len(),
            len == tag@.len(),
            j <= count,
            out@ =~= Seq::new(j as nat, |k: int| table_entry(tag@, start as int, size as int, k)),
        decreases count - j,
    {
        assert(start + j + 1 <= start + count * size) by (nonlinear_arith)
            requires
                j < count,
                size >= 1,
        ;
        if size == 1 {
            let b = tag[start + j] as u16;
            out.push(b * 257);
        } else {
            assert(start + 2 * j + 2 <= start + count * size) by (nonlinear_arith)
                requires
                    j < count,
                    size == 2,
            ;
            out.push(read_be_u16(tag, start + 2 * j));
        }
        j = j + 1;
    }
    out
}

impl Vcgt {
    /// Parse VCGT from raw ICC profile bytes. The ramps of a formula-type tag
    /// come from `evaluate_formula`, called once for each of the red, green
    /// and blue channels' parameters, in that order.
    pub fn from_bytes<F: Fn(FormulaChannel) -> Vec<u16>>(data: &[u8], evaluate_formula: F) -> (r:
        Result<Self, VcgtError>)
        requires
            forall|c: FormulaChannel| call_requires(evaluate_formula, (c,)),
        ensures
            decoded_as(parse_icc(data@), r, evaluate_formula),
    {
        if data.len() < 128 {
            return Err(VcgtError::HeaderTooShort);
        }
        if !signature_at(data, 36, 0x61, 0x63, 0x73, 0x70) {
            return Err(VcgtError::InvalidIccMagic);
        }
        if data.len() < 132 {
            return Err(VcgtError::InvalidTagTable);
        }
        let tag_count = read_be_u32(data, 128);
        let tag_table_end: u64 = 132 + 12 * (tag_count as u64);
        if (data.len() as u64) < tag_table_end {
            return Err(VcgtError::InvalidTagTable);
        }
        let count = tag_count as usize;
        let entry = match find_vcgt_entry(data, count) {
            Some(k) => k,
            None => {
                return Err(VcgtError::TagNotFound);
            },
        };
        let entry_offset = 132 + 12 * entry;
        let vcgt_offset = read_be_u32(data, entry_offset + 4);
        let vcgt_size = read_be_u32(data, entry_offset + 8);
        let vcgt_end: u64 = (vcgt_offset as u64) + (vcgt_size as u64);
        if vcgt_end > data.len() as u64 || vcgt_size < 18 {
            return Err(VcgtError::VcgtDataTooShort);
        }
        let vcgt_data = &data[vcgt_offset as usize..vcgt_end as usize];
        let gamma_type = read_be_u32(vcgt_data, 8);
        if gamma_type == 0 {
            Self::parse_table_type(vcgt_data)
        } else if gamma_type == 1 {
            Self::parse_formula_type(vcgt_data, evaluate_formula)
        } else {
            Err(VcgtError::UnsupportedGammaType(gamma_type))
        }
    }

    /// Parse VCGT from the bytes read out of an ICC profile file: more than
    /// `MAX_ICC_SIZE` bytes are refused as too large, anything else is parsed
    /// as by `from_bytes`.
    pub fn from_file_contents<F: Fn(FormulaChannel) -> Vec<u16>>(
        data: &[u8],
        evaluate_formula: F,
    ) -> (r: Result<Self, VcgtError>)
        requires
            forall|c: FormulaChannel| call_requires(evaluate_formula, (c,)),
        ensures
            data@.len() > MAX_ICC_SIZE ==> r == Err::<Vcgt, VcgtError>(VcgtError::FileTooLarge),
            data@.len() <= MAX_ICC_SIZE ==> decoded_as(parse_icc(data@), r, evaluate_formula),
    {
        if exceeds_max_icc_size(data.len() as u64) {
            return Err(VcgtError::FileTooLarge);
        }
        Self::from_bytes(data, evaluate_formula)
    }

    /// Resample all three channels to target_size.
    pub fn resample(&self, target_size: usize) -> (r: Self)
        ensures
            r.red@ == resample_spec(self.red@, target_size as nat),
            r.green@ == resample_spec(self.green@, target_size as nat),
            r.blue@ == resample_spec(self.blue@, target_size as nat),
    {
        Self {
            red: resample_vcgt(self.red.as_slice(), target_size),
            green: resample_vcgt(self.green.as_slice(), target_size),
            blue: resample_vcgt(self.blue.as_slice(), target_size),
        }
    }

    /// Flatten channels into a single DRM gamma LUT vector.
    pub fn to_drm_lut(&self) -> (lut: Vec<u16>)
        ensures
            lut@ == self.red@ + self.green@ + self.blue@,
    {
        let mut lut = vstd::slice::slice_to_vec(self.red.as_slice());
        let mut green = vstd::slice::slice_to_vec(self.green.as_slice());
        let mut blue = vstd::slice::slice_to_vec(self.blue.as_slice());
        lut.append(&mut green);
        lut.append(&mut blue);
        lut
    }

    /// Number of entries per channel.
    pub fn len(&self) -> (n: usize)
        ensures
            n == self.red@.len(),
    {
        self.red.len()
    }

    /// Check if tables are empty.
    pub fn is_empty(&self) -> (b: bool)
        ensures
            b == (self.red@.len() == 0),
    {
        self.red.len() == 0
    }

    // Parse table gamma: verify 3 channels and dimensions.
    fn parse_table_type(vcgt_data: &[u8]) -> (r: Result<Self, VcgtError>)
        ensures
            match parse_table(vcgt_data@) {
                Err(e) => r == Err::<Vcgt, VcgtError>(e),
                Ok(VcgtContent::Table { red, green, blue }) => r is Ok && r->Ok_0.red@ == red
                    && r->Ok_0.green@ == green && r->Ok_0.blue@ == blue,
                Ok(VcgtContent::Formula { .. }) => false,
            },
    {
        if vcgt_data.len() < 18 {
            return Err(VcgtError::VcgtDataTooShort);
        }
        let channels = read_be_u16(vcgt_data, 12);
        let entry_count = read_be_u16(vcgt_data, 14) as usize;
        let entry_size = read_be_u16(vcgt_data, 16) as usize;
        if channels != 3 {
            return Err(VcgtError::UnsupportedChannels(channels));
        }
        if entry_count == 0 {
            return Err(VcgtError::TableTruncated);
        }
        if entry_size != 1 && entry_size != 2 {
            return Err(VcgtError::UnsupportedEntrySize(entry_size as u16));
        }
        let channel_byte_len: usize = if entry_size == 1 {
            entry_count
        } else {
            2 * entry_count
        };
        assert(channel_byte_len == entry_count * entry_size);
        let total_required_len = 18 + 3 * channel_byte_len;
        if vcgt_data.len() < total_required_len {
            return Err(VcgtError::TableTruncated);
        }
        let red = decode_channel(vcgt_data, 18, entry_count, entry_size);
        let green = decode_channel(vcgt_data, 18 + channel_byte_len, entry_count, entry_size);
        let blue = decode_channel(vcgt_data, 18 + 2 * channel_byte_len, entry_count, entry_size);
        Ok(Self { red, green, blue })
    }

    fn read_formula_channel(vcgt_data: &[u8], offset: usize) -> (c: FormulaChannel)
        requires
            offset + 12 <= vcgt_data@.len(),
        ensures
            c == formula_channel_at(vcgt_data@, offset as int),
    {
        let len = vcgt_data.len();
        assert(offset + 12 <= len);
        FormulaChannel {
            gamma: read_be_i32(vcgt_data, offset),
            min: read_be_i32(vcgt_data, offset + 4),
            max: read_be_i32(vcgt_data, offset + 8),
        }
    }

    // Parse formula gamma parameters for each channel.
    fn parse_formula_type<F: Fn(FormulaChannel) -> Vec<u16>>(
        vcgt_data: &[u8],
        evaluate_formula: F,
    ) -> (r: Result<Self, VcgtError>)
        requires
            forall|c: FormulaChannel| call_requires(evaluate_formula, (c,)),
        ensures
            decoded_as(parse_formula(vcgt_data@), r, evaluate_formula),
    {
        // Header + 3 channels * 12 bytes.
        if vcgt_data.len() < 48 {
            return Err(VcgtError::VcgtDataTooShort);
        }
        let red = Self::read_formula_channel(vcgt_data, 12);
        let green = Self::read_formula_channel(vcgt_data, 24);
        let blue = Self::read_formula_channel(vcgt_data, 36);
        // Reject invalid params to avoid NaN or singularities.
        if red.gamma <= 0 || red.min > red.max || green.gamma <= 0 || green.min > green.max
            || blue.gamma <= 0 || blue.min > blue.max {
            return Err(VcgtError::InvalidFormulaParameters);
        }
        Ok(Self { red: evaluate_formula(red), green: evaluate_formula(green), blue: evaluate_formula(blue) })
    }
}

} // verus!
