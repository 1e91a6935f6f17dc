//! Channels: where in a record a channel's value lies, and how its bytes
//! become values.

use vstd::prelude::*;
use vstd::slice::slice_to_vec;
use crate::block::{first_or, normal_link, BlockDesc, BlockInfo, BlockModel};
use crate::components::ca::{
    dims_product, element_name, index_digit, index_tuple, offset_upto, spec_array, ArrayModel,
    ChannelArray,
};
use crate::components::cc::{
    from_text, nesting_limit, spec_conversion, CcModel, CcType, Conversion, ConversionModel,
};
use crate::components::si::{spec_source, SourceInfo, SourceModel};
use vstd::utf8::{decode_utf8, valid_utf8};
use crate::components::cg::{ChannelGroup, ChannelGroupModel};
use crate::components::dg::{record_of, DataGroup, DataGroupModel};
use crate::components::dx::{
    fragment_available, frags_len, joined, lemma_joined_prefix,
    lemma_linked_read_is_contiguous, read_data_block, spec_data_block, DataBlock, DataBlockModel,
    DataLinkModel, VirtualBuf,
};
use vstd::arithmetic::power2::pow2;
use crate::data_serde::{
    le_value, lemma_fixed_width_values, lemma_mask_is_remainder, lemma_right_shift_divides,
    lemma_zeros_behind,
};
use crate::data_serde::{
    be_u64, be_units, le_u32, le_u64, le_units, read_u32_le, str_eq, string_from_utf8,
    trim_end_nul, trim_nul, utf16_lossy_text, utf8_or, DataModel, DataValue, UTF16String,
};
use crate::parser::{
    chain_offsets, get_child_links, peek_block_type, spec_block_type, spec_chain,
    spec_text_or_empty, text_or_empty, DescMap,
};
use crate::data_serde::{
    bytes_and_bits, masked, right_shift_bytes, right_shifted, FromBeBytes, FromLeBytes,
};
use crate::error::MdfError;

verus! {

/// What a channel is synchronised by.
#[derive(Debug, Clone, Copy, PartialEq, Eq, Structural)]
pub enum SyncType {
    NONE,
    Time,
    Angle,
    Distance,
    Index,
}

/// One channel of a channel group.
#[derive(Debug)]
pub struct Channel {
    name: String,
    source: SourceInfo,
    conversion: Conversion,
    unit: String,
    comment: String,
    cn_type: u8,
    sync_type: SyncType,
    data_type: u8,
    bit_offset: u8,
    byte_offset: u32,
    bit_count: u32,
    bytes_num: u32,
    master: bool,
    cn_data: u64,
    sub_channels: Option<Vec<Channel>>,
    array: Option<ChannelArray>,
    cn_flags: u32,
    cn_compositon: u64,
}

/// What a `Channel` holds.
pub struct ChannelModel {
    pub name: Seq<char>,
    pub source: SourceModel,
    pub conversion: ConversionModel,
    pub unit: Seq<char>,
    pub comment: Seq<char>,
    pub cn_type: u8,
    pub sync_type: SyncType,
    pub data_type: u8,
    pub bit_offset: u8,
    pub byte_offset: u32,
    pub bit_count: u32,
    pub bytes_num: u32,
    pub master: bool,
    pub cn_data: u64,
    pub sub_channels: Option<Seq<ChannelModel>>,
    pub array: Option<ArrayModel>,
    pub cn_flags: u32,
    pub cn_composition: u64,
}

/// What each of the channels holds.
pub closed spec fn channel_models(v: Seq<Channel>) -> Seq<ChannelModel>
    decreases v,
{
    if v.len() == 0 {
        Seq::empty()
    } else {
        channel_models(v.drop_last()).push(channel_model(v.last()))
    }
}

/// What a channel holds.
pub closed spec fn channel_model(c: Channel) -> ChannelModel
    decreases c,
{
    ChannelModel {
        name: c.name@,
        source: c.source@,
        conversion: c.conversion@,
        unit: c.unit@,
        comment: c.comment@,
        cn_type: c.cn_type,
        sync_type: c.sync_type,
        data_type: c.data_type,
        bit_offset: c.bit_offset,
        byte_offset: c.byte_offset,
        bit_count: c.bit_count,
        bytes_num: c.bytes_num,
        master: c.master,
        cn_data: c.cn_data,
        sub_channels: match c.sub_channels {
            Some(v) => Some(channel_models(v@)),
            None => None,
        },
        array: match c.array {
            Some(a) => Some(a@),
            None => None,
        },
        cn_flags: c.cn_flags,
        cn_composition: c.cn_compositon,
    }
}

/// `channel_models` keeps the number and the order of the channels.
pub proof fn lemma_channel_models(v: Seq<Channel>)
    ensures
        channel_models(v).len() == v.len(),
        forall|i: int| 0 <= i < v.len() ==> (#[trigger] channel_models(v)[i]) == channel_model(v[i]),
    decreases v.len(),
{
    if v.len() > 0 {
        lemma_channel_models(v.drop_last());
        assert forall|i: int| 0 <= i < v.len() implies (#[trigger] channel_models(v)[i])
            == channel_model(v[i]) by {
            if i < v.len() - 1 {
                assert(v.drop_last()[i] == v[i]);
            }
        }
    }
}

impl View for Channel {
    type V = ChannelModel;

    open spec fn view(&self) -> ChannelModel {
        channel_model(*self)
    }
}

// ---------------------------------------------------------------------------
// A channel's field within a record
// ---------------------------------------------------------------------------

/// Whether samples of the data type are stored least significant byte
/// first.
pub open spec fn is_le_type(t: u8) -> bool {
    t == 0 || t == 2 || t == 4 || t == 6 || t == 7 || t == 8
}

/// Whether samples of the data type are stored most significant byte
/// first.
pub open spec fn is_be_type(t: u8) -> bool {
    t == 1 || t == 3 || t == 5 || t == 9
}

/// `n` zero bytes.
pub open spec fn zeros(n: int) -> Seq<u8> {
    Seq::new(n as nat, |i: int| 0u8)
}

/// `b` brought to at least `width` bytes by zeros behind it.
pub open spec fn padded_le(b: Seq<u8>, width: nat) -> Seq<u8> {
    if b.len() < width {
        b + zeros(width - b.len())
    } else {
        b
    }
}

/// `b` brought to at least `width` bytes by zeros before it.
pub open spec fn padded_be(b: Seq<u8>, width: nat) -> Seq<u8> {
    if b.len() < width {
        zeros(width - b.len()) + b
    } else {
        b
    }
}

impl ChannelModel {
    /// Why the channel's field cannot be taken from a record of `rec_len`
    /// bytes, if it cannot: the field reaches past the record, the bit
    /// offset is above 7, or the data type has no byte order.
    pub open spec fn field_error(&self, rec_len: int) -> Option<MdfError> {
        if self.byte_offset + self.bytes_num > rec_len {
            Some(MdfError::OutOfRange)
        } else if self.bit_offset > 7 {
            Some(MdfError::InvalidBitSize)
        } else if !is_le_type(self.data_type) && !is_be_type(self.data_type) {
            Some(MdfError::UnsupportedDataType)
        } else {
            None
        }
    }

    /// The channel's field in the record `rec`: the bytes that hold it,
    /// shifted right by the bit offset, and cut to the bit count.
    pub open spec fn field_bytes(&self, rec: Seq<u8>) -> Seq<u8> {
        let raw = rec.subrange(self.byte_offset as int, self.byte_offset + self.bytes_num);
        let shifted = if self.bit_offset != 0 {
            right_shifted(raw, self.bit_offset)
        } else {
            raw
        };
        masked(shifted, self.bit_count)
    }

    /// Whether `v` is the value of the channel in the record `rec`, decoded
    /// as a `T` in the byte order of the channel's data type. A field
    /// shorter than a `T` is filled up with zeros at its high end.
    pub open spec fn sample_is<T: FromLeBytes + FromBeBytes>(&self, rec: Seq<u8>, v: T) -> bool {
        if is_le_type(self.data_type) {
            T::le_decodes(padded_le(self.field_bytes(rec), T::le_width()), v)
        } else {
            T::be_decodes(padded_be(self.field_bytes(rec), T::be_width()), v)
        }
    }
}

fn pad_behind(b: &mut Vec<u8>, width: usize)
    ensures
        final(b)@ == padded_le(old(b)@, width as nat),
{
    let ghost start = b@;
    while b.len() < width
        invariant
            start == old(b)@,
            b@.len() >= start.len(),
            b@ == start + zeros(b@.len() - start.len()),
            start.len() >= width ==> b@ == start,
            b@.len() <= width || b@.len() == start.len(),
        decreases width - b@.len(),
    {
        b.push(0);
        assert(b@ =~= start + zeros(b@.len() - start.len()));
    }
    proof {
        if start.len() >= width {
            assert(start + zeros(0) =~= start);
        } else {
            assert(b@.len() == width);
        }
    }
}

fn pad_before(b: &Vec<u8>, width: usize) -> (r: Vec<u8>)
    ensures
        r@ == padded_be(b@, width as nat),
{
    let n: usize = b.len();
    if n >= width {
        let r = slice_to_vec(b.as_slice());
        return r;
    }
    let mut r: Vec<u8> = Vec::new();
    let mut i: usize = 0;
    while i < width - n
        invariant
            n < width,
            i <= width - n,
            r@ == zeros(i as int),
        decreases width - n - i,
    {
        r.push(0);
        assert(r@ =~= zeros(i + 1));
        i += 1;
    }
    let mut j: usize = 0;
    while j < n
        invariant
            n < width,
            n == b@.len(),
            j <= n,
            r@ == zeros(width - n) + b@.subrange(0, j as int),
        decreases n - j,
    {
        r.push(b[j]);
        assert(r@ =~= zeros(width - n) + b@.subrange(0, j + 1));
        j += 1;
    }
    assert(b@.subrange(0, n as int) =~= b@);
    r
}

impl Channel {
    /// The channel's name.
    pub fn get_name(&self) -> (s: &str)
        ensures
            s@ == self@.name,
    {
        self.name.as_str()
    }

    /// What the channel is synchronised by.
    pub fn get_sync_type(&self) -> (t: &SyncType)
        ensures
            *t == self@.sync_type,
    {
        &self.sync_type
    }

    /// The channel's flags.
    pub fn get_cn_flags(&self) -> (f: u32)
        ensures
            f == self@.cn_flags,
    {
        self.cn_flags
    }

    /// The channel's type: 0 fixed length, 1 variable length, 2 master,
    /// 3 virtual master, 5 maximum length, 6 virtual data.
    pub fn get_cn_type(&self) -> (t: &u8)
        ensures
            *t == self@.cn_type,
    {
        &self.cn_type
    }

    /// The array descriptor, where the channel is an array.
    pub fn get_array(&self) -> (a: Option<&ChannelArray>)
        ensures
            match a {
                Some(ca) => self@.array == Some(ca@),
                None => self@.array is None,
            },
    {
        self.array.as_ref()
    }

    /// The channel's data type.
    pub fn get_data_type(&self) -> (t: u8)
        ensures
            t == self@.data_type,
    {
        self.data_type
    }

    /// The channel's source.
    pub fn get_source(&self) -> (s: &SourceInfo)
        ensures
            s@ == self@.source,
    {
        &self.source
    }

    /// The channel's conversion rule.
    pub fn get_conversion(&self) -> (c: &Conversion)
        ensures
            c@ == self@.conversion,
    {
        &self.conversion
    }

    /// The channel's unit.
    pub fn get_unit(&self) -> (s: &str)
        ensures
            s@ == self@.unit,
    {
        self.unit.as_str()
    }

    /// The comment on the channel.
    pub fn get_comment(&self) -> (s: &str)
        ensures
            s@ == self@.comment,
    {
        self.comment.as_str()
    }

    /// The number of bits of one sample.
    pub fn get_bit_size(&self) -> (n: u32)
        ensures
            n == self@.bit_count,
    {
        self.bit_count
    }

    /// The place of the sample's first byte in a record.
    pub fn get_byte_offset(&self) -> (n: u32)
        ensures
            n == self@.byte_offset,
    {
        self.byte_offset
    }

    /// The place of the sample's first bit in its first byte.
    pub fn get_bit_offset(&self) -> (n: u8)
        ensures
            n == self@.bit_offset,
    {
        self.bit_offset
    }

    /// Whether the channel is the master of its group.
    pub fn is_master(&self) -> (b: bool)
        ensures
            b == self@.master,
    {
        self.master
    }

    /// Whether the channel holds a bus event: bit 10 of its flags is set.
    pub fn is_bus_event(&self) -> (b: bool)
        ensures
            b == (self@.cn_flags & 0x400 != 0),
    {
        self.cn_flags & 0x400 != 0
    }

    /// The channels that this channel is composed of, or, for a channel of
    /// maximum length, the channel that holds the length.
    pub fn get_sub_channels(&self) -> (r: Option<&Vec<Channel>>)
        ensures
            match r {
                Some(v) => self@.sub_channels == Some(channel_models(v@)),
                None => self@.sub_channels is None,
            },
    {
        self.sub_channels.as_ref()
    }

    pub(crate) fn set_name(&mut self, name: String)
        ensures
            final(self)@ == (ChannelModel { name: name@, ..old(self)@ }),
    {
        self.name = name;
    }

    fn change_byte_offset(&mut self, offset: u32)
        ensures
            final(self)@ == (ChannelModel { byte_offset: offset, ..old(self)@ }),
    {
        self.byte_offset = offset;
    }

    /// The channel's value in the record `rec_bytes`, decoded as a `T`.
    pub fn from_bytes<T>(&self, rec_bytes: &Vec<u8>) -> (r: Result<T, MdfError>) where
        T: FromBeBytes + FromLeBytes,

        ensures
            match r {
                Ok(v) => self@.field_error(rec_bytes@.len() as int) is None && self@.sample_is::<T>(
                    rec_bytes@,
                    v,
                ),
                Err(e) => self@.field_error(rec_bytes@.len() as int) == Some(e),
            },
    {
        let len: usize = rec_bytes.len();
        if self.byte_offset as u64 + self.bytes_num as u64 > len as u64 {
            return Err(MdfError::OutOfRange);
        }
        let start: usize = self.byte_offset as usize;
        let end: usize = start + self.bytes_num as usize;
        let raw_data: Vec<u8> = slice_to_vec(&rec_bytes.as_slice()[start..end]);
        let mut cn_data: Vec<u8> = if self.bit_offset != 0 {
            match right_shift_bytes(&raw_data, self.bit_offset) {
                Ok(shifted) => shifted,
                Err(_) => {
                    return Err(MdfError::InvalidBitSize);
                },
            }
        } else {
            raw_data
        };
        bytes_and_bits(&mut cn_data, self.bit_count);
        assert(cn_data@ == self@.field_bytes(rec_bytes@));
        match self.data_type {
            0 | 2 | 4 | 6 | 7 | 8 => {
                pad_behind(&mut cn_data, T::le_size());
                Ok(T::from_le_bytes(cn_data.as_slice()))
            },
            1 | 3 | 5 | 9 => {
                let padded: Vec<u8> = pad_before(&cn_data, T::be_size());
                Ok(T::from_be_bytes(padded.as_slice()))
            },
            _ => Err(MdfError::UnsupportedDataType),
        }
    }
}

// ---------------------------------------------------------------------------
// Reading a channel from its block
// ---------------------------------------------------------------------------

/// What the number `code` says a channel is synchronised by.
pub open spec fn sync_type_of(code: u8) -> Option<SyncType> {
    if code == 0 {
        Some(SyncType::NONE)
    } else if code == 1 {
        Some(SyncType::Time)
    } else if code == 2 {
        Some(SyncType::Angle)
    } else if code == 3 {
        Some(SyncType::Distance)
    } else if code == 4 {
        Some(SyncType::Index)
    } else {
        None
    }
}

/// Whether a channel of type `cn_type` is a master: types 2 and 3 are,
/// types 0, 1, 5 and 6 are not, and other types are not known.
pub open spec fn master_of(cn_type: u8) -> Option<bool> {
    if cn_type == 2 || cn_type == 3 {
        Some(true)
    } else if cn_type == 0 || cn_type == 1 || cn_type == 5 || cn_type == 6 {
        Some(false)
    } else {
        None
    }
}

/// The number of bytes that hold `bit_count` bits.
pub open spec fn bytes_for(bit_count: u32) -> int {
    (bit_count + 7) / 8
}

/// The channels at the first `k` of `links` that can be read, in order.
/// With nothing left of `depth` none can.
pub open spec fn readable_channels(
    map: &DescMap,
    file: Seq<u8>,
    links: Seq<u64>,
    depth: nat,
    k: nat,
) -> Seq<ChannelModel>
    decreases depth, 0nat, k,
{
    if k == 0 {
        Seq::empty()
    } else {
        let done = readable_channels(map, file, links, depth, (k - 1) as nat);
        if depth == 0 {
            done
        } else {
            match spec_channel(map, file, links[k - 1], (depth - 1) as nat) {
                Ok(c) => done.push(c),
                Err(_) => done,
            }
        }
    }
}

/// What the composition link of a channel leads to: for a channel of data
/// type 10, the channels of the chain that starts there; an array
/// descriptor, where the block is one that can be read; else nothing.
pub open spec fn composition_of(
    map: &DescMap,
    file: Seq<u8>,
    link: u64,
    data_type: u8,
    depth: nat,
) -> Result<(Option<Seq<ChannelModel>>, Option<ArrayModel>), MdfError>
    decreases depth, 1nat, 0nat,
{
    match spec_block_type(file, link) {
        Err(_) => Ok((None, None)),
        Ok(kind) => {
            if kind == "CN"@ {
                if data_type == 10 {
                    match spec_chain(map, file, link, "CN"@) {
                        Err(e) => Err(e),
                        Ok(chain) => Ok(
                            (
                                Some(
                                    readable_channels(
                                        map,
                                        file,
                                        chain_offsets(chain),
                                        depth,
                                        chain.len(),
                                    ),
                                ),
                                None,
                            ),
                        ),
                    }
                } else {
                    Ok((None, None))
                }
            } else if kind == "CA"@ {
                match spec_array(map, file, link) {
                    Ok(a) => Ok((None, Some(a))),
                    Err(_) => Ok((None, None)),
                }
            } else {
                Ok((None, None))
            }
        },
    }
}

/// The numbers of a channel block that say where and how its samples are
/// stored.
pub struct ChannelLayout {
    pub cn_type: u8,
    pub master: bool,
    pub sync_type: SyncType,
    pub data_type: u8,
    pub bit_offset: u8,
    pub byte_offset: u32,
    pub bit_count: u32,
    pub cn_flags: u32,
}

/// The layout that the parsed channel block `block` declares. A channel
/// of a type that is not known, or synchronised in a way that is not, is
/// refused.
pub open spec fn layout_of_channel(block: BlockModel) -> Result<ChannelLayout, MdfError> {
    match first_or::<u8>(block.data, "cn_type"@) {
        Err(e) => Err(e),
        Ok(cn_type) => match master_of(cn_type) {
            None => Err(MdfError::UnsupportedCnType),
            Some(master) => match first_or::<u8>(block.data, "cn_sync_type"@) {
                Err(e) => Err(e),
                Ok(sync) => match sync_type_of(sync) {
                    None => Err(MdfError::DataCorrupt),
                    Some(sync_type) => match first_or::<u8>(block.data, "cn_data_type"@) {
                        Err(e) => Err(e),
                        Ok(data_type) => match first_or::<u8>(block.data, "cn_bit_offset"@) {
                            Err(e) => Err(e),
                            Ok(bit_offset) => match first_or::<u32>(
                                block.data,
                                "cn_byte_offset"@,
                            ) {
                                Err(e) => Err(e),
                                Ok(byte_offset) => match first_or::<u32>(
                                    block.data,
                                    "cn_bit_count"@,
                                ) {
                                    Err(e) => Err(e),
                                    Ok(bit_count) => match first_or::<u32>(
                                        block.data,
                                        "cn_flags"@,
                                    ) {
                                        Err(e) => Err(e),
                                        Ok(cn_flags) => Ok(
                                            ChannelLayout {
                                                cn_type,
                                                master,
                                                sync_type,
                                                data_type,
                                                bit_offset,
                                                byte_offset,
                                                bit_count,
                                                cn_flags,
                                            },
                                        ),
                                    },
                                },
                            },
                        },
                    },
                },
            },
        },
    }
}

/// The links of a channel block that reading the channel follows: to its
/// name, source, conversion, unit and comment.
pub open spec fn channel_links(block: BlockModel) -> Result<(u64, u64, u64, u64, u64), MdfError> {
    match normal_link(block.link_map, "cn_tx_name"@) {
        None => Err(MdfError::SchemaMissing),
        Some(name_at) => match normal_link(block.link_map, "cn_si_source"@) {
            None => Err(MdfError::SchemaMissing),
            Some(source_at) => match normal_link(block.link_map, "cn_cc_conversion"@) {
                None => Err(MdfError::SchemaMissing),
                Some(conversion_at) => match normal_link(block.link_map, "cn_md_unit"@) {
                    None => Err(MdfError::SchemaMissing),
                    Some(unit_at) => match normal_link(block.link_map, "cn_md_comment"@) {
                        None => Err(MdfError::SchemaMissing),
                        Some(comment_at) => Ok(
                            (name_at, source_at, conversion_at, unit_at, comment_at),
                        ),
                    },
                },
            },
        },
    }
}

/// The link named `name`, or nil where the block has none of that name.
pub open spec fn link_or_nil(block: BlockModel, name: Seq<char>) -> u64 {
    match normal_link(block.link_map, name) {
        Some(x) => x,
        None => 0,
    }
}

/// The channel that the parsed channel block `block` describes.
pub open spec fn channel_of(map: &DescMap, file: Seq<u8>, block: BlockModel, depth: nat) -> Result<
    ChannelModel,
    MdfError,
>
    decreases depth, 2nat, 0nat,
{
    match channel_links(block) {
        Err(e) => Err(e),
        Ok((name_at, source_at, conversion_at, unit_at, comment_at)) => match spec_source(
            map,
            file,
            source_at,
        ) {
            Err(e) => Err(e),
            Ok(source) => match spec_conversion(map, file, conversion_at, nesting_limit()) {
                Err(e) => Err(e),
                Ok(conversion) => match layout_of_channel(block) {
                    Err(e) => Err(e),
                    Ok(layout) => {
                        let cn_data = link_or_nil(block, "cn_data"@);
                        let composition = link_or_nil(block, "cn_composition"@);
                        match composition_of(map, file, composition, layout.data_type, depth) {
                            Err(e) => Err(e),
                            Ok((subs, array)) => {
                                let length_channel = if layout.cn_type == 5 {
                                    if cn_data == 0 || depth == 0 {
                                        Err(MdfError::UnsupportedCnType)
                                    } else {
                                        match spec_channel(map, file, cn_data, (depth - 1) as nat) {
                                            Ok(ch) => Ok(Some(seq![ch])),
                                            Err(_) => Err(MdfError::UnsupportedCnType),
                                        }
                                    }
                                } else {
                                    Ok(subs)
                                };
                                match length_channel {
                                    Err(e) => Err(e),
                                    Ok(sub_channels) => Ok(
                                        ChannelModel {
                                            name: spec_text_or_empty(map, file, name_at),
                                            source,
                                            conversion,
                                            unit: spec_text_or_empty(map, file, unit_at),
                                            comment: spec_text_or_empty(map, file, comment_at),
                                            cn_type: layout.cn_type,
                                            sync_type: layout.sync_type,
                                            data_type: layout.data_type,
                                            bit_offset: layout.bit_offset,
                                            byte_offset: layout.byte_offset,
                                            bit_count: layout.bit_count,
                                            bytes_num: bytes_for(layout.bit_count) as u32,
                                            master: layout.master,
                                            cn_data,
                                            sub_channels,
                                            array,
                                            cn_flags: layout.cn_flags,
                                            cn_composition: composition,
                                        },
                                    ),
                                }
                            },
                        }
                    },
                },
            },
        },
    }
}

/// The channel described by the channel block at `offset`, with channels
/// nested up to `depth` deep.
pub open spec fn spec_channel(map: &DescMap, file: Seq<u8>, offset: u64, depth: nat) -> Result<
    ChannelModel,
    MdfError,
>
    decreases depth, 3nat, 0nat,
{
    match map.spec_get("CN"@) {
        None => Err(MdfError::SchemaMissing),
        Some(desc) => match desc.spec_parse(file, offset) {
            Err(e) => Err(e),
            Ok(block) => channel_of(map, file, block, depth),
        },
    }
}

struct Layout {
    cn_type: u8,
    master: bool,
    sync_type: SyncType,
    data_type: u8,
    bit_offset: u8,
    byte_offset: u32,
    bit_count: u32,
    cn_flags: u32,
}

impl Layout {
    spec fn model(&self) -> ChannelLayout {
        ChannelLayout {
            cn_type: self.cn_type,
            master: self.master,
            sync_type: self.sync_type,
            data_type: self.data_type,
            bit_offset: self.bit_offset,
            byte_offset: self.byte_offset,
            bit_count: self.bit_count,
            cn_flags: self.cn_flags,
        }
    }
}

fn read_layout(info: &BlockInfo) -> (r: Result<Layout, MdfError>)
    ensures
        match r {
            Ok(l) => layout_of_channel(info@) == Ok::<ChannelLayout, MdfError>(l.model()),
            Err(e) => layout_of_channel(info@) == Err::<ChannelLayout, MdfError>(e),
        },
{
    let cn_type: u8 = match info.first_or_error::<u8>("cn_type") {
        Ok(x) => x,
        Err(e) => {
            return Err(e);
        },
    };
    let master: bool = match cn_type {
        0 | 1 | 5 | 6 => false,
        2 | 3 => true,
        _ => {
            return Err(MdfError::UnsupportedCnType);
        },
    };
    let sync: u8 = match info.first_or_error::<u8>("cn_sync_type") {
        Ok(x) => x,
        Err(e) => {
            return Err(e);
        },
    };
    let sync_type: SyncType = match sync {
        0 => SyncType::NONE,
        1 => SyncType::Time,
        2 => SyncType::Angle,
        3 => SyncType::Distance,
        4 => SyncType::Index,
        _ => {
            return Err(MdfError::DataCorrupt);
        },
    };
    let data_type: u8 = match info.first_or_error::<u8>("cn_data_type") {
        Ok(x) => x,
        Err(e) => {
            return Err(e);
        },
    };
    let bit_offset: u8 = match info.first_or_error::<u8>("cn_bit_offset") {
        Ok(x) => x,
        Err(e) => {
            return Err(e);
        },
    };
    let byte_offset: u32 = match info.first_or_error::<u32>("cn_byte_offset") {
        Ok(x) => x,
        Err(e) => {
            return Err(e);
        },
    };
    let bit_count: u32 = match info.first_or_error::<u32>("cn_bit_count") {
        Ok(x) => x,
        Err(e) => {
            return Err(e);
        },
    };
    let cn_flags: u32 = match info.first_or_error::<u32>("cn_flags") {
        Ok(x) => x,
        Err(e) => {
            return Err(e);
        },
    };
    Ok(Layout { cn_type, master, sync_type, data_type, bit_offset, byte_offset, bit_count, cn_flags })
}

fn read_links(info: &BlockInfo) -> (r: Result<(u64, u64, u64, u64, u64), MdfError>)
    ensures
        r == channel_links(info@),
{
    let name_at: u64 = match info.get_link_offset_normal("cn_tx_name") {
        Some(x) => x,
        None => {
            return Err(MdfError::SchemaMissing);
        },
    };
    let source_at: u64 = match info.get_link_offset_normal("cn_si_source") {
        Some(x) => x,
        None => {
            return Err(MdfError::SchemaMissing);
        },
    };
    let conversion_at: u64 = match info.get_link_offset_normal("cn_cc_conversion") {
        Some(x) => x,
        None => {
            return Err(MdfError::SchemaMissing);
        },
    };
    let unit_at: u64 = match info.get_link_offset_normal("cn_md_unit") {
        Some(x) => x,
        None => {
            return Err(MdfError::SchemaMissing);
        },
    };
    let comment_at: u64 = match info.get_link_offset_normal("cn_md_comment") {
        Some(x) => x,
        None => {
            return Err(MdfError::SchemaMissing);
        },
    };
    Ok((name_at, source_at, conversion_at, unit_at, comment_at))
}

fn clone_channels(v: &Vec<Channel>) -> (r: Vec<Channel>)
    ensures
        channel_models(r@) == channel_models(v@),
    decreases v, 0nat,
{
    let mut r: Vec<Channel> = Vec::new();
    let mut i: usize = 0;
    while i < v.len()
        invariant
            i <= v@.len(),
            r@.len() == i,
            forall|j: int| 0 <= j < i ==> channel_model(#[trigger] r@[j]) == channel_model(v@[j]),
        decreases v@.len() - i,
    {
        proof {
            assert(decreases_to!(v => v[i as int]));
        }
        let c: Channel = v[i].clone();
        r.push(c);
        i += 1;
    }
    proof {
        lemma_channel_models(r@);
        lemma_channel_models(v@);
        assert(channel_models(r@) =~= channel_models(v@));
    }
    r
}

impl Clone for Channel {
    fn clone(&self) -> (r: Self)
        ensures
            r@ == self@,
        decreases self, 1nat,
    {
        let sub_channels: Option<Vec<Channel>> = match &self.sub_channels {
            Some(v) => {
                proof {
                    assert(*v == self.sub_channels->0);
                    assert(decreases_to!(self => self.sub_channels));
                    assert(decreases_to!(self.sub_channels => self.sub_channels->0));
                }
                Some(clone_channels(v))
            },
            None => None,
        };
        let array: Option<ChannelArray> = match &self.array {
            Some(a) => Some(a.clone()),
            None => None,
        };
        Channel {
            name: self.name.clone(),
            source: self.source.clone(),
            conversion: self.conversion.clone(),
            unit: self.unit.clone(),
            comment: self.comment.clone(),
            cn_type: self.cn_type,
            sync_type: self.sync_type,
            data_type: self.data_type,
            bit_offset: self.bit_offset,
            byte_offset: self.byte_offset,
            bit_count: self.bit_count,
            bytes_num: self.bytes_num,
            master: self.master,
            cn_data: self.cn_data,
            sub_channels,
            array,
            cn_flags: self.cn_flags,
            cn_compositon: self.cn_compositon,
        }
    }
}

impl Channel {
    /// Reads the channel block at `offset`, with the channels that it is
    /// composed of and its array descriptor.
    pub fn new(map: &DescMap, file: &[u8], offset: u64) -> (r: Result<Self, MdfError>)
        ensures
            match r {
                Ok(c) => spec_channel(map, file@, offset, nesting_limit()) == Ok::<
                    ChannelModel,
                    MdfError,
                >(c@),
                Err(e) => spec_channel(map, file@, offset, nesting_limit()) == Err::<
                    ChannelModel,
                    MdfError,
                >(e),
            },
    {
        Self::new_nested(map, file, offset, 32)
    }

    fn new_nested(map: &DescMap, file: &[u8], offset: u64, depth: usize) -> (r: Result<
        Self,
        MdfError,
    >)
        ensures
            match r {
                Ok(c) => spec_channel(map, file@, offset, depth as nat) == Ok::<
                    ChannelModel,
                    MdfError,
                >(c@),
                Err(e) => spec_channel(map, file@, offset, depth as nat) == Err::<
                    ChannelModel,
                    MdfError,
                >(e),
            },
        decreases depth, 3nat,
    {
        let desc: &BlockDesc = match map.get("CN") {
            Some(d) => d,
            None => {
                return Err(MdfError::SchemaMissing);
            },
        };
        let info: BlockInfo = match desc.try_parse_buf(file, offset) {
            Ok(info) => info,
            Err(e) => {
                return Err(e);
            },
        };
        let (name_at, source_at, conversion_at, unit_at, comment_at) = match read_links(&info) {
            Ok(l) => l,
            Err(e) => {
                return Err(e);
            },
        };
        let source: SourceInfo = match SourceInfo::new(map, file, source_at) {
            Ok(s) => s,
            Err(e) => {
                return Err(e);
            },
        };
        let conversion: Conversion = match Conversion::new(map, file, conversion_at) {
            Ok(c) => c,
            Err(e) => {
                return Err(e);
            },
        };
        let layout: Layout = match read_layout(&info) {
            Ok(l) => l,
            Err(e) => {
                return Err(e);
            },
        };
        let cn_data: u64 = match info.get_link_offset_normal("cn_data") {
            Some(x) => x,
            None => 0,
        };
        let cn_compositon: u64 = match info.get_link_offset_normal("cn_composition") {
            Some(x) => x,
            None => 0,
        };
        let (subs, array) = match Self::read_composition(
            map,
            file,
            cn_compositon,
            layout.data_type,
            depth,
        ) {
            Ok(p) => p,
            Err(e) => {
                return Err(e);
            },
        };
        let sub_channels: Option<Vec<Channel>> = if layout.cn_type == 5 {
            if cn_data == 0 || depth == 0 {
                return Err(MdfError::UnsupportedCnType);
            }
            match Self::new_nested(map, file, cn_data, depth - 1) {
                Ok(ch) => {
                    let ghost m = ch@;
                    let mut one: Vec<Channel> = Vec::new();
                    one.push(ch);
                    proof {
                        lemma_channel_models(one@);
                        assert(channel_models(one@) =~= seq![m]);
                    }
                    Some(one)
                },
                Err(_) => {
                    return Err(MdfError::UnsupportedCnType);
                },
            }
        } else {
            subs
        };
        let name: String = text_or_empty(map, file, name_at);
        let unit: String = text_or_empty(map, file, unit_at);
        let comment: String = text_or_empty(map, file, comment_at);
        let bytes_num: u32 = ((layout.bit_count as u64 + 7) / 8) as u32;
        Ok(
            Channel {
                name,
                source,
                conversion,
                unit,
                comment,
                cn_type: layout.cn_type,
                sync_type: layout.sync_type,
                data_type: layout.data_type,
                bit_offset: layout.bit_offset,
                byte_offset: layout.byte_offset,
                bit_count: layout.bit_count,
                bytes_num,
                master: layout.master,
                cn_data,
                sub_channels,
                array,
                cn_flags: layout.cn_flags,
                cn_compositon,
            },
        )
    }

    fn read_composition(map: &DescMap, file: &[u8], link: u64, data_type: u8, depth: usize) -> (r:
        Result<(Option<Vec<Channel>>, Option<ChannelArray>), MdfError>)
        ensures
            match r {
                Ok((subs, array)) => composition_of(map, file@, link, data_type, depth as nat)
                    == Ok::<(Option<Seq<ChannelModel>>, Option<ArrayModel>), MdfError>(
                    (
                        match subs {
                            Some(v) => Some(channel_models(v@)),
                            None => None,
                        },
                        match array {
                            Some(a) => Some(a@),
                            None => None,
                        },
                    ),
                ),
                Err(e) => composition_of(map, file@, link, data_type, depth as nat) == Err::<
                    (Option<Seq<ChannelModel>>, Option<ArrayModel>),
                    MdfError,
                >(e),
            },
        decreases depth, 1nat,
    {
        let kind: String = match peek_block_type(file, link) {
            Ok(k) => k,
            Err(_) => {
                return Ok((None, None));
            },
        };
        if str_eq(kind.as_str(), "CN") {
            if data_type == 10 {
                let links: Vec<u64> = match get_child_links(map, file, link, "CN") {
                    Ok(l) => l,
                    Err(e) => {
                        return Err(e);
                    },
                };
                let channels: Vec<Channel> = Self::read_channels(map, file, &links, depth);
                Ok((Some(channels), None))
            } else {
                Ok((None, None))
            }
        } else if str_eq(kind.as_str(), "CA") {
            match ChannelArray::new(map, file, link) {
                Ok(ca) => Ok((None, Some(ca))),
                Err(_) => Ok((None, None)),
            }
        } else {
            Ok((None, None))
        }
    }

    fn read_channels(map: &DescMap, file: &[u8], links: &Vec<u64>, depth: usize) -> (r: Vec<Channel>)
        ensures
            channel_models(r@) == readable_channels(map, file@, links@, depth as nat, links@.len()),
        decreases depth, 0nat,
    {
        let mut channels: Vec<Channel> = Vec::new();
        let mut i: usize = 0;
        proof {
            lemma_channel_models(channels@);
            assert(channel_models(channels@) =~= Seq::<ChannelModel>::empty());
        }
        while i < links.len()
            invariant
                i <= links@.len(),
                channel_models(channels@) == readable_channels(
                    map,
                    file@,
                    links@,
                    depth as nat,
                    i as nat,
                ),
            decreases links@.len() - i,
        {
            if depth > 0 {
                match Self::new_nested(map, file, links[i], depth - 1) {
                    Ok(cn) => {
                        let ghost before = channels@;
                        let ghost m = cn@;
                        channels.push(cn);
                        proof {
                            assert(channels@.drop_last() =~= before);
                        }
                    },
                    Err(_) => {},
                }
            }
            i += 1;
        }
        channels
    }
}

// ---------------------------------------------------------------------------
// Arrays
// ---------------------------------------------------------------------------

/// The index tuple of the element that comes `n`th in row-major order, as
/// machine numbers.
pub open spec fn element_index(dims: Seq<u64>, n: int) -> Seq<usize> {
    Seq::new(dims.len(), |k: int| index_digit(dims, n, k) as usize)
}

/// The byte offset of the element that comes `n`th in row-major order.
pub open spec fn element_offset(array: ArrayModel, n: int) -> int {
    offset_upto(element_index(array.ca_dim_size, n), array.f_vec, array.ca_dim_size.len() as int)
}

/// The channel for the element that comes `n`th in row-major order of the
/// array channel `template`: the template under the element's name and at
/// the element's byte offset.
pub open spec fn element_channel(template: ChannelModel, n: int) -> ChannelModel {
    ChannelModel {
        name: element_name(template.name, index_tuple(template.array->0.ca_dim_size, n)),
        byte_offset: element_offset(template.array->0, n) as u32,
        ..template
    }
}

impl Channel {
    /// One channel for each element of an array channel, in row-major
    /// order. A channel without an array descriptor is no array; an element
    /// whose byte offset does not fit in 32 bits makes the array corrupt.
    pub fn generate_array_element_channel(self) -> (r: Result<Vec<Self>, MdfError>)
        ensures
            match r {
                Ok(v) => {
                    &&& self@.array is Some
                    &&& v@.len() == dims_product(self@.array->0.ca_dim_size, 0)
                    &&& forall|n: int|
                        0 <= n < v@.len() ==> channel_model(#[trigger] v@[n]) == element_channel(
                            self@,
                            n,
                        )
                    &&& forall|n: int|
                        0 <= n < v@.len() ==> element_offset(self@.array->0, n) <= u32::MAX
                },
                Err(e) => {
                    &&& self@.array is None ==> e == MdfError::UnsupportedDataType
                    &&& self@.array is Some ==> {
                        &&& e == MdfError::DataCorrupt
                        &&& exists|n: int|
                            0 <= n < dims_product(self@.array->0.ca_dim_size, 0) && (
                            #[trigger] element_offset(self@.array->0, n)) > u32::MAX
                    }
                },
            },
    {
        let ca: &ChannelArray = match &self.array {
            None => {
                return Err(MdfError::UnsupportedDataType);
            },
            Some(ca) => ca,
        };
        let indexes: Vec<Vec<usize>> = ca.generate_array_indexs();
        let names: Vec<String> = ca.generate_array_names(self.name.as_str());
        let ghost array = ca@;
        let ghost dims = ca@.ca_dim_size;
        let mut channels: Vec<Channel> = Vec::new();
        let mut n: usize = 0;
        while n < indexes.len()
            invariant
                n <= indexes@.len(),
                self@.array == Some(array),
                array == ca@,
                dims == array.ca_dim_size,
                array.wf(),
                indexes@.len() == dims_product(dims, 0),
                names@.len() == indexes@.len(),
                forall|m: int| 0 <= m < indexes@.len() ==> (#[trigger] indexes@[m])@.len() == dims.len(),
                forall|m: int, k: int|
                    0 <= m < indexes@.len() && 0 <= k < dims.len() ==> (#[trigger] indexes@[m]@[k])
                        == index_digit(dims, m, k),
                forall|m: int|
                    0 <= m < names@.len() ==> (#[trigger] names@[m])@ == element_name(
                        self@.name,
                        index_tuple(dims, m),
                    ),
                channels@.len() == n,
                forall|m: int|
                    0 <= m < n ==> channel_model(#[trigger] channels@[m]) == element_channel(self@, m),
                forall|m: int| 0 <= m < n ==> element_offset(array, m) <= u32::MAX,
            decreases indexes@.len() - n,
        {
            proof {
                assert(indexes@[n as int]@ =~= element_index(dims, n as int));
            }
            let new_bytes_offset: u32 = match ca.calculate_byte_offset(&indexes[n]) {
                Ok(off) => off,
                Err(e) => {
                    proof {
                        assert(indexes@[n as int]@.len() == array.ca_ndim);
                        assert(element_offset(array, n as int) > u32::MAX);
                    }
                    return Err(MdfError::DataCorrupt);
                },
            };
            let mut new_channel: Channel = self.clone();
            new_channel.change_byte_offset(new_bytes_offset);
            new_channel.set_name(names[n].clone());
            channels.push(new_channel);
            n += 1;
        }
        Ok(channels)
    }
}

// ---------------------------------------------------------------------------
// The samples of a channel
// ---------------------------------------------------------------------------

/// Why the samples of the first `k` cycles cannot all be taken, if they
/// cannot: the error of the first cycle whose record cannot be read or does
/// not hold the channel's field.
pub open spec fn samples_error(
    cn: ChannelModel,
    dg: DataGroupModel,
    cg: ChannelGroupModel,
    file: Seq<u8>,
    k: int,
) -> Option<MdfError>
    decreases k,
{
    if k <= 0 {
        None
    } else {
        match samples_error(cn, dg, cg, file, k - 1) {
            Some(e) => Some(e),
            None => match record_of(dg, file, cg.record_id, (k - 1) as u64) {
                None => Some(MdfError::OutOfRange),
                Some(rec) => cn.field_error(rec.len() as int),
            },
        }
    }
}

/// Why the samples of all cycles cannot be taken, if they cannot. More
/// cycles than can be counted in memory are corrupt.
pub open spec fn column_error(cn: ChannelModel, dg: DataGroupModel, cg: ChannelGroupModel, file: Seq<u8>) -> Option<
    MdfError,
> {
    if cg.cycle_count > usize::MAX {
        Some(MdfError::DataCorrupt)
    } else {
        samples_error(cn, dg, cg, file, cg.cycle_count as int)
    }
}

/// Whether `v` is the channel's sample of cycle `i`, decoded as a `T`.
pub open spec fn sample_at<T: FromLeBytes + FromBeBytes>(
    cn: ChannelModel,
    dg: DataGroupModel,
    cg: ChannelGroupModel,
    file: Seq<u8>,
    i: int,
    v: T,
) -> bool {
    &&& record_of(dg, file, cg.record_id, i as u64) is Some
    &&& cn.sample_is::<T>(record_of(dg, file, cg.record_id, i as u64)->0, v)
}

/// Whether `x` holds the channel's sample of each cycle, decoded as a `T`.
pub open spec fn column_is<T: FromLeBytes + FromBeBytes>(
    cn: ChannelModel,
    dg: DataGroupModel,
    cg: ChannelGroupModel,
    file: Seq<u8>,
    x: Seq<T>,
) -> bool {
    &&& x.len() == cg.cycle_count
    &&& forall|i: int| 0 <= i < x.len() ==> #[trigger] sample_at::<T>(cn, dg, cg, file, i, x[i])
}

/// Once a cycle cannot be read, none of the later ones changes the error.
proof fn lemma_samples_error_stays(
    cn: ChannelModel,
    dg: DataGroupModel,
    cg: ChannelGroupModel,
    file: Seq<u8>,
    k: int,
    n: int,
)
    requires
        0 <= k <= n,
        samples_error(cn, dg, cg, file, k) is Some,
    ensures
        samples_error(cn, dg, cg, file, n) == samples_error(cn, dg, cg, file, k),
    decreases n - k,
{
    if k < n {
        lemma_samples_error_stays(cn, dg, cg, file, k, n - 1);
    }
}

/// The kind of value that the raw samples of a channel are kept as.
#[derive(Debug, Clone, Copy, PartialEq, Eq, Structural)]
pub enum RawKind {
    U8,
    U16,
    U32,
    U64,
    I8,
    I16,
    I32,
    I64,
    F16,
    F32,
    F64,
    Utf8,
    Utf16,
}

/// The kind of value for samples of the data type `data_type` with `bits`
/// bits: for integers the narrowest of 8, 16, 32 and 64 bits that holds
/// them; for floating-point numbers 16, 32 or 64 bits exactly; text for the
/// data types 6 to 9.
pub open spec fn raw_kind(data_type: u8, bits: u32) -> Result<RawKind, MdfError> {
    if data_type == 0 || data_type == 1 {
        if bits <= 8 {
            Ok(RawKind::U8)
        } else if bits <= 16 {
            Ok(RawKind::U16)
        } else if bits <= 32 {
            Ok(RawKind::U32)
        } else if bits <= 64 {
            Ok(RawKind::U64)
        } else {
            Err(MdfError::InvalidBitSize)
        }
    } else if data_type == 2 || data_type == 3 {
        if bits <= 8 {
            Ok(RawKind::I8)
        } else if bits <= 16 {
            Ok(RawKind::I16)
        } else if bits <= 32 {
            Ok(RawKind::I32)
        } else if bits <= 64 {
            Ok(RawKind::I64)
        } else {
            Err(MdfError::InvalidBitSize)
        }
    } else if data_type == 4 || data_type == 5 {
        if bits == 16 {
            Ok(RawKind::F16)
        } else if bits == 32 {
            Ok(RawKind::F32)
        } else if bits == 64 {
            Ok(RawKind::F64)
        } else {
            Err(MdfError::InvalidBitSize)
        }
    } else if data_type == 6 || data_type == 7 {
        Ok(RawKind::Utf8)
    } else if data_type == 8 || data_type == 9 {
        Ok(RawKind::Utf16)
    } else {
        Err(MdfError::UnsupportedDataType)
    }
}

/// The kind of value for the samples of a channel.
pub fn select_raw_kind(data_type: u8, bits: u32) -> (r: Result<RawKind, MdfError>)
    ensures
        r == raw_kind(data_type, bits),
{
    match data_type {
        0 | 1 => {
            if bits <= 8 {
                Ok(RawKind::U8)
            } else if bits <= 16 {
                Ok(RawKind::U16)
            } else if bits <= 32 {
                Ok(RawKind::U32)
            } else if bits <= 64 {
                Ok(RawKind::U64)
            } else {
                Err(MdfError::InvalidBitSize)
            }
        },
        2 | 3 => {
            if bits <= 8 {
                Ok(RawKind::I8)
            } else if bits <= 16 {
                Ok(RawKind::I16)
            } else if bits <= 32 {
                Ok(RawKind::I32)
            } else if bits <= 64 {
                Ok(RawKind::I64)
            } else {
                Err(MdfError::InvalidBitSize)
            }
        },
        4 | 5 => {
            if bits == 16 {
                Ok(RawKind::F16)
            } else if bits == 32 {
                Ok(RawKind::F32)
            } else if bits == 64 {
                Ok(RawKind::F64)
            } else {
                Err(MdfError::InvalidBitSize)
            }
        },
        6 | 7 => Ok(RawKind::Utf8),
        8 | 9 => Ok(RawKind::Utf16),
        _ => Err(MdfError::UnsupportedDataType),
    }
}

/// The texts of `x` as values decoded from UTF-16.
pub open spec fn as_utf16(x: Seq<String>) -> Seq<UTF16String> {
    Seq::new(x.len(), |i: int| UTF16String { inner: x[i] })
}

/// Whether `v` holds the channel's sample of each cycle, kept as `kind`.
/// Floating-point samples are kept as their bit patterns.
pub open spec fn kind_holds(
    kind: RawKind,
    cn: ChannelModel,
    dg: DataGroupModel,
    cg: ChannelGroupModel,
    file: Seq<u8>,
    v: DataValue,
) -> bool {
    match kind {
        RawKind::U8 => v matches DataValue::UINT8(x) && column_is::<u8>(cn, dg, cg, file, x@),
        RawKind::U16 => v matches DataValue::UINT16(x) && column_is::<u16>(cn, dg, cg, file, x@),
        RawKind::U32 => v matches DataValue::UINT32(x) && column_is::<u32>(cn, dg, cg, file, x@),
        RawKind::U64 => v matches DataValue::UINT64(x) && column_is::<u64>(cn, dg, cg, file, x@),
        RawKind::I8 => v matches DataValue::INT8(x) && column_is::<i8>(cn, dg, cg, file, x@),
        RawKind::I16 => v matches DataValue::INT16(x) && column_is::<i16>(cn, dg, cg, file, x@),
        RawKind::I32 => v matches DataValue::INT32(x) && column_is::<i32>(cn, dg, cg, file, x@),
        RawKind::I64 => v matches DataValue::INT64(x) && column_is::<i64>(cn, dg, cg, file, x@),
        RawKind::F16 => v matches DataValue::FLOAT16(x) && column_is::<u16>(cn, dg, cg, file, x@),
        RawKind::F32 => v matches DataValue::SINGLE(x) && column_is::<u32>(cn, dg, cg, file, x@),
        RawKind::F64 => v matches DataValue::REAL(x) && column_is::<u64>(cn, dg, cg, file, x@),
        RawKind::Utf8 => v matches DataValue::STRINGS(x) && column_is::<String>(
            cn,
            dg,
            cg,
            file,
            x@,
        ),
        RawKind::Utf16 => v matches DataValue::STRINGS(x) && column_is::<UTF16String>(
            cn,
            dg,
            cg,
            file,
            as_utf16(x@),
        ),
    }
}

/// Whether `v` holds the cycle indices, from 0 on.
pub open spec fn counts_cycles(cg: ChannelGroupModel, v: DataValue) -> bool {
    v matches DataValue::UINT64(x) && x@.len() == cg.cycle_count && forall|i: int|
        0 <= i < x@.len() ==> #[trigger] x@[i] == i
}

/// Whether `v` holds the raw samples of the channel, one for each cycle.
/// A channel of variable length gives the offsets of its values, a virtual
/// channel the cycle indices; every other channel its samples, kept as the
/// kind that its data type and bit count select.
pub open spec fn raw_holds(
    cn: ChannelModel,
    dg: DataGroupModel,
    cg: ChannelGroupModel,
    file: Seq<u8>,
    v: DataValue,
) -> bool {
    if cn.cn_type == 1 {
        kind_holds(RawKind::U64, cn, dg, cg, file, v)
    } else if cn.cn_type == 6 || cn.cn_type == 3 {
        counts_cycles(cg, v)
    } else {
        match raw_kind(cn.data_type, cn.bit_count) {
            Err(_) => false,
            Ok(kind) => kind_holds(kind, cn, dg, cg, file, v),
        }
    }
}

/// Why the raw samples of the channel cannot be had, if they cannot.
pub open spec fn raw_error(cn: ChannelModel, dg: DataGroupModel, cg: ChannelGroupModel, file: Seq<u8>) -> Option<
    MdfError,
> {
    if cn.cn_type == 1 {
        column_error(cn, dg, cg, file)
    } else if cn.cn_type == 6 || cn.cn_type == 3 {
        if cn.data_type != 0 {
            Some(MdfError::UnsupportedDataType)
        } else if cg.cycle_count > usize::MAX {
            Some(MdfError::DataCorrupt)
        } else {
            None
        }
    } else {
        match raw_kind(cn.data_type, cn.bit_count) {
            Err(e) => Some(e),
            Ok(_) => column_error(cn, dg, cg, file),
        }
    }
}

/// Raw samples have one value for each cycle.
pub proof fn lemma_raw_has_cycle_count(
    cn: ChannelModel,
    dg: DataGroupModel,
    cg: ChannelGroupModel,
    file: Seq<u8>,
    v: DataValue,
)
    requires
        raw_holds(cn, dg, cg, file, v),
    ensures
        v.spec_len() == cg.cycle_count,
{
}

impl Channel {
    #[verifier::loop_isolation(false)]
    fn gen_value_vec<T>(&self, file: &[u8], dg: &DataGroup, cg: &ChannelGroup) -> (r: Result<
        Vec<T>,
        MdfError,
    >) where T: FromBeBytes + FromLeBytes
        ensures
            match r {
                Ok(v) => column_error(self@, dg@, cg@, file@) is None && column_is::<T>(
                    self@,
                    dg@,
                    cg@,
                    file@,
                    v@,
                ),
                Err(e) => column_error(self@, dg@, cg@, file@) == Some(e),
            },
    {
        let count: u64 = cg.get_cycle_count();
        if count > usize::MAX as u64 {
            return Err(MdfError::DataCorrupt);
        }
        let rec_id: u64 = cg.get_record_id();
        let mut values: Vec<T> = Vec::new();
        let mut i: u64 = 0;
        while i < count
            invariant
                i <= count,
                values@.len() == i,
                samples_error(self@, dg@, cg@, file@, i as int) is None,
                forall|j: int|
                    0 <= j < i ==> #[trigger] sample_at::<T>(self@, dg@, cg@, file@, j, values@[j]),
            decreases count - i,
        {
            let rec_data: Vec<u8> = match dg.get_cg_data(rec_id, i, file) {
                Some(rec) => rec,
                None => {
                    proof {
                        lemma_samples_error_stays(self@, dg@, cg@, file@, i + 1, count as int);
                    }
                    return Err(MdfError::OutOfRange);
                },
            };
            match self.from_bytes::<T>(&rec_data) {
                Ok(v) => {
                    let ghost before = values@;
                    values.push(v);
                    proof {
                        assert(sample_at::<T>(self@, dg@, cg@, file@, i as int, values@[i as int]));
                        assert forall|j: int| 0 <= j < i + 1 implies #[trigger] sample_at::<T>(
                            self@,
                            dg@,
                            cg@,
                            file@,
                            j,
                            values@[j],
                        ) by {
                            if j < i {
                                assert(values@[j] == before[j]);
                                assert(sample_at::<T>(self@, dg@, cg@, file@, j, before[j]));
                            }
                        }
                    }
                },
                Err(e) => {
                    proof {
                        lemma_samples_error_stays(self@, dg@, cg@, file@, i + 1, count as int);
                    }
                    return Err(e);
                },
            }
            i += 1;
        }
        Ok(values)
    }

    fn read_unsigned(&self, kind: RawKind, file: &[u8], dg: &DataGroup, cg: &ChannelGroup) -> (r:
        Result<DataValue, MdfError>)
        requires
            kind == RawKind::U8 || kind == RawKind::U16 || kind == RawKind::U32 || kind
                == RawKind::U64,
        ensures
            match r {
                Ok(v) => column_error(self@, dg@, cg@, file@) is None && kind_holds(
                    kind,
                    self@,
                    dg@,
                    cg@,
                    file@,
                    v,
                ),
                Err(e) => column_error(self@, dg@, cg@, file@) == Some(e),
            },
    {
        match kind {
            RawKind::U8 => match self.gen_value_vec::<u8>(file, dg, cg) {
                Ok(v) => Ok(DataValue::UINT8(v)),
                Err(e) => Err(e),
            },
            RawKind::U16 => match self.gen_value_vec::<u16>(file, dg, cg) {
                Ok(v) => Ok(DataValue::UINT16(v)),
                Err(e) => Err(e),
            },
            RawKind::U32 => match self.gen_value_vec::<u32>(file, dg, cg) {
                Ok(v) => Ok(DataValue::UINT32(v)),
                Err(e) => Err(e),
            },
            _ => match self.gen_value_vec::<u64>(file, dg, cg) {
                Ok(v) => Ok(DataValue::UINT64(v)),
                Err(e) => Err(e),
            },
        }
    }

    fn read_signed(&self, kind: RawKind, file: &[u8], dg: &DataGroup, cg: &ChannelGroup) -> (r:
        Result<DataValue, MdfError>)
        requires
            kind == RawKind::I8 || kind == RawKind::I16 || kind == RawKind::I32 || kind
                == RawKind::I64,
        ensures
            match r {
                Ok(v) => column_error(self@, dg@, cg@, file@) is None && kind_holds(
                    kind,
                    self@,
                    dg@,
                    cg@,
                    file@,
                    v,
                ),
                Err(e) => column_error(self@, dg@, cg@, file@) == Some(e),
            },
    {
        match kind {
            RawKind::I8 => match self.gen_value_vec::<i8>(file, dg, cg) {
                Ok(v) => Ok(DataValue::INT8(v)),
                Err(e) => Err(e),
            },
            RawKind::I16 => match self.gen_value_vec::<i16>(file, dg, cg) {
                Ok(v) => Ok(DataValue::INT16(v)),
                Err(e) => Err(e),
            },
            RawKind::I32 => match self.gen_value_vec::<i32>(file, dg, cg) {
                Ok(v) => Ok(DataValue::INT32(v)),
                Err(e) => Err(e),
            },
            _ => match self.gen_value_vec::<i64>(file, dg, cg) {
                Ok(v) => Ok(DataValue::INT64(v)),
                Err(e) => Err(e),
            },
        }
    }

    fn read_float_bits(&self, kind: RawKind, file: &[u8], dg: &DataGroup, cg: &ChannelGroup) -> (r:
        Result<DataValue, MdfError>)
        requires
            kind == RawKind::F16 || kind == RawKind::F32 || kind == RawKind::F64,
        ensures
            match r {
                Ok(v) => column_error(self@, dg@, cg@, file@) is None && kind_holds(
                    kind,
                    self@,
                    dg@,
                    cg@,
                    file@,
                    v,
                ),
                Err(e) => column_error(self@, dg@, cg@, file@) == Some(e),
            },
    {
        match kind {
            RawKind::F16 => match self.gen_value_vec::<u16>(file, dg, cg) {
                Ok(v) => Ok(DataValue::FLOAT16(v)),
                Err(e) => Err(e),
            },
            RawKind::F32 => match self.gen_value_vec::<u32>(file, dg, cg) {
                Ok(v) => Ok(DataValue::SINGLE(v)),
                Err(e) => Err(e),
            },
            _ => match self.gen_value_vec::<u64>(file, dg, cg) {
                Ok(v) => Ok(DataValue::REAL(v)),
                Err(e) => Err(e),
            },
        }
    }

    fn read_texts(&self, kind: RawKind, file: &[u8], dg: &DataGroup, cg: &ChannelGroup) -> (r:
        Result<DataValue, MdfError>)
        requires
            kind == RawKind::Utf8 || kind == RawKind::Utf16,
        ensures
            match r {
                Ok(v) => column_error(self@, dg@, cg@, file@) is None && kind_holds(
                    kind,
                    self@,
                    dg@,
                    cg@,
                    file@,
                    v,
                ),
                Err(e) => column_error(self@, dg@, cg@, file@) == Some(e),
            },
    {
        match kind {
            RawKind::Utf8 => match self.gen_value_vec::<String>(file, dg, cg) {
                Ok(v) => Ok(DataValue::STRINGS(v)),
                Err(e) => Err(e),
            },
            _ => match self.gen_value_vec::<UTF16String>(file, dg, cg) {
                Ok(v) => {
                    let mut texts: Vec<String> = Vec::new();
                    let ghost decoded = v@;
                    let mut v = v;
                    let mut i: usize = 0;
                    let n: usize = v.len();
                    while i < n
                        invariant
                            i <= n,
                            n == v@.len(),
                            n == decoded.len(),
                            texts@.len() == i,
                            forall|j: int| 0 <= j < i ==> #[trigger] texts@[j] == decoded[j].inner,
                            forall|j: int| i <= j < n ==> #[trigger] v@[j] == decoded[j],
                        decreases n - i,
                    {
                        let mut item = UTF16String { inner: String::new() };
                        std::mem::swap(&mut item, &mut v[i]);
                        texts.push(item.inner);
                        i += 1;
                    }
                    proof {
                        assert(as_utf16(texts@) =~= decoded);
                    }
                    Ok(DataValue::STRINGS(texts))
                },
                Err(e) => Err(e),
            },
        }
    }

    fn cycle_indices(&self, cg: &ChannelGroup) -> (r: Result<DataValue, MdfError>)
        ensures
            match r {
                Ok(v) => cg@.cycle_count <= usize::MAX && counts_cycles(cg@, v),
                Err(e) => cg@.cycle_count > usize::MAX && e == MdfError::DataCorrupt,
            },
    {
        let count: u64 = cg.get_cycle_count();
        if count > usize::MAX as u64 {
            return Err(MdfError::DataCorrupt);
        }
        let mut v: Vec<u64> = Vec::new();
        let mut i: u64 = 0;
        while i < count
            invariant
                i <= count,
                v@.len() == i,
                forall|j: int| 0 <= j < i ==> #[trigger] v@[j] == j,
            decreases count - i,
        {
            v.push(i);
            i += 1;
        }
        Ok(DataValue::UINT64(v))
    }

    /// The raw samples of the channel, one for each cycle of its group.
    pub fn get_data_raw(&self, file: &[u8], dg: &DataGroup, cg: &ChannelGroup) -> (r: Result<
        DataValue,
        MdfError,
    >)
        ensures
            match r {
                Ok(v) => {
                    &&& raw_error(self@, dg@, cg@, file@) is None
                    &&& raw_holds(self@, dg@, cg@, file@, v)
                    &&& v.spec_len() == cg@.cycle_count
                },
                Err(e) => raw_error(self@, dg@, cg@, file@) == Some(e),
            },
    {
        if self.cn_type == 1 {
            return self.read_unsigned(RawKind::U64, file, dg, cg);
        } else if self.cn_type == 6 || self.cn_type == 3 {
            if self.data_type != 0 {
                return Err(MdfError::UnsupportedDataType);
            }
            return self.cycle_indices(cg);
        }
        let kind: RawKind = match select_raw_kind(self.data_type, self.bit_count) {
            Ok(k) => k,
            Err(e) => {
                return Err(e);
            },
        };
        match kind {
            RawKind::U8 | RawKind::U16 | RawKind::U32 | RawKind::U64 => self.read_unsigned(
                kind,
                file,
                dg,
                cg,
            ),
            RawKind::I8 | RawKind::I16 | RawKind::I32 | RawKind::I64 => self.read_signed(
                kind,
                file,
                dg,
                cg,
            ),
            RawKind::F16 | RawKind::F32 | RawKind::F64 => self.read_float_bits(kind, file, dg, cg),
            RawKind::Utf8 | RawKind::Utf16 => self.read_texts(kind, file, dg, cg),
        }
    }
}

// ---------------------------------------------------------------------------
// Byte arrays
// ---------------------------------------------------------------------------

impl ChannelModel {
    /// Why the channel's bytes cannot be taken from a record of `rec_len`
    /// bytes, if they cannot: the field reaches past the record, or the bit
    /// offset is above 7.
    pub open spec fn slice_error(&self, rec_len: int) -> Option<MdfError> {
        if self.byte_offset + self.bytes_num > rec_len {
            Some(MdfError::OutOfRange)
        } else if self.bit_offset > 7 {
            Some(MdfError::InvalidBitSize)
        } else {
            None
        }
    }
}

/// Why the bytes of the first `k` cycles cannot all be taken, if they
/// cannot.
pub open spec fn bytes_error(
    cn: ChannelModel,
    dg: DataGroupModel,
    cg: ChannelGroupModel,
    file: Seq<u8>,
    k: int,
) -> Option<MdfError>
    decreases k,
{
    if k <= 0 {
        None
    } else {
        match bytes_error(cn, dg, cg, file, k - 1) {
            Some(e) => Some(e),
            None => match record_of(dg, file, cg.record_id, (k - 1) as u64) {
                None => Some(MdfError::OutOfRange),
                Some(rec) => cn.slice_error(rec.len() as int),
            },
        }
    }
}

/// Why the bytes of all cycles cannot be taken, if they cannot.
pub open spec fn byte_array_error(
    cn: ChannelModel,
    dg: DataGroupModel,
    cg: ChannelGroupModel,
    file: Seq<u8>,
) -> Option<MdfError> {
    if cg.cycle_count > usize::MAX {
        Some(MdfError::DataCorrupt)
    } else {
        bytes_error(cn, dg, cg, file, cg.cycle_count as int)
    }
}

/// Whether `b` is the channel's field in the record of cycle `i`.
pub open spec fn bytes_at(
    cn: ChannelModel,
    dg: DataGroupModel,
    cg: ChannelGroupModel,
    file: Seq<u8>,
    i: int,
    b: Seq<u8>,
) -> bool {
    &&& record_of(dg, file, cg.record_id, i as u64) is Some
    &&& b == cn.field_bytes(record_of(dg, file, cg.record_id, i as u64)->0)
}

/// Whether `x` holds the channel's field of each cycle.
pub open spec fn byte_array_is(
    cn: ChannelModel,
    dg: DataGroupModel,
    cg: ChannelGroupModel,
    file: Seq<u8>,
    x: Seq<Seq<u8>>,
) -> bool {
    &&& x.len() == cg.cycle_count
    &&& forall|i: int| 0 <= i < x.len() ==> #[trigger] bytes_at(cn, dg, cg, file, i, x[i])
}

proof fn lemma_bytes_error_stays(
    cn: ChannelModel,
    dg: DataGroupModel,
    cg: ChannelGroupModel,
    file: Seq<u8>,
    k: int,
    n: int,
)
    requires
        0 <= k <= n,
        bytes_error(cn, dg, cg, file, k) is Some,
    ensures
        bytes_error(cn, dg, cg, file, n) == bytes_error(cn, dg, cg, file, k),
    decreases n - k,
{
    if k < n {
        lemma_bytes_error_stays(cn, dg, cg, file, k, n - 1);
    }
}

impl Channel {
    fn field_of(&self, rec_bytes: &Vec<u8>) -> (r: Result<Vec<u8>, MdfError>)
        ensures
            match r {
                Ok(b) => self@.slice_error(rec_bytes@.len() as int) is None && b@
                    == self@.field_bytes(rec_bytes@),
                Err(e) => self@.slice_error(rec_bytes@.len() as int) == Some(e),
            },
    {
        let len: usize = rec_bytes.len();
        if self.byte_offset as u64 + self.bytes_num as u64 > len as u64 {
            return Err(MdfError::OutOfRange);
        }
        let start: usize = self.byte_offset as usize;
        let end: usize = start + self.bytes_num as usize;
        let raw_data: Vec<u8> = slice_to_vec(&rec_bytes.as_slice()[start..end]);
        let mut cn_data: Vec<u8> = if self.bit_offset != 0 {
            match right_shift_bytes(&raw_data, self.bit_offset) {
                Ok(shifted) => shifted,
                Err(_) => {
                    return Err(MdfError::InvalidBitSize);
                },
            }
        } else {
            raw_data
        };
        bytes_and_bits(&mut cn_data, self.bit_count);
        Ok(cn_data)
    }

    #[verifier::loop_isolation(false)]
    fn get_byte_array(&self, file: &[u8], dg: &DataGroup, cg: &ChannelGroup) -> (r: Result<
        Vec<Vec<u8>>,
        MdfError,
    >)
        ensures
            match r {
                Ok(v) => byte_array_error(self@, dg@, cg@, file@) is None && byte_array_is(
                    self@,
                    dg@,
                    cg@,
                    file@,
                    v.deep_view(),
                ),
                Err(e) => byte_array_error(self@, dg@, cg@, file@) == Some(e),
            },
    {
        let count: u64 = cg.get_cycle_count();
        if count > usize::MAX as u64 {
            return Err(MdfError::DataCorrupt);
        }
        let rec_id: u64 = cg.get_record_id();
        let mut rows: Vec<Vec<u8>> = Vec::new();
        let mut i: u64 = 0;
        while i < count
            invariant
                i <= count,
                rows@.len() == i,
                bytes_error(self@, dg@, cg@, file@, i as int) is None,
                forall|j: int|
                    0 <= j < i ==> #[trigger] bytes_at(self@, dg@, cg@, file@, j, rows@[j]@),
            decreases count - i,
        {
            let rec_data: Vec<u8> = match dg.get_cg_data(rec_id, i, file) {
                Some(rec) => rec,
                None => {
                    proof {
                        lemma_bytes_error_stays(self@, dg@, cg@, file@, i + 1, count as int);
                    }
                    return Err(MdfError::OutOfRange);
                },
            };
            match self.field_of(&rec_data) {
                Ok(b) => {
                    let ghost before = rows@;
                    rows.push(b);
                    proof {
                        assert(bytes_at(self@, dg@, cg@, file@, i as int, rows@[i as int]@));
                        assert forall|j: int| 0 <= j < i + 1 implies #[trigger] bytes_at(
                            self@,
                            dg@,
                            cg@,
                            file@,
                            j,
                            rows@[j]@,
                        ) by {
                            if j < i {
                                assert(rows@[j] == before[j]);
                                assert(bytes_at(self@, dg@, cg@, file@, j, before[j]@));
                            }
                        }
                    }
                },
                Err(e) => {
                    proof {
                        lemma_bytes_error_stays(self@, dg@, cg@, file@, i + 1, count as int);
                    }
                    return Err(e);
                },
            }
            i += 1;
        }
        proof {
            let dv = rows.deep_view();
            assert forall|j: int| 0 <= j < dv.len() implies #[trigger] bytes_at(
                self@,
                dg@,
                cg@,
                file@,
                j,
                dv[j],
            ) by {
                assert(bytes_at(self@, dg@, cg@, file@, j, rows@[j]@));
                assert(dv[j] =~= rows@[j]@);
            }
        }
        Ok(rows)
    }
}

// ---------------------------------------------------------------------------
// Values of variable length
// ---------------------------------------------------------------------------

/// The text that the bytes of a value of variable length hold, by the
/// channel's data type: UTF-8 for the types 6 and 7, UTF-16 with the low
/// byte first for 8 and with the high byte first for 9; in each case
/// without the NULs at its end.
pub open spec fn sd_text(bytes: Seq<u8>, data_type: u8) -> Result<Seq<char>, MdfError> {
    if data_type == 6 || data_type == 7 {
        if valid_utf8(bytes) {
            Ok(trim_nul(decode_utf8(bytes)))
        } else {
            Err(MdfError::DataCorrupt)
        }
    } else if data_type == 8 {
        Ok(trim_nul(utf16_lossy_text(le_units(bytes))))
    } else if data_type == 9 {
        Ok(trim_nul(utf16_lossy_text(be_units(bytes))))
    } else {
        Err(MdfError::UnsupportedDataType)
    }
}

/// The value of variable length that stands at `off` of the signal data
/// `block`: four bytes give its length, and that many bytes behind them
/// are the value.
pub open spec fn sd_entry(block: DataBlockModel, file: Seq<u8>, off: u64, data_type: u8) -> Result<
    Seq<char>,
    MdfError,
> {
    match block.read(file, off as int, 4) {
        Err(e) => Err(e),
        Ok(head) => {
            let length = le_u32(head);
            if off + 4 > u64::MAX || length > usize::MAX {
                Err(MdfError::OutOfRange)
            } else {
                match block.read(file, off + 4, length) {
                    Err(e) => Err(e),
                    Ok(bytes) => sd_text(bytes, data_type),
                }
            }
        },
    }
}

/// The values at the first `k` of `offsets`, or the error of the first
/// that cannot be read.
pub open spec fn sd_entries(
    block: DataBlockModel,
    file: Seq<u8>,
    offsets: Seq<u64>,
    data_type: u8,
    k: int,
) -> Result<Seq<Seq<char>>, MdfError>
    decreases k,
{
    if k <= 0 {
        Ok(Seq::empty())
    } else {
        match sd_entries(block, file, offsets, data_type, k - 1) {
            Err(e) => Err(e),
            Ok(done) => match sd_entry(block, file, offsets[k - 1], data_type) {
                Err(e) => Err(e),
                Ok(t) => Ok(done.push(t)),
            },
        }
    }
}

/// The values of variable length of a channel whose signal data start at
/// the link `cn_data`, one for each of `offsets`.
pub open spec fn sd_values(
    map: &DescMap,
    file: Seq<u8>,
    cn_data: u64,
    offsets: Seq<u64>,
    data_type: u8,
) -> Result<Seq<Seq<char>>, MdfError> {
    match spec_data_block(map, file, cn_data) {
        Err(e) => Err(e),
        Ok(block) => sd_entries(block, file, offsets, data_type, offsets.len() as int),
    }
}

proof fn lemma_sd_entries_err(
    block: DataBlockModel,
    file: Seq<u8>,
    offsets: Seq<u64>,
    data_type: u8,
    k: int,
    n: int,
)
    requires
        0 <= k <= n,
        sd_entries(block, file, offsets, data_type, k) is Err,
    ensures
        sd_entries(block, file, offsets, data_type, n) == sd_entries(
            block,
            file,
            offsets,
            data_type,
            k,
        ),
    decreases n - k,
{
    if k < n {
        lemma_sd_entries_err(block, file, offsets, data_type, k, n - 1);
    }
}

fn read_sd_entry(block: &DataBlock, file: &[u8], off: u64, data_type: u8) -> (r: Result<
    String,
    MdfError,
>)
    ensures
        match r {
            Ok(s) => sd_entry(block@, file@, off, data_type) == Ok::<Seq<char>, MdfError>(s@),
            Err(e) => sd_entry(block@, file@, off, data_type) == Err::<Seq<char>, MdfError>(e),
        },
{
    let mut four_bytes: Vec<u8> = vec![0u8; 4];
    match block.read_virtual_buf(file, off, four_bytes.as_mut_slice()) {
        Ok(()) => {},
        Err(e) => {
            return Err(e);
        },
    }
    let length: u32 = read_u32_le(four_bytes.as_slice());
    if off > u64::MAX - 4 || length as u64 > usize::MAX as u64 {
        return Err(MdfError::OutOfRange);
    }
    let mut data_bytes: Vec<u8> = vec![0u8; length as usize];
    match block.read_virtual_buf(file, off + 4, data_bytes.as_mut_slice()) {
        Ok(()) => {},
        Err(e) => {
            return Err(e);
        },
    }
    match data_type {
        6 | 7 => {
            match string_from_utf8(data_bytes) {
                Some(raw) => Ok(trim_end_nul(raw.as_str())),
                None => Err(MdfError::DataCorrupt),
            }
        },
        8 => {
            let u16str: UTF16String = UTF16String::from_le_bytes(data_bytes.as_slice());
            Ok(trim_end_nul(u16str.inner.as_str()))
        },
        9 => {
            let u16str: UTF16String = UTF16String::from_be_bytes(data_bytes.as_slice());
            Ok(trim_end_nul(u16str.inner.as_str()))
        },
        _ => Err(MdfError::UnsupportedDataType),
    }
}

impl Channel {
    /// The values of variable length that stand at `offsets` of the
    /// channel's signal data.
    #[verifier::loop_isolation(false)]
    pub fn parse_sd_data(&self, map: &DescMap, file: &[u8], offsets: &Vec<u64>) -> (r: Result<
        DataValue,
        MdfError,
    >)
        ensures
            match r {
                Ok(v) => v matches DataValue::STRINGS(x) && sd_values(
                    map,
                    file@,
                    self@.cn_data,
                    offsets@,
                    self@.data_type,
                ) == Ok::<Seq<Seq<char>>, MdfError>(x.deep_view()) && x@.len() == offsets@.len(),
                Err(e) => sd_values(map, file@, self@.cn_data, offsets@, self@.data_type) == Err::<
                    Seq<Seq<char>>,
                    MdfError,
                >(e),
            },
    {
        let data_blocks: DataBlock = match read_data_block(map, file, self.cn_data) {
            Ok(b) => b,
            Err(e) => {
                return Err(e);
            },
        };
        let mut sd_data: Vec<String> = Vec::new();
        let mut i: usize = 0;
        assert(sd_data.deep_view() =~= Seq::<Seq<char>>::empty());
        while i < offsets.len()
            invariant
                i <= offsets@.len(),
                sd_data@.len() == i,
                sd_entries(data_blocks@, file@, offsets@, self@.data_type, i as int) == Ok::<
                    Seq<Seq<char>>,
                    MdfError,
                >(sd_data.deep_view()),
            decreases offsets@.len() - i,
        {
            match read_sd_entry(&data_blocks, file, offsets[i], self.data_type) {
                Ok(text) => {
                    let ghost before = sd_data.deep_view();
                    let ghost t = text@;
                    sd_data.push(text);
                    assert(sd_data.deep_view() =~= before.push(t));
                },
                Err(e) => {
                    proof {
                        lemma_sd_entries_err(
                            data_blocks@,
                            file@,
                            offsets@,
                            self@.data_type,
                            i + 1,
                            offsets@.len() as int,
                        );
                    }
                    return Err(e);
                },
            }
            i += 1;
        }
        Ok(DataValue::STRINGS(sd_data))
    }
}

// ---------------------------------------------------------------------------
// The values of a channel
// ---------------------------------------------------------------------------

impl ChannelModel {
    /// The channel's sample in the record `rec` as an unsigned number of
    /// 64 bits.
    pub open spec fn sample_u64(&self, rec: Seq<u8>) -> u64 {
        if is_le_type(self.data_type) {
            le_u64(padded_le(self.field_bytes(rec), 8)) as u64
        } else {
            be_u64(padded_be(self.field_bytes(rec), 8)) as u64
        }
    }

    /// The channel's sample in the record `rec` as text in UTF-8.
    pub open spec fn sample_utf8(&self, rec: Seq<u8>) -> Seq<char> {
        if is_le_type(self.data_type) {
            utf8_or(self.field_bytes(rec), "ERROR during parsing LB STRING"@)
        } else {
            utf8_or(self.field_bytes(rec).reverse(), "ERROR during parsing BE STRING"@)
        }
    }

    /// The channel's sample in the record `rec` as text in UTF-16.
    pub open spec fn sample_utf16(&self, rec: Seq<u8>) -> Seq<char> {
        if is_le_type(self.data_type) {
            utf16_lossy_text(le_units(self.field_bytes(rec)))
        } else {
            utf16_lossy_text(be_units(self.field_bytes(rec)))
        }
    }

    /// Whether the channel is a structure: a channel of data type 10 that
    /// is composed of channels.
    pub open spec fn is_struct(&self) -> bool {
        self.data_type == 10 && self.sub_channels is Some && self.cn_composition != 0
    }

    /// Whether the channel's raw samples are numbers.
    pub open spec fn has_numbers(&self) -> bool {
        self.cn_type == 6 || self.cn_type == 3 || (raw_kind(self.data_type, self.bit_count) is Ok
            && raw_kind(self.data_type, self.bit_count)->Ok_0 != RawKind::Utf8 && raw_kind(
            self.data_type,
            self.bit_count,
        )->Ok_0 != RawKind::Utf16)
    }
}

/// The offsets of the values of a channel of variable length, one for each
/// cycle.
pub open spec fn vlsd_offsets(cn: ChannelModel, dg: DataGroupModel, cg: ChannelGroupModel, file: Seq<u8>) -> Seq<
    u64,
> {
    Seq::new(
        cg.cycle_count as nat,
        |i: int| cn.sample_u64(record_of(dg, file, cg.record_id, i as u64)->0),
    )
}

/// The raw texts of a text channel, one for each cycle.
pub open spec fn raw_texts(cn: ChannelModel, dg: DataGroupModel, cg: ChannelGroupModel, file: Seq<u8>) -> Seq<
    Seq<char>,
> {
    Seq::new(
        cg.cycle_count as nat,
        |i: int|
            if cn.data_type == 6 || cn.data_type == 7 {
                cn.sample_utf8(record_of(dg, file, cg.record_id, i as u64)->0)
            } else {
                cn.sample_utf16(record_of(dg, file, cg.record_id, i as u64)->0)
            },
    )
}

/// What a conversion rule makes of the texts `texts` of a text channel:
/// a text-to-value or text-to-text rule converts them, identity leaves
/// them, and no other rule takes text.
pub open spec fn converted_texts(kind: CcModel, map: &DescMap, file: Seq<u8>, texts: Seq<Seq<char>>) -> Result<
    DataModel,
    MdfError,
> {
    match kind {
        CcModel::Text2Value(_, _) => from_text(kind, map, file, texts),
        CcModel::Text2Text(_) => from_text(kind, map, file, texts),
        CcModel::OneToOne => Ok(DataModel::Strings(texts)),
        _ => Err(MdfError::UnsupportedConversion),
    }
}

/// Why the values of the channel cannot be had, if they cannot. A
/// structure always can: a member that cannot be read is left out.
pub open spec fn physical_error(
    cn: ChannelModel,
    dg: DataGroupModel,
    cg: ChannelGroupModel,
    map: &DescMap,
    file: Seq<u8>,
) -> Option<MdfError> {
    if cn.is_struct() {
        None
    } else if cn.data_type == 10 {
        byte_array_error(cn, dg, cg, file)
    } else {
        match raw_error(cn, dg, cg, file) {
            Some(e) => Some(e),
            None => {
                if cn.cn_type == 1 {
                    match sd_values(
                        map,
                        file,
                        cn.cn_data,
                        vlsd_offsets(cn, dg, cg, file),
                        cn.data_type,
                    ) {
                        Err(e) => Some(e),
                        Ok(_) => None,
                    }
                } else if cn.has_numbers() {
                    None
                } else {
                    match converted_texts(
                        cn.conversion.kind,
                        map,
                        file,
                        raw_texts(cn, dg, cg, file),
                    ) {
                        Err(e) => Some(e),
                        Ok(_) => None,
                    }
                }
            },
        }
    }
}

/// The places, among the first `k` channels of a structure, of those whose
/// values can be had.
pub open spec fn member_places(
    subs: Seq<ChannelModel>,
    dg: DataGroupModel,
    cg: ChannelGroupModel,
    map: &DescMap,
    file: Seq<u8>,
    k: int,
) -> Seq<int>
    decreases k,
{
    if k <= 0 {
        Seq::empty()
    } else {
        let done = member_places(subs, dg, cg, map, file, k - 1);
        if physical_error(subs[k - 1], dg, cg, map, file) is None {
            done.push(k - 1)
        } else {
            done
        }
    }
}

/// The values of a channel, as far as they can be had without calculating
/// on floating-point numbers.
#[derive(Debug)]
pub enum Physical {
    /// The values.
    Value(DataValue),
    /// The raw numbers, to which the channel's conversion rule is yet to
    /// be applied.
    Numbers(DataValue),
    /// The members of a structure under their names, in order.
    Struct(Vec<(String, Physical)>),
}

/// Whether `member` is the member of a structure that stands for the
/// channel at `place` among `subs`: it has that channel's name and holds
/// that channel's values.
pub open spec fn member_holds(
    subs: Seq<ChannelModel>,
    place: int,
    dg: DataGroupModel,
    cg: ChannelGroupModel,
    map: &DescMap,
    file: Seq<u8>,
    member: (String, Physical),
) -> bool
    decreases member, 0nat,
{
    &&& 0 <= place < subs.len()
    &&& member.0@ == subs[place].name
    &&& physical_holds(subs[place], dg, cg, map, file, member.1)
}

/// Whether `p` holds the values of the channel. A structure gives a member
/// for each of its channels whose values can be had; a channel of data type
/// 10 that is no structure gives its bytes; a channel of variable length
/// gives its texts; a channel with numbers gives the raw numbers; and a
/// text channel gives what its conversion rule makes of its texts.
pub open spec fn physical_holds(
    cn: ChannelModel,
    dg: DataGroupModel,
    cg: ChannelGroupModel,
    map: &DescMap,
    file: Seq<u8>,
    p: Physical,
) -> bool
    decreases p, 1nat,
{
    if cn.is_struct() {
        p matches Physical::Struct(members) && {
            let subs = cn.sub_channels->0;
            let places = member_places(subs, dg, cg, map, file, subs.len() as int);
            &&& members@.len() == places.len()
            &&& forall|m: int|
                0 <= m < members@.len() ==> #[trigger] member_holds(
                    subs,
                    places[m],
                    dg,
                    cg,
                    map,
                    file,
                    members@[m],
                )
        }
    } else if cn.data_type == 10 {
        p matches Physical::Value(v) && v matches DataValue::BYTEARRAY(x) && byte_array_is(
            cn,
            dg,
            cg,
            file,
            x.deep_view(),
        )
    } else if cn.cn_type == 1 {
        p matches Physical::Value(v) && v matches DataValue::STRINGS(x) && x@.len()
            == cg.cycle_count && sd_values(
            map,
            file,
            cn.cn_data,
            vlsd_offsets(cn, dg, cg, file),
            cn.data_type,
        ) == Ok::<Seq<Seq<char>>, MdfError>(x.deep_view())
    } else if cn.has_numbers() {
        p matches Physical::Numbers(v) && raw_holds(cn, dg, cg, file, v)
    } else {
        p matches Physical::Value(v) && converted_texts(
            cn.conversion.kind,
            map,
            file,
            raw_texts(cn, dg, cg, file),
        ) == Ok::<DataModel, MdfError>(v@)
    }
}

/// A structure holds the members that stand for its channels.
proof fn lemma_struct_holds(
    cn: ChannelModel,
    dg: DataGroupModel,
    cg: ChannelGroupModel,
    map: &DescMap,
    file: Seq<u8>,
    members: Vec<(String, Physical)>,
)
    requires
        cn.is_struct(),
        members@.len() == member_places(
            cn.sub_channels->0,
            dg,
            cg,
            map,
            file,
            cn.sub_channels->0.len() as int,
        ).len(),
        forall|m: int|
            0 <= m < members@.len() ==> #[trigger] member_holds(
                cn.sub_channels->0,
                member_places(
                    cn.sub_channels->0,
                    dg,
                    cg,
                    map,
                    file,
                    cn.sub_channels->0.len() as int,
                )[m],
                dg,
                cg,
                map,
                file,
                members@[m],
            ),
    ensures
        physical_holds(cn, dg, cg, map, file, Physical::Struct(members)),
{
    let subs = cn.sub_channels->0;
    let places = member_places(subs, dg, cg, map, file, subs.len() as int);
    assert forall|m: int| 0 <= m < members@.len() implies {
        &&& 0 <= places[m] < subs.len()
        &&& members@[m].0@ == subs[places[m]].name
        &&& physical_holds(subs[places[m]], dg, cg, map, file, members@[m].1)
    } by {
        assert(member_holds(subs, places[m], dg, cg, map, file, members@[m]));
    }
    reveal_with_fuel(physical_holds, 2);
    reveal_with_fuel(member_holds, 2);
}

/// The samples of a column of unsigned 64-bit numbers are the offsets.
proof fn lemma_column_offsets(
    cn: ChannelModel,
    dg: DataGroupModel,
    cg: ChannelGroupModel,
    file: Seq<u8>,
    x: Seq<u64>,
)
    requires
        column_is::<u64>(cn, dg, cg, file, x),
    ensures
        x == vlsd_offsets(cn, dg, cg, file),
{
    assert forall|i: int| 0 <= i < x.len() implies x[i] == vlsd_offsets(cn, dg, cg, file)[i] by {
        assert(sample_at::<u64>(cn, dg, cg, file, i, x[i]));
    }
    assert(x =~= vlsd_offsets(cn, dg, cg, file));
}

/// The samples of a column of texts are the raw texts.
proof fn lemma_column_texts(
    cn: ChannelModel,
    dg: DataGroupModel,
    cg: ChannelGroupModel,
    file: Seq<u8>,
    x: Vec<String>,
)
    requires
        cn.data_type == 6 || cn.data_type == 7 || cn.data_type == 8 || cn.data_type == 9,
        (cn.data_type == 6 || cn.data_type == 7) ==> column_is::<String>(cn, dg, cg, file, x@),
        (cn.data_type == 8 || cn.data_type == 9) ==> column_is::<UTF16String>(
            cn,
            dg,
            cg,
            file,
            as_utf16(x@),
        ),
    ensures
        x.deep_view() == raw_texts(cn, dg, cg, file),
{
    let want = raw_texts(cn, dg, cg, file);
    let got = x.deep_view();
    assert(got.len() == want.len());
    assert forall|i: int| 0 <= i < got.len() implies got[i] == want[i] by {
        if cn.data_type == 6 || cn.data_type == 7 {
            assert(sample_at::<String>(cn, dg, cg, file, i, x@[i]));
            let rec = record_of(dg, file, cg.record_id, i as u64)->0;
            assert(padded_le(cn.field_bytes(rec), 0) =~= cn.field_bytes(rec));
            assert(padded_be(cn.field_bytes(rec), 0) =~= cn.field_bytes(rec));
        } else {
            assert(sample_at::<UTF16String>(cn, dg, cg, file, i, as_utf16(x@)[i]));
            let rec = record_of(dg, file, cg.record_id, i as u64)->0;
            assert(padded_le(cn.field_bytes(rec), 0) =~= cn.field_bytes(rec));
            assert(padded_be(cn.field_bytes(rec), 0) =~= cn.field_bytes(rec));
        }
    }
    assert(got =~= want);
}

impl Channel {
    /// The values of the channel, one for each cycle of its group, as far
    /// as they can be had without calculating on floating-point numbers.
    pub fn get_data(&self, map: &DescMap, file: &[u8], dg: &DataGroup, cg: &ChannelGroup) -> (r:
        Result<Physical, MdfError>)
        ensures
            match r {
                Ok(p) => physical_error(self@, dg@, cg@, map, file@) is None && physical_holds(
                    self@,
                    dg@,
                    cg@,
                    map,
                    file@,
                    p,
                ),
                Err(e) => physical_error(self@, dg@, cg@, map, file@) == Some(e),
            },
        decreases self, 1nat,
    {
        if self.data_type == 10 && self.cn_compositon != 0 {
            match &self.sub_channels {
                Some(subs) => {
                    proof {
                        assert(*subs == self.sub_channels->0);
                        assert(decreases_to!(self => self.sub_channels));
                        assert(decreases_to!(self.sub_channels => self.sub_channels->0));
                    }
                    let members = Self::get_members(subs, map, file, dg, cg);
                    let p = Physical::Struct(members);
                    proof {
                        let models = self@.sub_channels->0;
                        assert(models == channel_models(subs@));
                        assert(self@.is_struct());
                        assert(p->Struct_0 == members);
                        assert(models.len() == subs@.len());
                        let places = member_places(models, dg@, cg@, map, file@, models.len() as int);
                        assert(members@.len() == places.len());
                        assert forall|m: int| 0 <= m < members@.len() implies #[trigger] member_holds(
                            models,
                            places[m],
                            dg@,
                            cg@,
                            map,
                            file@,
                            members@[m],
                        ) by {}
                        lemma_struct_holds(self@, dg@, cg@, map, file@, members);
                    }
                    return Ok(p);
                },
                None => {},
            }
        }
        if self.data_type == 10 {
            return match self.get_byte_array(file, dg, cg) {
                Ok(rows) => Ok(Physical::Value(DataValue::BYTEARRAY(rows))),
                Err(e) => Err(e),
            };
        }
        let data_raw: DataValue = match self.get_data_raw(file, dg, cg) {
            Ok(v) => v,
            Err(e) => {
                return Err(e);
            },
        };
        if self.cn_type == 1 {
            match data_raw {
                DataValue::UINT64(offsets) => {
                    proof {
                        lemma_column_offsets(self@, dg@, cg@, file@, offsets@);
                    }
                    match self.parse_sd_data(map, file, &offsets) {
                        Ok(v) => Ok(Physical::Value(v)),
                        Err(e) => Err(e),
                    }
                },
                _ => Err(MdfError::UnsupportedDataType),
            }
        } else {
            match data_raw {
                DataValue::STRINGS(texts) => {
                    proof {
                        lemma_column_texts(self@, dg@, cg@, file@, texts);
                    }
                    match self.conversion.get_cc_type() {
                        CcType::Text2Value(_) | CcType::Text2Text(_) => {
                            match self.conversion.convert_from_text(map, file, &texts) {
                                Ok(v) => Ok(Physical::Value(v)),
                                Err(e) => Err(e),
                            }
                        },
                        CcType::OneToOne => Ok(Physical::Value(DataValue::STRINGS(texts))),
                        _ => Err(MdfError::UnsupportedConversion),
                    }
                },
                other => Ok(Physical::Numbers(other)),
            }
        }
    }

    fn get_members(
        subs: &Vec<Channel>,
        map: &DescMap,
        file: &[u8],
        dg: &DataGroup,
        cg: &ChannelGroup,
    ) -> (members: Vec<(String, Physical)>)
        ensures
            members@.len() == member_places(
                channel_models(subs@),
                dg@,
                cg@,
                map,
                file@,
                subs@.len() as int,
            ).len(),
            channel_models(subs@).len() == subs@.len(),
            forall|m: int|
                0 <= m < members@.len() ==> #[trigger] member_holds(
                    channel_models(subs@),
                    member_places(channel_models(subs@), dg@, cg@, map, file@, subs@.len() as int)[m],
                    dg@,
                    cg@,
                    map,
                    file@,
                    members@[m],
                ),
        decreases subs, 0nat,
    {
        let ghost models = channel_models(subs@);
        proof {
            lemma_channel_models(subs@);
        }
        let mut members: Vec<(String, Physical)> = Vec::new();
        let mut i: usize = 0;
        while i < subs.len()
            invariant
                i <= subs@.len(),
                models == channel_models(subs@),
                models.len() == subs@.len(),
                forall|j: int| 0 <= j < subs@.len() ==> (#[trigger] models[j]) == channel_model(subs@[j]),
                members@.len() == member_places(models, dg@, cg@, map, file@, i as int).len(),
                forall|m: int|
                    0 <= m < members@.len() ==> #[trigger] member_holds(
                        models,
                        member_places(models, dg@, cg@, map, file@, i as int)[m],
                        dg@,
                        cg@,
                        map,
                        file@,
                        members@[m],
                    ),
            decreases subs@.len() - i,
        {
            proof {
                assert(decreases_to!(subs => subs[i as int]));
            }
            let cn: &Channel = &subs[i];
            assert(cn@ == models[i as int]);
            let ghost before = members@;
            let ghost places_before = member_places(models, dg@, cg@, map, file@, i as int);
            match cn.get_data(map, file, dg, cg) {
                Ok(data) => {
                    members.push((cn.get_name().to_owned(), data));
                    proof {
                        let places = member_places(models, dg@, cg@, map, file@, i + 1);
                        assert(places == places_before.push(i as int));
                        assert forall|m: int| 0 <= m < members@.len() implies #[trigger] member_holds(
                            models,
                            places[m],
                            dg@,
                            cg@,
                            map,
                            file@,
                            members@[m],
                        ) by {
                            if m < before.len() {
                                assert(members@[m] == before[m]);
                                assert(places[m] == places_before[m]);
                                assert(member_holds(
                                    models,
                                    places_before[m],
                                    dg@,
                                    cg@,
                                    map,
                                    file@,
                                    before[m],
                                ));
                            } else {
                                assert(places[m] == i);
                            }
                        }
                    }
                },
                Err(_) => {
                    proof {
                        let places = member_places(models, dg@, cg@, map, file@, i + 1);
                        assert(places == places_before);
                    }
                },
            }
            i += 1;
        }
        members
    }
}

/// A value of variable length read from a data list is the value read
/// from the payloads of the list's blocks laid end to end: it makes no
/// difference whether the value lies in one block or reaches from one into
/// the next.
pub proof fn lemma_vlsd_contiguous(dl: DataLinkModel, file: Seq<u8>, off: u64, data_type: u8)
    requires
        dl.total_len == frags_len(dl.fragments, dl.fragments.len() as int),
        forall|i: int|
            0 <= i < dl.fragments.len() ==> fragment_available(#[trigger] dl.fragments[i], file),
    ensures
        sd_entry(DataBlockModel::Linked(dl), file, off, data_type) == sd_entry(
            DataBlockModel::Zipped(0, joined(dl.fragments, file, dl.fragments.len() as int)),
            file,
            off,
            data_type,
        ),
{
    let n = dl.fragments.len() as int;
    let whole = joined(dl.fragments, file, n);
    let linked = DataBlockModel::Linked(dl);
    let flat = DataBlockModel::Zipped(0, whole);
    lemma_joined_prefix(dl.fragments, file, n, n);
    assert(whole.len() == dl.total_len);
    if off + 4 <= dl.total_len {
        lemma_linked_read_is_contiguous(dl.fragments, file, off as int, 4);
        assert(linked.read(file, off as int, 4) == flat.read(file, off as int, 4));
        let head = linked.read(file, off as int, 4)->Ok_0;
        let length = le_u32(head);
        if off + 4 <= u64::MAX && length <= usize::MAX && off + 4 + length <= dl.total_len {
            lemma_linked_read_is_contiguous(dl.fragments, file, off + 4, length);
        }
    }
}

/// The number that a channel's field holds: the number held by the bytes
/// of the record in which the field lies, divided by two to the power of
/// the bit offset, and of that the remainder modulo two to the power of the
/// bit count. A channel stored least significant byte first in at most
/// eight bytes has this number as its unsigned sample.
pub proof fn lemma_field_value(cn: ChannelModel, rec: Seq<u8>)
    requires
        cn.byte_offset + cn.bytes_num <= rec.len(),
        cn.bit_offset <= 7,
    ensures
        ({
            let raw = rec.subrange(cn.byte_offset as int, cn.byte_offset + cn.bytes_num);
            &&& le_value(cn.field_bytes(rec)) == (le_value(raw) / pow2(cn.bit_offset as nat)) % pow2(
                cn.bit_count as nat,
            )
            &&& is_le_type(cn.data_type) && cn.bytes_num <= 8 ==> cn.sample_u64(rec) == (le_value(raw)
                / pow2(cn.bit_offset as nat)) % pow2(cn.bit_count as nat)
        }),
{
    let raw = rec.subrange(cn.byte_offset as int, cn.byte_offset + cn.bytes_num);
    let shifted = if cn.bit_offset != 0 {
        right_shifted(raw, cn.bit_offset)
    } else {
        raw
    };
    if cn.bit_offset != 0 {
        lemma_right_shift_divides(raw, cn.bit_offset);
    } else {
        vstd::arithmetic::power2::lemma2_to64();
        vstd::arithmetic::div_mod::lemma_div_basics(le_value(raw) as int);
    }
    lemma_mask_is_remainder(shifted, cn.bit_count);
    let field = cn.field_bytes(rec);
    if is_le_type(cn.data_type) && cn.bytes_num <= 8 {
        let padded = padded_le(field, 8);
        assert(padded.len() == 8);
        if field.len() < 8 {
            lemma_zeros_behind(field, zeros(8 - field.len()));
        }
        lemma_fixed_width_values(padded);
        assert(padded.subrange(0, 8) =~= padded);
        vstd::arithmetic::power2::lemma_pow2_pos(cn.bit_count as nat);
        lemma_le_u64_bound(padded);
    }
}

/// Eight bytes hold a number of 64 bits.
proof fn lemma_le_u64_bound(b: Seq<u8>)
    requires
        b.len() >= 8,
    ensures
        0 <= le_u64(b) <= u64::MAX,
{
}

impl Physical {
    /// The number of values held, or of members for a structure.
    pub open spec fn spec_len(&self) -> nat {
        match self {
            Physical::Value(v) => v.spec_len(),
            Physical::Numbers(v) => v.spec_len(),
            Physical::Struct(members) => members@.len(),
        }
    }
}

/// What is read of a channel that is no structure has one value for each
/// cycle of the channel's group.
pub proof fn lemma_physical_has_cycle_count(
    cn: ChannelModel,
    dg: DataGroupModel,
    cg: ChannelGroupModel,
    map: &DescMap,
    file: Seq<u8>,
    p: Physical,
)
    requires
        !cn.is_struct(),
        physical_holds(cn, dg, cg, map, file, p),
    ensures
        p.spec_len() == cg.cycle_count,
{
    reveal_with_fuel(physical_holds, 2);
    if cn.data_type == 10 {
        let x = p->Value_0->BYTEARRAY_0;
        assert(x.deep_view().len() == x@.len());
    } else if cn.cn_type == 1 {
    } else if cn.has_numbers() {
        lemma_raw_has_cycle_count(cn, dg, cg, file, p->Numbers_0);
    } else {
        let v = p->Value_0;
        let texts = raw_texts(cn, dg, cg, file);
        assert(texts.len() == cg.cycle_count);
        match cn.conversion.kind {
            CcModel::Text2Value(_, _) => {
                assert(v@ is Real);
                assert(v is REAL);
                assert(v@->Real_0.len() == texts.len());
            },
            CcModel::Text2Text(_) => {
                assert(v@ is Strings);
                assert(v is STRINGS);
                assert(v@->Strings_0.len() == texts.len());
                assert(v->STRINGS_0.deep_view().len() == v->STRINGS_0@.len());
            },
            CcModel::OneToOne => {
                assert(v@ is Strings);
                assert(v is STRINGS);
                assert(v->STRINGS_0.deep_view().len() == v->STRINGS_0@.len());
            },
            _ => {},
        }
    }
}

} // verus!
