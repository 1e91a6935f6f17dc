//! Channel groups: the channels that share one record layout.

use vstd::prelude::*;
use crate::block::{first_in, first_or, normal_link, BlockDesc, BlockInfo, BlockModel};
use crate::components::ca::dims_product;
use crate::components::cc::nesting_limit;
use crate::components::cn::{
    channel_model, channel_models, element_channel, element_offset, lemma_channel_models,
    spec_channel, Channel, ChannelModel,
};
use crate::components::si::{spec_source, SourceInfo, SourceModel};
use crate::data_serde::string_push_str;
use crate::error::MdfError;
use crate::parser::{
    chain_offsets, get_child_links, spec_chain, spec_text_or_empty, text_or_empty, DescMap,
};

verus! {

/// The channels with their master, as they are gathered for a group.
pub struct Gathered {
    pub channels: Seq<ChannelModel>,
    pub master: Option<ChannelModel>,
}

/// The name under which a channel is kept in a group named `acq_name`. A
/// bus event in a named group goes by the group's name, a dot, and the name
/// of its source, or the path of its source where that has no name. Every
/// other channel keeps its name.
pub open spec fn group_name_of(cn: ChannelModel, acq_name: Seq<char>) -> Seq<char> {
    if cn.cn_flags & 0x400 != 0 && acq_name.len() > 0 {
        if cn.source.name.len() > 0 {
            acq_name + "."@ + cn.source.name
        } else if cn.source.path.len() > 0 {
            acq_name + "."@ + cn.source.path
        } else {
            acq_name + "."@
        }
    } else {
        cn.name
    }
}

/// The element channels of the array channel `cn`, in row-major order, or
/// nothing where the byte offset of an element does not fit in 32 bits.
pub open spec fn expanded(cn: ChannelModel) -> Option<Seq<ChannelModel>> {
    let array = cn.array->0;
    let total = dims_product(array.ca_dim_size, 0);
    if forall|n: int| 0 <= n < total ==> (#[trigger] element_offset(array, n)) <= u32::MAX {
        Some(Seq::new(total, |n: int| element_channel(cn, n)))
    } else {
        None
    }
}

/// What is gathered once the channel `cn` is added: a master becomes the
/// group's master and stands among the channels too, an array channel
/// gives one channel for each of its elements, or none where it is
/// corrupt, and any other channel is added as it is.
pub open spec fn gathered_with(g: Gathered, cn: ChannelModel, acq_name: Seq<char>) -> Gathered {
    let named = ChannelModel { name: group_name_of(cn, acq_name), ..cn };
    if named.master {
        Gathered { channels: g.channels.push(named), master: Some(named) }
    } else if named.array is Some {
        match expanded(named) {
            Some(elements) => Gathered { channels: g.channels + elements, master: g.master },
            None => g,
        }
    } else {
        Gathered { channels: g.channels.push(named), master: g.master }
    }
}

/// What is gathered from the channel blocks at the first `k` of `links`.
/// A block that cannot be read as a channel is passed over.
pub open spec fn gathered_upto(
    map: &DescMap,
    file: Seq<u8>,
    links: Seq<u64>,
    acq_name: Seq<char>,
    k: int,
) -> Gathered
    decreases k,
{
    if k <= 0 {
        Gathered { channels: Seq::empty(), master: None }
    } else {
        let g = gathered_upto(map, file, links, acq_name, k - 1);
        match spec_channel(map, file, links[k - 1], nesting_limit()) {
            Err(_) => g,
            Ok(cn) => gathered_with(g, cn, acq_name),
        }
    }
}

/// What is gathered from the chain of channel blocks that starts at
/// `first`. A chain that cannot be followed gives no channels.
pub open spec fn gathered_from(map: &DescMap, file: Seq<u8>, first: u64, acq_name: Seq<char>) -> Gathered {
    match spec_chain(map, file, first, "CN"@) {
        Err(_) => Gathered { channels: Seq::empty(), master: None },
        Ok(chain) => gathered_upto(map, file, chain_offsets(chain), acq_name, chain.len() as int),
    }
}

/// What a `ChannelGroup` holds.
pub struct ChannelGroupModel {
    pub acq_name: Seq<char>,
    pub acq_source: SourceModel,
    pub comments: Seq<char>,
    pub path_sep: Seq<char>,
    pub record_id: u64,
    pub cycle_count: u64,
    pub data_bytes: u32,
    pub invalid_bytes: u32,
    pub channels: Seq<ChannelModel>,
    pub master: Option<ChannelModel>,
    pub cg_flags: u16,
    pub is_vlsd: bool,
    pub total_bytes: u64,
}

impl ChannelGroupModel {
    /// The number of bytes of one record, without its record id.
    pub open spec fn record_bytes(&self) -> int {
        self.data_bytes + self.invalid_bytes
    }

    /// Whether the sizes agree: a record fits in 32 bits, and the total is
    /// the record size times the number of cycles; for a group of
    /// variable-length data it is the 64-bit number whose low half is
    /// `data_bytes` and whose high half is `invalid_bytes`.
    pub open spec fn wf(&self) -> bool {
        &&& self.record_bytes() <= u32::MAX
        &&& self.is_vlsd == (self.cg_flags & 0x0001 != 0)
        &&& !self.is_vlsd ==> self.total_bytes == self.record_bytes() * self.cycle_count
        &&& self.is_vlsd ==> self.total_bytes == vlsd_total(self.data_bytes, self.invalid_bytes)
    }
}

/// The total length of a group of variable-length data: the 64-bit number
/// whose low half is `data_bytes` and whose high half is `invalid_bytes`.
pub open spec fn vlsd_total(data_bytes: u32, invalid_bytes: u32) -> u64 {
    (data_bytes as u64) | ((invalid_bytes as u64) << 32)
}

/// The separator that the number `code` stands for: a slash, a backslash,
/// or, for every other number and a missing one, a dot.
pub open spec fn path_separator(code: Option<u16>) -> Seq<char> {
    match code {
        Some(0x2Fu16) => "/"@,
        Some(0x5Cu16) => "\\"@,
        _ => "."@,
    }
}

/// The sizes that a channel group block declares.
pub struct GroupSizes {
    pub record_id: u64,
    pub cycle_count: u64,
    pub data_bytes: u32,
    pub invalid_bytes: u32,
    pub cg_flags: u16,
}

/// The sizes that the parsed channel group block `block` declares. A
/// record, or a total, too large to count is corrupt.
pub open spec fn sizes_of(block: BlockModel) -> Result<GroupSizes, MdfError> {
    match first_or::<u64>(block.data, "cg_record_id"@) {
        Err(e) => Err(e),
        Ok(record_id) => match first_or::<u64>(block.data, "cg_cycle_count"@) {
            Err(e) => Err(e),
            Ok(cycle_count) => match first_or::<u32>(block.data, "cg_data_bytes"@) {
                Err(e) => Err(e),
                Ok(data_bytes) => match first_or::<u32>(block.data, "cg_inval_bytes"@) {
                    Err(e) => Err(e),
                    Ok(invalid_bytes) => match first_or::<u16>(block.data, "cg_flags"@) {
                        Err(e) => Err(e),
                        Ok(cg_flags) => {
                            if data_bytes + invalid_bytes > u32::MAX {
                                Err(MdfError::DataCorrupt)
                            } else if cg_flags & 0x0001 == 0 && (data_bytes + invalid_bytes)
                                * cycle_count > u64::MAX {
                                Err(MdfError::DataCorrupt)
                            } else {
                                Ok(
                                    GroupSizes {
                                        record_id,
                                        cycle_count,
                                        data_bytes,
                                        invalid_bytes,
                                        cg_flags,
                                    },
                                )
                            }
                        },
                    },
                },
            },
        },
    }
}

/// The links of a channel group block that reading the group follows: to
/// its name, its source, its comment and its first channel.
pub open spec fn group_links(block: BlockModel) -> Result<(u64, u64, u64, u64), MdfError> {
    match normal_link(block.link_map, "cg_tx_acq_name"@) {
        None => Err(MdfError::SchemaMissing),
        Some(name_at) => match normal_link(block.link_map, "cg_si_acq_source"@) {
            None => Err(MdfError::SchemaMissing),
            Some(source_at) => match normal_link(block.link_map, "cg_md_comment"@) {
                None => Err(MdfError::SchemaMissing),
                Some(comment_at) => match normal_link(block.link_map, "cg_cn_first"@) {
                    None => Err(MdfError::SchemaMissing),
                    Some(first) => Ok((name_at, source_at, comment_at, first)),
                },
            },
        },
    }
}

/// The channel group that the parsed block `block` describes. A group of
/// variable-length data, bit 0 of its flags set, holds no channels.
pub open spec fn group_of(map: &DescMap, file: Seq<u8>, block: BlockModel) -> Result<
    ChannelGroupModel,
    MdfError,
> {
    match group_links(block) {
        Err(e) => Err(e),
        Ok((name_at, source_at, comment_at, first)) => match spec_source(map, file, source_at) {
            Err(e) => Err(e),
            Ok(acq_source) => match sizes_of(block) {
                Err(e) => Err(e),
                Ok(sizes) => {
                    let acq_name = spec_text_or_empty(map, file, name_at);
                    let is_vlsd = sizes.cg_flags & 0x0001 != 0;
                    let g = if is_vlsd {
                        Gathered { channels: Seq::empty(), master: None }
                    } else {
                        gathered_from(map, file, first, acq_name)
                    };
                    Ok(
                        ChannelGroupModel {
                            acq_name,
                            acq_source,
                            comments: spec_text_or_empty(map, file, comment_at),
                            path_sep: path_separator(
                                first_in::<u16>(block.data, "cg_path_separator"@),
                            ),
                            record_id: sizes.record_id,
                            cycle_count: sizes.cycle_count,
                            data_bytes: sizes.data_bytes,
                            invalid_bytes: sizes.invalid_bytes,
                            channels: g.channels,
                            master: g.master,
                            cg_flags: sizes.cg_flags,
                            is_vlsd,
                            total_bytes: if is_vlsd {
                                vlsd_total(sizes.data_bytes, sizes.invalid_bytes)
                            } else {
                                ((sizes.data_bytes + sizes.invalid_bytes) * sizes.cycle_count) as u64
                            },
                        },
                    )
                },
            },
        },
    }
}

/// The channel group described by the block at `offset`.
pub open spec fn spec_channel_group(map: &DescMap, file: Seq<u8>, offset: u64) -> Result<
    ChannelGroupModel,
    MdfError,
> {
    match map.spec_get("CG"@) {
        None => Err(MdfError::SchemaMissing),
        Some(desc) => match desc.spec_parse(file, offset) {
            Err(e) => Err(e),
            Ok(block) => group_of(map, file, block),
        },
    }
}

/// A channel group: its channels, its master, and the layout of its
/// records.
#[derive(Debug)]
pub struct ChannelGroup {
    acq_name: String,
    acq_source: SourceInfo,
    comments: String,
    path_sep: String,
    record_id: u64,
    cycle_count: u64,
    data_bytes: u32,
    invalid_bytes: u32,
    channels: Vec<Channel>,
    master: Option<Channel>,
    cg_flags: u16,
    is_vlsd: bool,
    total_bytes: u64,
}

impl View for ChannelGroup {
    type V = ChannelGroupModel;

    closed spec fn view(&self) -> ChannelGroupModel {
        ChannelGroupModel {
            acq_name: self.acq_name@,
            acq_source: self.acq_source@,
            comments: self.comments@,
            path_sep: self.path_sep@,
            record_id: self.record_id,
            cycle_count: self.cycle_count,
            data_bytes: self.data_bytes,
            invalid_bytes: self.invalid_bytes,
            channels: channel_models(self.channels@),
            master: match self.master {
                Some(c) => Some(c@),
                None => None,
            },
            cg_flags: self.cg_flags,
            is_vlsd: self.is_vlsd,
            total_bytes: self.total_bytes,
        }
    }
}

struct Sizes {
    record_id: u64,
    cycle_count: u64,
    data_bytes: u32,
    invalid_bytes: u32,
    cg_flags: u16,
}

impl Sizes {
    spec fn model(&self) -> GroupSizes {
        GroupSizes {
            record_id: self.record_id,
            cycle_count: self.cycle_count,
            data_bytes: self.data_bytes,
            invalid_bytes: self.invalid_bytes,
            cg_flags: self.cg_flags,
        }
    }
}

fn read_sizes(info: &BlockInfo) -> (r: Result<Sizes, MdfError>)
    ensures
        match r {
            Ok(s) => sizes_of(info@) == Ok::<GroupSizes, MdfError>(s.model()),
            Err(e) => sizes_of(info@) == Err::<GroupSizes, MdfError>(e),
        },
{
    let record_id: u64 = match info.first_or_error::<u64>("cg_record_id") {
        Ok(x) => x,
        Err(e) => {
            return Err(e);
        },
    };
    let cycle_count: u64 = match info.first_or_error::<u64>("cg_cycle_count") {
        Ok(x) => x,
        Err(e) => {
            return Err(e);
        },
    };
    let data_bytes: u32 = match info.first_or_error::<u32>("cg_data_bytes") {
        Ok(x) => x,
        Err(e) => {
            return Err(e);
        },
    };
    let invalid_bytes: u32 = match info.first_or_error::<u32>("cg_inval_bytes") {
        Ok(x) => x,
        Err(e) => {
            return Err(e);
        },
    };
    let cg_flags: u16 = match info.first_or_error::<u16>("cg_flags") {
        Ok(x) => x,
        Err(e) => {
            return Err(e);
        },
    };
    let record: u64 = data_bytes as u64 + invalid_bytes as u64;
    if record > 0xffff_ffff {
        return Err(MdfError::DataCorrupt);
    }
    if cg_flags & 0x0001 == 0 && record != 0 && cycle_count > u64::MAX / record {
        assert(record * cycle_count > u64::MAX) by (nonlinear_arith)
            requires
                record > 0,
                cycle_count > u64::MAX / record,
        ;
        return Err(MdfError::DataCorrupt);
    }
    assert(cg_flags & 0x0001 == 0 ==> record * cycle_count <= u64::MAX) by (nonlinear_arith)
        requires
            cg_flags & 0x0001 == 0 ==> (record == 0 || cycle_count <= u64::MAX / record),
            record >= 0,
            cycle_count >= 0,
    ;
    Ok(Sizes { record_id, cycle_count, data_bytes, invalid_bytes, cg_flags })
}

fn read_group_links(info: &BlockInfo) -> (r: Result<(u64, u64, u64, u64), MdfError>)
    ensures
        r == group_links(info@),
{
    let name_at: u64 = match info.get_link_offset_normal("cg_tx_acq_name") {
        Some(x) => x,
        None => {
            return Err(MdfError::SchemaMissing);
        },
    };
    let source_at: u64 = match info.get_link_offset_normal("cg_si_acq_source") {
        Some(x) => x,
        None => {
            return Err(MdfError::SchemaMissing);
        },
    };
    let comment_at: u64 = match info.get_link_offset_normal("cg_md_comment") {
        Some(x) => x,
        None => {
            return Err(MdfError::SchemaMissing);
        },
    };
    let first: u64 = match info.get_link_offset_normal("cg_cn_first") {
        Some(x) => x,
        None => {
            return Err(MdfError::SchemaMissing);
        },
    };
    Ok((name_at, source_at, comment_at, first))
}

/// Whether the channels kept are those gathered.
spec fn holds(channels: Seq<Channel>, master: Option<Channel>, g: Gathered) -> bool {
    &&& channels.len() == g.channels.len()
    &&& forall|i: int| 0 <= i < channels.len() ==> channel_model(#[trigger] channels[i]) == g.channels[i]
    &&& match master {
        Some(c) => g.master == Some(c@),
        None => g.master is None,
    }
}

impl ChannelGroup {
    #[verifier::type_invariant]
    spec fn inv(&self) -> bool {
        self@.wf()
    }

    /// Reads the channel group block at `offset` with its channels. A
    /// channel block that cannot be read is passed over, and so is the
    /// whole chain of channels where it cannot be followed.
    pub fn new(map: &DescMap, file: &[u8], offset: u64) -> (r: Result<Self, MdfError>)
        ensures
            match r {
                Ok(cg) => spec_channel_group(map, file@, offset) == Ok::<
                    ChannelGroupModel,
                    MdfError,
                >(cg@) && cg@.wf(),
                Err(e) => spec_channel_group(map, file@, offset) == Err::<
                    ChannelGroupModel,
                    MdfError,
                >(e),
            },
    {
        let desc: &BlockDesc = match map.get("CG") {
            Some(d) => d,
            None => {
                return Err(MdfError::SchemaMissing);
            },
        };
        let info: BlockInfo = match desc.try_parse_buf(file, offset) {
            Ok(info) => info,
            Err(e) => {
                return Err(e);
            },
        };
        let (name_at, source_at, comment_at, first) = match read_group_links(&info) {
            Ok(l) => l,
            Err(e) => {
                return Err(e);
            },
        };
        let acq_source: SourceInfo = match SourceInfo::new(map, file, source_at) {
            Ok(s) => s,
            Err(e) => {
                return Err(e);
            },
        };
        let sizes: Sizes = match read_sizes(&info) {
            Ok(s) => s,
            Err(e) => {
                return Err(e);
            },
        };
        let acq_name: String = text_or_empty(map, file, name_at);
        let comments: String = text_or_empty(map, file, comment_at);
        let path_sep: String = match info.get_data_value_first::<u16>("cg_path_separator") {
            Some(0x2F) => "/".to_owned(),
            Some(0x5C) => "\\".to_owned(),
            _ => ".".to_owned(),
        };
        let is_vlsd: bool = sizes.cg_flags & 0x0001 != 0;
        let record: u64 = sizes.data_bytes as u64 + sizes.invalid_bytes as u64;
        let (channels, master, total_bytes) = if is_vlsd {
            let channels: Vec<Channel> = Vec::new();
            proof {
                lemma_channel_models(channels@);
            }
            (
                channels,
                None,
                (sizes.data_bytes as u64) | ((sizes.invalid_bytes as u64) << 32),
            )
        } else {
            let (channels, master) = Self::gather(map, file, first, &acq_name);
            (channels, master, record * sizes.cycle_count)
        };
        proof {
            lemma_channel_models(channels@);
            let want = group_of(map, file@, info@)->Ok_0;
            assert(channel_models(channels@) =~= want.channels);
        }
        Ok(
            ChannelGroup {
                acq_name,
                acq_source,
                comments,
                path_sep,
                record_id: sizes.record_id,
                cycle_count: sizes.cycle_count,
                data_bytes: sizes.data_bytes,
                invalid_bytes: sizes.invalid_bytes,
                channels,
                master,
                cg_flags: sizes.cg_flags,
                is_vlsd,
                total_bytes,
            },
        )
    }

    fn gather(map: &DescMap, file: &[u8], first: u64, acq_name: &String) -> (r: (
        Vec<Channel>,
        Option<Channel>,
    ))
        ensures
            holds(r.0@, r.1, gathered_from(map, file@, first, acq_name@)),
    {
        let mut channels: Vec<Channel> = Vec::new();
        let mut master: Option<Channel> = None;
        let links: Vec<u64> = match get_child_links(map, file, first, "CN") {
            Ok(l) => l,
            Err(_) => {
                return (channels, master);
            },
        };
        let mut i: usize = 0;
        while i < links.len()
            invariant
                i <= links@.len(),
                holds(channels@, master, gathered_upto(map, file@, links@, acq_name@, i as int)),
            decreases links@.len() - i,
        {
            let ghost g = gathered_upto(map, file@, links@, acq_name@, i as int);
            match Channel::new(map, file, links[i]) {
                Err(_) => {},
                Ok(mut cn) => {
                    Self::new_channel_name(&mut cn, acq_name);
                    let ghost named = cn@;
                    if cn.is_master() {
                        channels.push(cn.clone());
                        master = Some(cn);
                    } else if cn.get_array().is_some() {
                        match cn.generate_array_element_channel() {
                            Ok(mut elements) => {
                                let ghost before = channels@;
                                let ghost added = elements@;
                                channels.append(&mut elements);
                                proof {
                                    assert(expanded(named) is Some);
                                    assert forall|j: int| 0 <= j < channels@.len() implies channel_model(
                                        #[trigger] channels@[j],
                                    ) == (g.channels + expanded(named)->0)[j] by {
                                        if j < before.len() {
                                            assert(channels@[j] == before[j]);
                                        } else {
                                            assert(channels@[j] == added[j - before.len()]);
                                        }
                                    }
                                }
                            },
                            Err(_) => {
                                assert(expanded(named) is None);
                            },
                        }
                    } else {
                        channels.push(cn);
                    }
                },
            }
            i += 1;
        }
        (channels, master)
    }

    fn new_channel_name(cn: &mut Channel, acq_name: &String)
        ensures
            final(cn)@ == (ChannelModel { name: group_name_of(old(cn)@, acq_name@), ..old(cn)@ }),
    {
        if cn.is_bus_event() && !acq_name.as_str().is_empty() {
            let mut name: String = acq_name.clone();
            string_push_str(&mut name, ".");
            if !cn.get_source().get_name().is_empty() {
                let source_name: String = cn.get_source().get_name().to_owned();
                string_push_str(&mut name, source_name.as_str());
            } else if !cn.get_source().get_path().is_empty() {
                let source_path: String = cn.get_source().get_path().to_owned();
                string_push_str(&mut name, source_path.as_str());
            }
            cn.set_name(name);
        } else {
            let same: String = cn.get_name().to_owned();
            cn.set_name(same);
        }
    }

    /// The total number of payload bytes of the group.
    pub fn get_total_len(&self) -> (n: u64)
        ensures
            n == self@.total_bytes,
            self@.wf(),
    {
        proof {
            use_type_invariant(self);
        }
        self.total_bytes
    }

    /// Whether the group holds variable-length data.
    pub fn is_vlsd(&self) -> (b: bool)
        ensures
            b == self@.is_vlsd,
    {
        self.is_vlsd
    }

    /// The group's flags.
    pub fn get_cg_flags(&self) -> (f: u16)
        ensures
            f == self@.cg_flags,
    {
        self.cg_flags
    }

    /// The name of the acquisition.
    pub fn get_acq_name(&self) -> (s: &str)
        ensures
            s@ == self@.acq_name,
    {
        self.acq_name.as_str()
    }

    /// The source of the acquisition.
    pub fn get_acq_source(&self) -> (s: &SourceInfo)
        ensures
            s@ == self@.acq_source,
    {
        &self.acq_source
    }

    /// The comment on the group.
    pub fn get_comment(&self) -> (s: &str)
        ensures
            s@ == self@.comments,
    {
        self.comments.as_str()
    }

    /// The separator of the parts of a path.
    pub fn get_path_sep(&self) -> (s: &str)
        ensures
            s@ == self@.path_sep,
    {
        self.path_sep.as_str()
    }

    /// The id by which the group's records are told in the payload.
    pub fn get_record_id(&self) -> (n: u64)
        ensures
            n == self@.record_id,
    {
        self.record_id
    }

    /// The number of records of the group.
    pub fn get_cycle_count(&self) -> (n: u64)
        ensures
            n == self@.cycle_count,
    {
        self.cycle_count
    }

    /// The number of data bytes of one record.
    pub fn get_data_bytes(&self) -> (n: u32)
        ensures
            n == self@.data_bytes,
    {
        self.data_bytes
    }

    /// The number of invalidation bytes of one record.
    pub fn get_invalid_bytes(&self) -> (n: u32)
        ensures
            n == self@.invalid_bytes,
    {
        self.invalid_bytes
    }

    /// The number of bytes of one record, without its record id.
    pub fn get_sample_total_bytes(&self) -> (n: u32)
        ensures
            n == self@.record_bytes(),
            self@.wf(),
    {
        proof {
            use_type_invariant(self);
        }
        self.data_bytes + self.invalid_bytes
    }

    /// The channels of the group, the master among them.
    pub fn get_channels(&self) -> (v: &Vec<Channel>)
        ensures
            channel_models(v@) == self@.channels,
    {
        &self.channels
    }

    /// The names of the channels of the group.
    pub fn get_channel_names(&self) -> (names: Vec<String>)
        ensures
            names@.len() == self@.channels.len(),
            forall|i: int| 0 <= i < names@.len() ==> (#[trigger] names@[i])@ == self@.channels[i].name,
    {
        let mut names: Vec<String> = Vec::new();
        let mut i: usize = 0;
        proof {
            lemma_channel_models(self.channels@);
        }
        while i < self.channels.len()
            invariant
                i <= self.channels@.len(),
                names@.len() == i,
                self@.channels.len() == self.channels@.len(),
                forall|j: int| 0 <= j < self.channels@.len() ==> (#[trigger] self@.channels[j])
                    == channel_model(self.channels@[j]),
                forall|j: int| 0 <= j < i ==> (#[trigger] names@[j])@ == self@.channels[j].name,
            decreases self.channels@.len() - i,
        {
            names.push(self.channels[i].get_name().to_owned());
            i += 1;
        }
        names
    }

    /// The master channel of the group.
    pub fn get_master(&self) -> (m: Option<&Channel>)
        ensures
            match m {
                Some(c) => self@.master == Some(c@),
                None => self@.master is None,
            },
    {
        self.master.as_ref()
    }

    /// The `n`th channel of the group.
    pub fn nth_cn(&self, n: usize) -> (c: Option<&Channel>)
        ensures
            match c {
                Some(cn) => n < self@.channels.len() && self@.channels[n as int] == cn@,
                None => n >= self@.channels.len(),
            },
    {
        proof {
            lemma_channel_models(self.channels@);
        }
        if n < self.channels.len() {
            Some(&self.channels[n])
        } else {
            None
        }
    }
}

} // verus!
