//! Finding blocks in the file: the schema of the block at an offset, chains
//! of blocks, and the text of text blocks.

use vstd::prelude::*;
use vstd::slice::slice_to_vec;
use vstd::utf8::{decode_utf8, valid_utf8};
use chrono::DateTime;
use crate::block::{
    entries_inserted, first_or, key_index, lemma_key_index_prefix, lemma_key_index_update, lookup,
    normal_link, BlockDesc, BlockInfo, BlockModel,
};
use crate::components::cg::{ChannelGroup, ChannelGroupModel};
use crate::components::dg::{
    all_names, entry_at, group_models, group_places, last_place, lemma_group_places_shift, link_at,
    spec_data_group, ChannelLink, DataGroup, DataGroupModel, Place,
};
use crate::data_serde::{
    le_u16, lowercase_text, read_u16_le, signed64, str_eq, str_to_lowercase, str_to_uppercase,
    str_trim, string_from_utf8, string_push_str, trim_end_nul, trim_nul, trimmed_text,
    uppercase_text, DataModel, DataValue,
};
use crate::error::MdfError;

verus! {

/// The schemas of the kinds of block that the reader knows, each under the
/// two letters of its tag.
#[derive(Debug)]
pub struct DescMap {
    descs: Vec<(String, BlockDesc)>,
}

impl DescMap {
    /// The schemas with the names they are kept under, in the order in
    /// which they were added.
    pub closed spec fn entries(&self) -> Seq<(Seq<char>, BlockDesc)> {
        Seq::new(self.descs@.len(), |i: int| (self.descs@[i].0@, self.descs@[i].1))
    }

    /// The schema kept under `name`.
    pub open spec fn spec_get(&self, name: Seq<char>) -> Option<BlockDesc> {
        lookup(self.entries(), name)
    }

    /// No schemas.
    pub fn new() -> (m: Self)
        ensures
            m.entries() == Seq::<(Seq<char>, BlockDesc)>::empty(),
    {
        let m = DescMap { descs: Vec::new() };
        assert(m.entries() =~= Seq::<(Seq<char>, BlockDesc)>::empty());
        m
    }

    /// Keeps a schema under `name`: in the place of the schema that was
    /// kept under that name, or as a new entry where none was.
    pub fn insert(&mut self, name: String, desc: BlockDesc)
        ensures
            final(self).entries() == entries_inserted(old(self).entries(), name@, desc),
            final(self).spec_get(name@) == Some(desc),
    {
        let ghost before = self.entries();
        let mut i: usize = 0;
        while i < self.descs.len()
            invariant
                i <= self.descs@.len(),
                *self == *old(self),
                before == self.entries(),
                key_index(before.subrange(0, i as int), name@) is None,
            decreases self.descs@.len() - i,
        {
            proof {
                assert(before.subrange(0, i + 1).drop_last() =~= before.subrange(0, i as int));
            }
            if str_eq(self.descs[i].0.as_str(), name.as_str()) {
                proof {
                    lemma_key_index_prefix(before, name@, i + 1);
                }
                self.descs.set(i, (name, desc));
                proof {
                    assert(self.entries() =~= before.update(i as int, (before[i as int].0, desc)));
                    lemma_key_index_update(before, name@, desc);
                }
                return;
            }
            i += 1;
        }
        proof {
            assert(before.subrange(0, i as int) =~= before);
        }
        self.descs.push((name, desc));
        proof {
            assert(self.entries() =~= before.push((name@, desc)));
            assert(self.entries().drop_last() =~= before);
        }
    }

    /// The schema kept under `name`.
    pub fn get(&self, name: &str) -> (r: Option<&BlockDesc>)
        ensures
            match r {
                Some(d) => self.spec_get(name@) == Some(*d),
                None => self.spec_get(name@) is None,
            },
    {
        let mut i: usize = 0;
        while i < self.descs.len()
            invariant
                i <= self.descs@.len(),
                key_index(self.entries().subrange(0, i as int), name@) is None,
            decreases self.descs@.len() - i,
        {
            proof {
                let whole = self.entries();
                assert(whole.subrange(0, i + 1).drop_last() =~= whole.subrange(0, i as int));
            }
            if str_eq(self.descs[i].0.as_str(), name) {
                proof {
                    lemma_key_index_prefix(self.entries(), name@, i + 1);
                }
                return Some(&self.descs[i].1);
            }
            i += 1;
        }
        proof {
            assert(self.entries().subrange(0, i as int) =~= self.entries());
        }
        None
    }
}

/// The schema for the kind of block named `name`, in either case.
pub fn get_block_desc_by_name(map: &DescMap, name: String) -> (r: Option<&BlockDesc>)
    ensures
        match r {
            Some(d) => map.spec_get(uppercase_text(name@)) == Some(*d),
            None => map.spec_get(uppercase_text(name@)) is None,
        },
{
    let upper: String = str_to_uppercase(name.as_str());
    map.get(upper.as_str())
}

/// The two letters that name the kind of the block at `offset`, or why
/// they cannot be had: the link is nil, the file ends before the tag does,
/// or the letters are not text.
pub open spec fn spec_block_type(file: Seq<u8>, offset: u64) -> Result<Seq<char>, MdfError> {
    if offset == 0 {
        Err(MdfError::NilLink)
    } else if offset + 4 > file.len() {
        Err(MdfError::IoError)
    } else if !valid_utf8(file.subrange(offset + 2, offset + 4)) {
        Err(MdfError::DataCorrupt)
    } else {
        Ok(decode_utf8(file.subrange(offset + 2, offset + 4)))
    }
}

/// The two letters that name the kind of the block at `offset`.
pub fn peek_block_type(file: &[u8], offset: u64) -> (r: Result<String, MdfError>)
    ensures
        match r {
            Ok(s) => spec_block_type(file@, offset) == Ok::<Seq<char>, MdfError>(s@),
            Err(e) => spec_block_type(file@, offset) == Err::<Seq<char>, MdfError>(e),
        },
{
    if offset == 0 {
        return Err(MdfError::NilLink);
    }
    let flen: usize = file.len();
    if offset > flen as u64 || flen as u64 - offset < 4 {
        return Err(MdfError::IoError);
    }
    let off: usize = offset as usize;
    match string_from_utf8(slice_to_vec(&file[off + 2..off + 4])) {
        Some(s) => Ok(s),
        None => Err(MdfError::DataCorrupt),
    }
}

/// The schema of the block at `offset`, or why there is none.
pub open spec fn spec_block_desc(map: &DescMap, file: Seq<u8>, offset: u64) -> Result<
    BlockDesc,
    MdfError,
> {
    match spec_block_type(file, offset) {
        Err(e) => Err(e),
        Ok(kind) => match map.spec_get(kind) {
            Some(d) => Ok(d),
            None => Err(MdfError::SchemaMissing),
        },
    }
}

/// The schema of the block at `offset`, found by the block's own tag.
pub fn get_block_desc<'a>(map: &'a DescMap, file: &[u8], offset: u64) -> (r: Result<
    &'a BlockDesc,
    MdfError,
>)
    ensures
        match r {
            Ok(d) => spec_block_desc(map, file@, offset) == Ok::<BlockDesc, MdfError>(*d),
            Err(e) => spec_block_desc(map, file@, offset) == Err::<BlockDesc, MdfError>(e),
        },
{
    let kind: String = match peek_block_type(file, offset) {
        Ok(kind) => kind,
        Err(e) => {
            return Err(e);
        },
    };
    match map.get(kind.as_str()) {
        Some(d) => Ok(d),
        None => Err(MdfError::SchemaMissing),
    }
}

// ---------------------------------------------------------------------------
// Chains of blocks
// ---------------------------------------------------------------------------

/// The name of the link that leads from a block of kind `block_type` to
/// the next of its kind: `cn_cn_next` for `CN`.
pub open spec fn next_link_name(block_type: Seq<char>) -> Seq<char> {
    link_name_of(lowercase_text(block_type))
}

/// The name of the link to the next block, for the kind of block whose
/// name in lower case is `lower`.
pub open spec fn link_name_of(lower: Seq<char>) -> Seq<char> {
    lower + "_"@ + lower + "_next"@
}

/// The most blocks that may follow the first in a chain.
pub open spec fn chain_limit() -> nat {
    1000
}

/// The blocks of a chain, each with the place where it was found: from
/// the block at `cursor` on along the link named `name`, up to the nil
/// link. A chain that goes on for more than `budget` further blocks is
/// corrupt.
pub open spec fn chain_from(
    desc: BlockDesc,
    file: Seq<u8>,
    name: Seq<char>,
    cursor: u64,
    budget: nat,
) -> Result<Seq<(u64, BlockModel)>, MdfError>
    decreases budget,
{
    match desc.spec_parse(file, cursor) {
        Err(e) => Err(e),
        Ok(block) => match normal_link(block.link_map, name) {
            None => Err(MdfError::SchemaMissing),
            Some(next) => {
                if next == 0 {
                    Ok(seq![(cursor, block)])
                } else if budget == 0 {
                    Err(MdfError::DataCorrupt)
                } else {
                    match chain_from(desc, file, name, next, (budget - 1) as nat) {
                        Err(e) => Err(e),
                        Ok(rest) => Ok(seq![(cursor, block)] + rest),
                    }
                }
            },
        },
    }
}

/// The chain of blocks of kind `block_type` that starts at `first`.
pub open spec fn spec_chain(map: &DescMap, file: Seq<u8>, first: u64, block_type: Seq<char>) -> Result<
    Seq<(u64, BlockModel)>,
    MdfError,
> {
    match map.spec_get(block_type) {
        None => Err(MdfError::SchemaMissing),
        Some(desc) => chain_from(desc, file, next_link_name(block_type), first, chain_limit()),
    }
}

/// The places of the blocks in `chain`.
pub open spec fn chain_offsets(chain: Seq<(u64, BlockModel)>) -> Seq<u64> {
    Seq::new(chain.len(), |i: int| chain[i].0)
}

/// The blocks in `chain`.
pub open spec fn chain_blocks(chain: Seq<(u64, BlockModel)>) -> Seq<BlockModel> {
    Seq::new(chain.len(), |i: int| chain[i].1)
}

/// What each of the blocks holds.
pub open spec fn block_models(blocks: Seq<BlockInfo>) -> Seq<BlockModel> {
    Seq::new(blocks.len(), |i: int| blocks[i]@)
}

/// The name of the link to the next block, for the kind of block whose
/// name in lower case is `lower`.
pub fn make_link_name(lower: &str) -> (name: String)
    ensures
        name@ == link_name_of(lower@),
{
    let mut name: String = lower.to_owned();
    string_push_str(&mut name, "_");
    string_push_str(&mut name, lower);
    string_push_str(&mut name, "_next");
    name
}

fn make_next_link_name(block_type: &str) -> (name: String)
    ensures
        name@ == next_link_name(block_type@),
{
    let lower: String = str_to_lowercase(block_type);
    make_link_name(lower.as_str())
}

/// The blocks of the chain of kind `block_type` that starts at
/// `first_child_offset`, in order.
#[verifier::loop_isolation(false)]
pub fn get_child_info(map: &DescMap, file: &[u8], first_child_offset: u64, block_type: &str) -> (r:
    Result<Vec<BlockInfo>, MdfError>)
    ensures
        match r {
            Ok(list) => {
                &&& spec_chain(map, file@, first_child_offset, block_type@) is Ok
                &&& block_models(list@) == chain_blocks(
                    spec_chain(map, file@, first_child_offset, block_type@)->Ok_0,
                )
            },
            Err(e) => spec_chain(map, file@, first_child_offset, block_type@) == Err::<
                Seq<(u64, BlockModel)>,
                MdfError,
            >(e),
        },
{
    let desc: &BlockDesc = match map.get(block_type) {
        Some(d) => d,
        None => {
            return Err(MdfError::SchemaMissing);
        },
    };
    let link_name: String = make_next_link_name(block_type);
    let mut list: Vec<BlockInfo> = Vec::new();
    let mut cursor: u64 = first_child_offset;
    let mut budget: usize = 1000;
    let mut done: bool = false;
    let ghost whole = chain_from(*desc, file@, link_name@, first_child_offset, chain_limit());
    let ghost mut found: Seq<(u64, BlockModel)> = Seq::empty();
    assert(block_models(list@) =~= chain_blocks(found));
    while !done
        invariant
            block_models(list@) == chain_blocks(found),
            done ==> whole == Ok::<Seq<(u64, BlockModel)>, MdfError>(found),
            !done ==> whole == (match chain_from(*desc, file@, link_name@, cursor, budget as nat) {
                Ok(rest) => Ok::<Seq<(u64, BlockModel)>, MdfError>(found + rest),
                Err(e) => Err::<Seq<(u64, BlockModel)>, MdfError>(e),
            }),
        decreases
                if done {
                    0
                } else {
                    budget + 1
                },
    {
        let blk: BlockInfo = match desc.try_parse_buf(file, cursor) {
            Ok(b) => b,
            Err(e) => {
                return Err(e);
            },
        };
        let next: u64 = match blk.get_link_offset_normal(link_name.as_str()) {
            Some(x) => x,
            None => {
                return Err(MdfError::SchemaMissing);
            },
        };
        let ghost before = found;
        let ghost model = blk@;
        let ghost before_list = list@;
        list.push(blk);
        proof {
            found = before + seq![(cursor, model)];
            assert forall|i: int| 0 <= i < list@.len() implies block_models(list@)[i]
                == chain_blocks(found)[i] by {
                if i < before_list.len() {
                    assert(block_models(before_list)[i] == chain_blocks(before)[i]);
                }
            }
            assert(block_models(list@) =~= chain_blocks(found));
        }
        if next == 0 {
            done = true;
        } else if budget == 0 {
            return Err(MdfError::DataCorrupt);
        } else {
            proof {
                let rest = chain_from(*desc, file@, link_name@, next, (budget - 1) as nat);
                if rest is Ok {
                    assert(before + (seq![(cursor, model)] + rest->Ok_0) =~= found + rest->Ok_0);
                }
            }
            cursor = next;
            budget = budget - 1;
        }
    }
    Ok(list)
}

/// The places of the blocks of the chain of kind `block_type` that starts
/// at `first_child_offset`, in order.
#[verifier::loop_isolation(false)]
pub fn get_child_links(map: &DescMap, file: &[u8], first_child_offset: u64, block_type: &str) -> (r:
    Result<Vec<u64>, MdfError>)
    ensures
        match r {
            Ok(list) => {
                &&& spec_chain(map, file@, first_child_offset, block_type@) is Ok
                &&& list@ == chain_offsets(
                    spec_chain(map, file@, first_child_offset, block_type@)->Ok_0,
                )
            },
            Err(e) => spec_chain(map, file@, first_child_offset, block_type@) == Err::<
                Seq<(u64, BlockModel)>,
                MdfError,
            >(e),
        },
{
    let desc: &BlockDesc = match map.get(block_type) {
        Some(d) => d,
        None => {
            return Err(MdfError::SchemaMissing);
        },
    };
    let link_name: String = make_next_link_name(block_type);
    let mut list: Vec<u64> = Vec::new();
    let mut cursor: u64 = first_child_offset;
    let mut budget: usize = 1000;
    let mut done: bool = false;
    let ghost whole = chain_from(*desc, file@, link_name@, first_child_offset, chain_limit());
    let ghost mut found: Seq<(u64, BlockModel)> = Seq::empty();
    assert(list@ =~= chain_offsets(found));
    while !done
        invariant
            list@ == chain_offsets(found),
            done ==> whole == Ok::<Seq<(u64, BlockModel)>, MdfError>(found),
            !done ==> whole == (match chain_from(*desc, file@, link_name@, cursor, budget as nat) {
                Ok(rest) => Ok::<Seq<(u64, BlockModel)>, MdfError>(found + rest),
                Err(e) => Err::<Seq<(u64, BlockModel)>, MdfError>(e),
            }),
        decreases
                if done {
                    0
                } else {
                    budget + 1
                },
    {
        let blk: BlockInfo = match desc.try_parse_buf(file, cursor) {
            Ok(b) => b,
            Err(e) => {
                return Err(e);
            },
        };
        let next: u64 = match blk.get_link_offset_normal(link_name.as_str()) {
            Some(x) => x,
            None => {
                return Err(MdfError::SchemaMissing);
            },
        };
        let ghost before = found;
        let ghost model = blk@;
        list.push(cursor);
        proof {
            found = before + seq![(cursor, model)];
            assert(list@ =~= chain_offsets(found));
        }
        if next == 0 {
            done = true;
        } else if budget == 0 {
            return Err(MdfError::DataCorrupt);
        } else {
            proof {
                let rest = chain_from(*desc, file@, link_name@, next, (budget - 1) as nat);
                if rest is Ok {
                    assert(before + (seq![(cursor, model)] + rest->Ok_0) =~= found + rest->Ok_0);
                }
            }
            cursor = next;
            budget = budget - 1;
        }
    }
    Ok(list)
}

// ---------------------------------------------------------------------------
// Text blocks
// ---------------------------------------------------------------------------

/// The text of the field named `name`, or why there is none: the field is
/// missing, or it does not hold text.
pub open spec fn text_field(data: Seq<(Seq<char>, DataModel)>, name: Seq<char>) -> Result<
    Seq<char>,
    MdfError,
> {
    match lookup(data, name) {
        None => Err(MdfError::SchemaMissing),
        Some(DataModel::Char(s)) => Ok(s),
        Some(_) => Err(MdfError::UnsupportedDataType),
    }
}

/// The block at `offset`, parsed by the schema that its own tag selects.
pub open spec fn spec_block_at(map: &DescMap, file: Seq<u8>, offset: u64) -> Result<
    BlockModel,
    MdfError,
> {
    match spec_block_desc(map, file, offset) {
        Err(e) => Err(e),
        Ok(desc) => desc.spec_parse(file, offset),
    }
}

/// The text of the block at `offset` as the file holds it: that of a `TX`
/// block, or of an `MD` block. Any other block is refused.
pub open spec fn spec_text(map: &DescMap, file: Seq<u8>, offset: u64) -> Result<Seq<char>, MdfError> {
    match spec_block_at(map, file, offset) {
        Err(e) => Err(e),
        Ok(block) => {
            if block.id == "##TX"@ {
                text_field(block.data, "tx_data"@)
            } else if block.id == "##MD"@ {
                text_field(block.data, "md_data"@)
            } else {
                Err(MdfError::BadBlockId)
            }
        },
    }
}

/// The text of the block at `offset` without the NULs that pad its end.
pub open spec fn spec_clean_text(map: &DescMap, file: Seq<u8>, offset: u64) -> Result<
    Seq<char>,
    MdfError,
> {
    match spec_text(map, file, offset) {
        Err(e) => Err(e),
        Ok(s) => Ok(trim_nul(s)),
    }
}

fn parse_block_at(map: &DescMap, file: &[u8], offset: u64) -> (r: Result<BlockInfo, MdfError>)
    ensures
        match r {
            Ok(info) => spec_block_at(map, file@, offset) == Ok::<BlockModel, MdfError>(info@),
            Err(e) => spec_block_at(map, file@, offset) == Err::<BlockModel, MdfError>(e),
        },
{
    let desc: &BlockDesc = match get_block_desc(map, file, offset) {
        Ok(d) => d,
        Err(e) => {
            return Err(e);
        },
    };
    desc.try_parse_buf(file, offset)
}

fn text_of(info: &BlockInfo, name: &str) -> (r: Result<String, MdfError>)
    ensures
        match r {
            Ok(s) => text_field(info@.data, name@) == Ok::<Seq<char>, MdfError>(s@),
            Err(e) => text_field(info@.data, name@) == Err::<Seq<char>, MdfError>(e),
        },
{
    match info.get_data_value(name) {
        None => Err(MdfError::SchemaMissing),
        Some(DataValue::CHAR(s)) => Ok(s.clone()),
        Some(_) => Err(MdfError::UnsupportedDataType),
    }
}

/// The text field `tx_data` of the block at `tx_offset`.
pub fn get_tx_data(map: &DescMap, file: &[u8], tx_offset: u64) -> (r: Result<String, MdfError>)
    ensures
        match r {
            Ok(s) => {
                &&& spec_block_at(map, file@, tx_offset) is Ok
                &&& text_field(spec_block_at(map, file@, tx_offset)->Ok_0.data, "tx_data"@) == Ok::<
                    Seq<char>,
                    MdfError,
                >(s@)
            },
            Err(e) => match spec_block_at(map, file@, tx_offset) {
                Err(e2) => e == e2,
                Ok(block) => text_field(block.data, "tx_data"@) == Err::<Seq<char>, MdfError>(e),
            },
        },
{
    let info: BlockInfo = match parse_block_at(map, file, tx_offset) {
        Ok(info) => info,
        Err(e) => {
            return Err(e);
        },
    };
    text_of(&info, "tx_data")
}

/// The text of the `TX` or `MD` block at `offset`, as the file holds it.
pub fn get_text(map: &DescMap, file: &[u8], offset: u64) -> (r: Result<String, MdfError>)
    ensures
        match r {
            Ok(s) => spec_text(map, file@, offset) == Ok::<Seq<char>, MdfError>(s@),
            Err(e) => spec_text(map, file@, offset) == Err::<Seq<char>, MdfError>(e),
        },
{
    let info: BlockInfo = match parse_block_at(map, file, offset) {
        Ok(info) => info,
        Err(e) => {
            return Err(e);
        },
    };
    if str_eq(info.get_id().as_str(), "##TX") {
        text_of(&info, "tx_data")
    } else if str_eq(info.get_id().as_str(), "##MD") {
        text_of(&info, "md_data")
    } else {
        Err(MdfError::BadBlockId)
    }
}

/// The text of the `TX` or `MD` block at `offset`, without the NULs that
/// pad its end. NULs inside the text stay.
pub fn get_clean_text(map: &DescMap, file: &[u8], offset: u64) -> (r: Result<String, MdfError>)
    ensures
        match r {
            Ok(s) => spec_clean_text(map, file@, offset) == Ok::<Seq<char>, MdfError>(s@),
            Err(e) => spec_clean_text(map, file@, offset) == Err::<Seq<char>, MdfError>(e),
        },
{
    match get_text(map, file, offset) {
        Ok(text) => Ok(trim_end_nul(text.as_str())),
        Err(e) => Err(e),
    }
}

/// The text of the block at `offset`, or the empty text where there is
/// none to be had.
pub open spec fn spec_text_or_empty(map: &DescMap, file: Seq<u8>, offset: u64) -> Seq<char> {
    match spec_clean_text(map, file, offset) {
        Ok(s) => s,
        Err(_) => Seq::empty(),
    }
}

/// The clean text of the block at `offset`, or the empty text where the
/// link is nil or the block cannot be read as text.
pub fn text_or_empty(map: &DescMap, file: &[u8], offset: u64) -> (s: String)
    ensures
        s@ == spec_text_or_empty(map, file@, offset),
{
    match get_clean_text(map, file, offset) {
        Ok(s) => s,
        Err(_) => String::new(),
    }
}

// ---------------------------------------------------------------------------
// The file header
// ---------------------------------------------------------------------------

/// The text that stands for a time given in nanoseconds since the start of
/// 1970, as `chrono` formats it by `%Y-%m-%d %H:%M:%S%.9f` in universal
/// time.
pub uninterp spec fn timestamp_text(nanos: i64) -> Seq<char>;

/// `chrono::DateTime::from_timestamp_nanos` followed by `DateTime::format`:
/// the date and the time of day, with nine digits behind the second. The
/// time is universal time, so the text depends on the number alone. Its
/// result is named, not described.
#[verifier::external_body]
fn format_timestamp(nanos: i64) -> (s: String)
    ensures
        s@ == timestamp_text(nanos),
{
    DateTime::from_timestamp_nanos(nanos).format("%Y-%m-%d %H:%M:%S%.9f").to_string()
}

/// What the identification block and the header block of a file say.
#[derive(Debug)]
pub struct MdfInfo {
    pub version: String,
    pub version_num: u16,
    pub time_stamp: u64,
    pub date_time: String,
    pub first_dg_offset: u64,
}

/// What an `MdfInfo` holds.
pub struct MdfInfoModel {
    pub version: Seq<char>,
    pub version_num: u16,
    pub time_stamp: u64,
    pub date_time: Seq<char>,
    pub first_dg_offset: u64,
}

impl View for MdfInfo {
    type V = MdfInfoModel;

    open spec fn view(&self) -> MdfInfoModel {
        MdfInfoModel {
            version: self.version@,
            version_num: self.version_num,
            time_stamp: self.time_stamp,
            date_time: self.date_time@,
            first_dg_offset: self.first_dg_offset,
        }
    }
}

/// The eight bytes at the start of every file: `MDF` and five spaces.
pub open spec fn file_signature() -> Seq<u8> {
    seq![0x4du8, 0x44u8, 0x46u8, 0x20u8, 0x20u8, 0x20u8, 0x20u8, 0x20u8]
}

/// The place of the header block, right behind the identification block.
pub open spec fn header_offset() -> u64 {
    0x40
}

/// A count of nanoseconds read as a signed number of 64 bits.
pub open spec fn as_signed(t: u64) -> i64 {
    signed64(t as int) as i64
}

/// What the start of the file says: the version as text and as a number,
/// the start time, and where the first data group lies. A file that does
/// not start with the signature is no measurement file; a version below
/// 4.00 is not supported.
pub open spec fn spec_mdf_info(map: &DescMap, file: Seq<u8>) -> Result<MdfInfoModel, MdfError> {
    if file.len() < 8 {
        Err(MdfError::IoError)
    } else if file.subrange(0, 8) != file_signature() {
        Err(MdfError::NotAnMdfFile)
    } else if file.len() < 64 {
        Err(MdfError::IoError)
    } else if !valid_utf8(file.subrange(8, 16)) {
        Err(MdfError::DataCorrupt)
    } else {
        let version_num = le_u16(file.subrange(28, 30)) as u16;
        if version_num < 400 {
            Err(MdfError::UnsupportedVersion)
        } else {
            match spec_block_at(map, file, header_offset()) {
                Err(e) => Err(e),
                Ok(block) => match normal_link(block.link_map, "hd_dg_first"@) {
                    None => Err(MdfError::SchemaMissing),
                    Some(first) => match first_or::<u64>(block.data, "hd_start_time_ns"@) {
                        Err(e) => Err(e),
                        Ok(t) => Ok(
                            MdfInfoModel {
                                version: trimmed_text(decode_utf8(file.subrange(8, 16))),
                                version_num,
                                time_stamp: t,
                                date_time: timestamp_text(as_signed(t)),
                                first_dg_offset: first,
                            },
                        ),
                    },
                },
            }
        }
    }
}

fn to_signed(t: u64) -> (r: i64)
    ensures
        r == as_signed(t),
{
    if t <= 0x7fff_ffff_ffff_ffff {
        t as i64
    } else {
        let low: u64 = t - 0x8000_0000_0000_0000;
        (low as i64) - 0x7fff_ffff_ffff_ffff - 1
    }
}

impl MdfInfo {
    /// Reads the identification block and the header block of the file.
    pub fn new(map: &DescMap, file: &[u8]) -> (r: Result<Self, MdfError>)
        ensures
            match r {
                Ok(info) => spec_mdf_info(map, file@) == Ok::<MdfInfoModel, MdfError>(info@),
                Err(e) => spec_mdf_info(map, file@) == Err::<MdfInfoModel, MdfError>(e),
            },
    {
        if file.len() < 8 {
            return Err(MdfError::IoError);
        }
        let sig: &[u8] = &file[0..8];
        if !(sig[0] == 0x4d && sig[1] == 0x44 && sig[2] == 0x46 && sig[3] == 0x20 && sig[4] == 0x20
            && sig[5] == 0x20 && sig[6] == 0x20 && sig[7] == 0x20) {
            assert(sig@ != file_signature());
            return Err(MdfError::NotAnMdfFile);
        }
        assert(sig@ =~= file_signature());
        if file.len() < 64 {
            return Err(MdfError::IoError);
        }
        let version: String = match string_from_utf8(slice_to_vec(&file[8..16])) {
            Some(text) => str_trim(text.as_str()),
            None => {
                return Err(MdfError::DataCorrupt);
            },
        };
        let version_num: u16 = read_u16_le(&file[28..30]);
        if version_num < 400 {
            return Err(MdfError::UnsupportedVersion);
        }
        let header_info: BlockInfo = match parse_block_at(map, file, 0x40) {
            Ok(info) => info,
            Err(e) => {
                return Err(e);
            },
        };
        let first_dg_offset: u64 = match header_info.get_link_offset_normal("hd_dg_first") {
            Some(x) => x,
            None => {
                return Err(MdfError::SchemaMissing);
            },
        };
        let time_stamp: u64 = match header_info.first_or_error::<u64>("hd_start_time_ns") {
            Ok(t) => t,
            Err(e) => {
                return Err(e);
            },
        };
        let date_time: String = format_timestamp(to_signed(time_stamp));
        Ok(MdfInfo { version, version_num, time_stamp, date_time, first_dg_offset })
    }
}

// ---------------------------------------------------------------------------
// The whole file
// ---------------------------------------------------------------------------

/// The data groups at the first `k` of `links` that can be opened.
pub open spec fn data_groups_upto(map: &DescMap, file: Seq<u8>, links: Seq<u64>, k: int) -> Seq<
    DataGroupModel,
>
    decreases k,
{
    if k <= 0 {
        Seq::empty()
    } else {
        let done = data_groups_upto(map, file, links, k - 1);
        match spec_data_group(map, file, links[k - 1]) {
            Ok(dg) => done.push(dg),
            Err(_) => done,
        }
    }
}

/// What each of the data groups holds.
pub open spec fn data_group_models(v: Seq<DataGroup>) -> Seq<DataGroupModel> {
    Seq::new(v.len(), |i: int| v[i]@)
}

/// What an `Mdf` holds.
pub struct MdfModel {
    pub mdfinfo: MdfInfoModel,
    pub data: Seq<DataGroupModel>,
}

/// The contents of the file: its header, and the data groups of the chain
/// that starts at the header's link. A data group that cannot be opened is
/// passed over.
pub open spec fn spec_mdf(map: &DescMap, file: Seq<u8>) -> Result<MdfModel, MdfError> {
    match spec_mdf_info(map, file) {
        Err(e) => Err(e),
        Ok(info) => match spec_chain(map, file, info.first_dg_offset, "DG"@) {
            Err(e) => Err(e),
            Ok(chain) => Ok(
                MdfModel {
                    mdfinfo: info,
                    data: data_groups_upto(map, file, chain_offsets(chain), chain.len() as int),
                },
            ),
        },
    }
}

/// The names of the channels of the first `k` data groups.
pub open spec fn file_names(data: Seq<DataGroupModel>, k: int) -> Seq<Seq<char>>
    decreases k,
{
    if k <= 0 {
        Seq::empty()
    } else {
        file_names(data, k - 1) + all_names(
            data[k - 1].channel_groups,
            data[k - 1].channel_groups.len() as int,
        )
    }
}

/// The names of the channels of the first `k` data groups, each with its
/// place.
pub open spec fn file_places(data: Seq<DataGroupModel>, k: int) -> Seq<(Seq<char>, Place)>
    decreases k,
{
    if k <= 0 {
        Seq::empty()
    } else {
        file_places(data, k - 1) + group_places(
            (k - 1) as usize,
            data[k - 1].channel_groups,
            data[k - 1].channel_groups.len() as int,
        )
    }
}

/// The place of the channel named `name` in the file.
pub open spec fn place_of(data: Seq<DataGroupModel>, name: Seq<char>) -> Option<Place> {
    last_place(file_places(data, data.len() as int), name)
}

/// Whether the place lies in the file and the channel there has the name.
pub open spec fn place_names(data: Seq<DataGroupModel>, p: Place, name: Seq<char>) -> bool {
    &&& p.0 < data.len()
    &&& p.1 < data[p.0 as int].channel_groups.len()
    &&& p.2 < data[p.0 as int].channel_groups[p.1 as int].channels.len()
    &&& data[p.0 as int].channel_groups[p.1 as int].channels[p.2 as int].name == name
}

/// Whether the entry of a list of the file's channels is the one for
/// `place`: it has the name, and its link points to the data group, the
/// channel group and the channel that stand there.
pub open spec fn file_entry_at(
    entry: (String, ChannelLink),
    place: (Seq<char>, Place),
    data: Seq<DataGroupModel>,
) -> bool {
    &&& entry.0@ == place.0
    &&& place.1.0 < data.len()
    &&& entry.1.spec_data_group()@ == data[place.1.0 as int]
    &&& link_at(
        entry.1,
        data[place.1.0 as int].channel_groups,
        place.1.1 as int,
        place.1.2 as int,
    )
}

/// The names of the channels of the data group `dg`.
pub open spec fn names_in(dg: DataGroupModel) -> Seq<Seq<char>> {
    all_names(dg.channel_groups, dg.channel_groups.len() as int)
}

/// Whether the name occurs in two different data groups.
pub open spec fn is_duplicate(data: Seq<DataGroupModel>, name: Seq<char>) -> bool {
    exists|i: int, j: int|
        0 <= i < j < data.len() && #[trigger] names_in(data[i]).contains(name) && #[trigger] names_in(
            data[j],
        ).contains(name)
}

/// The contents of a measurement file.
#[derive(Debug)]
pub struct Mdf {
    pub mdfinfo: MdfInfo,
    pub data: Vec<DataGroup>,
}

impl View for Mdf {
    type V = MdfModel;

    open spec fn view(&self) -> MdfModel {
        MdfModel { mdfinfo: self.mdfinfo@, data: data_group_models(self.data@) }
    }
}

fn contains_text(v: &Vec<String>, s: &String) -> (r: bool)
    ensures
        r == v.deep_view().contains(s@),
{
    let mut i: usize = 0;
    while i < v.len()
        invariant
            i <= v@.len(),
            forall|j: int| 0 <= j < i ==> (#[trigger] v@[j])@ != s@,
        decreases v@.len() - i,
    {
        if v[i] == *s {
            assert(v.deep_view()[i as int] == s@);
            return true;
        }
        i += 1;
    }
    proof {
        let dv = v.deep_view();
        assert forall|j: int| 0 <= j < dv.len() implies dv[j] != s@ by {
            assert(v@[j]@ != s@);
        }
    }
    false
}

impl Mdf {
    /// Reads the header of the file and opens its data groups.
    pub fn new(map: &DescMap, file: &[u8]) -> (r: Result<Self, MdfError>)
        ensures
            match r {
                Ok(mdf) => spec_mdf(map, file@) == Ok::<MdfModel, MdfError>(mdf@),
                Err(e) => spec_mdf(map, file@) == Err::<MdfModel, MdfError>(e),
            },
    {
        let mdfinfo: MdfInfo = match MdfInfo::new(map, file) {
            Ok(info) => info,
            Err(e) => {
                return Err(e);
            },
        };
        let dg_links: Vec<u64> = match get_child_links(map, file, mdfinfo.first_dg_offset, "DG") {
            Ok(l) => l,
            Err(e) => {
                return Err(e);
            },
        };
        let mut data: Vec<DataGroup> = Vec::new();
        assert(data_group_models(data@) =~= Seq::<DataGroupModel>::empty());
        let mut i: usize = 0;
        while i < dg_links.len()
            invariant
                i <= dg_links@.len(),
                data_group_models(data@) == data_groups_upto(map, file@, dg_links@, i as int),
            decreases dg_links@.len() - i,
        {
            match DataGroup::new(map, file, dg_links[i]) {
                Ok(dg) => {
                    let ghost before = data_group_models(data@);
                    let ghost m = dg@;
                    data.push(dg);
                    assert(data_group_models(data@) =~= before.push(m));
                },
                Err(_) => {},
            }
            i += 1;
        }
        Ok(Mdf { mdfinfo, data })
    }

    /// Every channel of the file under its name, data group by data group,
    /// each linked with its channel group and its data group.
    pub fn generate_channel_map(&self) -> (links: Vec<(String, ChannelLink<'_>)>)
        ensures
            links@.len() == file_names(self@.data, self@.data.len() as int).len(),
            forall|k: int|
                0 <= k < links@.len() ==> {
                    &&& (#[trigger] links@[k]).0@ == file_names(
                        self@.data,
                        self@.data.len() as int,
                    )[k]
                    &&& links@[k].1.spec_channel()@.name == links@[k].0@
                },
            links@.len() == file_places(self@.data, self@.data.len() as int).len(),
            forall|k: int|
                0 <= k < links@.len() ==> #[trigger] file_entry_at(
                    links@[k],
                    file_places(self@.data, self@.data.len() as int)[k],
                    self@.data,
                ),
    {
        let mut links: Vec<(String, ChannelLink<'_>)> = Vec::new();
        let ghost data = data_group_models(self.data@);
        let mut i: usize = 0;
        while i < self.data.len()
            invariant
                i <= self.data@.len(),
                data == data_group_models(self.data@),
                links@.len() == file_places(data, i as int).len(),
                forall|k: int|
                    0 <= k < links@.len() ==> #[trigger] file_entry_at(
                        links@[k],
                        file_places(data, i as int)[k],
                        data,
                    ),
                links@.len() == file_names(data, i as int).len(),
                forall|k: int|
                    0 <= k < links@.len() ==> {
                        &&& (#[trigger] links@[k]).0@ == file_names(data, i as int)[k]
                        &&& links@[k].1.spec_channel()@.name == links@[k].0@
                    },
            decreases self.data@.len() - i,
        {
            let dg: &DataGroup = &self.data[i];
            assert(dg@ == data[i as int]);
            let mut part: Vec<(String, ChannelLink<'_>)> = dg.create_map();
            let ghost before = links@;
            let ghost added = part@;
            links.append(&mut part);
            proof {
                let cgs = data[i as int].channel_groups;
                let old_places = file_places(data, i as int);
                let zero = group_places(0, cgs, cgs.len() as int);
                let here = group_places(i, cgs, cgs.len() as int);
                lemma_group_places_shift(i, cgs, cgs.len() as int);
                let places = file_places(data, i + 1);
                assert(places == old_places + here);
                assert forall|k: int| 0 <= k < links@.len() implies #[trigger] file_entry_at(
                    links@[k],
                    places[k],
                    data,
                ) by {
                    if k < before.len() {
                        assert(links@[k] == before[k]);
                        assert(file_entry_at(before[k], old_places[k], data));
                        assert(places[k] == old_places[k]);
                    } else {
                        let m = k - before.len();
                        assert(links@[k] == added[m]);
                        assert(places[k] == here[m]);
                        assert(entry_at(added[m], zero[m], cgs));
                        assert(added[m].1.spec_data_group() == *dg);
                    }
                }
            }
            proof {
                let next = file_names(data, i + 1);
                assert forall|k: int| 0 <= k < links@.len() implies {
                    &&& (#[trigger] links@[k]).0@ == next[k]
                    &&& links@[k].1.spec_channel()@.name == links@[k].0@
                } by {
                    if k < before.len() {
                        assert(links@[k] == before[k]);
                    } else {
                        assert(links@[k] == added[k - before.len()]);
                    }
                }
            }
            i += 1;
        }
        links
    }

    /// The names of all channels of the file, data group by data group.
    pub fn get_all_channel_names(&self) -> (names: Vec<String>)
        ensures
            names.deep_view() == file_names(self@.data, self@.data.len() as int),
    {
        let mut names: Vec<String> = Vec::new();
        let ghost data = data_group_models(self.data@);
        assert(names.deep_view() =~= Seq::<Seq<char>>::empty());
        let mut i: usize = 0;
        while i < self.data.len()
            invariant
                i <= self.data@.len(),
                data == data_group_models(self.data@),
                names.deep_view() == file_names(data, i as int),
            decreases self.data@.len() - i,
        {
            let dg: &DataGroup = &self.data[i];
            assert(dg@ == data[i as int]);
            let mut part: Vec<String> = dg.get_all_channel_names();
            let ghost before = names.deep_view();
            let ghost added = part.deep_view();
            names.append(&mut part);
            assert(names.deep_view() =~= before + added);
            i += 1;
        }
        names
    }

    /// The start time of the measurement as text.
    pub fn get_time_stamp(&self) -> (s: String)
        ensures
            s@ == self@.mdfinfo.date_time,
    {
        self.mdfinfo.date_time.clone()
    }

    /// The data group at place `index`.
    pub fn nth_dg(&self, index: usize) -> (r: Option<&DataGroup>)
        ensures
            match r {
                Some(dg) => index < self@.data.len() && self@.data[index as int] == dg@,
                None => index >= self@.data.len(),
            },
    {
        if index < self.data.len() {
            Some(&self.data[index])
        } else {
            None
        }
    }

    /// Whether every data group of the file is sorted.
    pub fn is_sorted(&self) -> (b: bool)
        ensures
            b == (forall|i: int| 0 <= i < self@.data.len() ==> (#[trigger] self@.data[i]).sorted),
    {
        let mut i: usize = 0;
        while i < self.data.len()
            invariant
                i <= self.data@.len(),
                forall|j: int| 0 <= j < i ==> (#[trigger] self@.data[j]).sorted,
            decreases self.data@.len() - i,
        {
            if !self.data[i].is_sorted() {
                assert(!self@.data[i as int].sorted);
                return false;
            }
            i += 1;
        }
        true
    }
}

/// The channel groups of the first `k` data groups, data group by data
/// group.
pub open spec fn file_groups(data: Seq<DataGroupModel>, k: int) -> Seq<ChannelGroupModel>
    decreases k,
{
    if k <= 0 {
        Seq::empty()
    } else {
        file_groups(data, k - 1) + data[k - 1].channel_groups
    }
}

/// Whether `list` holds a name that occurs in the data groups `a` and `b`.
spec fn covers_pair(list: Seq<Seq<char>>, names: Seq<Seq<Seq<char>>>, a: int, b: int) -> bool {
    forall|name: Seq<char>|
        names[a].contains(name) && names[b].contains(name) ==> #[trigger] list.contains(name)
}

impl Mdf {
    /// The channel groups of the file, data group by data group.
    pub fn get_all_channel_groups(&self) -> (groups: Vec<&ChannelGroup>)
        ensures
            groups@.len() == file_groups(self@.data, self@.data.len() as int).len(),
            forall|k: int|
                0 <= k < groups@.len() ==> (#[trigger] groups@[k])@ == file_groups(
                    self@.data,
                    self@.data.len() as int,
                )[k],
    {
        let mut groups: Vec<&ChannelGroup> = Vec::new();
        let ghost data = data_group_models(self.data@);
        let mut i: usize = 0;
        while i < self.data.len()
            invariant
                i <= self.data@.len(),
                data == data_group_models(self.data@),
                groups@.len() == file_groups(data, i as int).len(),
                forall|k: int|
                    0 <= k < groups@.len() ==> (#[trigger] groups@[k])@ == file_groups(
                        data,
                        i as int,
                    )[k],
            decreases self.data@.len() - i,
        {
            let dg: &DataGroup = &self.data[i];
            assert(dg@ == data[i as int]);
            let cgs: &Vec<ChannelGroup> = dg.get_channle_groups();
            let ghost base = groups@;
            let mut j: usize = 0;
            while j < cgs.len()
                invariant
                    j <= cgs@.len(),
                    group_models(cgs@) == data[i as int].channel_groups,
                    groups@.len() == base.len() + j,
                    forall|k: int| 0 <= k < base.len() ==> #[trigger] groups@[k] == base[k],
                    forall|m: int| 0 <= m < j ==> (#[trigger] groups@[base.len() + m])@ == cgs@[m]@,
                decreases cgs@.len() - j,
            {
                groups.push(&cgs[j]);
                j += 1;
            }
            proof {
                let next = file_groups(data, i + 1);
                assert forall|k: int| 0 <= k < groups@.len() implies (#[trigger] groups@[k])@
                    == next[k] by {
                    if k < base.len() {
                        assert(groups@[k] == base[k]);
                    } else {
                        let m = k - base.len();
                        assert(groups@[base.len() + m]@ == cgs@[m]@);
                        assert(group_models(cgs@)[m] == cgs@[m]@);
                    }
                }
            }
            i += 1;
        }
        groups
    }

    /// The names that occur in more than one data group, or nothing where
    /// no name does. A name may stand in the list more than once.
    pub fn check_duplicate_channel(&self) -> (r: Option<Vec<String>>)
        ensures
            r is Some <==> exists|name: Seq<char>| is_duplicate(self@.data, name),
            r is Some ==> r->0@.len() > 0,
            r is Some ==> forall|k: int|
                0 <= k < r->0@.len() ==> is_duplicate(self@.data, (#[trigger] r->0@[k])@),
            r is Some ==> forall|name: Seq<char>|
                is_duplicate(self@.data, name) ==> r->0.deep_view().contains(name),
    {
        let ghost data = data_group_models(self.data@);
        let mut v: Vec<Vec<String>> = Vec::new();
        let mut d: usize = 0;
        while d < self.data.len()
            invariant
                d <= self.data@.len(),
                data == data_group_models(self.data@),
                v@.len() == d,
                forall|a: int| 0 <= a < d ==> (#[trigger] v@[a]).deep_view() == names_in(data[a]),
            decreases self.data@.len() - d,
        {
            let dg: &DataGroup = &self.data[d];
            assert(dg@ == data[d as int]);
            v.push(dg.get_all_channel_names());
            d += 1;
        }
        let n: usize = v.len();
        let ghost names: Seq<Seq<Seq<char>>> = Seq::new(n as nat, |a: int| names_in(data[a]));
        let mut list: Vec<String> = Vec::new();
        let mut i: usize = 0;
        while i < n
            invariant
                i <= n,
                n == v@.len(),
                n == data.len(),
                names.len() == n,
                forall|a: int| 0 <= a < n ==> #[trigger] names[a] == names_in(data[a]),
                forall|a: int| 0 <= a < n ==> (#[trigger] v@[a]).deep_view() == names[a],
                forall|k: int| 0 <= k < list@.len() ==> is_duplicate(data, (#[trigger] list@[k])@),
                forall|a: int, b: int|
                    0 <= a < i && a < b < n ==> #[trigger] covers_pair(list.deep_view(), names, a, b),
            decreases n - i,
        {
            let mut j: usize = i + 1;
            while j < n
                invariant
                    i < j <= n,
                    n == v@.len(),
                    n == data.len(),
                    names.len() == n,
                    forall|a: int| 0 <= a < n ==> #[trigger] names[a] == names_in(data[a]),
                    forall|a: int| 0 <= a < n ==> (#[trigger] v@[a]).deep_view() == names[a],
                    forall|k: int|
                        0 <= k < list@.len() ==> is_duplicate(data, (#[trigger] list@[k])@),
                    forall|a: int, b: int|
                        0 <= a < i && a < b < n ==> #[trigger] covers_pair(
                            list.deep_view(),
                            names,
                            a,
                            b,
                        ),
                    forall|b: int|
                        i < b < j ==> #[trigger] covers_pair(list.deep_view(), names, i as int, b),
                decreases n - j,
            {
                let mut k: usize = 0;
                let ghost start = list.deep_view();
                while k < v[i].len()
                    invariant
                        i < j < n,
                        n == v@.len(),
                        n == data.len(),
                        names.len() == n,
                        k <= v@[i as int]@.len(),
                        forall|a: int| 0 <= a < n ==> #[trigger] names[a] == names_in(data[a]),
                        forall|a: int| 0 <= a < n ==> (#[trigger] v@[a]).deep_view() == names[a],
                        forall|m: int|
                            0 <= m < list@.len() ==> is_duplicate(data, (#[trigger] list@[m])@),
                        forall|name: Seq<char>|
                            start.contains(name) ==> #[trigger] list.deep_view().contains(name),
                        forall|m: int|
                            0 <= m < k && names[j as int].contains(#[trigger] names[i as int][m])
                                ==> list.deep_view().contains(names[i as int][m]),
                    decreases v@[i as int]@.len() - k,
                {
                    let name: &String = &v[i][k];
                    assert(v@[i as int].deep_view()[k as int] == name@);
                    assert(names[i as int][k as int] == name@);
                    if contains_text(&v[j], name) {
                        let ghost before = list.deep_view();
                        list.push(name.clone());
                        proof {
                            let after = list.deep_view();
                            assert(after =~= before.push(name@));
                            assert(after[after.len() - 1] == name@);
                            assert forall|other: Seq<char>| before.contains(other) implies after.contains(
                                other,
                            ) by {
                                let w = choose|w: int| 0 <= w < before.len() && before[w] == other;
                                assert(after[w] == other);
                            }
                            assert(names_in(data[i as int]).contains(name@));
                            assert(names_in(data[j as int]).contains(name@));
                            assert(is_duplicate(data, name@));
                        }
                    }
                    k += 1;
                }
                proof {
                    let now = list.deep_view();
                    assert forall|a: int, b: int| 0 <= a < i && a < b < n implies #[trigger] covers_pair(
                        now,
                        names,
                        a,
                        b,
                    ) by {
                        assert(covers_pair(start, names, a, b));
                        assert forall|name: Seq<char>|
                            names[a].contains(name) && names[b].contains(name) implies now.contains(
                            name,
                        ) by {
                            assert(start.contains(name));
                        }
                    }
                    assert forall|b: int| i < b < j + 1 implies #[trigger] covers_pair(
                        now,
                        names,
                        i as int,
                        b,
                    ) by {
                        if b < j {
                            assert(covers_pair(start, names, i as int, b));
                            assert forall|name: Seq<char>|
                                names[i as int].contains(name) && names[b].contains(
                                    name,
                                ) implies now.contains(name) by {
                                assert(start.contains(name));
                            }
                        } else {
                            assert forall|name: Seq<char>|
                                names[i as int].contains(name) && names[j as int].contains(
                                    name,
                                ) implies now.contains(name) by {
                                let m = choose|m: int|
                                    0 <= m < names[i as int].len() && names[i as int][m] == name;
                                assert(names[j as int].contains(names[i as int][m]));
                            }
                        }
                    }
                }
                j += 1;
            }
            i += 1;
        }
        proof {
            let now = list.deep_view();
            assert forall|name: Seq<char>| is_duplicate(data, name) implies now.contains(name) by {
                let (a, b) = choose|a: int, b: int|
                    0 <= a < b < data.len() && #[trigger] names_in(data[a]).contains(name)
                        && #[trigger] names_in(data[b]).contains(name);
                assert(covers_pair(now, names, a, b));
                assert(names[a].contains(name) && names[b].contains(name));
            }
            assert(data == self@.data);
            if list@.len() > 0 {
                assert(is_duplicate(data, list@[0]@));
                assert(exists|name: Seq<char>| is_duplicate(self@.data, name));
            } else {
                assert forall|name: Seq<char>| !is_duplicate(data, name) by {
                    if is_duplicate(data, name) {
                        assert(now.contains(name));
                    }
                }
            }
        }
        if list.len() > 0 {
            Some(list)
        } else {
            None
        }
    }
}

} // verus!
