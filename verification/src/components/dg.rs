//! Data groups: the payload that the records of one or more channel groups
//! share, and where in it each record lies.

use vstd::prelude::*;
use std::collections::HashMap;
use crate::block::{first_in, normal_link, BlockDesc, BlockInfo, BlockModel};
use crate::components::cg::{spec_channel_group, ChannelGroup, ChannelGroupModel};
use crate::components::cn::{
    channel_models, lemma_channel_models, raw_error, raw_holds, Channel, ChannelModel,
};
use crate::data_serde::{str_eq, DataValue};
use crate::components::dx::{
    read_data_block, spec_data_block, DataBlock, DataBlockModel, VirtualBuf,
};
use crate::parser::{
    chain_offsets, get_child_links, spec_chain, spec_text_or_empty, text_or_empty, DescMap,
};
use crate::data_serde::{le_u16, le_u32, le_u64, read_u16_le, read_u32_le, read_u64_le};
use crate::error::MdfError;

verus! {

broadcast use vstd::std_specs::hash::group_hash_axioms;

/// How many bytes the id takes that stands before each record.
#[derive(Debug, Clone, Copy, PartialEq, Eq, Structural)]
pub enum RecIDSize {
    NORECID,
    UINT8,
    UINT16,
    UINT32,
    UINT64,
}

impl RecIDSize {
    /// The number of bytes of the id.
    pub open spec fn spec_width(&self) -> int {
        match self {
            RecIDSize::NORECID => 0,
            RecIDSize::UINT8 => 1,
            RecIDSize::UINT16 => 2,
            RecIDSize::UINT32 => 4,
            RecIDSize::UINT64 => 8,
        }
    }

    /// The number of bytes of the id.
    pub fn width(&self) -> (w: usize)
        ensures
            w == self.spec_width(),
    {
        match self {
            RecIDSize::NORECID => 0,
            RecIDSize::UINT8 => 1,
            RecIDSize::UINT16 => 2,
            RecIDSize::UINT32 => 4,
            RecIDSize::UINT64 => 8,
        }
    }

    /// The size that the number `code` of a data group block stands for.
    pub open spec fn from_code(code: Option<u8>) -> Option<RecIDSize> {
        match code {
            Some(0u8) => Some(RecIDSize::NORECID),
            Some(1u8) => Some(RecIDSize::UINT8),
            Some(2u8) => Some(RecIDSize::UINT16),
            Some(4u8) => Some(RecIDSize::UINT32),
            Some(8u8) => Some(RecIDSize::UINT64),
            _ => None,
        }
    }
}

// ---------------------------------------------------------------------------
// The records in a payload
// ---------------------------------------------------------------------------

/// The record layout: for each record id the number of bytes of a record
/// and the number of records.
pub type Layout = Map<u64, (u32, u64)>;

/// The number of bytes of the payload from `pos` on.
pub open spec fn bytes_left(block: DataBlockModel, pos: int) -> nat {
    if pos < block.len() {
        (block.len() - pos) as nat
    } else {
        0
    }
}

/// The id that `bytes` hold, least significant byte first.
pub open spec fn id_of(bytes: Seq<u8>, width: int) -> u64 {
    if width == 1 {
        bytes[0] as u64
    } else if width == 2 {
        le_u16(bytes) as u64
    } else if width == 4 {
        le_u32(bytes) as u64
    } else {
        le_u64(bytes) as u64
    }
}

/// The id of the record that starts at `pos` of the payload. Where records
/// carry no id, every record belongs to the one group that there is.
pub open spec fn record_id_at(
    block: DataBlockModel,
    file: Seq<u8>,
    width: int,
    implicit: Option<u64>,
    pos: int,
) -> Result<u64, MdfError> {
    if width == 0 {
        match implicit {
            Some(id) => Ok(id),
            None => Err(MdfError::DataCorrupt),
        }
    } else {
        match block.read(file, pos, width) {
            Err(e) => Err(e),
            Ok(bytes) => Ok(id_of(bytes, width)),
        }
    }
}

/// The records from `pos` to the end of the payload, each with its id and
/// the virtual offset of its first byte behind the id. A record with an id
/// that no group has, and a record of no bytes, make the payload corrupt.
pub open spec fn scan_from(
    block: DataBlockModel,
    file: Seq<u8>,
    width: int,
    implicit: Option<u64>,
    layout: Layout,
    pos: int,
) -> Result<Seq<(u64, u64)>, MdfError>
    decreases bytes_left(block, pos),
{
    if pos >= block.len() {
        Ok(Seq::empty())
    } else {
        match record_id_at(block, file, width, implicit, pos) {
            Err(e) => Err(e),
            Ok(id) => {
                if !layout.contains_key(id) {
                    Err(MdfError::DataCorrupt)
                } else {
                    let step = width + layout[id].0;
                    if step <= 0 || pos + step > u64::MAX {
                        Err(MdfError::DataCorrupt)
                    } else {
                        match scan_from(block, file, width, implicit, layout, pos + step) {
                            Err(e) => Err(e),
                            Ok(rest) => Ok(seq![(id, (pos + width) as u64)] + rest),
                        }
                    }
                }
            },
        }
    }
}

/// The virtual offset at which the scan of the records from `pos` on ends:
/// the first at or behind the end of the payload at which a record would
/// start.
pub open spec fn scan_end(
    block: DataBlockModel,
    file: Seq<u8>,
    width: int,
    implicit: Option<u64>,
    layout: Layout,
    pos: int,
) -> int
    decreases bytes_left(block, pos),
{
    if pos >= block.len() {
        pos
    } else {
        match record_id_at(block, file, width, implicit, pos) {
            Err(e) => pos,
            Ok(id) => {
                if !layout.contains_key(id) {
                    pos
                } else {
                    let step = width + layout[id].0;
                    if step <= 0 || pos + step > u64::MAX {
                        pos
                    } else {
                        scan_end(block, file, width, implicit, layout, pos + step)
                    }
                }
            },
        }
    }
}

/// The number of records with the id `id`.
pub open spec fn occurrences(records: Seq<(u64, u64)>, id: u64) -> nat
    decreases records.len(),
{
    if records.len() == 0 {
        0
    } else {
        occurrences(records.drop_last(), id) + (if records.last().0 == id {
            1nat
        } else {
            0nat
        })
    }
}

/// The offsets of the records with the id `id`, in the order of the
/// payload.
pub open spec fn offsets_of(records: Seq<(u64, u64)>, id: u64) -> Seq<u64>
    decreases records.len(),
{
    if records.len() == 0 {
        Seq::empty()
    } else {
        let rest = offsets_of(records.drop_last(), id);
        if records.last().0 == id {
            rest.push(records.last().1)
        } else {
            rest
        }
    }
}

/// The number of bytes that the records take, ids included.
pub open spec fn bytes_taken(records: Seq<(u64, u64)>, width: int, layout: Layout) -> int
    decreases records.len(),
{
    if records.len() == 0 {
        0
    } else {
        bytes_taken(records.drop_last(), width, layout) + width + layout[records.last().0].0
    }
}

/// Whether each id that occurs among the records occurs as often as its
/// group declares cycles.
pub open spec fn counts_agree(records: Seq<(u64, u64)>, layout: Layout) -> bool {
    forall|id: u64|
        occurrences(records, id) > 0 ==> layout.contains_key(id) && (#[trigger] layout[id]).1
            == occurrences(records, id)
}

/// The records of the payload, where the payload is sound: it is made of
/// whole records of known groups, and of each group that occurs as many as
/// the group declares.
pub open spec fn checked_scan(
    block: DataBlockModel,
    file: Seq<u8>,
    width: int,
    implicit: Option<u64>,
    layout: Layout,
) -> Result<Seq<(u64, u64)>, MdfError> {
    match scan_from(block, file, width, implicit, layout, 0) {
        Err(e) => Err(e),
        Ok(records) => if counts_agree(records, layout) {
            Ok(records)
        } else {
            Err(MdfError::DataCorrupt)
        },
    }
}

proof fn lemma_occurrences_bound(records: Seq<(u64, u64)>, id: u64)
    ensures
        occurrences(records, id) <= records.len(),
        offsets_of(records, id).len() == occurrences(records, id),
    decreases records.len(),
{
    if records.len() > 0 {
        lemma_occurrences_bound(records.drop_last(), id);
    }
}

proof fn lemma_occurrences_push(records: Seq<(u64, u64)>, r: (u64, u64), id: u64)
    ensures
        occurrences(records.push(r), id) == occurrences(records, id) + (if r.0 == id {
            1nat
        } else {
            0nat
        }),
        offsets_of(records.push(r), id) == (if r.0 == id {
            offsets_of(records, id).push(r.1)
        } else {
            offsets_of(records, id)
        }),
        forall|width: int, layout: Layout| #[trigger]
            bytes_taken(records.push(r), width, layout) == bytes_taken(records, width, layout)
                + width + layout[r.0].0,
{
    assert(records.push(r).drop_last() =~= records);
}

/// The scan takes the records one behind the other: on success the bytes
/// that the records take, ids included, are the bytes from the start of the
/// payload to where the scan ends, and the scan ends at or behind the end
/// of the payload.
pub proof fn lemma_scan_covers(
    block: DataBlockModel,
    file: Seq<u8>,
    width: int,
    implicit: Option<u64>,
    layout: Layout,
    pos: int,
)
    requires
        0 <= pos,
        0 <= width,
        scan_from(block, file, width, implicit, layout, pos) is Ok,
    ensures
        bytes_taken(scan_from(block, file, width, implicit, layout, pos)->Ok_0, width, layout)
            == scan_end(block, file, width, implicit, layout, pos) - pos,
        scan_end(block, file, width, implicit, layout, pos) >= block.len() || scan_end(
            block,
            file,
            width,
            implicit,
            layout,
            pos,
        ) == pos,
        pos < block.len() ==> scan_end(block, file, width, implicit, layout, pos) >= block.len(),
    decreases bytes_left(block, pos),
{
    if pos < block.len() {
        let id = record_id_at(block, file, width, implicit, pos)->Ok_0;
        let step = width + layout[id].0;
        lemma_scan_covers(block, file, width, implicit, layout, pos + step);
        let rest = scan_from(block, file, width, implicit, layout, pos + step)->Ok_0;
        let first = (id, (pos + width) as u64);
        lemma_bytes_taken_front(first, rest, width, layout);
    }
}

proof fn lemma_bytes_taken_front(first: (u64, u64), rest: Seq<(u64, u64)>, width: int, layout: Layout)
    ensures
        bytes_taken(seq![first] + rest, width, layout) == width + layout[first.0].0 + bytes_taken(
            rest,
            width,
            layout,
        ),
    decreases rest.len(),
{
    let all = seq![first] + rest;
    if rest.len() == 0 {
        assert(all.drop_last() =~= Seq::<(u64, u64)>::empty());
        assert(all.last() == first);
        assert(bytes_taken(all.drop_last(), width, layout) == 0);
    } else {
        assert(all.drop_last() =~= seq![first] + rest.drop_last());
        assert(all.last() == rest.last());
        lemma_bytes_taken_front(first, rest.drop_last(), width, layout);
    }
}

/// Where records carry no id, all records are of the one group, and the
/// bytes that they take are the size of a record times their number.
pub proof fn lemma_single_group_bytes(records: Seq<(u64, u64)>, layout: Layout, id: u64)
    requires
        forall|i: int| 0 <= i < records.len() ==> (#[trigger] records[i]).0 == id,
    ensures
        occurrences(records, id) == records.len(),
        bytes_taken(records, 0, layout) == layout[id].0 * records.len(),
    decreases records.len(),
{
    if records.len() > 0 {
        let front = records.drop_last();
        assert forall|i: int| 0 <= i < front.len() implies (#[trigger] front[i]).0 == id by {
            assert(front[i] == records[i]);
        }
        lemma_single_group_bytes(front, layout, id);
        assert(records.last() == records[records.len() - 1]);
        assert(layout[id].0 * front.len() + layout[id].0 == layout[id].0 * records.len())
            by (nonlinear_arith)
            requires
                front.len() + 1 == records.len(),
        ;
    }
}

/// Whether the offsets kept are those of the records: for a sorted group
/// none are kept; else for each id that occurs the offsets of its records,
/// in order.
pub open spec fn offsets_hold(offsets: Map<u64, Vec<u64>>, records: Seq<(u64, u64)>, sorted: bool) -> bool {
    if sorted {
        offsets == Map::<u64, Vec<u64>>::empty()
    } else {
        &&& forall|id: u64| #[trigger] offsets.contains_key(id) <==> occurrences(records, id) > 0
        &&& forall|id: u64|
            offsets.contains_key(id) ==> (#[trigger] offsets[id])@ == offsets_of(records, id)
    }
}

fn read_rec_id(block: &DataBlock, file: &[u8], w: usize, implicit: Option<u64>, pos: u64) -> (r:
    Result<u64, MdfError>)
    requires
        w == 0 || w == 1 || w == 2 || w == 4 || w == 8,
    ensures
        r == record_id_at(block@, file@, w as int, implicit, pos as int),
{
    if w == 0 {
        return match implicit {
            Some(id) => Ok(id),
            None => Err(MdfError::DataCorrupt),
        };
    }
    let mut buf: Vec<u8> = vec![0u8; w];
    match block.read_virtual_buf(file, pos, buf.as_mut_slice()) {
        Err(e) => Err(e),
        Ok(()) => {
            if w == 1 {
                Ok(buf[0] as u64)
            } else if w == 2 {
                Ok(read_u16_le(buf.as_slice()) as u64)
            } else if w == 4 {
                Ok(read_u32_le(buf.as_slice()) as u64)
            } else {
                Ok(read_u64_le(buf.as_slice()))
            }
        },
    }
}

/// Walks the payload record by record, counts the records of each id and,
/// for an unsorted group, notes where each record lies.
#[verifier::loop_isolation(false)]
fn scan_payload(
    block: &DataBlock,
    file: &[u8],
    size: RecIDSize,
    implicit: Option<u64>,
    layout: &HashMap<u64, (u32, u64)>,
    sorted: bool,
) -> (r: Result<(HashMap<u64, Vec<u64>>, Ghost<Seq<(u64, u64)>>), MdfError>)
    ensures
        match r {
            Ok((offsets, records)) => {
                &&& checked_scan(block@, file@, size.spec_width(), implicit, layout@) == Ok::<
                    Seq<(u64, u64)>,
                    MdfError,
                >(records@)
                &&& offsets_hold(offsets@, records@, sorted)
            },
            Err(e) => checked_scan(block@, file@, size.spec_width(), implicit, layout@) == Err::<
                Seq<(u64, u64)>,
                MdfError,
            >(e),
        },
{
    let w: usize = size.width();
    let data_length: u64 = block.get_data_len();
    let mut offsets: HashMap<u64, Vec<u64>> = HashMap::new();
    let mut counts: HashMap<u64, u64> = HashMap::new();
    let mut seen: Vec<u64> = Vec::new();
    let mut cur: u64 = 0;
    let ghost mut prefix: Seq<(u64, u64)> = Seq::empty();
    let ghost whole = scan_from(block@, file@, w as int, implicit, layout@, 0);
    while cur < data_length
        invariant
            w == size.spec_width(),
            data_length == block@.len(),
            whole == scan_from(block@, file@, w as int, implicit, layout@, 0),
            whole == (match scan_from(block@, file@, w as int, implicit, layout@, cur as int) {
                Ok(rest) => Ok::<Seq<(u64, u64)>, MdfError>(prefix + rest),
                Err(e) => Err::<Seq<(u64, u64)>, MdfError>(e),
            }),
            prefix.len() <= cur,
            forall|id: u64| #[trigger] counts@.contains_key(id) <==> occurrences(prefix, id) > 0,
            forall|id: u64| counts@.contains_key(id) ==> #[trigger] counts@[id] == occurrences(prefix, id),
            forall|id: u64| counts@.contains_key(id) ==> #[trigger] layout@.contains_key(id),
            forall|id: u64| #[trigger] counts@.contains_key(id) <==> seen@.contains(id),
            sorted ==> offsets@ == Map::<u64, Vec<u64>>::empty(),
            !sorted ==> forall|id: u64|
                #[trigger] offsets@.contains_key(id) <==> occurrences(prefix, id) > 0,
            !sorted ==> forall|id: u64|
                offsets@.contains_key(id) ==> (#[trigger] offsets@[id])@ == offsets_of(prefix, id),
        decreases bytes_left(block@, cur as int),
    {
        let id: u64 = match read_rec_id(block, file, w, implicit, cur) {
            Ok(id) => id,
            Err(e) => {
                return Err(e);
            },
        };
        let rec: u32 = match layout.get(&id) {
            Some(p) => p.0,
            None => {
                return Err(MdfError::DataCorrupt);
            },
        };
        let step: u64 = w as u64 + rec as u64;
        if step == 0 || step > u64::MAX - cur {
            return Err(MdfError::DataCorrupt);
        }
        let off: u64 = cur + w as u64;
        let ghost before = prefix;
        proof {
            lemma_occurrences_bound(before, id);
            lemma_occurrences_push(before, (id, off), id);
            assert forall|other: u64| other != id implies occurrences(before.push((id, off)), other)
                == occurrences(before, other) && offsets_of(before.push((id, off)), other)
                == offsets_of(before, other) by {
                lemma_occurrences_push(before, (id, off), other);
            }
        }
        match counts.get(&id) {
            Some(c) => {
                let next: u64 = *c + 1;
                counts.insert(id, next);
            },
            None => {
                counts.insert(id, 1);
                let ghost seen_before = seen@;
                seen.push(id);
                proof {
                    assert(seen@.last() == id);
                    assert forall|other: u64| seen_before.contains(other) implies seen@.contains(
                        other,
                    ) by {
                        let k = choose|k: int| 0 <= k < seen_before.len() && seen_before[k] == other;
                        assert(seen@[k] == other);
                    }
                    assert forall|other: u64| seen@.contains(other) implies other == id
                        || seen_before.contains(other) by {
                        let k = choose|k: int| 0 <= k < seen@.len() && seen@[k] == other;
                        if k < seen_before.len() {
                            assert(seen_before[k] == other);
                        }
                    }
                }
            },
        }
        if !sorted {
            match offsets.remove(&id) {
                Some(mut v) => {
                    v.push(off);
                    offsets.insert(id, v);
                },
                None => {
                    let mut v: Vec<u64> = Vec::new();
                    v.push(off);
                    offsets.insert(id, v);
                    assert(offsets_of(before, id) =~= Seq::<u64>::empty());
                },
            }
        }
        proof {
            prefix = before.push((id, off));
            let rest = scan_from(block@, file@, w as int, implicit, layout@, cur + step);
            if rest is Ok {
                assert(before + (seq![(id, off)] + rest->Ok_0) =~= prefix + rest->Ok_0);
            }
        }
        cur = cur + step;
    }
    proof {
        assert(prefix + Seq::<(u64, u64)>::empty() =~= prefix);
        assert(whole == Ok::<Seq<(u64, u64)>, MdfError>(prefix));
    }
    let mut j: usize = 0;
    while j < seen.len()
        invariant
            j <= seen@.len(),
            forall|k: int|
                0 <= k < j ==> layout@[#[trigger] seen@[k]].1 == occurrences(prefix, seen@[k]),
        decreases seen@.len() - j,
    {
        let id: u64 = seen[j];
        assert(seen@.contains(id));
        let counted: u64 = match counts.get(&id) {
            Some(c) => *c,
            None => {
                return Err(MdfError::DataCorrupt);
            },
        };
        let declared: u64 = match layout.get(&id) {
            Some(p) => p.1,
            None => {
                return Err(MdfError::DataCorrupt);
            },
        };
        if counted != declared {
            proof {
                assert(occurrences(prefix, id) > 0);
                assert(layout@[id].1 != occurrences(prefix, id));
                assert(!counts_agree(prefix, layout@));
            }
            return Err(MdfError::DataCorrupt);
        }
        j += 1;
    }
    proof {
        assert forall|id: u64| occurrences(prefix, id) > 0 implies layout@.contains_key(id) && (
        #[trigger] layout@[id]).1 == occurrences(prefix, id) by {
            assert(counts@.contains_key(id));
            assert(seen@.contains(id));
            let k = choose|k: int| 0 <= k < seen@.len() && seen@[k] == id;
            assert(layout@[seen@[k]].1 == occurrences(prefix, seen@[k]));
        }
    }
    Ok((offsets, Ghost(prefix)))
}

// ---------------------------------------------------------------------------
// The data group
// ---------------------------------------------------------------------------

/// What each of the channel groups holds.
pub open spec fn group_models(v: Seq<ChannelGroup>) -> Seq<ChannelGroupModel> {
    Seq::new(v.len(), |i: int| v[i]@)
}

/// The record layout that the first `k` groups declare. Of two groups with
/// one id the later one counts.
pub open spec fn layout_upto(cgs: Seq<ChannelGroupModel>, k: int) -> Layout
    decreases k,
{
    if k <= 0 {
        Map::empty()
    } else {
        layout_upto(cgs, k - 1).insert(
            cgs[k - 1].record_id,
            (cgs[k - 1].record_bytes() as u32, cgs[k - 1].cycle_count),
        )
    }
}

/// The channel groups at the first `k` of `links` that can be read.
pub open spec fn groups_upto(map: &DescMap, file: Seq<u8>, links: Seq<u64>, k: int) -> Seq<
    ChannelGroupModel,
>
    decreases k,
{
    if k <= 0 {
        Seq::empty()
    } else {
        let done = groups_upto(map, file, links, k - 1);
        match spec_channel_group(map, file, links[k - 1]) {
            Ok(cg) => done.push(cg),
            Err(_) => done,
        }
    }
}

/// The channel groups of the chain that starts at `first`. A chain that
/// cannot be followed gives no groups.
pub open spec fn groups_from(map: &DescMap, file: Seq<u8>, first: u64) -> Seq<ChannelGroupModel> {
    match spec_chain(map, file, first, "CG"@) {
        Err(_) => Seq::empty(),
        Ok(chain) => groups_upto(map, file, chain_offsets(chain), chain.len() as int),
    }
}

/// For each id that occurs among the records of an unsorted group, the
/// offsets of its records; nothing for a sorted group.
pub open spec fn offsets_index_of(records: Seq<(u64, u64)>, sorted: bool) -> Map<u64, Seq<u64>> {
    if sorted {
        Map::empty()
    } else {
        Map::new(|id: u64| occurrences(records, id) > 0, |id: u64| offsets_of(records, id))
    }
}

/// The id that records without an id belong to: that of the first group.
pub open spec fn implicit_id(cgs: Seq<ChannelGroupModel>) -> Option<u64> {
    if cgs.len() > 0 {
        Some(cgs[0].record_id)
    } else {
        None
    }
}

/// What a `DataGroup` holds.
pub struct DataGroupModel {
    pub rec_id_size: RecIDSize,
    pub comment: Seq<char>,
    pub data: u64,
    pub channel_groups: Seq<ChannelGroupModel>,
    pub sorted: bool,
    pub rec_layout: Layout,
    pub offsets_index: Map<u64, Seq<u64>>,
    pub data_block: DataBlockModel,
}

/// The links of a data group block that reading the group follows: to its
/// comment, its payload and its first channel group.
pub open spec fn data_group_links(block: BlockModel) -> Result<(u64, u64, u64), MdfError> {
    match normal_link(block.link_map, "dg_md_comment"@) {
        None => Err(MdfError::SchemaMissing),
        Some(comment_at) => match normal_link(block.link_map, "dg_data"@) {
            None => Err(MdfError::SchemaMissing),
            Some(data) => match normal_link(block.link_map, "dg_cg_first"@) {
                None => Err(MdfError::SchemaMissing),
                Some(first) => Ok((comment_at, data, first)),
            },
        },
    }
}

/// The data group that the parsed block `block` describes. The group is
/// sorted where it has at most one channel group. Its payload is walked
/// once from start to end; a payload that is not made of whole records, as
/// many of each group as the group declares, is corrupt.
pub open spec fn data_group_of(map: &DescMap, file: Seq<u8>, block: BlockModel) -> Result<
    DataGroupModel,
    MdfError,
> {
    match RecIDSize::from_code(first_in::<u8>(block.data, "dg_rec_id_size"@)) {
        None => Err(MdfError::DataCorrupt),
        Some(rec_id_size) => match data_group_links(block) {
            Err(e) => Err(e),
            Ok((comment_at, data, first)) => {
                let cgs = groups_from(map, file, first);
                let sorted = cgs.len() <= 1;
                let layout = layout_upto(cgs, cgs.len() as int);
                match spec_data_block(map, file, data) {
                    Err(e) => Err(e),
                    Ok(data_block) => match checked_scan(
                        data_block,
                        file,
                        rec_id_size.spec_width(),
                        implicit_id(cgs),
                        layout,
                    ) {
                        Err(e) => Err(e),
                        Ok(records) => Ok(
                            DataGroupModel {
                                rec_id_size,
                                comment: spec_text_or_empty(map, file, comment_at),
                                data,
                                channel_groups: cgs,
                                sorted,
                                rec_layout: layout,
                                offsets_index: offsets_index_of(records, sorted),
                                data_block,
                            },
                        ),
                    },
                }
            },
        },
    }
}

/// The data group described by the block at `offset`.
pub open spec fn spec_data_group(map: &DescMap, file: Seq<u8>, offset: u64) -> Result<
    DataGroupModel,
    MdfError,
> {
    match map.spec_get("DG"@) {
        None => Err(MdfError::SchemaMissing),
        Some(desc) => match desc.spec_parse(file, offset) {
            Err(e) => Err(e),
            Ok(block) => data_group_of(map, file, block),
        },
    }
}

/// The virtual offset of the record with cycle index `i` of the group with
/// the record id `rec_id`. In a sorted data group it is `i` times the size
/// of a record; in an unsorted one it is the offset noted for the `i`th
/// record of that id.
pub open spec fn cycle_offset(m: DataGroupModel, rec_id: u64, i: u64) -> Option<u64> {
    if !m.sorted {
        if m.offsets_index.contains_key(rec_id) && i < m.offsets_index[rec_id].len() {
            Some(m.offsets_index[rec_id][i as int])
        } else {
            None
        }
    } else {
        if m.rec_layout.contains_key(rec_id) && i * m.rec_layout[rec_id].0 <= u64::MAX {
            Some((i * m.rec_layout[rec_id].0) as u64)
        } else {
            None
        }
    }
}

/// The bytes of the record with cycle index `i` of the group with the
/// record id `rec_id`, as `file` holds them.
pub open spec fn record_of(m: DataGroupModel, file: Seq<u8>, rec_id: u64, i: u64) -> Option<Seq<u8>> {
    match cycle_offset(m, rec_id, i) {
        None => None,
        Some(off) => {
            if !m.rec_layout.contains_key(rec_id) {
                None
            } else {
                match m.data_block.read(file, off as int, m.rec_layout[rec_id].0 as int) {
                    Ok(bytes) => Some(bytes),
                    Err(_) => None,
                }
            }
        },
    }
}

/// In a sorted data group the record with cycle index `i` lies at `i`
/// times the size of a record.
pub proof fn lemma_sorted_cycle_offset(m: DataGroupModel, rec_id: u64, i: u64)
    requires
        m.sorted,
        m.rec_layout.contains_key(rec_id),
        i * m.rec_layout[rec_id].0 <= u64::MAX,
    ensures
        cycle_offset(m, rec_id, i) == Some((i * m.rec_layout[rec_id].0) as u64),
{
}

/// A data group: its channel groups and the payload that their records
/// share.
#[derive(Debug)]
pub struct DataGroup {
    rec_id_size: RecIDSize,
    comment: String,
    data: u64,
    channel_groups: Vec<ChannelGroup>,
    sorted: bool,
    rec_id_map: HashMap<u64, (u32, u64)>,
    offsets_map: HashMap<u64, Vec<u64>>,
    data_block: DataBlock,
}

impl View for DataGroup {
    type V = DataGroupModel;

    closed spec fn view(&self) -> DataGroupModel {
        DataGroupModel {
            rec_id_size: self.rec_id_size,
            comment: self.comment@,
            data: self.data,
            channel_groups: group_models(self.channel_groups@),
            sorted: self.sorted,
            rec_layout: self.rec_id_map@,
            offsets_index: Map::new(
                |id: u64| self.offsets_map@.contains_key(id),
                |id: u64| self.offsets_map@[id]@,
            ),
            data_block: self.data_block@,
        }
    }
}

fn read_groups(map: &DescMap, file: &[u8], first: u64) -> (r: Vec<ChannelGroup>)
    ensures
        group_models(r@) == groups_from(map, file@, first),
{
    let mut groups: Vec<ChannelGroup> = Vec::new();
    assert(group_models(groups@) =~= Seq::<ChannelGroupModel>::empty());
    let links: Vec<u64> = match get_child_links(map, file, first, "CG") {
        Ok(l) => l,
        Err(_) => {
            return groups;
        },
    };
    let mut i: usize = 0;
    while i < links.len()
        invariant
            i <= links@.len(),
            group_models(groups@) == groups_upto(map, file@, links@, i as int),
        decreases links@.len() - i,
    {
        match ChannelGroup::new(map, file, links[i]) {
            Ok(cg) => {
                let ghost before = group_models(groups@);
                let ghost m = cg@;
                groups.push(cg);
                assert(group_models(groups@) =~= before.push(m));
            },
            Err(_) => {},
        }
        i += 1;
    }
    groups
}

fn build_layout(groups: &Vec<ChannelGroup>) -> (r: HashMap<u64, (u32, u64)>)
    ensures
        r@ == layout_upto(group_models(groups@), groups@.len() as int),
{
    let mut layout: HashMap<u64, (u32, u64)> = HashMap::new();
    let ghost models = group_models(groups@);
    let mut i: usize = 0;
    while i < groups.len()
        invariant
            i <= groups@.len(),
            models == group_models(groups@),
            layout@ == layout_upto(models, i as int),
        decreases groups@.len() - i,
    {
        let cg: &ChannelGroup = &groups[i];
        assert(cg@ == models[i as int]);
        layout.insert(cg.get_record_id(), (cg.get_sample_total_bytes(), cg.get_cycle_count()));
        i += 1;
    }
    layout
}

impl DataGroup {
    /// Reads the data group block at `offset` with its channel groups, and
    /// walks its payload once.
    pub fn new(map: &DescMap, file: &[u8], offset: u64) -> (r: Result<Self, MdfError>)
        ensures
            match r {
                Ok(dg) => spec_data_group(map, file@, offset) == Ok::<DataGroupModel, MdfError>(dg@),
                Err(e) => spec_data_group(map, file@, offset) == Err::<DataGroupModel, MdfError>(e),
            },
    {
        let desc: &BlockDesc = match map.get("DG") {
            Some(d) => d,
            None => {
                return Err(MdfError::SchemaMissing);
            },
        };
        let info: BlockInfo = match desc.try_parse_buf(file, offset) {
            Ok(info) => info,
            Err(e) => {
                return Err(e);
            },
        };
        let rec_id_size: RecIDSize = match info.get_data_value_first::<u8>("dg_rec_id_size") {
            Some(0) => RecIDSize::NORECID,
            Some(1) => RecIDSize::UINT8,
            Some(2) => RecIDSize::UINT16,
            Some(4) => RecIDSize::UINT32,
            Some(8) => RecIDSize::UINT64,
            _ => {
                return Err(MdfError::DataCorrupt);
            },
        };
        let comment_at: u64 = match info.get_link_offset_normal("dg_md_comment") {
            Some(x) => x,
            None => {
                return Err(MdfError::SchemaMissing);
            },
        };
        let data: u64 = match info.get_link_offset_normal("dg_data") {
            Some(x) => x,
            None => {
                return Err(MdfError::SchemaMissing);
            },
        };
        let first: u64 = match info.get_link_offset_normal("dg_cg_first") {
            Some(x) => x,
            None => {
                return Err(MdfError::SchemaMissing);
            },
        };
        let channel_groups: Vec<ChannelGroup> = read_groups(map, file, first);
        let sorted: bool = channel_groups.len() <= 1;
        let rec_id_map: HashMap<u64, (u32, u64)> = build_layout(&channel_groups);
        let implicit: Option<u64> = if channel_groups.len() > 0 {
            Some(channel_groups[0].get_record_id())
        } else {
            None
        };
        let data_block: DataBlock = match read_data_block(map, file, data) {
            Ok(b) => b,
            Err(e) => {
                return Err(e);
            },
        };
        let (offsets_map, records) = match scan_payload(
            &data_block,
            file,
            rec_id_size,
            implicit,
            &rec_id_map,
            sorted,
        ) {
            Ok(p) => p,
            Err(e) => {
                return Err(e);
            },
        };
        let comment: String = text_or_empty(map, file, comment_at);
        let dg = DataGroup {
            rec_id_size,
            comment,
            data,
            channel_groups,
            sorted,
            rec_id_map,
            offsets_map,
            data_block,
        };
        proof {
            assert(dg@.offsets_index =~= offsets_index_of(records@, sorted));
        }
        Ok(dg)
    }

    /// The virtual offset of the record with cycle index `cycle_index` of
    /// the group with the record id `rec_id`.
    pub fn get_rec_id_offset(&self, rec_id: u64, cycle_index: u64) -> (r: Option<u64>)
        ensures
            r == cycle_offset(self@, rec_id, cycle_index),
    {
        if !self.sorted {
            match self.offsets_map.get(&rec_id) {
                None => None,
                Some(v) => {
                    if cycle_index < v.len() as u64 {
                        Some(v[cycle_index as usize])
                    } else {
                        None
                    }
                },
            }
        } else {
            match self.rec_id_map.get(&rec_id) {
                None => None,
                Some(p) => {
                    let bytes_num: u64 = p.0 as u64;
                    if bytes_num != 0 && cycle_index > u64::MAX / bytes_num {
                        assert(cycle_index * bytes_num > u64::MAX) by (nonlinear_arith)
                            requires
                                bytes_num > 0,
                                cycle_index > u64::MAX / bytes_num,
                        ;
                        None
                    } else {
                        assert(cycle_index * bytes_num <= u64::MAX) by (nonlinear_arith)
                            requires
                                bytes_num == 0 || cycle_index <= u64::MAX / bytes_num,
                                bytes_num >= 0,
                                cycle_index >= 0,
                        ;
                        Some(cycle_index * bytes_num)
                    }
                },
            }
        }
    }

    /// The bytes of the record with cycle index `index` of the group with
    /// the record id `rec_id`.
    pub fn get_cg_data(&self, rec_id: u64, index: u64, file: &[u8]) -> (r: Option<Vec<u8>>)
        ensures
            match r {
                Some(bytes) => record_of(self@, file@, rec_id, index) == Some(bytes@),
                None => record_of(self@, file@, rec_id, index) is None,
            },
    {
        let virtual_offset: u64 = match self.get_rec_id_offset(rec_id, index) {
            Some(off) => off,
            None => {
                return None;
            },
        };
        let size: u32 = match self.rec_id_map.get(&rec_id) {
            Some(p) => p.0,
            None => {
                return None;
            },
        };
        let mut temp_buf: Vec<u8> = vec![0u8; size as usize];
        match self.data_block.read_virtual_buf(file, virtual_offset, temp_buf.as_mut_slice()) {
            Ok(()) => Some(temp_buf),
            Err(_) => None,
        }
    }

    /// How many bytes the id takes that stands before each record.
    pub fn get_rec_id_size(&self) -> (s: &RecIDSize)
        ensures
            *s == self@.rec_id_size,
    {
        &self.rec_id_size
    }

    /// Whether the payload holds the records of at most one group.
    pub fn is_sorted(&self) -> (b: bool)
        ensures
            b == self@.sorted,
    {
        self.sorted
    }

    /// The comment on the data group.
    pub fn get_comment(&self) -> (s: &str)
        ensures
            s@ == self@.comment,
    {
        self.comment.as_str()
    }

    /// The channel groups of the data group.
    pub fn get_channle_groups(&self) -> (v: &Vec<ChannelGroup>)
        ensures
            group_models(v@) == self@.channel_groups,
    {
        &self.channel_groups
    }

    /// The `n`th channel group.
    pub fn nth_cg(&self, n: usize) -> (r: Option<&ChannelGroup>)
        ensures
            match r {
                Some(cg) => n < self@.channel_groups.len() && self@.channel_groups[n as int] == cg@,
                None => n >= self@.channel_groups.len(),
            },
    {
        if n < self.channel_groups.len() {
            Some(&self.channel_groups[n])
        } else {
            None
        }
    }
}

// ---------------------------------------------------------------------------
// What holds of every scan
// ---------------------------------------------------------------------------

/// Where records carry no id, every record of the payload belongs to the
/// one group that there is.
pub proof fn lemma_scan_single_id(
    block: DataBlockModel,
    file: Seq<u8>,
    id: u64,
    layout: Layout,
    pos: int,
)
    requires
        0 <= pos,
        scan_from(block, file, 0, Some(id), layout, pos) is Ok,
    ensures
        forall|i: int|
            0 <= i < scan_from(block, file, 0, Some(id), layout, pos)->Ok_0.len() ==> (
            #[trigger] scan_from(block, file, 0, Some(id), layout, pos)->Ok_0[i]).0 == id,
    decreases bytes_left(block, pos),
{
    if pos < block.len() {
        let step = 0 + layout[id].0;
        lemma_scan_single_id(block, file, id, layout, pos + step);
    }
}

/// The scan of the payload of a data group whose records carry no id, and
/// which holds records: it takes as many records as the group declares
/// cycles, and the bytes that they take, from the start of the payload to
/// where the scan ends, are the total that the group declares.
pub proof fn lemma_sorted_payload_total(
    cg: ChannelGroupModel,
    block: DataBlockModel,
    file: Seq<u8>,
    layout: Layout,
)
    requires
        cg.wf(),
        !cg.is_vlsd,
        layout.contains_key(cg.record_id),
        layout[cg.record_id] == (cg.record_bytes() as u32, cg.cycle_count),
        block.len() > 0,
        checked_scan(block, file, 0, Some(cg.record_id), layout) is Ok,
    ensures
        ({
            let records = checked_scan(block, file, 0, Some(cg.record_id), layout)->Ok_0;
            &&& records.len() == cg.cycle_count
            &&& bytes_taken(records, 0, layout) == cg.total_bytes
            &&& scan_end(block, file, 0, Some(cg.record_id), layout, 0) == cg.total_bytes
            &&& cg.total_bytes >= block.len()
        }),
{
    let id = cg.record_id;
    let records = scan_from(block, file, 0, Some(id), layout, 0)->Ok_0;
    lemma_scan_single_id(block, file, id, layout, 0);
    lemma_single_group_bytes(records, layout, id);
    lemma_scan_covers(block, file, 0, Some(id), layout, 0);
    assert(records.len() > 0);
    assert(occurrences(records, id) > 0);
    assert(layout[id].1 == occurrences(records, id));
    assert(layout[id].0 * records.len() == cg.record_bytes() * cg.cycle_count) by (nonlinear_arith)
        requires
            layout[id].0 == cg.record_bytes(),
            records.len() == cg.cycle_count,
    ;
}

/// After a successful scan each record id that occurs in the payload
/// occurs as often as its group declares cycles.
pub proof fn lemma_scan_counts(
    block: DataBlockModel,
    file: Seq<u8>,
    width: int,
    implicit: Option<u64>,
    layout: Layout,
    id: u64,
)
    requires
        checked_scan(block, file, width, implicit, layout) is Ok,
        occurrences(checked_scan(block, file, width, implicit, layout)->Ok_0, id) > 0,
    ensures
        layout.contains_key(id),
        layout[id].1 == occurrences(checked_scan(block, file, width, implicit, layout)->Ok_0, id),
        offsets_of(checked_scan(block, file, width, implicit, layout)->Ok_0, id).len()
            == layout[id].1,
{
    let records = checked_scan(block, file, width, implicit, layout)->Ok_0;
    lemma_occurrences_bound(records, id);
    assert(counts_agree(records, layout));
    let declared = layout[id];
    assert(layout.contains_key(id) && declared.1 == occurrences(records, id));
}

// ---------------------------------------------------------------------------
// Channels by name
// ---------------------------------------------------------------------------

/// The names of the channels, in order.
pub open spec fn names_of(channels: Seq<ChannelModel>) -> Seq<Seq<char>> {
    Seq::new(channels.len(), |i: int| channels[i].name)
}

/// The names of the channels of the first `k` groups, group by group.
pub open spec fn all_names(cgs: Seq<ChannelGroupModel>, k: int) -> Seq<Seq<char>>
    decreases k,
{
    if k <= 0 {
        Seq::empty()
    } else {
        all_names(cgs, k - 1) + names_of(cgs[k - 1].channels)
    }
}

/// The names of the first `k` groups.
pub open spec fn group_names(cgs: Seq<ChannelGroupModel>) -> Seq<Seq<char>> {
    Seq::new(cgs.len(), |i: int| cgs[i].acq_name)
}

/// Where a channel stands: the places of its data group, of its channel
/// group in that, and of the channel in that.
pub type Place = (usize, usize, usize);

/// The names of the first `k` channels of a channel group, each with its
/// place.
pub open spec fn channel_places(d: usize, g: usize, channels: Seq<ChannelModel>, k: int) -> Seq<
    (Seq<char>, Place),
>
    decreases k,
{
    if k <= 0 {
        Seq::empty()
    } else {
        channel_places(d, g, channels, k - 1).push((channels[k - 1].name, (d, g, (k - 1) as usize)))
    }
}

/// The names of the channels of the first `k` channel groups of a data
/// group, each with its place.
pub open spec fn group_places(d: usize, groups: Seq<ChannelGroupModel>, k: int) -> Seq<
    (Seq<char>, Place),
>
    decreases k,
{
    if k <= 0 {
        Seq::empty()
    } else {
        group_places(d, groups, k - 1) + channel_places(
            d,
            (k - 1) as usize,
            groups[k - 1].channels,
            groups[k - 1].channels.len() as int,
        )
    }
}

/// The place of the channel named `name`: of several channels with that
/// name, that of the last.
pub open spec fn last_place(places: Seq<(Seq<char>, Place)>, name: Seq<char>) -> Option<Place>
    decreases places.len(),
{
    if places.len() == 0 {
        None
    } else if places.last().0 == name {
        Some(places.last().1)
    } else {
        last_place(places.drop_last(), name)
    }
}

/// Whether the channel group `cg` is one of `cgs` and the channel `cn` is
/// one of its channels.
pub open spec fn channel_in(cgs: Seq<ChannelGroupModel>, cg: ChannelGroupModel, cn: ChannelModel) -> bool {
    exists|g: int, m: int|
        0 <= g < cgs.len() && 0 <= m < cgs[g].channels.len() && #[trigger] cgs[g] == cg && (
        #[trigger] cgs[g].channels[m]) == cn
}

/// A channel together with the channel group and the data group that it
/// belongs to.
pub struct ChannelLink<'a>(&'a Channel, &'a ChannelGroup, &'a DataGroup);

impl<'a> ChannelLink<'a> {
    /// The channel.
    pub closed spec fn spec_channel(&self) -> Channel {
        *self.0
    }

    /// The channel group.
    pub closed spec fn spec_channel_group(&self) -> ChannelGroup {
        *self.1
    }

    /// The data group.
    pub closed spec fn spec_data_group(&self) -> DataGroup {
        *self.2
    }

    /// Links a channel with its channel group and its data group.
    pub fn new(channel: &'a Channel, group: &'a ChannelGroup, data_group: &'a DataGroup) -> (l: Self)
        ensures
            l.spec_channel() == *channel,
            l.spec_channel_group() == *group,
            l.spec_data_group() == *data_group,
    {
        ChannelLink(channel, group, data_group)
    }

    /// The channel.
    pub fn get_channel(&self) -> (c: &'a Channel)
        ensures
            *c == self.spec_channel(),
    {
        self.0
    }

    /// The channel group.
    pub fn get_channel_group(&self) -> (g: &'a ChannelGroup)
        ensures
            *g == self.spec_channel_group(),
    {
        self.1
    }

    /// The data group.
    pub fn get_data_group(&self) -> (g: &'a DataGroup)
        ensures
            *g == self.spec_data_group(),
    {
        self.2
    }

    /// The raw samples of the channel, one for each cycle of its group.
    pub fn yield_channel_data(&self, file: &[u8]) -> (r: Result<DataValue, MdfError>)
        ensures
            match r {
                Ok(v) => {
                    &&& raw_error(
                        self.spec_channel()@,
                        self.spec_data_group()@,
                        self.spec_channel_group()@,
                        file@,
                    ) is None
                    &&& raw_holds(
                        self.spec_channel()@,
                        self.spec_data_group()@,
                        self.spec_channel_group()@,
                        file@,
                        v,
                    )
                    &&& v.spec_len() == self.spec_channel_group()@.cycle_count
                },
                Err(e) => raw_error(
                    self.spec_channel()@,
                    self.spec_data_group()@,
                    self.spec_channel_group()@,
                    file@,
                ) == Some(e),
            },
    {
        self.0.get_data_raw(file, self.2, self.1)
    }

    /// The raw samples of the master channel of the channel's group: of
    /// the channel itself where it is a master, else of the group's
    /// master. A group without a master has none.
    pub fn get_master_channel_vec(&self, file: &[u8]) -> (r: Result<DataValue, MdfError>)
        ensures
            ({
                let cn = self.spec_channel()@;
                let cg = self.spec_channel_group()@;
                let dg = self.spec_data_group()@;
                if cn.master {
                    match r {
                        Ok(v) => raw_error(cn, dg, cg, file@) is None && raw_holds(
                            cn,
                            dg,
                            cg,
                            file@,
                            v,
                        ),
                        Err(e) => raw_error(cn, dg, cg, file@) == Some(e),
                    }
                } else {
                    match cg.master {
                        None => r == Err::<DataValue, MdfError>(MdfError::NoMaster),
                        Some(master) => match r {
                            Ok(v) => raw_error(master, dg, cg, file@) is None && raw_holds(
                                master,
                                dg,
                                cg,
                                file@,
                                v,
                            ) && v.spec_len() == cg.cycle_count,
                            Err(e) => raw_error(master, dg, cg, file@) == Some(e),
                        },
                    }
                }
            }),
    {
        if self.0.is_master() {
            self.yield_channel_data(file)
        } else {
            match self.1.get_master() {
                None => Err(MdfError::NoMaster),
                Some(master_cn) => master_cn.get_data_raw(file, self.2, self.1),
            }
        }
    }
}

/// Whether the link points to the channel at place `m` of the channel
/// group at place `g`, and to that group.
pub open spec fn link_at(l: ChannelLink, cgs: Seq<ChannelGroupModel>, g: int, m: int) -> bool {
    &&& 0 <= g < cgs.len()
    &&& 0 <= m < cgs[g].channels.len()
    &&& l.spec_channel_group()@ == cgs[g]
    &&& l.spec_channel()@ == cgs[g].channels[m]
}

/// Whether the entry of a list of channels is the one for `place`: it has
/// the name, and its link points to the channel that stands there.
pub open spec fn entry_at(
    entry: (String, ChannelLink),
    place: (Seq<char>, Place),
    cgs: Seq<ChannelGroupModel>,
) -> bool {
    &&& entry.0@ == place.0
    &&& link_at(entry.1, cgs, place.1.1 as int, place.1.2 as int)
}

/// The places of the first `k` channels of a group are `k`, and the one at
/// `m` holds the name of the channel at `m` and the place `(d, g, m)`.
pub proof fn lemma_channel_places(d: usize, g: usize, channels: Seq<ChannelModel>, k: int)
    requires
        0 <= k <= channels.len(),
    ensures
        channel_places(d, g, channels, k).len() == k,
        forall|m: int|
            0 <= m < k ==> (#[trigger] channel_places(d, g, channels, k)[m]) == (
                channels[m].name,
                (d, g, m as usize),
            ),
    decreases k,
{
    if k > 0 {
        lemma_channel_places(d, g, channels, k - 1);
    }
}

/// The places of the channels of a data group do not depend on the place
/// of the data group, but for that place itself.
pub proof fn lemma_group_places_shift(d: usize, cgs: Seq<ChannelGroupModel>, k: int)
    requires
        0 <= k <= cgs.len(),
    ensures
        group_places(d, cgs, k).len() == group_places(0, cgs, k).len(),
        forall|j: int|
            0 <= j < group_places(d, cgs, k).len() ==> {
                &&& (#[trigger] group_places(d, cgs, k)[j]).0 == group_places(0, cgs, k)[j].0
                &&& group_places(d, cgs, k)[j].1.0 == d
                &&& group_places(d, cgs, k)[j].1.1 == group_places(0, cgs, k)[j].1.1
                &&& group_places(d, cgs, k)[j].1.2 == group_places(0, cgs, k)[j].1.2
            },
    decreases k,
{
    if k > 0 {
        lemma_group_places_shift(d, cgs, k - 1);
        let cm = cgs[k - 1].channels;
        lemma_channel_places(d, (k - 1) as usize, cm, cm.len() as int);
        lemma_channel_places(0, (k - 1) as usize, cm, cm.len() as int);
        let here = group_places(d, cgs, k - 1);
        let zero = group_places(0, cgs, k - 1);
        let part_here = channel_places(d, (k - 1) as usize, cm, cm.len() as int);
        let part_zero = channel_places(0, (k - 1) as usize, cm, cm.len() as int);
        assert(group_places(d, cgs, k) == here + part_here);
        assert(group_places(0, cgs, k) == zero + part_zero);
        assert forall|j: int| 0 <= j < group_places(d, cgs, k).len() implies {
            &&& (#[trigger] group_places(d, cgs, k)[j]).0 == group_places(0, cgs, k)[j].0
            &&& group_places(d, cgs, k)[j].1.0 == d
            &&& group_places(d, cgs, k)[j].1.1 == group_places(0, cgs, k)[j].1.1
            &&& group_places(d, cgs, k)[j].1.2 == group_places(0, cgs, k)[j].1.2
        } by {
            if j < here.len() {
                assert((here + part_here)[j] == here[j]);
                assert((zero + part_zero)[j] == zero[j]);
            } else {
                assert((here + part_here)[j] == part_here[j - here.len()]);
                assert((zero + part_zero)[j] == part_zero[j - here.len()]);
            }
        }
    }
}

impl DataGroup {
    /// The names of all channels of the data group, group by group.
    pub fn get_all_channel_names(&self) -> (names: Vec<String>)
        ensures
            names.deep_view() == all_names(self@.channel_groups, self@.channel_groups.len() as int),
    {
        let mut names: Vec<String> = Vec::new();
        let ghost cgs = group_models(self.channel_groups@);
        assert(names.deep_view() =~= Seq::<Seq<char>>::empty());
        let mut i: usize = 0;
        while i < self.channel_groups.len()
            invariant
                i <= self.channel_groups@.len(),
                cgs == group_models(self.channel_groups@),
                names.deep_view() == all_names(cgs, i as int),
            decreases self.channel_groups@.len() - i,
        {
            let cg: &ChannelGroup = &self.channel_groups[i];
            assert(cg@ == cgs[i as int]);
            let mut part: Vec<String> = cg.get_channel_names();
            let ghost before = names.deep_view();
            let ghost added = part.deep_view();
            proof {
                assert(added =~= names_of(cgs[i as int].channels));
            }
            names.append(&mut part);
            proof {
                assert(names.deep_view() =~= before + added);
            }
            i += 1;
        }
        names
    }

    /// The names of the channel groups of the data group.
    pub fn get_cg_names(&self) -> (names: Vec<String>)
        ensures
            names.deep_view() == group_names(self@.channel_groups),
    {
        let mut names: Vec<String> = Vec::new();
        let ghost cgs = group_models(self.channel_groups@);
        let mut i: usize = 0;
        while i < self.channel_groups.len()
            invariant
                i <= self.channel_groups@.len(),
                cgs == group_models(self.channel_groups@),
                names@.len() == i,
                forall|j: int| 0 <= j < i ==> (#[trigger] names@[j])@ == cgs[j].acq_name,
            decreases self.channel_groups@.len() - i,
        {
            let cg: &ChannelGroup = &self.channel_groups[i];
            assert(cg@ == cgs[i as int]);
            names.push(cg.get_acq_name().to_owned());
            i += 1;
        }
        assert(names.deep_view() =~= group_names(cgs));
        names
    }

    /// Every channel of the data group under its name, group by group,
    /// each linked with its channel group and with this data group.
    pub fn create_map(&self) -> (links: Vec<(String, ChannelLink<'_>)>)
        ensures
            links@.len() == all_names(
                self@.channel_groups,
                self@.channel_groups.len() as int,
            ).len(),
            forall|k: int|
                0 <= k < links@.len() ==> {
                    &&& (#[trigger] links@[k]).0@ == all_names(
                        self@.channel_groups,
                        self@.channel_groups.len() as int,
                    )[k]
                    &&& links@[k].1.spec_channel()@.name == links@[k].0@
                    &&& links@[k].1.spec_data_group() == *self
                    &&& channel_in(
                        self@.channel_groups,
                        links@[k].1.spec_channel_group()@,
                        links@[k].1.spec_channel()@,
                    )
                },
            links@.len() == group_places(
                0,
                self@.channel_groups,
                self@.channel_groups.len() as int,
            ).len(),
            forall|k: int|
                0 <= k < links@.len() ==> #[trigger] entry_at(
                    links@[k],
                    group_places(0, self@.channel_groups, self@.channel_groups.len() as int)[k],
                    self@.channel_groups,
                ),
    {
        let mut links: Vec<(String, ChannelLink<'_>)> = Vec::new();
        let ghost cgs = group_models(self.channel_groups@);
        let mut i: usize = 0;
        while i < self.channel_groups.len()
            invariant
                i <= self.channel_groups@.len(),
                cgs == group_models(self.channel_groups@),
                links@.len() == all_names(cgs, i as int).len(),
                forall|k: int|
                    0 <= k < links@.len() ==> {
                        &&& (#[trigger] links@[k]).0@ == all_names(cgs, i as int)[k]
                        &&& links@[k].1.spec_channel()@.name == links@[k].0@
                        &&& links@[k].1.spec_data_group() == *self
                        &&& channel_in(
                            cgs,
                            links@[k].1.spec_channel_group()@,
                            links@[k].1.spec_channel()@,
                        )
                    },
                links@.len() == group_places(0, cgs, i as int).len(),
                forall|k: int|
                    0 <= k < links@.len() ==> #[trigger] entry_at(
                        links@[k],
                        group_places(0, cgs, i as int)[k],
                        cgs,
                    ),
            decreases self.channel_groups@.len() - i,
        {
            let cg: &ChannelGroup = &self.channel_groups[i];
            assert(cg@ == cgs[i as int]);
            let channels: &Vec<Channel> = cg.get_channels();
            proof {
                lemma_channel_models(channels@);
            }
            let ghost base = links@;
            let ghost base_names = all_names(cgs, i as int);
            let ghost base_places = group_places(0, cgs, i as int);
            let mut j: usize = 0;
            while j < channels.len()
                invariant
                    j <= channels@.len(),
                    channel_models(channels@) == cgs[i as int].channels,
                    channel_models(channels@).len() == channels@.len(),
                    forall|m: int|
                        0 <= m < channels@.len() ==> (#[trigger] channel_models(channels@)[m])
                            == channels@[m]@,
                    base.len() == base_names.len(),
                    links@.len() == base.len() + j,
                    forall|k: int| 0 <= k < base.len() ==> #[trigger] links@[k] == base[k],
                    forall|m: int|
                        0 <= m < j ==> {
                            &&& (#[trigger] links@[base.len() + m]).0@ == channels@[m]@.name
                            &&& links@[base.len() + m].1.spec_channel() == channels@[m]
                            &&& links@[base.len() + m].1.spec_channel_group() == *cg
                            &&& links@[base.len() + m].1.spec_data_group() == *self
                        },
                decreases channels@.len() - j,
            {
                let channel: &Channel = &channels[j];
                let link = ChannelLink::new(channel, cg, self);
                links.push((channel.get_name().to_owned(), link));
                j += 1;
            }
            proof {
                let next = all_names(cgs, i + 1);
                assert(next == base_names + names_of(cgs[i as int].channels));
                assert forall|k: int| 0 <= k < links@.len() implies {
                    &&& (#[trigger] links@[k]).0@ == next[k]
                    &&& links@[k].1.spec_channel()@.name == links@[k].0@
                    &&& links@[k].1.spec_data_group() == *self
                    &&& channel_in(
                        cgs,
                        links@[k].1.spec_channel_group()@,
                        links@[k].1.spec_channel()@,
                    )
                } by {
                    if k < base.len() {
                        assert(links@[k] == base[k]);
                    } else {
                        let m = k - base.len();
                        assert(links@[base.len() + m].0@ == channels@[m]@.name);
                        assert(cgs[i as int] == cg@);
                        assert(cgs[i as int].channels[m] == channels@[m]@);
                    }
                }
                let cm = cgs[i as int].channels;
                let part = channel_places(0, i, cm, cm.len() as int);
                lemma_channel_places(0, i, cm, cm.len() as int);
                let places = group_places(0, cgs, i + 1);
                assert(places == base_places + part);
                assert forall|k: int| 0 <= k < links@.len() implies #[trigger] entry_at(
                    links@[k],
                    places[k],
                    cgs,
                ) by {
                    if k < base.len() {
                        assert(links@[k] == base[k]);
                        assert(entry_at(base[k], base_places[k], cgs));
                        assert(places[k] == base_places[k]);
                    } else {
                        let m = k - base.len();
                        assert(links@[base.len() + m].0@ == channels@[m]@.name);
                        assert(places[k] == part[m]);
                        assert(cgs[i as int] == cg@);
                        assert(cm[m] == channels@[m]@);
                    }
                }
            }
            i += 1;
        }
        links
    }

    /// The channel named `name`, linked with its channel group and with
    /// this data group. Of several channels with that name it is the last.
    pub fn find_channel(&self, name: &str) -> (r: Option<ChannelLink<'_>>)
        ensures
            match r {
                Some(l) => l.spec_channel()@.name == name@ && l.spec_data_group() == *self
                    && channel_in(
                    self@.channel_groups,
                    l.spec_channel_group()@,
                    l.spec_channel()@,
                ) && all_names(
                    self@.channel_groups,
                    self@.channel_groups.len() as int,
                ).contains(name@),
                None => !all_names(
                    self@.channel_groups,
                    self@.channel_groups.len() as int,
                ).contains(name@),
            },
            match last_place(
                group_places(0, self@.channel_groups, self@.channel_groups.len() as int),
                name@,
            ) {
                Some(p) => r is Some && link_at(
                    r->0,
                    self@.channel_groups,
                    p.1 as int,
                    p.2 as int,
                ),
                None => r is None,
            },
    {
        let mut links: Vec<(String, ChannelLink<'_>)> = self.create_map();
        let ghost names = all_names(self@.channel_groups, self@.channel_groups.len() as int);
        let ghost all = links@;
        let ghost places = group_places(
            0,
            self@.channel_groups,
            self@.channel_groups.len() as int,
        );
        assert(places.subrange(0, links@.len() as int) =~= places);
        while links.len() > 0
            invariant
                links@.len() <= all.len(),
                all.len() == places.len(),
                places == group_places(0, self@.channel_groups, self@.channel_groups.len() as int),
                forall|j: int|
                    0 <= j < all.len() ==> #[trigger] entry_at(
                        all[j],
                        places[j],
                        self@.channel_groups,
                    ),
                last_place(places, name@) == last_place(
                    places.subrange(0, links@.len() as int),
                    name@,
                ),
                all.len() == names.len(),
                names == all_names(self@.channel_groups, self@.channel_groups.len() as int),
                forall|j: int| 0 <= j < links@.len() ==> #[trigger] links@[j] == all[j],
                forall|j: int| 0 <= j < all.len() ==> (#[trigger] all[j]).0@ == names[j],
                forall|j: int|
                    0 <= j < all.len() ==> (#[trigger] all[j]).1.spec_channel()@.name == all[j].0@,
                forall|j: int|
                    0 <= j < all.len() ==> (#[trigger] all[j]).1.spec_data_group() == *self,
                forall|j: int|
                    0 <= j < all.len() ==> channel_in(
                        self@.channel_groups,
                        (#[trigger] all[j]).1.spec_channel_group()@,
                        all[j].1.spec_channel()@,
                    ),
                forall|j: int| links@.len() <= j < all.len() ==> (#[trigger] names[j]) != name@,
            decreases links@.len(),
        {
            let ghost k = links@.len() - 1;
            proof {
                let part = places.subrange(0, k + 1);
                assert(part.drop_last() =~= places.subrange(0, k));
                assert(part.last() == places[k]);
                assert(entry_at(all[k], places[k], self@.channel_groups));
            }
            match links.pop() {
                Some((n, link)) => {
                    assert((n, link) == all[k]);
                    if str_eq(n.as_str(), name) {
                        assert(all[k].0@ == names[k]);
                        assert(names[k] == name@);
                        assert(names.contains(name@));
                        assert(all[k].1.spec_channel()@.name == all[k].0@);
                        assert(all[k].1.spec_data_group() == *self);
                        return Some(link);
                    }
                },
                None => {},
            }
        }
        proof {
            assert(places.subrange(0, 0) =~= Seq::<(Seq<char>, Place)>::empty());
        }
        None
    }
}

} // verus!
