//! Data payloads: a raw block, a compressed block, or a list of such blocks
//! read as one run of bytes.

use vstd::prelude::*;
use std::io::Read;
use flate2::bufread::ZlibDecoder;
use crate::block::{
    block_len_at, first_or, link_count_at, lookup, normal_link, read_u64s, u64s_le, BlockDesc,
    BlockInfo, BlockModel,
};
use crate::data_serde::{le_u32, model_bytes, read_u32_le, read_u64_le, str_eq};
use crate::error::MdfError;
use crate::parser::{peek_block_type, spec_block_type, DescMap};

verus! {

/// `d` with the bytes from place `at` on replaced by `piece`.
pub open spec fn spliced(d: Seq<u8>, at: int, piece: Seq<u8>) -> Seq<u8> {
    d.subrange(0, at) + piece + d.subrange(at + piece.len(), d.len() as int)
}

/// Copies `n` bytes of `src`, from place `from` on, over the bytes of `dst`
/// from place `at` on.
fn copy_into(dst: &mut [u8], at: usize, src: &[u8], from: usize, n: usize)
    requires
        at + n <= old(dst)@.len(),
        from + n <= src@.len(),
    ensures
        final(dst)@ == spliced(old(dst)@, at as int, src@.subrange(from as int, from + n)),
{
    let dlen: usize = dst.len();
    let slen: usize = src.len();
    let mut i: usize = 0;
    while i < n
        invariant
            i <= n,
            at + n <= dlen,
            from + n <= slen,
            dlen == dst@.len(),
            dlen == old(dst)@.len(),
            slen == src@.len(),
            forall|j: int| 0 <= j < at ==> dst@[j] == old(dst)@[j],
            forall|j: int| at <= j < at + i ==> dst@[j] == src@[from + j - at],
            forall|j: int| at + i <= j < dlen ==> dst@[j] == old(dst)@[j],
        decreases n - i,
    {
        dst[at + i] = src[from + i];
        i += 1;
    }
    assert(dst@ =~= spliced(old(dst)@, at as int, src@.subrange(from as int, from + n)));
}

/// A payload that is read by offsets counted from its own start, wherever
/// and in how many pieces the file holds it.
pub trait VirtualBuf {
    /// The number of bytes in the payload.
    spec fn spec_len(&self) -> int;

    /// The `n` bytes from offset `v` of the payload as `file` holds it, or
    /// why they cannot be had.
    spec fn spec_read(&self, file: Seq<u8>, v: int, n: int) -> Result<Seq<u8>, MdfError>;

    /// Fills `buf` with the bytes of the payload from `virtual_offset` on.
    fn read_virtual_buf(&self, from: &[u8], virtual_offset: u64, buf: &mut [u8]) -> (r: Result<
        (),
        MdfError,
    >)
        ensures
            final(buf)@.len() == old(buf)@.len(),
            match r {
                Ok(()) => self.spec_read(from@, virtual_offset as int, old(buf)@.len() as int)
                    == Ok::<Seq<u8>, MdfError>(final(buf)@),
                Err(e) => self.spec_read(from@, virtual_offset as int, old(buf)@.len() as int)
                    == Err::<Seq<u8>, MdfError>(e),
            },
    ;

    /// The number of bytes in the payload.
    fn get_data_len(&self) -> (n: u64)
        ensures
            n == self.spec_len(),
    ;
}

// ---------------------------------------------------------------------------
// Raw blocks
// ---------------------------------------------------------------------------

/// A block whose payload lies in the file as it is: a data, signal-data or
/// reduction block.
#[derive(Debug)]
pub struct DT {
    data_len: u64,
    data_offset: u64,
}

/// The payload length and payload offset of the raw block at `offset`, or
/// why the block cannot be opened: the link is nil, or the file ends within
/// the header, or the header declares less than its own length.
pub open spec fn spec_dt(file: Seq<u8>, offset: u64) -> Result<(u64, u64), MdfError> {
    if offset == 0 {
        Err(MdfError::NilLink)
    } else if offset + 24 > file.len() || block_len_at(file, offset as int) < 24 {
        Err(MdfError::IoError)
    } else {
        Ok(((block_len_at(file, offset as int) - 24) as u64, (offset + 24) as u64))
    }
}

/// The `n` bytes from offset `v` of a payload of `len` bytes that starts at
/// `start` in the file.
pub open spec fn raw_read(file: Seq<u8>, start: int, len: int, v: int, n: int) -> Result<
    Seq<u8>,
    MdfError,
> {
    if v + n > len {
        Err(MdfError::OutOfRange)
    } else if start + v + n > file.len() {
        Err(MdfError::IoError)
    } else {
        Ok(file.subrange(start + v, start + v + n))
    }
}

impl Default for DT {
    fn default() -> (dt: Self)
        ensures
            dt.spec_data_len() == 0,
            dt.spec_data_offset() == 0,
    {
        DT { data_len: 0, data_offset: 0 }
    }
}

impl DT {
    /// The number of payload bytes.
    pub closed spec fn spec_data_len(&self) -> u64 {
        self.data_len
    }

    /// The place in the file where the payload starts.
    pub closed spec fn spec_data_offset(&self) -> u64 {
        self.data_offset
    }

    /// Opens the raw block whose header starts at `offset`.
    pub fn new(file: &[u8], offset: u64) -> (r: Result<Self, MdfError>)
        ensures
            match r {
                Ok(dt) => spec_dt(file@, offset) == Ok::<(u64, u64), MdfError>(
                    (dt.spec_data_len(), dt.spec_data_offset()),
                ),
                Err(e) => spec_dt(file@, offset) == Err::<(u64, u64), MdfError>(e),
            },
    {
        if offset == 0 {
            return Err(MdfError::NilLink);
        }
        let flen: usize = file.len();
        if offset > flen as u64 || flen as u64 - offset < 24 {
            return Err(MdfError::IoError);
        }
        let off: usize = offset as usize;
        let blk_len: u64 = read_u64_le(&file[off + 8..off + 16]);
        if blk_len < 24 {
            return Err(MdfError::IoError);
        }
        Ok(DT { data_len: blk_len - 24, data_offset: offset + 24 })
    }

    /// Copies `n` payload bytes from offset `v` on into `dst` at `at`.
    pub(crate) fn read_into(&self, from: &[u8], v: u64, dst: &mut [u8], at: usize, n: usize) -> (r:
        Result<(), MdfError>)
        requires
            at + n <= old(dst)@.len(),
        ensures
            final(dst)@.len() == old(dst)@.len(),
            match r {
                Ok(()) => {
                    &&& self.spec_read(from@, v as int, n as int) is Ok
                    &&& final(dst)@ == spliced(
                        old(dst)@,
                        at as int,
                        self.spec_read(from@, v as int, n as int)->Ok_0,
                    )
                },
                Err(e) => self.spec_read(from@, v as int, n as int) == Err::<Seq<u8>, MdfError>(e),
            },
    {
        if v > self.data_len || n as u64 > self.data_len - v {
            return Err(MdfError::OutOfRange);
        }
        let flen: usize = from.len();
        if self.data_offset > flen as u64 || v > flen as u64 - self.data_offset || n as u64 > flen as u64
            - self.data_offset - v {
            return Err(MdfError::IoError);
        }
        let start: usize = (self.data_offset + v) as usize;
        copy_into(dst, at, from, start, n);
        Ok(())
    }
}

impl VirtualBuf for DT {
    open spec fn spec_len(&self) -> int {
        self.spec_data_len() as int
    }

    open spec fn spec_read(&self, file: Seq<u8>, v: int, n: int) -> Result<Seq<u8>, MdfError> {
        raw_read(file, self.spec_data_offset() as int, self.spec_data_len() as int, v, n)
    }

    fn read_virtual_buf(&self, from: &[u8], virtual_offset: u64, buf: &mut [u8]) -> (r: Result<
        (),
        MdfError,
    >) {
        let n: usize = buf.len();
        let r = self.read_into(from, virtual_offset, buf, 0, n);
        proof {
            if r is Ok {
                let piece = self.spec_read(from@, virtual_offset as int, n as int)->Ok_0;
                assert(spliced(old(buf)@, 0, piece) =~= piece);
            }
        }
        r
    }

    fn get_data_len(&self) -> (n: u64) {
        self.data_len
    }
}

// ---------------------------------------------------------------------------
// Compressed blocks
// ---------------------------------------------------------------------------

/// What inflating a zlib stream gives, where the stream is sound.
pub uninterp spec fn zlib_inflated(data: Seq<u8>) -> Option<Seq<u8>>;

/// `flate2::bufread::ZlibDecoder` read to its end: the inflated bytes,
/// where the decoder reports no error. Its result is named, not described.
#[verifier::external_body]
fn zlib_inflate(data: &[u8]) -> (r: Option<Vec<u8>>)
    ensures
        match r {
            Some(v) => zlib_inflated(data@) == Some(v@),
            None => zlib_inflated(data@) is None,
        },
{
    let mut decoder = ZlibDecoder::new(data);
    let mut out: Vec<u8> = Vec::new();
    match decoder.read_to_end(&mut out) {
        Ok(_) => Some(out),
        Err(_) => None,
    }
}

/// A block whose payload is stored deflated. The payload is inflated once,
/// when the block is opened, and kept in memory.
#[derive(Debug)]
pub struct DZBlock {
    data_len: u64,
    ori_data_len: u64,
    ori_data: Vec<u8>,
}

/// The fields of a compressed block that opening it needs: the stored
/// length, the length of the payload, and the stored bytes; or why the
/// block is refused. Only deflate, zip type 0, is accepted.
pub open spec fn spec_dz_fields(block: BlockModel) -> Result<(u64, u64, Seq<u8>), MdfError> {
    match first_or::<u64>(block.data, "dz_data_length"@) {
        Err(e) => Err(e),
        Ok(data_len) => match first_or::<u64>(block.data, "dz_org_data_length"@) {
            Err(e) => Err(e),
            Ok(ori_len) => match first_or::<u8>(block.data, "dz_zip_type"@) {
                Err(e) => Err(e),
                Ok(zip_type) => {
                    if zip_type != 0 {
                        Err(MdfError::UnsupportedCompression)
                    } else {
                        match lookup(block.data, "unparsed_data"@) {
                            None => Err(MdfError::SchemaMissing),
                            Some(v) => match model_bytes(v) {
                                None => Err(MdfError::UnsupportedDataType),
                                Some(stored) => Ok((data_len, ori_len, stored)),
                            },
                        }
                    }
                },
            },
        },
    }
}

/// The payload of a compressed block that declares `ori_len` bytes, given
/// what inflating its stored bytes gave. Stored bytes that did not inflate,
/// or not to the declared length, are corrupt.
pub open spec fn checked_payload(ori_len: u64, inflated: Option<Seq<u8>>) -> Result<Seq<u8>, MdfError> {
    match inflated {
        None => Err(MdfError::DataCorrupt),
        Some(bytes) => if bytes.len() != ori_len {
            Err(MdfError::DataCorrupt)
        } else {
            Ok(bytes)
        },
    }
}

/// What opening the compressed block at `offset` gives: the stored length
/// and the payload; or why the block is refused. Stored bytes that do not
/// inflate, or not to the declared length, are corrupt.
#[verifier::opaque]
pub open spec fn spec_dz(map: &DescMap, file: Seq<u8>, offset: u64) -> Result<
    (u64, Seq<u8>),
    MdfError,
> {
    match map.spec_get("DZ"@) {
        None => Err(MdfError::SchemaMissing),
        Some(desc) => match desc.spec_parse(file, offset) {
            Err(e) => Err(e),
            Ok(block) => match spec_dz_fields(block) {
                Err(e) => Err(e),
                Ok((data_len, ori_len, stored)) => match checked_payload(
                    ori_len,
                    zlib_inflated(stored),
                ) {
                    Err(e) => Err(e),
                    Ok(bytes) => Ok((data_len, bytes)),
                },
            },
        },
    }
}

impl DZBlock {
    /// The stored, deflated, length.
    pub closed spec fn spec_stored_len(&self) -> u64 {
        self.data_len
    }

    /// The inflated payload.
    pub closed spec fn spec_data(&self) -> Seq<u8> {
        self.ori_data@
    }

    #[verifier::type_invariant]
    spec fn inv(&self) -> bool {
        self.ori_data@.len() == self.ori_data_len
    }

    /// Opens the compressed block at `offset` and inflates its payload.
    /// Only deflate is accepted, and the inflated length must be the one
    /// that the block declares.
    pub fn new(map: &DescMap, file: &[u8], offset: u64) -> (r: Result<Self, MdfError>)
        ensures
            match r {
                Ok(dz) => spec_dz(map, file@, offset) == Ok::<(u64, Seq<u8>), MdfError>(
                    (dz.spec_stored_len(), dz.spec_data()),
                ),
                Err(e) => spec_dz(map, file@, offset) == Err::<(u64, Seq<u8>), MdfError>(e),
            },
    {
        reveal(spec_dz);
        let desc: &BlockDesc = match map.get("DZ") {
            Some(d) => d,
            None => {
                return Err(MdfError::SchemaMissing);
            },
        };
        let info: BlockInfo = match desc.try_parse_buf(file, offset) {
            Ok(info) => info,
            Err(e) => {
                return Err(e);
            },
        };
        let data_len: u64 = match info.first_or_error::<u64>("dz_data_length") {
            Ok(x) => x,
            Err(e) => {
                return Err(e);
            },
        };
        let ori_data_len: u64 = match info.first_or_error::<u64>("dz_org_data_length") {
            Ok(x) => x,
            Err(e) => {
                return Err(e);
            },
        };
        let zip_type: u8 = match info.first_or_error::<u8>("dz_zip_type") {
            Ok(x) => x,
            Err(e) => {
                return Err(e);
            },
        };
        if zip_type != 0 {
            return Err(MdfError::UnsupportedCompression);
        }
        let stored: &[u8] = match info.get_data_value("unparsed_data") {
            None => {
                return Err(MdfError::SchemaMissing);
            },
            Some(v) => match v.as_bytes() {
                None => {
                    return Err(MdfError::UnsupportedDataType);
                },
                Some(b) => b,
            },
        };
        Self::with_payload(data_len, ori_data_len, zlib_inflate(stored))
    }

    /// The compressed block with the stored length `data_len` that declares
    /// a payload of `ori_data_len` bytes, given what inflating its stored
    /// bytes gave.
    pub fn with_payload(data_len: u64, ori_data_len: u64, inflated: Option<Vec<u8>>) -> (r: Result<
        Self,
        MdfError,
    >)
        ensures
            match r {
                Ok(dz) => {
                    &&& inflated is Some
                    &&& checked_payload(ori_data_len, Some(inflated->0@)) == Ok::<
                        Seq<u8>,
                        MdfError,
                    >(dz.spec_data())
                    &&& dz.spec_stored_len() == data_len
                },
                Err(e) => e == MdfError::DataCorrupt && (inflated is None || inflated->0@.len()
                    != ori_data_len),
            },
    {
        match inflated {
            None => Err(MdfError::DataCorrupt),
            Some(ori_data) => {
                if ori_data.len() as u64 != ori_data_len {
                    Err(MdfError::DataCorrupt)
                } else {
                    Ok(DZBlock { data_len, ori_data_len, ori_data })
                }
            },
        }
    }

    /// The stored, deflated, length.
    pub fn get_len(&self) -> (n: u64)
        ensures
            n == self.spec_stored_len(),
    {
        self.data_len
    }

    /// The inflated payload.
    pub fn get_data(&self) -> (d: &[u8])
        ensures
            d@ == self.spec_data(),
    {
        self.ori_data.as_slice()
    }

    fn get_orig_len(&self) -> (n: u64)
        ensures
            n == self.spec_data().len(),
    {
        proof {
            use_type_invariant(self);
        }
        self.ori_data_len
    }

    /// Copies `n` payload bytes from offset `v` on into `dst` at `at`.
    pub(crate) fn read_into(&self, v: u64, dst: &mut [u8], at: usize, n: usize) -> (r: Result<
        (),
        MdfError,
    >)
        requires
            at + n <= old(dst)@.len(),
        ensures
            final(dst)@.len() == old(dst)@.len(),
            match r {
                Ok(()) => {
                    &&& inflated_read(self.spec_data(), v as int, n as int) is Ok
                    &&& final(dst)@ == spliced(
                        old(dst)@,
                        at as int,
                        inflated_read(self.spec_data(), v as int, n as int)->Ok_0,
                    )
                },
                Err(e) => inflated_read(self.spec_data(), v as int, n as int) == Err::<
                    Seq<u8>,
                    MdfError,
                >(e),
            },
    {
        let len: usize = self.ori_data.len();
        if v > len as u64 || n as u64 > len as u64 - v {
            return Err(MdfError::OutOfRange);
        }
        copy_into(dst, at, self.ori_data.as_slice(), v as usize, n);
        Ok(())
    }
}

/// The `n` bytes from offset `v` of a payload held in memory.
pub open spec fn inflated_read(data: Seq<u8>, v: int, n: int) -> Result<Seq<u8>, MdfError> {
    if v + n > data.len() {
        Err(MdfError::OutOfRange)
    } else {
        Ok(data.subrange(v, v + n))
    }
}

impl VirtualBuf for DZBlock {
    open spec fn spec_len(&self) -> int {
        self.spec_data().len() as int
    }

    open spec fn spec_read(&self, file: Seq<u8>, v: int, n: int) -> Result<Seq<u8>, MdfError> {
        inflated_read(self.spec_data(), v, n)
    }

    fn read_virtual_buf(&self, from: &[u8], virtual_offset: u64, buf: &mut [u8]) -> (r: Result<
        (),
        MdfError,
    >) {
        let n: usize = buf.len();
        let r = self.read_into(virtual_offset, buf, 0, n);
        proof {
            if r is Ok {
                let piece = self.spec_read(from@, virtual_offset as int, n as int)->Ok_0;
                assert(spliced(old(buf)@, 0, piece) =~= piece);
            }
        }
        r
    }

    fn get_data_len(&self) -> (n: u64) {
        self.get_orig_len()
    }
}

// ---------------------------------------------------------------------------
// One piece of a data list
// ---------------------------------------------------------------------------

/// One block of a data list: raw or compressed.
#[derive(Debug)]
pub enum Fragment {
    Raw(DT),
    Zipped(DZBlock),
}

/// What a `Fragment` holds.
pub enum FragmentModel {
    /// A raw block: its payload length and the place of its payload.
    Raw(u64, u64),
    /// A compressed block: its stored length and its inflated payload.
    Zipped(u64, Seq<u8>),
}

impl View for Fragment {
    type V = FragmentModel;

    open spec fn view(&self) -> FragmentModel {
        match self {
            Fragment::Raw(dt) => FragmentModel::Raw(dt.spec_data_len(), dt.spec_data_offset()),
            Fragment::Zipped(dz) => FragmentModel::Zipped(dz.spec_stored_len(), dz.spec_data()),
        }
    }
}

impl FragmentModel {
    /// The number of payload bytes.
    pub open spec fn len(&self) -> int {
        match self {
            FragmentModel::Raw(len, _) => *len as int,
            FragmentModel::Zipped(_, data) => data.len() as int,
        }
    }

    /// The `n` bytes from offset `v` of the payload as `file` holds it.
    pub open spec fn read(&self, file: Seq<u8>, v: int, n: int) -> Result<Seq<u8>, MdfError> {
        match self {
            FragmentModel::Raw(len, start) => raw_read(file, *start as int, *len as int, v, n),
            FragmentModel::Zipped(_, data) => inflated_read(*data, v, n),
        }
    }
}

/// The block of a data list found at `offset`: raw where its tag is `DT`,
/// `SD` or `RD`, compressed where it is `DZ`.
pub open spec fn spec_fragment(map: &DescMap, file: Seq<u8>, offset: u64) -> Result<
    FragmentModel,
    MdfError,
> {
    match spec_block_type(file, offset) {
        Err(e) => Err(e),
        Ok(kind) => {
            if kind == "DT"@ || kind == "SD"@ || kind == "RD"@ {
                match spec_dt(file, offset) {
                    Err(e) => Err(e),
                    Ok((len, start)) => Ok(FragmentModel::Raw(len, start)),
                }
            } else if kind == "DZ"@ {
                match spec_dz(map, file, offset) {
                    Err(e) => Err(e),
                    Ok((stored, data)) => Ok(FragmentModel::Zipped(stored, data)),
                }
            } else {
                Err(MdfError::BadBlockId)
            }
        },
    }
}

impl Fragment {
    /// Opens the block of a data list found at `offset`.
    pub fn new(map: &DescMap, file: &[u8], offset: u64) -> (r: Result<Self, MdfError>)
        ensures
            match r {
                Ok(f) => spec_fragment(map, file@, offset) == Ok::<FragmentModel, MdfError>(f@),
                Err(e) => spec_fragment(map, file@, offset) == Err::<FragmentModel, MdfError>(e),
            },
    {
        let kind: String = match peek_block_type(file, offset) {
            Ok(kind) => kind,
            Err(e) => {
                return Err(e);
            },
        };
        if str_eq(kind.as_str(), "DT") || str_eq(kind.as_str(), "SD") || str_eq(
            kind.as_str(),
            "RD",
        ) {
            match DT::new(file, offset) {
                Ok(dt) => Ok(Fragment::Raw(dt)),
                Err(e) => Err(e),
            }
        } else if str_eq(kind.as_str(), "DZ") {
            match DZBlock::new(map, file, offset) {
                Ok(dz) => Ok(Fragment::Zipped(dz)),
                Err(e) => Err(e),
            }
        } else {
            Err(MdfError::BadBlockId)
        }
    }

    /// The number of payload bytes.
    pub fn len(&self) -> (n: u64)
        ensures
            n == self@.len(),
    {
        match self {
            Fragment::Raw(dt) => dt.get_data_len(),
            Fragment::Zipped(dz) => dz.get_data_len(),
        }
    }

    /// Copies `n` payload bytes from offset `v` on into `dst` at `at`.
    pub(crate) fn read_into(&self, from: &[u8], v: u64, dst: &mut [u8], at: usize, n: usize) -> (r:
        Result<(), MdfError>)
        requires
            at + n <= old(dst)@.len(),
        ensures
            final(dst)@.len() == old(dst)@.len(),
            match r {
                Ok(()) => {
                    &&& self@.read(from@, v as int, n as int) is Ok
                    &&& final(dst)@ == spliced(
                        old(dst)@,
                        at as int,
                        self@.read(from@, v as int, n as int)->Ok_0,
                    )
                },
                Err(e) => self@.read(from@, v as int, n as int) == Err::<Seq<u8>, MdfError>(e),
            },
    {
        match self {
            Fragment::Raw(dt) => dt.read_into(from, v, dst, at, n),
            Fragment::Zipped(dz) => dz.read_into(v, dst, at, n),
        }
    }
}

// ---------------------------------------------------------------------------
// Data lists
// ---------------------------------------------------------------------------

/// One data-list block as the file holds it.
#[derive(Debug)]
pub struct DLBlock {
    pub dl_dl_next: u64,
    pub dl_data: Vec<u64>,
    pub dl_flags: u8,
    pub dl_count: u32,
    pub dl_equal_length: Option<u64>,
    pub dl_offset: Option<Vec<u64>>,
}

/// What a `DLBlock` holds.
pub struct DlModel {
    pub next: u64,
    pub data: Seq<u64>,
    pub flags: u8,
    pub count: u32,
    pub equal_length: Option<u64>,
    pub offsets: Option<Seq<u64>>,
}

impl View for DLBlock {
    type V = DlModel;

    open spec fn view(&self) -> DlModel {
        DlModel {
            next: self.dl_dl_next,
            data: self.dl_data@,
            flags: self.dl_flags,
            count: self.dl_count,
            equal_length: self.dl_equal_length,
            offsets: match self.dl_offset {
                Some(v) => Some(v@),
                None => None,
            },
        }
    }
}

/// The bytes of the tag of a data-list block, `##DL`.
pub open spec fn dl_tag() -> Seq<u8> {
    seq![0x23u8, 0x23u8, 0x44u8, 0x4cu8]
}

/// The data-list block at `off`. Its first link points to the next list
/// block, the others to data blocks. Behind the links stand the flags, the
/// number of blocks and, by bit 0 of the flags, either the one length that
/// all blocks have or the offset of each.
#[verifier::opaque]
pub open spec fn spec_dl(file: Seq<u8>, off: u64) -> Result<DlModel, MdfError> {
    if off + 4 > file.len() {
        Err(MdfError::IoError)
    } else if file.subrange(off as int, off + 4) != dl_tag() {
        Err(MdfError::BadBlockId)
    } else if off + 24 > file.len() {
        Err(MdfError::IoError)
    } else {
        let links = link_count_at(file, off as int);
        if links == 0 {
            Err(MdfError::LinkCountMismatch)
        } else if off + 24 + 8 * links + 8 > file.len() {
            Err(MdfError::IoError)
        } else {
            let p = off + 24 + 8 * links;
            let all = u64s_le(file.subrange(off + 24, p), links as nat);
            let flags = file[p];
            let count = le_u32(file.subrange(p + 4, p + 8)) as u32;
            if flags & 1 == 1 {
                if p + 16 > file.len() {
                    Err(MdfError::IoError)
                } else {
                    Ok(
                        DlModel {
                            next: all[0],
                            data: all.subrange(1, links),
                            flags,
                            count,
                            equal_length: Some(
                                u64s_le(file.subrange(p + 8, p + 16), 1)[0],
                            ),
                            offsets: None,
                        },
                    )
                }
            } else {
                if p + 8 + 8 * count > file.len() {
                    Err(MdfError::IoError)
                } else {
                    Ok(
                        DlModel {
                            next: all[0],
                            data: all.subrange(1, links),
                            flags,
                            count,
                            equal_length: None,
                            offsets: Some(
                                u64s_le(
                                    file.subrange(p + 8, p + 8 + 8 * count),
                                    count as nat,
                                ),
                            ),
                        },
                    )
                }
            }
        }
    }
}

fn tail_of(v: &Vec<u64>) -> (t: Vec<u64>)
    requires
        v@.len() >= 1,
    ensures
        t@ == v@.subrange(1, v@.len() as int),
{
    let n: usize = v.len();
    let mut t: Vec<u64> = Vec::new();
    let mut i: usize = 1;
    while i < n
        invariant
            1 <= i <= n,
            n == v@.len(),
            t@.len() == i - 1,
            forall|j: int| 0 <= j < i - 1 ==> t@[j] == v@[j + 1],
        decreases n - i,
    {
        t.push(v[i]);
        i += 1;
    }
    assert(t@ =~= v@.subrange(1, v@.len() as int));
    t
}

/// Reads the data-list block at `offset`.
pub fn read_dl_block(file: &[u8], offset: u64) -> (r: Result<DLBlock, MdfError>)
    ensures
        match r {
            Ok(b) => spec_dl(file@, offset) == Ok::<DlModel, MdfError>(b@),
            Err(e) => spec_dl(file@, offset) == Err::<DlModel, MdfError>(e),
        },
{
    reveal(spec_dl);
    let flen: usize = file.len();
    if offset > flen as u64 || flen as u64 - offset < 4 {
        return Err(MdfError::IoError);
    }
    let off: usize = offset as usize;
    let tag: &[u8] = &file[off..off + 4];
    if !(tag[0] == 0x23 && tag[1] == 0x23 && tag[2] == 0x44 && tag[3] == 0x4c) {
        assert(tag@ != dl_tag());
        return Err(MdfError::BadBlockId);
    }
    assert(tag@ =~= dl_tag());
    if flen - off < 24 {
        return Err(MdfError::IoError);
    }
    let link_len: u64 = read_u64_le(&file[off + 16..off + 24]);
    if link_len == 0 {
        return Err(MdfError::LinkCountMismatch);
    }
    let room: usize = flen - off - 24;
    if room < 8 || link_len > ((room - 8) / 8) as u64 {
        return Err(MdfError::IoError);
    }
    let n_links: usize = link_len as usize;
    let p: usize = off + 24 + 8 * n_links;
    let all: Vec<u64> = read_u64s(&file[off + 24..p], n_links);
    let dl_dl_next: u64 = all[0];
    let dl_data: Vec<u64> = tail_of(&all);
    let dl_flags: u8 = file[p];
    let dl_count: u32 = read_u32_le(&file[p + 4..p + 8]);
    if dl_flags & 1 == 1 {
        if flen - p < 16 {
            return Err(MdfError::IoError);
        }
        let one: Vec<u64> = read_u64s(&file[p + 8..p + 16], 1);
        Ok(
            DLBlock {
                dl_dl_next,
                dl_data,
                dl_flags,
                dl_count,
                dl_equal_length: Some(one[0]),
                dl_offset: None,
            },
        )
    } else {
        let left: usize = flen - p - 8;
        if dl_count as u64 > (left / 8) as u64 {
            return Err(MdfError::IoError);
        }
        let count: usize = dl_count as usize;
        let offsets: Vec<u64> = read_u64s(&file[p + 8..p + 8 + 8 * count], count);
        Ok(
            DLBlock {
                dl_dl_next,
                dl_data,
                dl_flags,
                dl_count,
                dl_equal_length: None,
                dl_offset: Some(offsets),
            },
        )
    }
}

/// What each of the list blocks holds.
pub open spec fn dl_models(blocks: Seq<DLBlock>) -> Seq<DlModel> {
    Seq::new(blocks.len(), |i: int| blocks[i]@)
}

/// What each of the fragments holds.
pub open spec fn fragment_models(frags: Seq<Fragment>) -> Seq<FragmentModel> {
    Seq::new(frags.len(), |i: int| frags[i]@)
}

/// The most list blocks that a chain in `file` is followed through: one
/// more than the headers that the file has room for.
pub open spec fn chain_budget(file: Seq<u8>) -> nat {
    (file.len() / 24) as nat
}

/// The list blocks reached from the one at `off` by their first links, up
/// to the nil link. A chain longer than `budget` more blocks is corrupt.
pub open spec fn dl_chain(file: Seq<u8>, off: u64, budget: nat) -> Result<Seq<DlModel>, MdfError>
    decreases budget,
{
    match spec_dl(file, off) {
        Err(e) => Err(e),
        Ok(b) => {
            if b.next == 0 {
                Ok(seq![b])
            } else if budget == 0 {
                Err(MdfError::DataCorrupt)
            } else {
                match dl_chain(file, b.next, (budget - 1) as nat) {
                    Err(e) => Err(e),
                    Ok(rest) => Ok(seq![b] + rest),
                }
            }
        },
    }
}

/// The sum of the block counts that the first `k` list blocks declare.
pub open spec fn counts_upto(blocks: Seq<DlModel>, k: int) -> int
    decreases k,
{
    if k <= 0 {
        0
    } else {
        counts_upto(blocks, k - 1) + blocks[k - 1].count
    }
}

/// The data links of the first `k` list blocks, in order.
pub open spec fn starts_upto(blocks: Seq<DlModel>, k: int) -> Seq<u64>
    decreases k,
{
    if k <= 0 {
        Seq::empty()
    } else {
        starts_upto(blocks, k - 1) + blocks[k - 1].data
    }
}

/// The offsets that the first `k` list blocks declare, in order.
pub open spec fn declared_upto(blocks: Seq<DlModel>, k: int) -> Seq<u64>
    decreases k,
{
    if k <= 0 {
        Seq::empty()
    } else {
        declared_upto(blocks, k - 1) + (match blocks[k - 1].offsets {
            Some(o) => o,
            None => Seq::empty(),
        })
    }
}

/// The blocks that the first `k` links of `starts` point to, opened in
/// order; or the error of the first that cannot be opened.
pub open spec fn frags_upto(map: &DescMap, file: Seq<u8>, starts: Seq<u64>, k: int) -> Result<
    Seq<FragmentModel>,
    MdfError,
>
    decreases k,
{
    if k <= 0 {
        Ok(Seq::empty())
    } else {
        match frags_upto(map, file, starts, k - 1) {
            Err(e) => Err(e),
            Ok(done) => match spec_fragment(map, file, starts[k - 1]) {
                Err(e) => Err(e),
                Ok(f) => Ok(done.push(f)),
            },
        }
    }
}

/// The number of payload bytes in the first `k` fragments: the virtual
/// offset at which fragment `k` starts.
pub open spec fn frags_len(frags: Seq<FragmentModel>, k: int) -> int
    decreases k,
{
    if k <= 0 {
        0
    } else {
        frags_len(frags, k - 1) + frags[k - 1].len()
    }
}

/// The virtual offset at which each fragment starts.
pub open spec fn virtual_starts(frags: Seq<FragmentModel>) -> Seq<u64> {
    Seq::new(frags.len(), |i: int| frags_len(frags, i) as u64)
}

/// Whether some list block gives an offset for each of its blocks.
pub open spec fn any_unequal(blocks: Seq<DlModel>) -> bool {
    exists|i: int| 0 <= i < blocks.len() && (#[trigger] blocks[i]).flags & 1 == 0
}

/// Whether every list block gives an offset for each of its blocks.
pub open spec fn all_unequal(blocks: Seq<DlModel>) -> bool {
    forall|i: int| 0 <= i < blocks.len() ==> (#[trigger] blocks[i]).flags & 1 == 0
}

/// What a `DataLink` holds.
pub struct DataLinkModel {
    pub total_len: u64,
    pub num_of_blocks: u64,
    pub start_offsets_in_file: Seq<u64>,
    pub virtual_offsets: Seq<u64>,
    pub fragments: Seq<FragmentModel>,
}

/// The payload gathered from the chain of list blocks at `off`: the data
/// blocks of all list blocks in order, each with the virtual offset at
/// which it starts. Where a list block declares offsets, every list block
/// must, and the declared offsets must be those virtual offsets.
#[verifier::opaque]
pub open spec fn spec_datalink(map: &DescMap, file: Seq<u8>, off: u64) -> Result<
    DataLinkModel,
    MdfError,
> {
    match dl_chain(file, off, chain_budget(file)) {
        Err(e) => Err(e),
        Ok(blocks) => {
            let n = blocks.len() as int;
            if counts_upto(blocks, n) > u64::MAX {
                Err(MdfError::DataCorrupt)
            } else {
                let starts = starts_upto(blocks, n);
                match frags_upto(map, file, starts, starts.len() as int) {
                    Err(e) => Err(e),
                    Ok(frags) => {
                        if frags_len(frags, frags.len() as int) > u64::MAX {
                            Err(MdfError::DataCorrupt)
                        } else if any_unequal(blocks) && (!all_unequal(blocks) || declared_upto(
                            blocks,
                            n,
                        ) != virtual_starts(frags)) {
                            Err(MdfError::OffsetMismatch)
                        } else {
                            Ok(
                                DataLinkModel {
                                    total_len: frags_len(frags, frags.len() as int) as u64,
                                    num_of_blocks: counts_upto(blocks, n) as u64,
                                    start_offsets_in_file: starts,
                                    virtual_offsets: virtual_starts(frags),
                                    fragments: frags,
                                },
                            )
                        }
                    },
                }
            }
        },
    }
}

/// The `n` bytes found `v` bytes behind the start of fragment `k`, read
/// fragment by fragment: from each fragment the part of the request that
/// lies in it, at the offset counted from that fragment's start, and the
/// parts joined in order.
pub open spec fn linked_read(frags: Seq<FragmentModel>, file: Seq<u8>, k: int, v: int, n: int) -> Result<
    Seq<u8>,
    MdfError,
>
    decreases frags.len() - k,
{
    if n <= 0 {
        Ok(Seq::empty())
    } else if k < 0 || k >= frags.len() {
        Err(MdfError::OutOfRange)
    } else if v >= frags[k].len() {
        linked_read(frags, file, k + 1, v - frags[k].len(), n)
    } else {
        let take = if n <= frags[k].len() - v {
            n
        } else {
            frags[k].len() - v
        };
        match frags[k].read(file, v, take) {
            Err(e) => Err(e),
            Ok(head) => match linked_read(frags, file, k + 1, 0, n - take) {
                Err(e) => Err(e),
                Ok(tail) => Ok(head + tail),
            },
        }
    }
}

/// The sums of block counts do not shrink as more list blocks are counted.
proof fn lemma_counts_grow(blocks: Seq<DlModel>, k: int, n: int)
    requires
        0 <= k <= n,
    ensures
        0 <= counts_upto(blocks, k) <= counts_upto(blocks, n),
    decreases n,
{
    if n > 0 {
        if k < n {
            lemma_counts_grow(blocks, k, n - 1);
        } else {
            lemma_counts_grow(blocks, k - 1, n - 1);
        }
    }
}

/// The sums of fragment lengths do not shrink as more fragments are added.
pub proof fn lemma_frags_len_grows(frags: Seq<FragmentModel>, k: int, n: int)
    requires
        0 <= k <= n,
    ensures
        0 <= frags_len(frags, k) <= frags_len(frags, n),
    decreases n,
{
    if n > 0 {
        if k < n {
            lemma_frags_len_grows(frags, k, n - 1);
        } else {
            lemma_frags_len_grows(frags, k - 1, n - 1);
        }
    }
}

/// The sum of the lengths of the first `k` fragments depends on those
/// fragments only.
proof fn lemma_frags_len_prefix(a: Seq<FragmentModel>, b: Seq<FragmentModel>, k: int)
    requires
        0 <= k <= a.len(),
        k <= b.len(),
        forall|i: int| 0 <= i < k ==> a[i] == b[i],
    ensures
        frags_len(a, k) == frags_len(b, k),
    decreases k,
{
    if k > 0 {
        lemma_frags_len_prefix(a, b, k - 1);
    }
}

fn read_dl_chain(file: &[u8], offset: u64) -> (r: Result<Vec<DLBlock>, MdfError>)
    ensures
        match r {
            Ok(blocks) => dl_chain(file@, offset, chain_budget(file@)) == Ok::<
                Seq<DlModel>,
                MdfError,
            >(dl_models(blocks@)),
            Err(e) => dl_chain(file@, offset, chain_budget(file@)) == Err::<Seq<DlModel>, MdfError>(
                e,
            ),
        },
{
    let mut blocks: Vec<DLBlock> = Vec::new();
    let mut cur_off: u64 = offset;
    let mut budget: usize = file.len() / 24;
    let mut done: bool = false;
    let ghost whole = dl_chain(file@, offset, chain_budget(file@));
    while !done
        invariant
            budget <= chain_budget(file@),
            whole == dl_chain(file@, offset, chain_budget(file@)),
            done ==> whole == Ok::<Seq<DlModel>, MdfError>(dl_models(blocks@)),
            !done ==> whole == (match dl_chain(file@, cur_off, budget as nat) {
                Ok(rest) => Ok::<Seq<DlModel>, MdfError>(dl_models(blocks@) + rest),
                Err(e) => Err::<Seq<DlModel>, MdfError>(e),
            }),
        decreases
                if done {
                    0
                } else {
                    budget + 1
                },
    {
        let block: DLBlock = match read_dl_block(file, cur_off) {
            Ok(b) => b,
            Err(e) => {
                return Err(e);
            },
        };
        let next: u64 = block.dl_dl_next;
        let ghost before = dl_models(blocks@);
        let ghost model = block@;
        blocks.push(block);
        assert(dl_models(blocks@) =~= before + seq![model]);
        if next == 0 {
            done = true;
        } else if budget == 0 {
            return Err(MdfError::DataCorrupt);
        } else {
            proof {
                let rest = dl_chain(file@, next, (budget - 1) as nat);
                if rest is Ok {
                    assert(before + (seq![model] + rest->Ok_0) =~= (before + seq![model])
                        + rest->Ok_0);
                }
            }
            cur_off = next;
            budget = budget - 1;
        }
    }
    Ok(blocks)
}

fn sum_counts(blocks: &Vec<DLBlock>) -> (r: Option<u64>)
    ensures
        match r {
            Some(s) => s == counts_upto(dl_models(blocks@), blocks@.len() as int),
            None => counts_upto(dl_models(blocks@), blocks@.len() as int) > u64::MAX,
        },
{
    let ghost models = dl_models(blocks@);
    let mut sum: u64 = 0;
    let mut i: usize = 0;
    while i < blocks.len()
        invariant
            i <= blocks@.len(),
            models == dl_models(blocks@),
            sum == counts_upto(models, i as int),
        decreases blocks@.len() - i,
    {
        let c: u64 = blocks[i].dl_count as u64;
        if c > u64::MAX - sum {
            proof {
                lemma_counts_grow(models, i + 1, blocks@.len() as int);
            }
            return None;
        }
        sum = sum + c;
        i += 1;
    }
    Some(sum)
}

fn collect_starts(blocks: &Vec<DLBlock>) -> (v: Vec<u64>)
    ensures
        v@ == starts_upto(dl_models(blocks@), blocks@.len() as int),
{
    let ghost models = dl_models(blocks@);
    let mut v: Vec<u64> = Vec::new();
    let mut i: usize = 0;
    while i < blocks.len()
        invariant
            i <= blocks@.len(),
            models == dl_models(blocks@),
            v@ == starts_upto(models, i as int),
        decreases blocks@.len() - i,
    {
        let data: &Vec<u64> = &blocks[i].dl_data;
        let ghost base = v@;
        let mut j: usize = 0;
        while j < data.len()
            invariant
                j <= data@.len(),
                v@ == base + data@.subrange(0, j as int),
            decreases data@.len() - j,
        {
            v.push(data[j]);
            assert(v@ =~= base + data@.subrange(0, j + 1));
            j += 1;
        }
        assert(data@.subrange(0, j as int) =~= data@);
        i += 1;
    }
    v
}

fn collect_declared(blocks: &Vec<DLBlock>) -> (v: Vec<u64>)
    ensures
        v@ == declared_upto(dl_models(blocks@), blocks@.len() as int),
{
    let ghost models = dl_models(blocks@);
    let mut v: Vec<u64> = Vec::new();
    let mut i: usize = 0;
    while i < blocks.len()
        invariant
            i <= blocks@.len(),
            models == dl_models(blocks@),
            v@ == declared_upto(models, i as int),
        decreases blocks@.len() - i,
    {
        match &blocks[i].dl_offset {
            Some(data) => {
                let ghost base = v@;
                let mut j: usize = 0;
                while j < data.len()
                    invariant
                        j <= data@.len(),
                        v@ == base + data@.subrange(0, j as int),
                    decreases data@.len() - j,
                {
                    v.push(data[j]);
                    assert(v@ =~= base + data@.subrange(0, j + 1));
                    j += 1;
                }
                assert(data@.subrange(0, j as int) =~= data@);
            },
            None => {
                assert(v@ + Seq::<u64>::empty() =~= v@);
            },
        }
        i += 1;
    }
    v
}

fn flag_census(blocks: &Vec<DLBlock>) -> (r: (bool, bool))
    ensures
        r.0 == any_unequal(dl_models(blocks@)),
        r.1 == all_unequal(dl_models(blocks@)),
{
    let ghost models = dl_models(blocks@);
    let mut any: bool = false;
    let mut all: bool = true;
    let mut i: usize = 0;
    while i < blocks.len()
        invariant
            i <= blocks@.len(),
            models == dl_models(blocks@),
            any == (exists|j: int| 0 <= j < i && (#[trigger] models[j]).flags & 1 == 0),
            all == (forall|j: int| 0 <= j < i ==> (#[trigger] models[j]).flags & 1 == 0),
        decreases blocks@.len() - i,
    {
        if blocks[i].dl_flags & 1 == 0 {
            assert(models[i as int].flags & 1 == 0);
            any = true;
        } else {
            assert(!(models[i as int].flags & 1 == 0));
            all = false;
        }
        i += 1;
    }
    (any, all)
}

fn open_fragments(map: &DescMap, file: &[u8], starts: &Vec<u64>) -> (r: Result<
    Vec<Fragment>,
    MdfError,
>)
    ensures
        match r {
            Ok(frags) => frags_upto(map, file@, starts@, starts@.len() as int) == Ok::<
                Seq<FragmentModel>,
                MdfError,
            >(fragment_models(frags@)),
            Err(e) => frags_upto(map, file@, starts@, starts@.len() as int) == Err::<
                Seq<FragmentModel>,
                MdfError,
            >(e),
        },
{
    let mut frags: Vec<Fragment> = Vec::new();
    let mut i: usize = 0;
    assert(fragment_models(frags@) =~= Seq::<FragmentModel>::empty());
    while i < starts.len()
        invariant
            i <= starts@.len(),
            frags_upto(map, file@, starts@, i as int) == Ok::<Seq<FragmentModel>, MdfError>(
                fragment_models(frags@),
            ),
        decreases starts@.len() - i,
    {
        match Fragment::new(map, file, starts[i]) {
            Ok(f) => {
                let ghost before = fragment_models(frags@);
                let ghost model = f@;
                frags.push(f);
                assert(fragment_models(frags@) =~= before.push(model));
            },
            Err(e) => {
                proof {
                    lemma_frags_upto_err(map, file@, starts@, i + 1, starts@.len() as int);
                }
                return Err(e);
            },
        }
        i += 1;
    }
    Ok(frags)
}

/// Once a fragment cannot be opened, none of the later ones changes the
/// error.
proof fn lemma_frags_upto_err(map: &DescMap, file: Seq<u8>, starts: Seq<u64>, k: int, n: int)
    requires
        0 <= k <= n,
        frags_upto(map, file, starts, k) is Err,
    ensures
        frags_upto(map, file, starts, n) == frags_upto(map, file, starts, k),
    decreases n - k,
{
    if k < n {
        lemma_frags_upto_err(map, file, starts, k, n - 1);
    }
}

fn prefix_sums(frags: &Vec<Fragment>) -> (r: Option<(Vec<u64>, u64)>)
    ensures
        match r {
            Some((starts, total)) => {
                &&& starts@ == virtual_starts(fragment_models(frags@))
                &&& total == frags_len(fragment_models(frags@), frags@.len() as int)
            },
            None => frags_len(fragment_models(frags@), frags@.len() as int) > u64::MAX,
        },
{
    let ghost models = fragment_models(frags@);
    let mut starts: Vec<u64> = Vec::new();
    let mut sum: u64 = 0;
    let mut i: usize = 0;
    while i < frags.len()
        invariant
            i <= frags@.len(),
            models == fragment_models(frags@),
            sum == frags_len(models, i as int),
            starts@.len() == i,
            forall|j: int| 0 <= j < i ==> starts@[j] == frags_len(models, j) as u64,
        decreases frags@.len() - i,
    {
        let len: u64 = frags[i].len();
        starts.push(sum);
        if len > u64::MAX - sum {
            proof {
                lemma_frags_len_grows(models, i + 1, frags@.len() as int);
            }
            return None;
        }
        sum = sum + len;
        i += 1;
    }
    assert(starts@ =~= virtual_starts(models));
    Some((starts, sum))
}

fn same_u64s(a: &Vec<u64>, b: &Vec<u64>) -> (r: bool)
    ensures
        r == (a@ == b@),
{
    if a.len() != b.len() {
        return false;
    }
    let mut i: usize = 0;
    while i < a.len()
        invariant
            i <= a@.len(),
            a@.len() == b@.len(),
            forall|j: int| 0 <= j < i ==> a@[j] == b@[j],
        decreases a@.len() - i,
    {
        if a[i] != b[i] {
            return false;
        }
        i += 1;
    }
    assert(a@ =~= b@);
    true
}

/// The payload of a chain of data-list blocks, read as one run of bytes.
#[derive(Debug)]
pub struct DataLink {
    total_len: u64,
    num_of_blocks: u64,
    start_offsets_in_file: Vec<u64>,
    virtual_offsets: Vec<u64>,
    data_blocks: Vec<Fragment>,
}

impl View for DataLink {
    type V = DataLinkModel;

    closed spec fn view(&self) -> DataLinkModel {
        DataLinkModel {
            total_len: self.total_len,
            num_of_blocks: self.num_of_blocks,
            start_offsets_in_file: self.start_offsets_in_file@,
            virtual_offsets: self.virtual_offsets@,
            fragments: fragment_models(self.data_blocks@),
        }
    }
}

impl DataLink {
    #[verifier::type_invariant]
    spec fn inv(&self) -> bool {
        &&& self.total_len == frags_len(
            fragment_models(self.data_blocks@),
            self.data_blocks@.len() as int,
        )
        &&& self.virtual_offsets@ == virtual_starts(fragment_models(self.data_blocks@))
    }

    /// Whether the lengths kept are those of the fragments.
    pub open spec fn wf(&self) -> bool {
        &&& self@.total_len == frags_len(self@.fragments, self@.fragments.len() as int)
        &&& self@.virtual_offsets == virtual_starts(self@.fragments)
    }

    /// Gathers the payload of the chain of list blocks that starts at
    /// `offset`.
    pub fn new(map: &DescMap, file: &[u8], offset: u64) -> (r: Result<Self, MdfError>)
        ensures
            match r {
                Ok(dl) => spec_datalink(map, file@, offset) == Ok::<DataLinkModel, MdfError>(dl@)
                    && dl.wf(),
                Err(e) => spec_datalink(map, file@, offset) == Err::<DataLinkModel, MdfError>(e),
            },
    {
        reveal(spec_datalink);
        let dl_blocks: Vec<DLBlock> = match read_dl_chain(file, offset) {
            Ok(b) => b,
            Err(e) => {
                return Err(e);
            },
        };
        let num_of_blocks: u64 = match sum_counts(&dl_blocks) {
            Some(n) => n,
            None => {
                return Err(MdfError::DataCorrupt);
            },
        };
        let start_offsets_in_file: Vec<u64> = collect_starts(&dl_blocks);
        let data_blocks: Vec<Fragment> = match open_fragments(map, file, &start_offsets_in_file) {
            Ok(f) => f,
            Err(e) => {
                return Err(e);
            },
        };
        let (virtual_offsets, total_len) = match prefix_sums(&data_blocks) {
            Some(p) => p,
            None => {
                return Err(MdfError::DataCorrupt);
            },
        };
        let (any, all) = flag_census(&dl_blocks);
        if any {
            if !all {
                return Err(MdfError::OffsetMismatch);
            }
            let declared: Vec<u64> = collect_declared(&dl_blocks);
            if !same_u64s(&declared, &virtual_offsets) {
                return Err(MdfError::OffsetMismatch);
            }
        }
        Ok(DataLink { total_len, num_of_blocks, start_offsets_in_file, virtual_offsets, data_blocks })
    }

    /// The number of data blocks that the list blocks declare.
    pub fn get_num_of_blocks(&self) -> (n: u64)
        ensures
            n == self@.num_of_blocks,
    {
        self.num_of_blocks
    }

    /// The number of bytes in the payload.
    pub fn get_total_len(&self) -> (n: u64)
        ensures
            n == self@.total_len,
            self.wf(),
    {
        proof {
            use_type_invariant(self);
        }
        self.total_len
    }

    /// The place in the file of each data block's header.
    pub fn get_start_offsets_in_file(&self) -> (v: &Vec<u64>)
        ensures
            v@ == self@.start_offsets_in_file,
    {
        &self.start_offsets_in_file
    }

    /// The virtual offset at which each data block's payload starts.
    pub fn get_virtual_offsets(&self) -> (v: &Vec<u64>)
        ensures
            v@ == self@.virtual_offsets,
    {
        &self.virtual_offsets
    }
}

impl VirtualBuf for DataLink {
    open spec fn spec_len(&self) -> int {
        self@.total_len as int
    }

    open spec fn spec_read(&self, file: Seq<u8>, v: int, n: int) -> Result<Seq<u8>, MdfError> {
        if v + n > self@.total_len {
            Err(MdfError::OutOfRange)
        } else {
            linked_read(self@.fragments, file, 0, v, n)
        }
    }

    fn read_virtual_buf(&self, from: &[u8], virtual_offset: u64, buf: &mut [u8]) -> (r: Result<
        (),
        MdfError,
    >) {
        let n: usize = buf.len();
        if virtual_offset > self.total_len || n as u64 > self.total_len - virtual_offset {
            return Err(MdfError::OutOfRange);
        }
        let ghost frags = fragment_models(self.data_blocks@);
        let ghost whole = linked_read(frags, from@, 0, virtual_offset as int, n as int);
        let mut k: usize = 0;
        let mut rel: u64 = virtual_offset;
        let mut at: usize = 0;
        while at < n
            invariant
                at <= n,
                n == buf@.len(),
                n == old(buf)@.len(),
                k <= self.data_blocks@.len(),
                frags == fragment_models(self.data_blocks@),
                frags == self@.fragments,
                virtual_offset + n <= self@.total_len,
                whole == linked_read(frags, from@, 0, virtual_offset as int, n as int),
                whole == (match linked_read(frags, from@, k as int, rel as int, n - at) {
                    Ok(tail) => Ok::<Seq<u8>, MdfError>(buf@.subrange(0, at as int) + tail),
                    Err(e) => Err::<Seq<u8>, MdfError>(e),
                }),
            decreases self.data_blocks@.len() - k,
        {
            if k >= self.data_blocks.len() {
                return Err(MdfError::OutOfRange);
            }
            let frag: &Fragment = &self.data_blocks[k];
            assert(frag@ == frags[k as int]);
            let flen: u64 = frag.len();
            if rel >= flen {
                rel = rel - flen;
            } else {
                let room: u64 = flen - rel;
                let take: usize = if (n - at) as u64 <= room {
                    n - at
                } else {
                    room as usize
                };
                let ghost before = buf@;
                match frag.read_into(from, rel, buf, at, take) {
                    Ok(()) => {},
                    Err(e) => {
                        return Err(e);
                    },
                }
                proof {
                    let head = frags[k as int].read(from@, rel as int, take as int)->Ok_0;
                    assert(head.len() == take);
                    assert(buf@.subrange(0, at + take) =~= before.subrange(0, at as int) + head);
                    let rest = linked_read(frags, from@, k + 1, 0, n - at - take);
                    if rest is Ok {
                        assert(before.subrange(0, at as int) + (head + rest->Ok_0) =~= (
                        before.subrange(0, at as int) + head) + rest->Ok_0);
                    }
                }
                at = at + take;
                rel = 0;
            }
            k = k + 1;
        }
        proof {
            assert(buf@.subrange(0, at as int) =~= buf@);
            assert(buf@ + Seq::<u8>::empty() =~= buf@);
        }
        Ok(())
    }

    fn get_data_len(&self) -> (n: u64) {
        self.total_len
    }
}

// ---------------------------------------------------------------------------
// The payload as one run of bytes
// ---------------------------------------------------------------------------

/// Whether `file` holds the whole payload of the fragment.
pub open spec fn fragment_available(f: FragmentModel, file: Seq<u8>) -> bool {
    match f {
        FragmentModel::Raw(len, start) => start + len <= file.len(),
        FragmentModel::Zipped(_, _) => true,
    }
}

/// The payload of the fragment as `file` holds it.
pub open spec fn fragment_contents(f: FragmentModel, file: Seq<u8>) -> Seq<u8> {
    match f {
        FragmentModel::Raw(len, start) => file.subrange(start as int, start + len),
        FragmentModel::Zipped(_, data) => data,
    }
}

/// The payloads of the first `k` fragments, one after the other.
pub open spec fn joined(frags: Seq<FragmentModel>, file: Seq<u8>, k: int) -> Seq<u8>
    decreases k,
{
    if k <= 0 {
        Seq::empty()
    } else {
        joined(frags, file, k - 1) + fragment_contents(frags[k - 1], file)
    }
}

proof fn lemma_joined_len(frags: Seq<FragmentModel>, file: Seq<u8>, k: int)
    requires
        0 <= k <= frags.len(),
        forall|i: int| 0 <= i < frags.len() ==> fragment_available(#[trigger] frags[i], file),
    ensures
        joined(frags, file, k).len() == frags_len(frags, k),
    decreases k,
{
    if k > 0 {
        lemma_joined_len(frags, file, k - 1);
        assert(fragment_available(frags[k - 1], file));
    }
}

/// The payloads of the first `k` fragments are the start of the payloads
/// of the first `m`, and as long as the fragments say.
pub proof fn lemma_joined_prefix(frags: Seq<FragmentModel>, file: Seq<u8>, k: int, m: int)
    requires
        0 <= k <= m <= frags.len(),
        forall|i: int| 0 <= i < frags.len() ==> fragment_available(#[trigger] frags[i], file),
    ensures
        0 <= frags_len(frags, k) <= frags_len(frags, m),
        joined(frags, file, m).len() == frags_len(frags, m),
        joined(frags, file, m).subrange(0, frags_len(frags, k)) == joined(frags, file, k),
    decreases m - k,
{
    lemma_joined_len(frags, file, m);
    lemma_joined_len(frags, file, k);
    lemma_frags_len_grows(frags, k, m);
    lemma_frags_len_grows(frags, 0, k);
    if k < m {
        lemma_joined_prefix(frags, file, k, m - 1);
        lemma_joined_len(frags, file, m - 1);
        assert(joined(frags, file, m).subrange(0, frags_len(frags, k)) =~= joined(
            frags,
            file,
            m - 1,
        ).subrange(0, frags_len(frags, k)));
    } else {
        assert(joined(frags, file, m).subrange(0, frags_len(frags, k)) =~= joined(frags, file, k));
    }
}

proof fn lemma_linked_read_from(frags: Seq<FragmentModel>, file: Seq<u8>, k: int, v: int, n: int)
    requires
        0 <= k <= frags.len(),
        0 <= v,
        0 <= n,
        frags_len(frags, k) + v + n <= frags_len(frags, frags.len() as int),
        forall|i: int| 0 <= i < frags.len() ==> fragment_available(#[trigger] frags[i], file),
    ensures
        linked_read(frags, file, k, v, n) == Ok::<Seq<u8>, MdfError>(
            joined(frags, file, frags.len() as int).subrange(
                frags_len(frags, k) + v,
                frags_len(frags, k) + v + n,
            ),
        ),
    decreases frags.len() - k,
{
    let m = frags.len() as int;
    let all = joined(frags, file, m);
    let base = frags_len(frags, k);
    lemma_joined_prefix(frags, file, k, m);
    if n <= 0 {
        assert(all.subrange(base + v, base + v + n) =~= Seq::<u8>::empty());
    } else if k >= m {
        assert(false);
    } else {
        let f = frags[k];
        assert(fragment_available(f, file));
        lemma_joined_prefix(frags, file, k + 1, m);
        assert(fragment_contents(f, file) =~= all.subrange(base, base + f.len())) by {
            assert(joined(frags, file, k + 1) == joined(frags, file, k) + fragment_contents(f, file));
            assert(all.subrange(0, base + f.len()) == joined(frags, file, k + 1));
            assert(all.subrange(0, base) == joined(frags, file, k));
            assert forall|i: int| 0 <= i < f.len() implies fragment_contents(f, file)[i] == all[base
                + i] by {
                assert(all.subrange(0, base + f.len())[base + i] == all[base + i]);
                assert(joined(frags, file, k + 1)[base + i] == fragment_contents(f, file)[i]);
            }
        }
        if v >= f.len() {
            lemma_linked_read_from(frags, file, k + 1, v - f.len(), n);
        } else {
            let take = if n <= f.len() - v {
                n
            } else {
                f.len() - v
            };
            assert(f.read(file, v, take) == Ok::<Seq<u8>, MdfError>(
                fragment_contents(f, file).subrange(v, v + take),
            )) by {
                match f {
                    FragmentModel::Raw(len, start) => {
                        assert(file.subrange(start + v, start + v + take) =~= file.subrange(
                            start as int,
                            start + len,
                        ).subrange(v, v + take));
                    },
                    FragmentModel::Zipped(_, data) => {},
                }
            }
            lemma_linked_read_from(frags, file, k + 1, 0, n - take);
            let head = fragment_contents(f, file).subrange(v, v + take);
            let tail = all.subrange(base + f.len(), base + f.len() + (n - take));
            assert(head =~= all.subrange(base + v, base + v + take));
            if take < n {
                assert(head + tail =~= all.subrange(base + v, base + v + n));
            } else {
                assert(tail =~= Seq::<u8>::empty());
                assert(head + tail =~= all.subrange(base + v, base + v + n));
            }
        }
    }
}

/// Where the file holds every fragment whole, a read through the list
/// gives the same bytes as a read of the fragments' payloads laid end to
/// end: reading fragment by fragment and joining the parts changes nothing.
pub proof fn lemma_linked_read_is_contiguous(
    frags: Seq<FragmentModel>,
    file: Seq<u8>,
    v: int,
    n: int,
)
    requires
        0 <= v,
        0 <= n,
        v + n <= frags_len(frags, frags.len() as int),
        forall|i: int| 0 <= i < frags.len() ==> fragment_available(#[trigger] frags[i], file),
    ensures
        linked_read(frags, file, 0, v, n) == Ok::<Seq<u8>, MdfError>(
            joined(frags, file, frags.len() as int).subrange(v, v + n),
        ),
{
    lemma_linked_read_from(frags, file, 0, v, n);
}

// ---------------------------------------------------------------------------
// Opening the payload that a link points to
// ---------------------------------------------------------------------------

/// The first list block that the header-list block at `offset` points to,
/// or why the block is refused. Only deflate, zip type 0, is accepted.
#[verifier::opaque]
pub open spec fn spec_hl(map: &DescMap, file: Seq<u8>, offset: u64) -> Result<u64, MdfError> {
    match map.spec_get("HL"@) {
        None => Err(MdfError::SchemaMissing),
        Some(desc) => match desc.spec_parse(file, offset) {
            Err(e) => Err(e),
            Ok(block) => match normal_link(block.link_map, "hl_dl_first"@) {
                None => Err(MdfError::SchemaMissing),
                Some(first) => match first_or::<u16>(block.data, "hl_flags"@) {
                    Err(e) => Err(e),
                    Ok(_) => match first_or::<u8>(block.data, "hl_zip_type"@) {
                        Err(e) => Err(e),
                        Ok(zip_type) => if zip_type != 0 {
                            Err(MdfError::UnsupportedCompression)
                        } else {
                            Ok(first)
                        },
                    },
                },
            },
        },
    }
}

fn read_hl(map: &DescMap, file: &[u8], offset: u64) -> (r: Result<u64, MdfError>)
    ensures
        r == spec_hl(map, file@, offset),
{
    reveal(spec_hl);
    let desc: &BlockDesc = match map.get("HL") {
        Some(d) => d,
        None => {
            return Err(MdfError::SchemaMissing);
        },
    };
    let info: BlockInfo = match desc.try_parse_buf(file, offset) {
        Ok(info) => info,
        Err(e) => {
            return Err(e);
        },
    };
    let first: u64 = match info.get_link_offset_normal("hl_dl_first") {
        Some(x) => x,
        None => {
            return Err(MdfError::SchemaMissing);
        },
    };
    let _flags: u16 = match info.first_or_error::<u16>("hl_flags") {
        Ok(x) => x,
        Err(e) => {
            return Err(e);
        },
    };
    let zip_type: u8 = match info.first_or_error::<u8>("hl_zip_type") {
        Ok(x) => x,
        Err(e) => {
            return Err(e);
        },
    };
    if zip_type != 0 {
        Err(MdfError::UnsupportedCompression)
    } else {
        Ok(first)
    }
}

/// A payload of any of the three kinds.
#[derive(Debug)]
pub enum DataBlock {
    Raw(DT),
    Zipped(DZBlock),
    Linked(DataLink),
}

/// What a `DataBlock` holds.
pub enum DataBlockModel {
    /// A raw block: its payload length and the place of its payload.
    Raw(u64, u64),
    /// A compressed block: its stored length and its inflated payload.
    Zipped(u64, Seq<u8>),
    /// A data list.
    Linked(DataLinkModel),
}

impl View for DataBlock {
    type V = DataBlockModel;

    open spec fn view(&self) -> DataBlockModel {
        match self {
            DataBlock::Raw(dt) => DataBlockModel::Raw(dt.spec_data_len(), dt.spec_data_offset()),
            DataBlock::Zipped(dz) => DataBlockModel::Zipped(dz.spec_stored_len(), dz.spec_data()),
            DataBlock::Linked(dl) => DataBlockModel::Linked(dl@),
        }
    }
}

impl DataBlockModel {
    /// The number of payload bytes.
    pub open spec fn len(&self) -> int {
        match self {
            DataBlockModel::Raw(len, _) => *len as int,
            DataBlockModel::Zipped(_, data) => data.len() as int,
            DataBlockModel::Linked(dl) => dl.total_len as int,
        }
    }

    /// The `n` bytes from offset `v` of the payload as `file` holds it.
    pub open spec fn read(&self, file: Seq<u8>, v: int, n: int) -> Result<Seq<u8>, MdfError> {
        match self {
            DataBlockModel::Raw(len, start) => raw_read(file, *start as int, *len as int, v, n),
            DataBlockModel::Zipped(_, data) => inflated_read(*data, v, n),
            DataBlockModel::Linked(dl) => if v + n > dl.total_len {
                Err(MdfError::OutOfRange)
            } else {
                linked_read(dl.fragments, file, 0, v, n)
            },
        }
    }
}

/// The payload that the link `offset` points to. A nil link gives an empty
/// raw payload. Otherwise the tag of the block decides: `DT`, `SD` and `RD`
/// are raw, `DZ` is compressed, `DL` is a data list, and `HL` leads to one.
pub open spec fn spec_data_block(map: &DescMap, file: Seq<u8>, offset: u64) -> Result<
    DataBlockModel,
    MdfError,
> {
    if offset == 0 {
        Ok(DataBlockModel::Raw(0, 0))
    } else {
        match spec_block_type(file, offset) {
            Err(e) => Err(e),
            Ok(kind) => {
                if kind == "DT"@ || kind == "SD"@ || kind == "RD"@ {
                    match spec_dt(file, offset) {
                        Err(e) => Err(e),
                        Ok((len, start)) => Ok(DataBlockModel::Raw(len, start)),
                    }
                } else if kind == "DL"@ {
                    match spec_datalink(map, file, offset) {
                        Err(e) => Err(e),
                        Ok(dl) => Ok(DataBlockModel::Linked(dl)),
                    }
                } else if kind == "HL"@ {
                    match spec_hl(map, file, offset) {
                        Err(e) => Err(e),
                        Ok(first) => match spec_datalink(map, file, first) {
                            Err(e) => Err(e),
                            Ok(dl) => Ok(DataBlockModel::Linked(dl)),
                        },
                    }
                } else if kind == "DZ"@ {
                    match spec_dz(map, file, offset) {
                        Err(e) => Err(e),
                        Ok((stored, data)) => Ok(DataBlockModel::Zipped(stored, data)),
                    }
                } else {
                    Err(MdfError::BadBlockId)
                }
            },
        }
    }
}

/// Opens the payload that the link `offset` points to.
pub fn read_data_block(map: &DescMap, file: &[u8], offset: u64) -> (r: Result<DataBlock, MdfError>)
    ensures
        match r {
            Ok(b) => spec_data_block(map, file@, offset) == Ok::<DataBlockModel, MdfError>(b@),
            Err(e) => spec_data_block(map, file@, offset) == Err::<DataBlockModel, MdfError>(e),
        },
{
    if offset == 0 {
        return Ok(DataBlock::Raw(DT::default()));
    }
    let kind: String = match peek_block_type(file, offset) {
        Ok(kind) => kind,
        Err(e) => {
            return Err(e);
        },
    };
    if str_eq(kind.as_str(), "DT") || str_eq(kind.as_str(), "SD") || str_eq(kind.as_str(), "RD") {
        match DT::new(file, offset) {
            Ok(dt) => Ok(DataBlock::Raw(dt)),
            Err(e) => Err(e),
        }
    } else if str_eq(kind.as_str(), "DL") {
        match DataLink::new(map, file, offset) {
            Ok(dl) => Ok(DataBlock::Linked(dl)),
            Err(e) => Err(e),
        }
    } else if str_eq(kind.as_str(), "HL") {
        let first: u64 = match read_hl(map, file, offset) {
            Ok(x) => x,
            Err(e) => {
                return Err(e);
            },
        };
        match DataLink::new(map, file, first) {
            Ok(dl) => Ok(DataBlock::Linked(dl)),
            Err(e) => Err(e),
        }
    } else if str_eq(kind.as_str(), "DZ") {
        match DZBlock::new(map, file, offset) {
            Ok(dz) => Ok(DataBlock::Zipped(dz)),
            Err(e) => Err(e),
        }
    } else {
        Err(MdfError::BadBlockId)
    }
}

impl VirtualBuf for DataBlock {
    open spec fn spec_len(&self) -> int {
        self@.len()
    }

    open spec fn spec_read(&self, file: Seq<u8>, v: int, n: int) -> Result<Seq<u8>, MdfError> {
        self@.read(file, v, n)
    }

    fn read_virtual_buf(&self, from: &[u8], virtual_offset: u64, buf: &mut [u8]) -> (r: Result<
        (),
        MdfError,
    >) {
        match self {
            DataBlock::Raw(dt) => dt.read_virtual_buf(from, virtual_offset, buf),
            DataBlock::Zipped(dz) => dz.read_virtual_buf(from, virtual_offset, buf),
            DataBlock::Linked(dl) => dl.read_virtual_buf(from, virtual_offset, buf),
        }
    }

    fn get_data_len(&self) -> (n: u64) {
        match self {
            DataBlock::Raw(dt) => dt.get_data_len(),
            DataBlock::Zipped(dz) => dz.get_data_len(),
            DataBlock::Linked(dl) => dl.get_data_len(),
        }
    }
}

} // verus!
