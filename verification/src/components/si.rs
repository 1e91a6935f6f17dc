//! Source information: where a channel or a channel group comes from.

use vstd::prelude::*;
use crate::block::{first_in, first_or, normal_link, BlockDesc, BlockInfo, BlockModel};
use crate::data_serde::string_push_str;
use crate::error::MdfError;
use crate::parser::{spec_text_or_empty, text_or_empty, DescMap};

verus! {

/// The kind of a source.
#[derive(Debug, Clone, Copy, PartialEq, Eq, Structural)]
pub enum SiType {
    OTHER,
    ECU,
    BUS,
    IO,
    TOOL,
    USER,
}

impl Default for SiType {
    fn default() -> (r: Self)
        ensures
            r == SiType::OTHER,
    {
        SiType::OTHER
    }
}

impl SiType {
    /// The name of the kind as it is shown.
    pub open spec fn spec_text(&self) -> Seq<char> {
        match self {
            SiType::OTHER => "Other"@,
            SiType::ECU => "ECU"@,
            SiType::BUS => "Bus"@,
            SiType::IO => "IO"@,
            SiType::TOOL => "Tool"@,
            SiType::USER => "User"@,
        }
    }

    /// The name of the kind as it is shown.
    pub fn to_text(&self) -> (s: &'static str)
        ensures
            s@ == self.spec_text(),
    {
        match self {
            SiType::OTHER => "Other",
            SiType::ECU => "ECU",
            SiType::BUS => "Bus",
            SiType::IO => "IO",
            SiType::TOOL => "Tool",
            SiType::USER => "User",
        }
    }

    /// The kind that the number `code` stands for: 1 to 5 name a kind,
    /// every other number, and a missing one, is `OTHER`.
    pub open spec fn from_code(code: Option<u8>) -> SiType {
        match code {
            Some(1u8) => SiType::ECU,
            Some(2u8) => SiType::BUS,
            Some(3u8) => SiType::IO,
            Some(4u8) => SiType::TOOL,
            Some(5u8) => SiType::USER,
            _ => SiType::OTHER,
        }
    }
}

/// The kind of bus of a source.
#[derive(Debug, Clone, Copy, PartialEq, Eq, Structural)]
pub enum SiBusType {
    NONE,
    OTHER,
    CAN,
    LIN,
    MOST,
    FLEXRAY,
    KLINE,
    ETHERNET,
    USB,
}

impl Default for SiBusType {
    fn default() -> (r: Self)
        ensures
            r == SiBusType::NONE,
    {
        SiBusType::NONE
    }
}

impl SiBusType {
    /// The name of the bus as it is shown.
    pub open spec fn spec_text(&self) -> Seq<char> {
        match self {
            SiBusType::NONE => "None"@,
            SiBusType::OTHER => "Other"@,
            SiBusType::CAN => "CAN"@,
            SiBusType::LIN => "LIN"@,
            SiBusType::MOST => "MOST"@,
            SiBusType::FLEXRAY => "Flexray"@,
            SiBusType::KLINE => "Kline"@,
            SiBusType::ETHERNET => "Ethernet"@,
            SiBusType::USB => "USB"@,
        }
    }

    /// The name of the bus as it is shown.
    pub fn to_text(&self) -> (s: &'static str)
        ensures
            s@ == self.spec_text(),
    {
        match self {
            SiBusType::NONE => "None",
            SiBusType::OTHER => "Other",
            SiBusType::CAN => "CAN",
            SiBusType::LIN => "LIN",
            SiBusType::MOST => "MOST",
            SiBusType::FLEXRAY => "Flexray",
            SiBusType::KLINE => "Kline",
            SiBusType::ETHERNET => "Ethernet",
            SiBusType::USB => "USB",
        }
    }

    /// The bus that the number `code` stands for: 0 is no bus, 2 to 8 name
    /// a bus, every other number, and a missing one, is `OTHER`.
    pub open spec fn from_code(code: Option<u8>) -> SiBusType {
        match code {
            Some(0u8) => SiBusType::NONE,
            Some(2u8) => SiBusType::CAN,
            Some(3u8) => SiBusType::LIN,
            Some(4u8) => SiBusType::MOST,
            Some(5u8) => SiBusType::FLEXRAY,
            Some(6u8) => SiBusType::KLINE,
            Some(7u8) => SiBusType::ETHERNET,
            Some(8u8) => SiBusType::USB,
            _ => SiBusType::OTHER,
        }
    }
}

/// The source of a channel or of a channel group.
#[derive(Debug)]
pub struct SourceInfo {
    name: String,
    path: String,
    comment: String,
    si_type: SiType,
    bus_type: SiBusType,
    simulated: bool,
}

/// What a `SourceInfo` holds.
pub struct SourceModel {
    pub name: Seq<char>,
    pub path: Seq<char>,
    pub comment: Seq<char>,
    pub si_type: SiType,
    pub bus_type: SiBusType,
    pub simulated: bool,
}

impl View for SourceInfo {
    type V = SourceModel;

    closed spec fn view(&self) -> SourceModel {
        SourceModel {
            name: self.name@,
            path: self.path@,
            comment: self.comment@,
            si_type: self.si_type,
            bus_type: self.bus_type,
            simulated: self.simulated,
        }
    }
}

/// The source that stands for a nil link: no texts, kind `OTHER`, no bus,
/// not simulated.
pub open spec fn default_source() -> SourceModel {
    SourceModel {
        name: Seq::empty(),
        path: Seq::empty(),
        comment: Seq::empty(),
        si_type: SiType::OTHER,
        bus_type: SiBusType::NONE,
        simulated: false,
    }
}

/// The source that the parsed block `block` describes. Its three texts are
/// read from the blocks that its links point to; a text that cannot be
/// read is empty. Bit 0 of the flags marks a simulated source.
pub open spec fn source_of(map: &DescMap, file: Seq<u8>, block: BlockModel) -> Result<
    SourceModel,
    MdfError,
> {
    match normal_link(block.link_map, "si_tx_name"@) {
        None => Err(MdfError::SchemaMissing),
        Some(name_at) => match normal_link(block.link_map, "si_tx_path"@) {
            None => Err(MdfError::SchemaMissing),
            Some(path_at) => match normal_link(block.link_map, "si_md_comment"@) {
                None => Err(MdfError::SchemaMissing),
                Some(comment_at) => match first_or::<u8>(block.data, "si_flags"@) {
                    Err(e) => Err(e),
                    Ok(flags) => Ok(
                        SourceModel {
                            name: spec_text_or_empty(map, file, name_at),
                            path: spec_text_or_empty(map, file, path_at),
                            comment: spec_text_or_empty(map, file, comment_at),
                            si_type: SiType::from_code(first_in::<u8>(block.data, "si_type"@)),
                            bus_type: SiBusType::from_code(
                                first_in::<u8>(block.data, "si_bus_type"@),
                            ),
                            simulated: flags & 0x01 == 0x01,
                        },
                    ),
                },
            },
        },
    }
}

/// The source described by the block at `offset`; the default source where
/// the link is nil.
pub open spec fn spec_source(map: &DescMap, file: Seq<u8>, offset: u64) -> Result<
    SourceModel,
    MdfError,
> {
    if offset == 0 {
        Ok(default_source())
    } else {
        match map.spec_get("SI"@) {
            None => Err(MdfError::SchemaMissing),
            Some(desc) => match desc.spec_parse(file, offset) {
                Err(e) => Err(e),
                Ok(block) => source_of(map, file, block),
            },
        }
    }
}

impl Default for SourceInfo {
    fn default() -> (r: Self)
        ensures
            r@ == default_source(),
    {
        SourceInfo {
            name: String::new(),
            path: String::new(),
            comment: String::new(),
            si_type: SiType::OTHER,
            bus_type: SiBusType::NONE,
            simulated: false,
        }
    }
}

impl Clone for SourceInfo {
    fn clone(&self) -> (r: Self)
        ensures
            r@ == self@,
    {
        SourceInfo {
            name: self.name.clone(),
            path: self.path.clone(),
            comment: self.comment.clone(),
            si_type: self.si_type,
            bus_type: self.bus_type,
            simulated: self.simulated,
        }
    }
}

impl SourceInfo {
    /// Reads the source information block at `offset`. A nil link gives
    /// the default source.
    pub fn new(map: &DescMap, file: &[u8], offset: u64) -> (r: Result<SourceInfo, MdfError>)
        ensures
            match r {
                Ok(si) => spec_source(map, file@, offset) == Ok::<SourceModel, MdfError>(si@),
                Err(e) => spec_source(map, file@, offset) == Err::<SourceModel, MdfError>(e),
            },
    {
        if offset == 0 {
            return Ok(SourceInfo::default());
        }
        let desc: &BlockDesc = match map.get("SI") {
            Some(d) => d,
            None => {
                return Err(MdfError::SchemaMissing);
            },
        };
        let info: BlockInfo = match desc.try_parse_buf(file, offset) {
            Ok(info) => info,
            Err(e) => {
                return Err(e);
            },
        };
        let name_offset: u64 = match info.get_link_offset_normal("si_tx_name") {
            Some(x) => x,
            None => {
                return Err(MdfError::SchemaMissing);
            },
        };
        let path_offset: u64 = match info.get_link_offset_normal("si_tx_path") {
            Some(x) => x,
            None => {
                return Err(MdfError::SchemaMissing);
            },
        };
        let comment_offset: u64 = match info.get_link_offset_normal("si_md_comment") {
            Some(x) => x,
            None => {
                return Err(MdfError::SchemaMissing);
            },
        };
        let flags: u8 = match info.first_or_error::<u8>("si_flags") {
            Ok(x) => x,
            Err(e) => {
                return Err(e);
            },
        };
        let name: String = text_or_empty(map, file, name_offset);
        let path: String = text_or_empty(map, file, path_offset);
        let comment: String = text_or_empty(map, file, comment_offset);
        let si_type: SiType = match info.get_data_value_first::<u8>("si_type") {
            Some(1) => SiType::ECU,
            Some(2) => SiType::BUS,
            Some(3) => SiType::IO,
            Some(4) => SiType::TOOL,
            Some(5) => SiType::USER,
            _ => SiType::OTHER,
        };
        let bus_type: SiBusType = match info.get_data_value_first::<u8>("si_bus_type") {
            Some(0) => SiBusType::NONE,
            Some(2) => SiBusType::CAN,
            Some(3) => SiBusType::LIN,
            Some(4) => SiBusType::MOST,
            Some(5) => SiBusType::FLEXRAY,
            Some(6) => SiBusType::KLINE,
            Some(7) => SiBusType::ETHERNET,
            Some(8) => SiBusType::USB,
            _ => SiBusType::OTHER,
        };
        let simulated: bool = flags & 0x01 == 0x01;
        Ok(SourceInfo { name, path, comment, si_type, bus_type, simulated })
    }

    /// The name of the source.
    pub fn get_name(&self) -> (s: &str)
        ensures
            s@ == self@.name,
    {
        self.name.as_str()
    }

    /// The path of the source.
    pub fn get_path(&self) -> (s: &str)
        ensures
            s@ == self@.path,
    {
        self.path.as_str()
    }

    /// The comment on the source.
    pub fn get_comment(&self) -> (s: &str)
        ensures
            s@ == self@.comment,
    {
        self.comment.as_str()
    }

    /// The kind of the source.
    pub fn get_si_type(&self) -> (t: &SiType)
        ensures
            *t == self@.si_type,
    {
        &self.si_type
    }

    /// The kind of bus of the source.
    pub fn get_bus_type(&self) -> (t: &SiBusType)
        ensures
            *t == self@.bus_type,
    {
        &self.bus_type
    }

    /// Whether the source is simulated.
    pub fn is_simulated(&self) -> (b: bool)
        ensures
            b == self@.simulated,
    {
        self.simulated
    }

    /// The source as it is shown: name, kind and bus, with dots between.
    pub fn to_text(&self) -> (s: String)
        ensures
            s@ == self@.name + "."@ + self@.si_type.spec_text() + "."@ + self@.bus_type.spec_text(),
    {
        let mut s: String = self.name.clone();
        string_push_str(&mut s, ".");
        string_push_str(&mut s, self.si_type.to_text());
        string_push_str(&mut s, ".");
        string_push_str(&mut s, self.bus_type.to_text());
        s
    }
}

} // verus!
