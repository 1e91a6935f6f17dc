use mf4_parse::wrapper::Mf4Wrapper;
use mf4_parse::block::{BlockDesc, BlockField, BlockInfo, DataType};
use mf4_parse::components::ca::ChannelArray;
use mf4_parse::components::cg::ChannelGroup;
use mf4_parse::components::cn::{select_raw_kind, Channel, Physical, RawKind, SyncType};
use mf4_parse::components::dg::{DataGroup, RecIDSize};
use mf4_parse::components::si::{SiBusType, SiType, SourceInfo};
use mf4_parse::data_serde::DataValue;
use mf4_parse::error::MdfError;
use mf4_parse::parser::{get_block_desc, get_child_info, DescMap, Mdf, MdfInfo};

fn ch_f(t: DataType, n: u32) -> BlockField {
    BlockField::new(t, Some(n))
}

fn ch_desc(id: &str, links: &[&str], data: Vec<(&str, BlockField)>) -> BlockDesc {
    let link = links.iter().map(|n| (n.to_string(), Vec::new())).collect();
    let data = data.into_iter().map(|(n, f)| (n.to_string(), f)).collect();
    BlockDesc::new(id.to_string(), None, Some(link), Some(data))
}

fn ch_schemas() -> DescMap {
    let mut m = DescMap::new();
    m.insert(
        "HD".to_string(),
        ch_desc(
            "##HD",
            &["hd_dg_first", "hd_fh_first", "hd_ch_first", "hd_at_first", "hd_ev_first", "hd_md_comment"],
            vec![
                ("hd_start_time_ns", ch_f(DataType::UINT64, 1)),
                ("hd_tz_offset_min", ch_f(DataType::INT16, 1)),
                ("hd_dst_offset_min", ch_f(DataType::INT16, 1)),
                ("hd_time_flags", ch_f(DataType::UINT8, 1)),
                ("hd_time_class", ch_f(DataType::UINT8, 1)),
                ("hd_flags", ch_f(DataType::UINT8, 1)),
                ("hd_reserved", ch_f(DataType::BYTE, 1)),
                ("hd_start_angle_rad", ch_f(DataType::REAL, 1)),
                ("hd_start_distance_m", ch_f(DataType::REAL, 1)),
            ],
        ),
    );
    m.insert(
        "DG".to_string(),
        ch_desc(
            "##DG",
            &["dg_dg_next", "dg_cg_first", "dg_data", "dg_md_comment"],
            vec![("dg_rec_id_size", ch_f(DataType::UINT8, 1)), ("dg_reserved", ch_f(DataType::BYTE, 7))],
        ),
    );
    m.insert(
        "CG".to_string(),
        ch_desc(
            "##CG",
            &["cg_cg_next", "cg_cn_first", "cg_tx_acq_name", "cg_si_acq_source", "cg_sr_first", "cg_md_comment"],
            vec![
                ("cg_record_id", ch_f(DataType::UINT64, 1)),
                ("cg_cycle_count", ch_f(DataType::UINT64, 1)),
                ("cg_flags", ch_f(DataType::UINT16, 1)),
                ("cg_path_separator", ch_f(DataType::UINT16, 1)),
                ("cg_reserved", ch_f(DataType::BYTE, 4)),
                ("cg_data_bytes", ch_f(DataType::UINT32, 1)),
                ("cg_inval_bytes", ch_f(DataType::UINT32, 1)),
            ],
        ),
    );
    m.insert(
        "CN".to_string(),
        ch_desc(
            "##CN",
            &[
                "cn_cn_next",
                "cn_composition",
                "cn_tx_name",
                "cn_si_source",
                "cn_cc_conversion",
                "cn_data",
                "cn_md_unit",
                "cn_md_comment",
            ],
            vec![
                ("cn_type", ch_f(DataType::UINT8, 1)),
                ("cn_sync_type", ch_f(DataType::UINT8, 1)),
                ("cn_data_type", ch_f(DataType::UINT8, 1)),
                ("cn_bit_offset", ch_f(DataType::UINT8, 1)),
                ("cn_byte_offset", ch_f(DataType::UINT32, 1)),
                ("cn_bit_count", ch_f(DataType::UINT32, 1)),
                ("cn_flags", ch_f(DataType::UINT32, 1)),
                ("cn_inval_bit_pos", ch_f(DataType::UINT32, 1)),
                ("cn_precision", ch_f(DataType::UINT8, 1)),
                ("cn_reserved", ch_f(DataType::BYTE, 1)),
                ("cn_attachment_count", ch_f(DataType::UINT16, 1)),
                ("cn_val_range_min", ch_f(DataType::REAL, 1)),
                ("cn_val_range_max", ch_f(DataType::REAL, 1)),
                ("cn_limit_min", ch_f(DataType::REAL, 1)),
                ("cn_limit_max", ch_f(DataType::REAL, 1)),
                ("cn_limit_ext_min", ch_f(DataType::REAL, 1)),
                ("cn_limit_ext_max", ch_f(DataType::REAL, 1)),
            ],
        ),
    );
    m.insert(
        "CC".to_string(),
        ch_desc(
            "##CC",
            &["cc_tx_name", "cc_md_unit", "cc_md_comment", "cc_cc_inverse"],
            vec![
                ("cc_type", ch_f(DataType::UINT8, 1)),
                ("cc_precision", ch_f(DataType::UINT8, 1)),
                ("cc_flags", ch_f(DataType::UINT16, 1)),
                ("cc_ref_count", ch_f(DataType::UINT16, 1)),
                ("cc_val_count", ch_f(DataType::UINT16, 1)),
                ("cc_phy_range_min", ch_f(DataType::REAL, 1)),
                ("cc_phy_range_max", ch_f(DataType::REAL, 1)),
                ("cc_val", BlockField::new(DataType::UINT64, None)),
            ],
        ),
    );
    m.insert(
        "SI".to_string(),
        ch_desc(
            "##SI",
            &["si_tx_name", "si_tx_path", "si_md_comment"],
            vec![
                ("si_type", ch_f(DataType::UINT8, 1)),
                ("si_bus_type", ch_f(DataType::UINT8, 1)),
                ("si_flags", ch_f(DataType::UINT8, 1)),
                ("si_reserved", ch_f(DataType::BYTE, 5)),
            ],
        ),
    );
    m.insert(
        "CA".to_string(),
        ch_desc(
            "##CA",
            &["ca_composition"],
            vec![
                ("ca_type", ch_f(DataType::UINT8, 1)),
                ("ca_storage", ch_f(DataType::UINT8, 1)),
                ("ca_ndim", ch_f(DataType::UINT16, 1)),
                ("ca_flags", ch_f(DataType::UINT32, 1)),
                ("ca_byte_offset_base", ch_f(DataType::INT32, 1)),
                ("ca_inval_bit_pos_base", ch_f(DataType::UINT32, 1)),
                ("unparsed_data", BlockField::new(DataType::BYTE, None)),
            ],
        ),
    );
    m.insert("TX".to_string(), ch_desc("##TX", &[], vec![("tx_data", BlockField::new(DataType::CHAR, None))]));
    m.insert("MD".to_string(), ch_desc("##MD", &[], vec![("md_data", BlockField::new(DataType::CHAR, None))]));
    m
}

fn ch_block(img: &mut Vec<u8>, id: &str, links: &[u64], data: &[u8]) -> u64 {
    while img.len() % 8 != 0 {
        img.push(0);
    }
    let at = img.len() as u64;
    img.extend_from_slice(id.as_bytes());
    img.extend_from_slice(&[0u8; 4]);
    img.extend_from_slice(&((24 + 8 * links.len() + data.len()) as u64).to_le_bytes());
    img.extend_from_slice(&(links.len() as u64).to_le_bytes());
    for l in links {
        img.extend_from_slice(&l.to_le_bytes());
    }
    img.extend_from_slice(data);
    at
}

fn ch_start() -> Vec<u8> {
    let mut img: Vec<u8> = Vec::new();
    img.extend_from_slice(b"MDF     ");
    img.extend_from_slice(b"4.10    ");
    img.extend_from_slice(&[0u8; 12]);
    img.extend_from_slice(&410u16.to_le_bytes());
    img.extend_from_slice(&[0u8; 34]);
    // the header block, its first link to be set once the data groups stand
    let at = ch_block(&mut img, "##HD", &[0, 0, 0, 0, 0, 0], &[0u8; 32]);
    assert_eq!(at, 64);
    img
}

fn ch_set_first_dg(img: &mut Vec<u8>, dg: u64) {
    img[64 + 24..64 + 32].copy_from_slice(&dg.to_le_bytes());
}

fn ch_tx(img: &mut Vec<u8>, text: &str) -> u64 {
    let mut data = text.as_bytes().to_vec();
    data.push(0);
    ch_block(img, "##TX", &[], &data)
}

struct ChCn {
    next: u64,
    composition: u64,
    name: u64,
    source: u64,
    conversion: u64,
    data: u64,
    cn_type: u8,
    sync: u8,
    data_type: u8,
    bit_offset: u8,
    byte_offset: u32,
    bit_count: u32,
    flags: u32,
}

fn ch_plain(name: u64, data_type: u8, byte_offset: u32, bit_count: u32) -> ChCn {
    ChCn {
        next: 0,
        composition: 0,
        name,
        source: 0,
        conversion: 0,
        data: 0,
        cn_type: 0,
        sync: 0,
        data_type,
        bit_offset: 0,
        byte_offset,
        bit_count,
        flags: 0,
    }
}

fn ch_cn(img: &mut Vec<u8>, c: &ChCn) -> u64 {
    let links = [c.next, c.composition, c.name, c.source, c.conversion, c.data, 0, 0];
    let mut d = vec![c.cn_type, c.sync, c.data_type, c.bit_offset];
    d.extend_from_slice(&c.byte_offset.to_le_bytes());
    d.extend_from_slice(&c.bit_count.to_le_bytes());
    d.extend_from_slice(&c.flags.to_le_bytes());
    d.extend_from_slice(&0u32.to_le_bytes());
    d.extend_from_slice(&[0u8; 4]);
    d.extend_from_slice(&[0u8; 48]);
    ch_block(img, "##CN", &links, &d)
}

fn ch_cg(img: &mut Vec<u8>, next: u64, first_cn: u64, name: u64, source: u64, id: u64, cycles: u64, flags: u16, sep: u16, data_bytes: u32, inval: u32) -> u64 {
    let mut d = Vec::new();
    d.extend_from_slice(&id.to_le_bytes());
    d.extend_from_slice(&cycles.to_le_bytes());
    d.extend_from_slice(&flags.to_le_bytes());
    d.extend_from_slice(&sep.to_le_bytes());
    d.extend_from_slice(&[0u8; 4]);
    d.extend_from_slice(&data_bytes.to_le_bytes());
    d.extend_from_slice(&inval.to_le_bytes());
    ch_block(img, "##CG", &[next, first_cn, name, source, 0, 0], &d)
}

fn ch_dg(img: &mut Vec<u8>, next: u64, first_cg: u64, data: u64, comment: u64, id_size: u8) -> u64 {
    ch_block(img, "##DG", &[next, first_cg, data, comment], &[id_size, 0, 0, 0, 0, 0, 0, 0])
}

fn ch_ca(img: &mut Vec<u8>, flags: u32, base: i32, dims: &[u64]) -> u64 {
    let mut d = vec![0u8, 0];
    d.extend_from_slice(&(dims.len() as u16).to_le_bytes());
    d.extend_from_slice(&flags.to_le_bytes());
    d.extend_from_slice(&base.to_le_bytes());
    d.extend_from_slice(&0u32.to_le_bytes());
    for x in dims {
        d.extend_from_slice(&x.to_le_bytes());
    }
    ch_block(img, "##CA", &[], &d)
}

/// A sorted data group of three records of 14 bytes: a time as a double, a
/// number of 12 bits that starts 4 bits into byte 8, and a text of 4 bytes.
fn ch_sorted(img: &mut Vec<u8>, next_dg: u64) -> u64 {
    let n_time = ch_tx(img, "time");
    let n_val = ch_tx(img, "speed");
    let n_txt = ch_tx(img, "label");
    let mut txt = ch_plain(n_txt, 7, 10, 32);
    let at_txt = ch_cn(img, &txt);
    txt.next = at_txt;
    let mut val = ch_plain(n_val, 0, 8, 12);
    val.bit_offset = 4;
    val.next = at_txt;
    let at_val = ch_cn(img, &val);
    let mut time = ch_plain(n_time, 4, 0, 64);
    time.cn_type = 2;
    time.sync = 1;
    time.next = at_val;
    let at_time = ch_cn(img, &time);
    let acq = ch_tx(img, "engine");
    let cg = ch_cg(img, 0, at_time, acq, 0, 0, 3, 0, 0x2f, 14, 0);
    let mut records = Vec::new();
    for (t, v, s) in [(0.0f64, 0x123u16, b"ab\0\0"), (0.5, 0xfff, b"cdef"), (1.0, 0x001, b"\0\0\0\0")] {
        records.extend_from_slice(&t.to_bits().to_le_bytes());
        // the low four bits belong to another signal
        records.extend_from_slice(&((v << 4) | 0x9).to_le_bytes());
        records.extend_from_slice(s);
    }
    let dt = ch_block(img, "##DT", &[], &records);
    let comment = ch_tx(img, "first group");
    ch_dg(img, next_dg, cg, dt, comment, 0)
}

#[test]
fn sorted_data_group_gives_its_records_by_multiplying() {
    let map = ch_schemas();
    let mut img = ch_start();
    let at = ch_sorted(&mut img, 0);
    let dg = DataGroup::new(&map, &img, at).unwrap();
    assert!(dg.is_sorted());
    assert_eq!(dg.get_comment(), "first group");
    assert_eq!(*dg.get_rec_id_size(), RecIDSize::NORECID);
    assert_eq!(dg.get_cg_names(), vec!["engine"]);
    assert_eq!(dg.get_all_channel_names(), vec!["time", "speed", "label"]);
    assert_eq!(dg.get_rec_id_offset(0, 0), Some(0));
    assert_eq!(dg.get_rec_id_offset(0, 2), Some(28));
    assert_eq!(dg.get_rec_id_offset(0, 7), Some(98));
    assert_eq!(dg.get_rec_id_offset(1, 0), None);
    let rec = dg.get_cg_data(0, 1, &img).unwrap();
    assert_eq!(rec.len(), 14);
    assert_eq!(&rec[10..], b"cdef");
    assert_eq!(dg.get_cg_data(0, 3, &img), None);
    assert_eq!(dg.get_cg_data(5, 0, &img), None);
    assert_eq!(dg.get_channle_groups().len(), 1);
    assert!(dg.nth_cg(0).is_some());
    assert!(dg.nth_cg(1).is_none());
    let map_of = dg.create_map();
    assert_eq!(map_of.len(), 3);
    let time = dg.find_channel("time").unwrap();
    assert_eq!(time.get_channel().get_name(), "time");
    assert_eq!(time.get_channel_group().get_acq_name(), "engine");
    assert!(time.get_data_group().is_sorted());
    assert!(dg.find_channel("nothing").is_none());
}

#[test]
fn channel_values_are_cut_from_the_records() {
    let map = ch_schemas();
    let mut img = ch_start();
    let at = ch_sorted(&mut img, 0);
    let dg = DataGroup::new(&map, &img, at).unwrap();
    let cg = dg.nth_cg(0).unwrap();
    assert_eq!(cg.get_cycle_count(), 3);
    assert_eq!(cg.get_record_id(), 0);
    assert_eq!(cg.get_data_bytes(), 14);
    assert_eq!(cg.get_invalid_bytes(), 0);
    assert_eq!(cg.get_sample_total_bytes(), 14);
    assert_eq!(cg.get_total_len(), 42);
    assert!(!cg.is_vlsd());
    assert_eq!(cg.get_cg_flags(), 0);
    assert_eq!(cg.get_path_sep(), "/");
    assert_eq!(cg.get_comment(), "");
    assert_eq!(cg.get_acq_source().get_name(), "");
    assert_eq!(cg.get_channel_names(), vec!["time", "speed", "label"]);
    assert_eq!(cg.get_channels().len(), 3);
    let master = cg.get_master().unwrap();
    assert_eq!(master.get_name(), "time");
    assert!(master.is_master());
    assert_eq!(*master.get_sync_type(), SyncType::Time);
    assert_eq!(*master.get_cn_type(), 2);
    assert_eq!(master.get_data_type(), 4);
    let times = master.get_data_raw(&img, &dg, cg).unwrap();
    assert_eq!(times, DataValue::REAL(vec![0.0f64.to_bits(), 0.5f64.to_bits(), 1.0f64.to_bits()]));
    let speed = cg.nth_cn(1).unwrap();
    assert_eq!(speed.get_name(), "speed");
    assert_eq!(speed.get_bit_size(), 12);
    assert_eq!(speed.get_bit_offset(), 4);
    assert_eq!(speed.get_byte_offset(), 8);
    assert_eq!(speed.get_cn_flags(), 0);
    assert_eq!(speed.get_unit(), "");
    assert_eq!(speed.get_comment(), "");
    assert!(speed.get_array().is_none());
    assert!(speed.get_sub_channels().is_none());
    assert!(!speed.is_bus_event());
    assert!(!speed.get_conversion().is_inverse());
    assert_eq!(speed.get_source().get_path(), "");
    assert_eq!(speed.get_data_raw(&img, &dg, cg).unwrap(), DataValue::UINT16(vec![0x123, 0xfff, 0x001]));
    assert_eq!(speed.from_bytes::<u16>(&dg.get_cg_data(0, 1, &img).unwrap()).unwrap(), 0xfff);
    assert_eq!(speed.from_bytes::<u32>(&dg.get_cg_data(0, 0, &img).unwrap()).unwrap(), 0x123);
    assert_eq!(speed.from_bytes::<u16>(&vec![0u8; 9]).unwrap_err(), MdfError::OutOfRange);
    match speed.get_data(&map, &img, &dg, cg).unwrap() {
        Physical::Numbers(v) => assert_eq!(v, DataValue::UINT16(vec![0x123, 0xfff, 0x001])),
        _ => panic!("numbers were expected"),
    }
    let label = cg.nth_cn(2).unwrap();
    let texts = vec!["ab\0\0".to_string(), "cdef".to_string(), "\0\0\0\0".to_string()];
    assert_eq!(label.get_data_raw(&img, &dg, cg).unwrap(), DataValue::STRINGS(texts.clone()));
    match label.get_data(&map, &img, &dg, cg).unwrap() {
        Physical::Value(v) => assert_eq!(v, DataValue::STRINGS(texts)),
        _ => panic!("texts were expected"),
    }
    assert!(cg.nth_cn(3).is_none());
    let link = dg.find_channel("speed").unwrap();
    assert_eq!(link.yield_channel_data(&img).unwrap(), DataValue::UINT16(vec![0x123, 0xfff, 0x001]));
    assert_eq!(
        link.get_master_channel_vec(&img).unwrap(),
        DataValue::REAL(vec![0.0f64.to_bits(), 0.5f64.to_bits(), 1.0f64.to_bits()])
    );
    let again = speed.clone();
    assert_eq!(again.get_name(), "speed");
    assert_eq!(again.get_bit_size(), 12);
}

#[test]
fn kind_of_raw_value_follows_type_and_bits() {
    assert_eq!(select_raw_kind(0, 0).unwrap(), RawKind::U8);
    assert_eq!(select_raw_kind(0, 8).unwrap(), RawKind::U8);
    assert_eq!(select_raw_kind(1, 9).unwrap(), RawKind::U16);
    assert_eq!(select_raw_kind(0, 16).unwrap(), RawKind::U16);
    assert_eq!(select_raw_kind(0, 17).unwrap(), RawKind::U32);
    assert_eq!(select_raw_kind(0, 32).unwrap(), RawKind::U32);
    assert_eq!(select_raw_kind(0, 33).unwrap(), RawKind::U64);
    assert_eq!(select_raw_kind(0, 64).unwrap(), RawKind::U64);
    assert_eq!(select_raw_kind(0, 65).unwrap_err(), MdfError::InvalidBitSize);
    assert_eq!(select_raw_kind(2, 8).unwrap(), RawKind::I8);
    assert_eq!(select_raw_kind(3, 16).unwrap(), RawKind::I16);
    assert_eq!(select_raw_kind(2, 32).unwrap(), RawKind::I32);
    assert_eq!(select_raw_kind(3, 64).unwrap(), RawKind::I64);
    assert_eq!(select_raw_kind(2, 65).unwrap_err(), MdfError::InvalidBitSize);
    assert_eq!(select_raw_kind(4, 16).unwrap(), RawKind::F16);
    assert_eq!(select_raw_kind(5, 32).unwrap(), RawKind::F32);
    assert_eq!(select_raw_kind(4, 64).unwrap(), RawKind::F64);
    assert_eq!(select_raw_kind(4, 24).unwrap_err(), MdfError::InvalidBitSize);
    assert_eq!(select_raw_kind(6, 0).unwrap(), RawKind::Utf8);
    assert_eq!(select_raw_kind(7, 80).unwrap(), RawKind::Utf8);
    assert_eq!(select_raw_kind(8, 16).unwrap(), RawKind::Utf16);
    assert_eq!(select_raw_kind(9, 16).unwrap(), RawKind::Utf16);
    assert_eq!(select_raw_kind(10, 16).unwrap_err(), MdfError::UnsupportedDataType);
}

#[test]
fn big_endian_signed_and_narrow_fields_decode() {
    let map = ch_schemas();
    let mut img = ch_start();
    let n = ch_tx(&mut img, "x");
    // 3 bytes, big endian, unsigned: read as 32 bits
    let at = ch_cn(&mut img, &ch_plain(n, 1, 0, 24));
    let cn = Channel::new(&map, &img, at).unwrap();
    assert_eq!(cn.from_bytes::<u32>(&vec![0x01, 0x02, 0x03, 0xff]).unwrap(), 0x010203);
    // 2 bytes, little endian, signed
    let at = ch_cn(&mut img, &ch_plain(n, 2, 1, 16));
    let cn = Channel::new(&map, &img, at).unwrap();
    assert_eq!(cn.from_bytes::<i16>(&vec![0, 0xfe, 0xff]).unwrap(), -2);
    // 5 bits that start 3 bits into the byte
    let mut c = ch_plain(n, 0, 0, 5);
    c.bit_offset = 3;
    let at = ch_cn(&mut img, &c);
    let cn = Channel::new(&map, &img, at).unwrap();
    assert_eq!(cn.from_bytes::<u8>(&vec![0b1011_0111]).unwrap(), 0b10110);
    // a bit offset above 7
    let mut c = ch_plain(n, 0, 0, 5);
    c.bit_offset = 8;
    let at = ch_cn(&mut img, &c);
    let cn = Channel::new(&map, &img, at).unwrap();
    assert_eq!(cn.from_bytes::<u8>(&vec![1]).unwrap_err(), MdfError::InvalidBitSize);
    // a data type without a byte order
    let at = ch_cn(&mut img, &ch_plain(n, 10, 0, 8));
    let cn = Channel::new(&map, &img, at).unwrap();
    assert_eq!(cn.from_bytes::<u8>(&vec![1]).unwrap_err(), MdfError::UnsupportedDataType);
    // channel types and synchronisation that are not known
    let mut c = ch_plain(n, 0, 0, 8);
    c.cn_type = 4;
    let at = ch_cn(&mut img, &c);
    assert_eq!(Channel::new(&map, &img, at).unwrap_err(), MdfError::UnsupportedCnType);
    let mut c = ch_plain(n, 0, 0, 8);
    c.sync = 5;
    let at = ch_cn(&mut img, &c);
    assert_eq!(Channel::new(&map, &img, at).unwrap_err(), MdfError::DataCorrupt);
    for (code, want) in [(0u8, SyncType::NONE), (2, SyncType::Angle), (3, SyncType::Distance), (4, SyncType::Index)] {
        let mut c = ch_plain(n, 0, 0, 8);
        c.sync = code;
        let at = ch_cn(&mut img, &c);
        assert_eq!(*Channel::new(&map, &img, at).unwrap().get_sync_type(), want);
    }
}

#[test]
fn unsorted_data_group_notes_where_each_record_lies() {
    let map = ch_schemas();
    let mut img = ch_start();
    let na = ch_tx(&mut img, "a");
    let nb = ch_tx(&mut img, "b");
    let cn_a = ch_cn(&mut img, &ch_plain(na, 0, 0, 8));
    let cn_b = ch_cn(&mut img, &ch_plain(nb, 0, 0, 16));
    let cg_b = ch_cg(&mut img, 0, cn_b, 0, 0, 2, 2, 0, 0, 2, 0);
    let cg_a = ch_cg(&mut img, cg_b, cn_a, 0, 0, 1, 3, 0, 0x5c, 1, 0);
    // id 1: one byte, id 2: two bytes
    let payload = [1u8, 10, 2, 0x34, 0x12, 1, 11, 1, 12, 2, 0x78, 0x56];
    let dt = ch_block(&mut img, "##DT", &[], &payload);
    let at = ch_dg(&mut img, 0, cg_a, dt, 0, 1);
    let dg = DataGroup::new(&map, &img, at).unwrap();
    assert!(!dg.is_sorted());
    assert_eq!(*dg.get_rec_id_size(), RecIDSize::UINT8);
    assert_eq!(dg.get_rec_id_offset(1, 0), Some(1));
    assert_eq!(dg.get_rec_id_offset(1, 1), Some(6));
    assert_eq!(dg.get_rec_id_offset(1, 2), Some(8));
    assert_eq!(dg.get_rec_id_offset(1, 3), None);
    assert_eq!(dg.get_rec_id_offset(2, 0), Some(3));
    assert_eq!(dg.get_rec_id_offset(2, 1), Some(10));
    assert_eq!(dg.get_rec_id_offset(3, 0), None);
    assert_eq!(dg.get_cg_data(2, 1, &img), Some(vec![0x78, 0x56]));
    let a = dg.find_channel("a").unwrap();
    assert_eq!(a.yield_channel_data(&img).unwrap(), DataValue::UINT8(vec![10, 11, 12]));
    assert_eq!(a.get_channel_group().get_path_sep(), "\\");
    assert_eq!(a.get_master_channel_vec(&img).unwrap_err(), MdfError::NoMaster);
    let b = dg.find_channel("b").unwrap();
    assert_eq!(b.yield_channel_data(&img).unwrap(), DataValue::UINT16(vec![0x1234, 0x5678]));
    // wider ids
    for (size, want) in [(2u8, RecIDSize::UINT16), (4, RecIDSize::UINT32), (8, RecIDSize::UINT64)] {
        let mut p = Vec::new();
        for (id, bytes) in [(1u64, vec![10u8]), (2, vec![1, 2]), (1, vec![11]), (1, vec![12]), (2, vec![3, 4])] {
            p.extend_from_slice(&id.to_le_bytes()[..size as usize]);
            p.extend_from_slice(&bytes);
        }
        let dt = ch_block(&mut img, "##DT", &[], &p);
        let at = ch_dg(&mut img, 0, cg_a, dt, 0, size);
        let dg = DataGroup::new(&map, &img, at).unwrap();
        assert_eq!(*dg.get_rec_id_size(), want);
        assert_eq!(dg.get_cg_data(1, 2, &img), Some(vec![12]));
        assert_eq!(dg.get_cg_data(2, 1, &img), Some(vec![3, 4]));
    }
}

#[test]
fn payload_that_contradicts_the_groups_is_corrupt() {
    let map = ch_schemas();
    let mut img = ch_start();
    let na = ch_tx(&mut img, "a");
    let cn_a = ch_cn(&mut img, &ch_plain(na, 0, 0, 8));
    let cg = ch_cg(&mut img, 0, cn_a, 0, 0, 1, 3, 0, 0, 1, 0);
    // two records where three are declared
    let dt = ch_block(&mut img, "##DT", &[], &[1, 10, 1, 11]);
    let at = ch_dg(&mut img, 0, cg, dt, 0, 1);
    assert_eq!(DataGroup::new(&map, &img, at).unwrap_err(), MdfError::DataCorrupt);
    // a record id that no group has
    let dt = ch_block(&mut img, "##DT", &[], &[1, 10, 1, 11, 9, 0]);
    let at = ch_dg(&mut img, 0, cg, dt, 0, 1);
    assert_eq!(DataGroup::new(&map, &img, at).unwrap_err(), MdfError::DataCorrupt);
    // the payload ends within an id
    let dt = ch_block(&mut img, "##DT", &[], &[1, 0, 10, 1, 0, 11, 1, 0, 12, 1]);
    let at = ch_dg(&mut img, 0, cg, dt, 0, 2);
    assert_eq!(DataGroup::new(&map, &img, at).unwrap_err(), MdfError::OutOfRange);
    // records of no bytes and no id never end
    let cg0 = ch_cg(&mut img, 0, cn_a, 0, 0, 0, 3, 0, 0, 0, 0);
    let dt = ch_block(&mut img, "##DT", &[], &[1, 2, 3]);
    let at = ch_dg(&mut img, 0, cg0, dt, 0, 0);
    assert_eq!(DataGroup::new(&map, &img, at).unwrap_err(), MdfError::DataCorrupt);
    // a size of the id that is not known
    let at = ch_dg(&mut img, 0, cg, dt, 0, 3);
    assert_eq!(DataGroup::new(&map, &img, at).unwrap_err(), MdfError::DataCorrupt);
    // no payload at all: nothing to contradict
    let at = ch_dg(&mut img, 0, cg, 0, 0, 1);
    let dg = DataGroup::new(&map, &img, at).unwrap();
    assert!(dg.is_sorted());
    assert_eq!(dg.get_cg_data(1, 0, &img), None);
    // no channel groups
    let at = ch_dg(&mut img, 0, 0, 0, 0, 0);
    let dg = DataGroup::new(&map, &img, at).unwrap();
    assert_eq!(dg.get_channle_groups().len(), 0);
    assert_eq!(dg.get_all_channel_names(), Vec::<String>::new());
}

#[test]
fn array_channel_becomes_one_channel_for_each_element() {
    let map = ch_schemas();
    let mut img = ch_start();
    let n = ch_tx(&mut img, "grid");
    let ca = ch_ca(&mut img, 0, 2, &[2, 3]);
    let mut c = ch_plain(n, 0, 0, 16);
    c.composition = ca;
    let at = ch_cn(&mut img, &c);
    let cn = Channel::new(&map, &img, at).unwrap();
    let arr = cn.get_array().unwrap();
    assert_eq!(arr.get_elements_num(), 6);
    assert_eq!(
        arr.generate_array_indexs(),
        vec![vec![0, 0], vec![0, 1], vec![0, 2], vec![1, 0], vec![1, 1], vec![1, 2]]
    );
    assert_eq!(
        arr.generate_array_names("grid"),
        vec!["grid[0][0]", "grid[0][1]", "grid[0][2]", "grid[1][0]", "grid[1][1]", "grid[1][2]"]
    );
    assert_eq!(arr.calculate_byte_offset(&vec![0, 0]).unwrap(), 0);
    assert_eq!(arr.calculate_byte_offset(&vec![0, 2]).unwrap(), 4);
    assert_eq!(arr.calculate_byte_offset(&vec![1, 0]).unwrap(), 6);
    assert_eq!(arr.calculate_byte_offset(&vec![1, 2]).unwrap(), 10);
    assert_eq!(arr.calculate_byte_offset(&vec![1]).unwrap_err(), MdfError::OutOfRange);
    let elements = cn.generate_array_element_channel().unwrap();
    assert_eq!(elements.len(), 6);
    let names: Vec<&str> = elements.iter().map(|e| e.get_name()).collect();
    assert_eq!(names, vec!["grid[0][0]", "grid[0][1]", "grid[0][2]", "grid[1][0]", "grid[1][1]", "grid[1][2]"]);
    let offsets: Vec<u32> = elements.iter().map(|e| e.get_byte_offset()).collect();
    assert_eq!(offsets, vec![0, 2, 4, 6, 8, 10]);
    assert_eq!(elements[4].get_bit_size(), 16);
    // column orientation
    let col = ChannelArray::with_layout(0, 0, 2, 1 << 6, 2, 0, vec![2, 3]).unwrap();
    assert_eq!(col.calculate_byte_offset(&vec![1, 0]).unwrap(), 2);
    assert_eq!(col.calculate_byte_offset(&vec![0, 1]).unwrap(), 4);
    assert_eq!(col.calculate_byte_offset(&vec![1, 2]).unwrap(), 10);
    // three dimensions with more than nine elements in one
    let big = ChannelArray::with_layout(0, 0, 3, 0, 1, 0, vec![2, 1, 11]).unwrap();
    assert_eq!(big.get_elements_num(), 22);
    let names = big.generate_array_names("m");
    assert_eq!(names[10], "m[0][0][10]");
    assert_eq!(names[11], "m[1][0][0]");
    assert_eq!(big.calculate_byte_offset(&vec![1, 0, 10]).unwrap(), 21);
    let copy = big.clone();
    assert_eq!(copy.get_elements_num(), 22);
    // a dimension of size zero: no elements
    let none = ChannelArray::with_layout(0, 0, 2, 0, 1, 0, vec![3, 0]).unwrap();
    assert_eq!(none.get_elements_num(), 0);
    assert_eq!(none.generate_array_names("z"), Vec::<String>::new());
    assert_eq!(none.generate_array_indexs(), Vec::<Vec<usize>>::new());
    // descriptors that are not sound
    assert_eq!(ChannelArray::with_layout(0, 0, 0, 0, 1, 0, vec![]).unwrap_err(), MdfError::DataCorrupt);
    assert_eq!(ChannelArray::with_layout(0, 0, 2, 0, 1, 0, vec![3]).unwrap_err(), MdfError::DataCorrupt);
    assert_eq!(ChannelArray::with_layout(0, 0, 1, 0, -1, 0, vec![3]).unwrap_err(), MdfError::DataCorrupt);
    assert_eq!(
        ChannelArray::with_layout(0, 0, 2, 0, 2, 0, vec![u64::MAX, u64::MAX]).unwrap_err(),
        MdfError::DataCorrupt
    );
    let off = ChannelArray::with_layout(0, 0, 1, 0, i32::MAX, 0, vec![8]).unwrap();
    assert_eq!(off.calculate_byte_offset(&vec![7]).unwrap_err(), MdfError::DataCorrupt);
    // the block holds fewer sizes than dimensions
    let mut d = vec![0u8, 0, 2, 0];
    d.extend_from_slice(&[0u8; 12]);
    d.extend_from_slice(&2u64.to_le_bytes());
    let short = ch_block(&mut img, "##CA", &[], &d);
    assert_eq!(ChannelArray::new(&map, &img, short).unwrap_err(), MdfError::IoError);
    // no array
    let plain = ch_cn(&mut img, &ch_plain(n, 0, 0, 16));
    let cn = Channel::new(&map, &img, plain).unwrap();
    assert_eq!(cn.generate_array_element_channel().unwrap_err(), MdfError::UnsupportedDataType);
}

#[test]
fn channel_group_expands_arrays_and_keeps_the_master() {
    let map = ch_schemas();
    let mut img = ch_start();
    let n_arr = ch_tx(&mut img, "v");
    let n_t = ch_tx(&mut img, "t");
    let ca = ch_ca(&mut img, 0, 1, &[3]);
    let mut arr = ch_plain(n_arr, 0, 8, 8);
    arr.composition = ca;
    let at_arr = ch_cn(&mut img, &arr);
    let mut t = ch_plain(n_t, 0, 0, 64);
    t.cn_type = 2;
    t.sync = 1;
    t.next = at_arr;
    let at_t = ch_cn(&mut img, &t);
    let cg = ch_cg(&mut img, 0, at_t, 0, 0, 0, 2, 0, 0, 11, 0);
    let group = ChannelGroup::new(&map, &img, cg).unwrap();
    assert_eq!(group.get_channel_names(), vec!["t", "v[0]", "v[1]", "v[2]"]);
    assert_eq!(group.get_master().unwrap().get_name(), "t");
    assert_eq!(group.get_path_sep(), ".");
    let mut rec = Vec::new();
    for k in 0..2u8 {
        rec.extend_from_slice(&(k as u64).to_le_bytes());
        rec.extend_from_slice(&[10 + k, 20 + k, 30 + k]);
    }
    let dt = ch_block(&mut img, "##DT", &[], &rec);
    let at = ch_dg(&mut img, 0, cg, dt, 0, 0);
    let dg = DataGroup::new(&map, &img, at).unwrap();
    // the array descriptor gives offsets from the start of the record
    let v1 = dg.find_channel("v[1]").unwrap();
    assert_eq!(v1.get_channel().get_byte_offset(), 1);
    assert_eq!(v1.yield_channel_data(&img).unwrap().is_num(), true);
    // a group of variable-length data has a total of its own and no channels
    let vl = ch_cg(&mut img, 0, at_t, 0, 0, 5, 9, 1, 0, 0x10, 2);
    let group = ChannelGroup::new(&map, &img, vl).unwrap();
    assert!(group.is_vlsd());
    assert_eq!(group.get_total_len(), 0x10 | (2u64 << 32));
    assert_eq!(group.get_channels().len(), 0);
    assert!(group.get_master().is_none());
    // a chain of channels that cannot be followed gives no channels
    let none = ch_cg(&mut img, 0, 0, 0, 0, 5, 9, 0, 0, 1, 0);
    let group = ChannelGroup::new(&map, &img, none).unwrap();
    assert_eq!(group.get_channels().len(), 0);
    assert_eq!(group.get_total_len(), 9);
    // sizes too large to count
    let huge = ch_cg(&mut img, 0, 0, 0, 0, 5, u64::MAX, 0, 0, 2, 0);
    assert_eq!(ChannelGroup::new(&map, &img, huge).unwrap_err(), MdfError::DataCorrupt);
    let wide = ch_cg(&mut img, 0, 0, 0, 0, 5, 1, 0, 0, u32::MAX, 1);
    assert_eq!(ChannelGroup::new(&map, &img, wide).unwrap_err(), MdfError::DataCorrupt);
}

#[test]
fn source_information_is_read_with_its_texts() {
    let map = ch_schemas();
    let mut img = ch_start();
    let name = ch_tx(&mut img, "ECU1");
    let path = ch_tx(&mut img, "CAN1/ECU1");
    let at = ch_block(&mut img, "##SI", &[name, path, 0], &[1, 2, 1, 0, 0, 0, 0, 0]);
    let si = SourceInfo::new(&map, &img, at).unwrap();
    assert_eq!(si.get_name(), "ECU1");
    assert_eq!(si.get_path(), "CAN1/ECU1");
    assert_eq!(si.get_comment(), "");
    assert_eq!(*si.get_si_type(), SiType::ECU);
    assert_eq!(*si.get_bus_type(), SiBusType::CAN);
    assert!(si.is_simulated());
    assert_eq!(si.to_text(), "ECU1.ECU.CAN");
    assert_eq!(si.clone().to_text(), "ECU1.ECU.CAN");
    let nil = SourceInfo::new(&map, &img, 0).unwrap();
    assert_eq!(nil.to_text(), ".Other.None");
    assert!(!nil.is_simulated());
    assert_eq!(SourceInfo::default().get_name(), "");
    assert_eq!(SiType::default(), SiType::OTHER);
    assert_eq!(SiBusType::default(), SiBusType::NONE);
    for (code, want) in [(0u8, SiType::OTHER), (2, SiType::BUS), (3, SiType::IO), (4, SiType::TOOL), (5, SiType::USER), (6, SiType::OTHER)] {
        let at = ch_block(&mut img, "##SI", &[0, 0, 0], &[code, 0, 0, 0, 0, 0, 0, 0]);
        assert_eq!(*SourceInfo::new(&map, &img, at).unwrap().get_si_type(), want);
    }
    for (code, want) in [
        (0u8, SiBusType::NONE),
        (1, SiBusType::OTHER),
        (3, SiBusType::LIN),
        (4, SiBusType::MOST),
        (5, SiBusType::FLEXRAY),
        (6, SiBusType::KLINE),
        (7, SiBusType::ETHERNET),
        (8, SiBusType::USB),
        (9, SiBusType::OTHER),
    ] {
        let at = ch_block(&mut img, "##SI", &[0, 0, 0], &[0, code, 0, 0, 0, 0, 0, 0]);
        assert_eq!(*SourceInfo::new(&map, &img, at).unwrap().get_bus_type(), want);
    }
    assert_eq!(SiType::TOOL.to_text(), "Tool");
    assert_eq!(SiBusType::FLEXRAY.to_text(), "Flexray");
    assert_eq!(SourceInfo::new(&map, &img, name).unwrap_err(), MdfError::BadBlockId);
}

#[test]
fn bus_event_goes_by_the_name_of_its_group_and_source() {
    let map = ch_schemas();
    let mut img = ch_start();
    let n = ch_tx(&mut img, "CAN_DataFrame");
    let src_name = ch_tx(&mut img, "CAN1");
    let si = ch_block(&mut img, "##SI", &[src_name, 0, 0], &[2, 2, 0, 0, 0, 0, 0, 0]);
    let acq = ch_tx(&mut img, "Frames");
    let mut c = ch_plain(n, 0, 0, 8);
    c.flags = 0x400;
    c.source = si;
    let at = ch_cn(&mut img, &c);
    let cg = ch_cg(&mut img, 0, at, acq, 0, 0, 0, 0, 0, 1, 0);
    let group = ChannelGroup::new(&map, &img, cg).unwrap();
    assert_eq!(group.get_channel_names(), vec!["Frames.CAN1"]);
    assert!(group.nth_cn(0).unwrap().is_bus_event());
    // a group without a name leaves the channel's name
    let cg = ch_cg(&mut img, 0, at, 0, 0, 0, 0, 0, 0, 1, 0);
    let group = ChannelGroup::new(&map, &img, cg).unwrap();
    assert_eq!(group.get_channel_names(), vec!["CAN_DataFrame"]);
}

#[test]
fn structure_gives_its_members_and_bytes_stay_bytes() {
    let map = ch_schemas();
    let mut img = ch_start();
    let n_s = ch_tx(&mut img, "pos");
    let n_x = ch_tx(&mut img, "x");
    let n_y = ch_tx(&mut img, "y");
    let y = ch_cn(&mut img, &ch_plain(n_y, 0, 1, 8));
    let mut cx = ch_plain(n_x, 0, 0, 8);
    cx.next = y;
    let x = ch_cn(&mut img, &cx);
    let mut s = ch_plain(n_s, 10, 0, 16);
    s.composition = x;
    let at_s = ch_cn(&mut img, &s);
    let n_b = ch_tx(&mut img, "blob");
    let mut b = ch_plain(n_b, 10, 0, 16);
    b.next = at_s;
    let at_b = ch_cn(&mut img, &b);
    let cg = ch_cg(&mut img, 0, at_b, 0, 0, 0, 2, 0, 0, 2, 0);
    let dt = ch_block(&mut img, "##DT", &[], &[1, 2, 3, 4]);
    let at = ch_dg(&mut img, 0, cg, dt, 0, 0);
    let dg = DataGroup::new(&map, &img, at).unwrap();
    let group = dg.nth_cg(0).unwrap();
    assert_eq!(group.get_channel_names(), vec!["blob", "pos"]);
    let blob = group.nth_cn(0).unwrap();
    match blob.get_data(&map, &img, &dg, group).unwrap() {
        Physical::Value(v) => assert_eq!(v, DataValue::BYTEARRAY(vec![vec![1, 2], vec![3, 4]])),
        _ => panic!("bytes were expected"),
    }
    let pos = group.nth_cn(1).unwrap();
    assert_eq!(pos.get_sub_channels().unwrap().len(), 2);
    match pos.get_data(&map, &img, &dg, group).unwrap() {
        Physical::Struct(members) => {
            assert_eq!(members.len(), 2);
            assert_eq!(members[0].0, "x");
            assert_eq!(members[1].0, "y");
            assert!(matches!(&members[0].1, Physical::Numbers(DataValue::UINT8(v)) if v == &vec![1, 3]));
            assert!(matches!(&members[1].1, Physical::Numbers(DataValue::UINT8(v)) if v == &vec![2, 4]));
        }
        _ => panic!("a structure was expected"),
    }
}

#[test]
fn values_of_variable_length_are_read_across_block_boundaries() {
    let map = ch_schemas();
    let mut img = ch_start();
    // three values: "hi", "" and "world!", each behind its length
    let mut sd = Vec::new();
    let mut offsets = Vec::new();
    for text in ["hi\0", "", "world!\0\0"] {
        offsets.push(sd.len() as u64);
        sd.extend_from_slice(&(text.len() as u32).to_le_bytes());
        sd.extend_from_slice(text.as_bytes());
    }
    // once as one block
    let whole = ch_block(&mut img, "##SD", &[], &sd);
    // once cut within the length of the third value and within the value
    let a = ch_block(&mut img, "##SD", &[], &sd[..13]);
    let b = ch_block(&mut img, "##SD", &[], &sd[13..18]);
    let c = ch_block(&mut img, "##SD", &[], &sd[18..]);
    let mut dl_data = vec![0u8, 0, 0, 0];
    dl_data.extend_from_slice(&3u32.to_le_bytes());
    for o in [0u64, 13, 18] {
        dl_data.extend_from_slice(&o.to_le_bytes());
    }
    let list = ch_block(&mut img, "##DL", &[0, a, b, c], &dl_data);
    let n = ch_tx(&mut img, "note");
    let mut rec = Vec::new();
    for o in &offsets {
        rec.extend_from_slice(&o.to_le_bytes());
    }
    let dt = ch_block(&mut img, "##DT", &[], &rec);
    let mut results = Vec::new();
    for data in [whole, list] {
        let mut cn = ch_plain(n, 7, 0, 64);
        cn.cn_type = 1;
        cn.data = data;
        let at_cn = ch_cn(&mut img, &cn);
        let cg = ch_cg(&mut img, 0, at_cn, 0, 0, 0, 3, 0, 0, 8, 0);
        let at = ch_dg(&mut img, 0, cg, dt, 0, 0);
        let dg = DataGroup::new(&map, &img, at).unwrap();
        let group = dg.nth_cg(0).unwrap();
        let ch = group.nth_cn(0).unwrap();
        assert_eq!(ch.get_data_raw(&img, &dg, group).unwrap(), DataValue::UINT64(offsets.clone()));
        match ch.get_data(&map, &img, &dg, group).unwrap() {
            Physical::Value(v) => results.push(v),
            _ => panic!("texts were expected"),
        }
        assert_eq!(
            ch.parse_sd_data(&map, &img, &vec![offsets[2]]).unwrap(),
            DataValue::STRINGS(vec!["world!".to_string()])
        );
        assert_eq!(ch.parse_sd_data(&map, &img, &vec![sd.len() as u64]).unwrap_err(), MdfError::OutOfRange);
    }
    assert_eq!(
        results[0],
        DataValue::STRINGS(vec!["hi".to_string(), "".to_string(), "world!".to_string()])
    );
    assert_eq!(results[0], results[1]);
    // UTF-16 in both byte orders
    let mut sd16 = Vec::new();
    sd16.extend_from_slice(&6u32.to_le_bytes());
    sd16.extend_from_slice(&[0x41, 0, 0x42, 0, 0, 0]);
    sd16.extend_from_slice(&6u32.to_le_bytes());
    sd16.extend_from_slice(&[0, 0x41, 0, 0x42, 0, 0]);
    let blk = ch_block(&mut img, "##SD", &[], &sd16);
    for (t, off) in [(8u8, 0u64), (9, 10)] {
        let mut cn = ch_plain(n, t, 0, 64);
        cn.cn_type = 1;
        cn.data = blk;
        let at_cn = ch_cn(&mut img, &cn);
        let ch = Channel::new(&map, &img, at_cn).unwrap();
        assert_eq!(ch.parse_sd_data(&map, &img, &vec![off]).unwrap(), DataValue::STRINGS(vec!["AB".to_string()]));
    }
    let mut cn = ch_plain(n, 0, 0, 64);
    cn.cn_type = 1;
    cn.data = blk;
    let at_cn = ch_cn(&mut img, &cn);
    let ch = Channel::new(&map, &img, at_cn).unwrap();
    assert_eq!(ch.parse_sd_data(&map, &img, &vec![0]).unwrap_err(), MdfError::UnsupportedDataType);
}

#[test]
fn virtual_channel_counts_the_cycles() {
    let map = ch_schemas();
    let mut img = ch_start();
    let n = ch_tx(&mut img, "index");
    let mut c = ch_plain(n, 0, 0, 0);
    c.cn_type = 6;
    let v = ch_cn(&mut img, &c);
    let mut m = ch_plain(n, 0, 0, 0);
    m.cn_type = 3;
    m.sync = 4;
    m.next = v;
    let vm = ch_cn(&mut img, &m);
    let cg = ch_cg(&mut img, 0, vm, 0, 0, 0, 4, 0, 0, 1, 0);
    let dt = ch_block(&mut img, "##DT", &[], &[9, 9, 9, 9]);
    let at = ch_dg(&mut img, 0, cg, dt, 0, 0);
    let dg = DataGroup::new(&map, &img, at).unwrap();
    let group = dg.nth_cg(0).unwrap();
    assert_eq!(group.get_master().unwrap().get_data_raw(&img, &dg, group).unwrap(), DataValue::UINT64(vec![0, 1, 2, 3]));
    assert_eq!(group.nth_cn(1).unwrap().get_data_raw(&img, &dg, group).unwrap(), DataValue::UINT64(vec![0, 1, 2, 3]));
    let mut bad = ch_plain(n, 2, 0, 0);
    bad.cn_type = 6;
    let at_bad = ch_cn(&mut img, &bad);
    let ch = Channel::new(&map, &img, at_bad).unwrap();
    assert_eq!(ch.get_data_raw(&img, &dg, group).unwrap_err(), MdfError::UnsupportedDataType);
    // a channel of maximum length needs the channel that holds the length
    let mut ml = ch_plain(n, 0, 0, 8);
    ml.cn_type = 5;
    let at_ml = ch_cn(&mut img, &ml);
    assert_eq!(Channel::new(&map, &img, at_ml).unwrap_err(), MdfError::UnsupportedCnType);
    ml.data = v;
    let at_ml = ch_cn(&mut img, &ml);
    let ch = Channel::new(&map, &img, at_ml).unwrap();
    assert_eq!(ch.get_sub_channels().unwrap().len(), 1);
    assert_eq!(ch.get_sub_channels().unwrap()[0].get_name(), "index");
}

#[test]
fn whole_file_is_opened_group_by_group() {
    let map = ch_schemas();
    let mut img = ch_start();
    let second = ch_sorted(&mut img, 0);
    let broken = ch_dg(&mut img, second, 0, 0, 0, 3);
    let first = ch_sorted(&mut img, broken);
    ch_set_first_dg(&mut img, first);
    let mdf = Mdf::new(&map, &img).unwrap();
    assert_eq!(mdf.mdfinfo.version, "4.10");
    assert_eq!(mdf.mdfinfo.first_dg_offset, first);
    assert_eq!(mdf.get_time_stamp(), "1970-01-01 00:00:00.000000000");
    // the data group that cannot be opened is passed over
    assert_eq!(mdf.data.len(), 2);
    assert!(mdf.is_sorted());
    assert!(mdf.nth_dg(1).is_some());
    assert!(mdf.nth_dg(2).is_none());
    assert_eq!(mdf.get_all_channel_names(), vec!["time", "speed", "label", "time", "speed", "label"]);
    assert_eq!(mdf.get_all_channel_groups().len(), 2);
    let links = mdf.generate_channel_map();
    assert_eq!(links.len(), 6);
    assert_eq!(links[4].0, "speed");
    assert_eq!(links[4].1.get_channel().get_name(), "speed");
    let mut dup = mdf.check_duplicate_channel().unwrap();
    dup.sort();
    dup.dedup();
    assert_eq!(dup, vec!["label", "speed", "time"]);
    // one data group only: no name twice
    let mut one = ch_start();
    let only = ch_sorted(&mut one, 0);
    ch_set_first_dg(&mut one, only);
    let mdf = Mdf::new(&map, &one).unwrap();
    assert!(mdf.check_duplicate_channel().is_none());
    assert_eq!(mdf.data.len(), 1);
    let time = mdf.nth_dg(0).unwrap().find_channel("time").unwrap();
    assert_eq!(time.get_channel_group().get_acq_name(), "engine");
    // no data group at all
    let none = ch_start();
    assert_eq!(Mdf::new(&map, &none).unwrap_err(), MdfError::BadBlockId);
}

#[test]
fn reader_finds_channels_by_name_and_keeps_master_data() {
    let mut img = ch_start();
    let second = ch_sorted(&mut img, 0);
    let first = ch_sorted(&mut img, second);
    ch_set_first_dg(&mut img, first);
    let mut reader = Mf4Wrapper::new(ch_schemas(), img).unwrap();
    assert_eq!(reader.get_channel_names(), vec!["time", "speed", "label", "time", "speed", "label"]);
    assert!(reader.is_sorted());
    assert_eq!(reader.get_time_stamp(), "1970-01-01 00:00:00.000000000");
    assert_eq!(reader.get_all_channel_groups().len(), 2);
    assert!(reader.check_duplicates().is_some());
    let link = reader.get_channel_link("speed").unwrap();
    assert_eq!(link.get_channel().get_name(), "speed");
    assert_eq!(link.get_channel_group().get_acq_name(), "engine");
    assert!(reader.get_channel_link("nothing").is_none());
    match reader.get_channel_data("speed").unwrap() {
        Physical::Numbers(v) => assert_eq!(v, DataValue::UINT16(vec![0x123, 0xfff, 0x001])),
        _ => panic!("numbers were expected"),
    }
    assert!(reader.get_channel_data("nothing").is_none());
    let want = DataValue::REAL(vec![0.0f64.to_bits(), 0.5f64.to_bits(), 1.0f64.to_bits()]);
    for _ in 0..3 {
        assert_eq!(reader.get_channel_master_data("speed"), Some(&want));
        assert_eq!(reader.get_channel_master_data("time"), Some(&want));
    }
    assert_eq!(reader.get_channel_master_data("nothing"), None);
}

#[test]
fn reader_keeps_the_master_data_of_five_groups_and_reads_the_others_again() {
    let mut img = ch_start();
    // seven data groups, each with a master that counts from another start
    let mut next = 0;
    for k in (0..7u8).rev() {
        let n_t = ch_tx(&mut img, "t");
        let n_v = ch_tx(&mut img, &format!("v{}", k));
        let v = ch_cn(&mut img, &ch_plain(n_v, 0, 1, 8));
        let mut t = ch_plain(n_t, 0, 0, 8);
        t.cn_type = 2;
        t.sync = 1;
        t.next = v;
        let at_t = ch_cn(&mut img, &t);
        let cg = ch_cg(&mut img, 0, at_t, 0, 0, 0, 2, 0, 0, 2, 0);
        let dt = ch_block(&mut img, "##DT", &[], &[k, 100, k + 1, 101]);
        next = ch_dg(&mut img, next, cg, dt, 0, 0);
    }
    ch_set_first_dg(&mut img, next);
    let mut reader = Mf4Wrapper::new(ch_schemas(), img).unwrap();
    for round in 0..2 {
        for k in 0..7u8 {
            let name = format!("v{}", k);
            assert_eq!(
                reader.get_channel_master_data(&name),
                Some(&DataValue::UINT8(vec![k, k + 1])),
                "round {}",
                round
            );
        }
    }
    // a group without a master
    let mut img = ch_start();
    let n = ch_tx(&mut img, "lonely");
    let cn = ch_cn(&mut img, &ch_plain(n, 0, 0, 8));
    let cg = ch_cg(&mut img, 0, cn, 0, 0, 0, 1, 0, 0, 1, 0);
    let dt = ch_block(&mut img, "##DT", &[], &[7]);
    let dg = ch_dg(&mut img, 0, cg, dt, 0, 0);
    ch_set_first_dg(&mut img, dg);
    let mut reader = Mf4Wrapper::new(ch_schemas(), img).unwrap();
    assert_eq!(reader.get_channel_master_data("lonely"), None);
    // no file
    assert_eq!(Mf4Wrapper::new(ch_schemas(), vec![1, 2, 3]).err(), Some(MdfError::IoError));
    assert_eq!(Mf4Wrapper::new(ch_schemas(), vec![0u8; 100]).err(), Some(MdfError::NotAnMdfFile));
}

#[test]
fn reader_gives_the_raw_samples_of_a_channel_by_name() {
    let mut img = ch_start();
    let dg = ch_sorted(&mut img, 0);
    ch_set_first_dg(&mut img, dg);
    let reader = Mf4Wrapper::new(ch_schemas(), img).unwrap();
    assert_eq!(
        reader.get_channel_raw_data("speed"),
        Some(DataValue::UINT16(vec![0x123, 0xfff, 0x001]))
    );
    assert_eq!(reader.get_channel_raw_data("nothing"), None);
    assert!(reader.check_duplicates().is_none());
}

#[test]
fn of_two_channels_with_one_name_the_last_is_found() {
    let map = ch_schemas();
    let mut img = ch_start();
    let n1 = ch_tx(&mut img, "twice");
    let n2 = ch_tx(&mut img, "twice");
    let n3 = ch_tx(&mut img, "once");
    let c3 = ch_cn(&mut img, &ch_plain(n3, 0, 0, 8));
    let mut p2 = ch_plain(n2, 0, 1, 8);
    p2.next = c3;
    let c2 = ch_cn(&mut img, &p2);
    let c1 = ch_cn(&mut img, &ch_plain(n1, 0, 0, 8));
    let cg2 = ch_cg(&mut img, 0, c2, 0, 0, 2, 2, 0, 0, 2, 0);
    let cg1 = ch_cg(&mut img, cg2, c1, 0, 0, 1, 2, 0, 0, 1, 0);
    let payload = [1u8, 10, 2, 20, 21, 1, 11, 2, 22, 23];
    let dt = ch_block(&mut img, "##DT", &[], &payload);
    let at = ch_dg(&mut img, 0, cg1, dt, 0, 1);
    let dg = DataGroup::new(&map, &img, at).unwrap();
    assert_eq!(dg.get_all_channel_names(), vec!["twice", "twice", "once"]);
    let links = dg.create_map();
    assert_eq!(links.len(), 3);
    assert_eq!(links[0].0, "twice");
    assert_eq!(links[0].1.get_channel_group().get_record_id(), 1);
    assert_eq!(links[1].0, "twice");
    assert_eq!(links[1].1.get_channel_group().get_record_id(), 2);
    assert_eq!(links[1].1.get_channel().get_byte_offset(), 1);
    assert_eq!(links[2].0, "once");
    assert_eq!(links[2].1.get_channel().get_byte_offset(), 0);
    let found = dg.find_channel("twice").unwrap();
    assert_eq!(found.get_channel_group().get_record_id(), 2);
    assert_eq!(found.yield_channel_data(&img).unwrap(), DataValue::UINT8(vec![21, 23]));
    ch_set_first_dg(&mut img, at);
    let reader = Mf4Wrapper::new(ch_schemas(), img).unwrap();
    let link = reader.get_channel_link("twice").unwrap();
    assert_eq!(link.get_channel_group().get_record_id(), 2);
    assert_eq!(reader.get_channel_raw_data("twice"), Some(DataValue::UINT8(vec![21, 23])));
    assert_eq!(reader.get_channel_raw_data("once"), Some(DataValue::UINT8(vec![20, 22])));
}

#[test]
fn test_mdf_wrapper_new() {
    let mut wrapper = Mf4Wrapper::new(ch_schemas(), ch_fixture()).unwrap();
    println!("{:?}", wrapper.get_channel_names());
    let _ = wrapper.get_channel_data("$CalibrationLog").unwrap();
    let master_data = wrapper.get_channel_master_data("ASAM.M.SCALAR.UBYTE.HYPERBOLIC").unwrap();
    println!("{:?}", master_data);
    assert_eq!(*master_data, DataValue::UINT8(vec![0, 1]));
    let channel_data = wrapper.get_channel_data("ASAM.M.SCALAR.UBYTE.HYPERBOLIC").unwrap();
    println!("{:?}", channel_data);
    match channel_data {
        Physical::Numbers(v) => assert_eq!(v, DataValue::UINT8(vec![100, 101])),
        _ => panic!("numbers were expected"),
    }
}

fn ch_place(img: &mut Vec<u8>, at: usize) {
    assert!(img.len() <= at);
    img.resize(at, 0);
}

// A file with a data group at 0x8db0, whose links are 36144, 25600 and
// 49712, and with a text block at 0x8e30.
fn ch_fixture() -> Vec<u8> {
    let mut img = ch_start();
    let n_t = ch_tx(&mut img, "time");
    let n_log = ch_tx(&mut img, "$CalibrationLog");
    let n_val = ch_tx(&mut img, "ASAM.M.SCALAR.UBYTE.HYPERBOLIC");
    let n_other = ch_tx(&mut img, "other");
    let at_val = ch_cn(&mut img, &ch_plain(n_val, 0, 2, 8));
    let mut log = ch_plain(n_log, 0, 1, 8);
    log.next = at_val;
    let at_log = ch_cn(&mut img, &log);
    let mut t = ch_plain(n_t, 0, 0, 8);
    t.cn_type = 2;
    t.sync = 1;
    t.next = at_log;
    let at_t = ch_cn(&mut img, &t);
    let at_other = ch_cn(&mut img, &ch_plain(n_other, 0, 0, 8));
    let cg_other = ch_cg(&mut img, 0, at_other, 0, 0, 0, 1, 0, 0, 1, 0);
    let dt_other = ch_block(&mut img, "##DT", &[], &[9]);
    ch_place(&mut img, 25600);
    assert_eq!(ch_cg(&mut img, 0, at_t, 0, 0, 0, 2, 0, 0, 3, 0), 25600);
    ch_place(&mut img, 36144);
    assert_eq!(ch_dg(&mut img, 0, cg_other, dt_other, 0, 0), 36144);
    ch_place(&mut img, 0x8db0);
    assert_eq!(ch_dg(&mut img, 36144, 25600, 49712, 0, 0), 0x8db0);
    ch_place(&mut img, 0x8e30);
    assert_eq!(ch_tx(&mut img, "a text"), 0x8e30);
    ch_place(&mut img, 49712);
    assert_eq!(ch_block(&mut img, "##DT", &[], &[0, 7, 100, 1, 8, 101]), 49712);
    ch_set_first_dg(&mut img, 0x8db0);
    img
}

#[test]
fn test_block_parse() {
    let map = ch_schemas();
    let img = ch_fixture();
    let block = map.get("DG").unwrap();
    let block_info = block.try_parse_buf(&img, 0x8db0).unwrap();
    assert_eq!(block_info.links.len(), 4);
    assert_eq!(block_info.data.len(), 2);
    assert_eq!(block_info.get_link_offset_normal("dg_dg_next").unwrap(), 36144);
    assert_eq!(block_info.get_link_offset_normal("dg_cg_first").unwrap(), 25600);
    assert_eq!(block_info.get_link_offset_normal("dg_data").unwrap(), 49712);

    let data_value = block_info.data.get("dg_rec_id_size").unwrap();
    if let DataValue::UINT8(vec) = data_value {
        assert_eq!(vec.len(), 1);
        assert_eq!(vec[0], 0);
    } else {
        assert!(false, "data value is not UINT8");
    }
    let data_value = block_info.data.get("dg_reserved").unwrap();
    if let DataValue::BYTE(vec) = data_value {
        assert_eq!(vec.len(), 7);
        assert_eq!(vec, &vec![0; 7]);
    } else {
        assert!(false, "data value is not BYTE");
    }

    assert_eq!(block_info.get_data_value("dg_rec_id_size1"), None);
    assert_eq!(block_info.get_data_value("dg_rec_id_size").unwrap(), &DataValue::UINT8(vec![0]));
}

#[test]
fn lib_test_parse_mdf_header() {
    let map = ch_schemas();
    let img = ch_fixture();
    let mdf = MdfInfo::new(&map, &img).unwrap();
    assert_eq!(mdf.version, "4.10".to_string());
    assert_eq!(mdf.version_num, 410);
    assert_eq!(mdf.first_dg_offset, 0x8db0);
    let block = get_block_desc(&map, &img, mdf.first_dg_offset).unwrap();
    assert!(block.check_id("##DG".as_bytes()));
}

#[test]
fn lib_test_get_block_desc() {
    let map = ch_schemas();
    let img = ch_fixture();
    let block = get_block_desc(&map, &img, 0x8db0).unwrap();
    assert!(block.check_id("##DG".as_bytes()));
    let block = get_block_desc(&map, &img, 0x40).unwrap();
    assert!(block.check_id("##HD".as_bytes()));
}

#[test]
fn lib_test_get_child_link_list() {
    let map = ch_schemas();
    let img = ch_fixture();
    let mdf = MdfInfo::new(&map, &img).unwrap();
    let link_list: Vec<BlockInfo> = get_child_info(&map, &img, mdf.first_dg_offset, "DG").unwrap();
    println!("Total DG count: {}", link_list.len());
    assert_eq!(link_list.len(), 2);
    for blk in link_list.iter() {
        println!("{:?}", blk);
    }
    // get the children of first dg
    let cg_list = get_child_info(
        &map,
        &img,
        link_list[0].get_link_offset_normal("dg_cg_first").unwrap(),
        "CG",
    )
    .unwrap();
    println!("Total CG count: {}", cg_list.len());
    assert_eq!(cg_list.len(), 1);
    for cg in cg_list.iter() {
        println!("{:?}", cg);
    }

    let cn_list = get_child_info(
        &map,
        &img,
        cg_list[0].get_link_offset_normal("cg_cn_first").unwrap(),
        "CN",
    )
    .unwrap();
    println!("Total CN count: {}", cn_list.len());
    assert_eq!(cn_list.len(), 3);
    for cn in cn_list.iter() {
        println!("{:?}", cn);
    }
}

#[test]
fn lib_test_parse_tx_block() {
    let map = ch_schemas();
    let img = ch_fixture();
    let block_desc = get_block_desc(&map, &img, 0x8e30).unwrap();
    println!("{:?}", block_desc);
    let block_info = block_desc.try_parse_buf(&img, 0x8e30).unwrap();
    let ss: String = block_info.get_data_value("tx_data").unwrap().to_owned().try_into().unwrap();
    println!("info:::::::{:?}", ss);
    assert_eq!(ss, "a text\0");
}

#[test]
fn test_mdf_new() {
    let map = ch_schemas();
    let img = ch_fixture();
    let mdf = Mdf::new(&map, &img).unwrap();
    let wrapper = Mf4Wrapper::new(ch_schemas(), img.clone()).unwrap();
    let channel_map = mdf.generate_channel_map();
    assert!(mdf.check_duplicate_channel().is_none());
    for cg in mdf.get_all_channel_groups() {
        if cg.get_master().is_none() {
            println!(
                "Channel group {}%%{} has no master channel",
                cg.get_acq_name(),
                cg.get_acq_source().to_text()
            );
        } else {
            let master_cn = cg.get_master().unwrap();
            println!(
                "Channel group {}%%{} has one master channel {}",
                cg.get_acq_name(),
                cg.get_acq_source().to_text(),
                master_cn.get_name()
            );
            println!(
                "master channel has sync_type {:?}, and cn_type is {}",
                master_cn.get_sync_type(),
                master_cn.get_cn_type()
            );
        }
    }
    for cn in mdf.get_all_channel_names() {
        let cn_info = channel_map.iter().rev().find(|e| e.0 == cn).unwrap().1.get_channel();
        println!(
            "Channel {} sync_type is {:?}, cn_type is {}, cn_data_type is {}",
            cn,
            cn_info.get_sync_type(),
            cn_info.get_cn_type(),
            cn_info.get_data_type()
        );
    }
    let cl = &channel_map.iter().rev().find(|e| e.0 == "$CalibrationLog").unwrap().1;
    let cn = cl.get_channel();
    println!(
        "Channel $CalibrationLog sync_type is {:?}, cn_type is {}, cn_data_type is {}",
        cn.get_sync_type(),
        cn.get_cn_type(),
        cn.get_data_type()
    );
    let channel_data = wrapper.get_channel_data("$CalibrationLog");
    let master_data = cl.get_master_channel_vec(&img).unwrap();
    println!("master data is {:?}", master_data);
    println!("channel data is {:?}", channel_data);
    assert_eq!(master_data, DataValue::UINT8(vec![0, 1]));
    match channel_data {
        Some(Physical::Numbers(v)) => assert_eq!(v, DataValue::UINT8(vec![7, 8])),
        _ => panic!("numbers were expected"),
    }
}
