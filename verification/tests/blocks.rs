use mf4_parse::block::{BlockDesc, BlockField, BlockInfo, ByteCursor, DataType};
use mf4_parse::data_serde::DataValue;
use mf4_parse::error::MdfError;
use mf4_parse::data_serde::trim_end_nul;
use mf4_parse::parser::{
    get_block_desc, get_block_desc_by_name, get_child_info, get_child_links, get_clean_text,
    get_text, get_tx_data, make_link_name, peek_block_type, text_or_empty, DescMap, MdfInfo,
};

fn bl_field(t: DataType, n: u32) -> BlockField {
    BlockField::new(t, Some(n))
}

fn bl_rest(t: DataType) -> BlockField {
    BlockField::new(t, None)
}

fn bl_desc(id: &str, links: &[&str], data: Vec<(&str, BlockField)>) -> BlockDesc {
    let link = links.iter().map(|n| (n.to_string(), Vec::new())).collect();
    let data = data.into_iter().map(|(n, f)| (n.to_string(), f)).collect();
    BlockDesc::new(id.to_string(), None, Some(link), Some(data))
}

fn bl_schemas() -> DescMap {
    let mut m = DescMap::new();
    m.insert(
        "DG".to_string(),
        bl_desc(
            "##DG",
            &["dg_dg_next", "dg_cg_first", "dg_data", "dg_md_comment"],
            vec![
                ("dg_rec_id_size", bl_field(DataType::UINT8, 1)),
                ("dg_reserved", bl_field(DataType::BYTE, 7)),
            ],
        ),
    );
    m.insert(
        "HD".to_string(),
        bl_desc(
            "##HD",
            &[
                "hd_dg_first",
                "hd_fh_first",
                "hd_ch_first",
                "hd_at_first",
                "hd_ev_first",
                "hd_md_comment",
            ],
            vec![
                ("hd_start_time_ns", bl_field(DataType::UINT64, 1)),
                ("hd_tz_offset_min", bl_field(DataType::INT16, 1)),
                ("hd_dst_offset_min", bl_field(DataType::INT16, 1)),
                ("hd_time_flags", bl_field(DataType::UINT8, 1)),
                ("hd_time_class", bl_field(DataType::UINT8, 1)),
                ("hd_flags", bl_field(DataType::UINT8, 1)),
                ("hd_reserved", bl_field(DataType::BYTE, 1)),
                ("hd_start_angle_rad", bl_field(DataType::REAL, 1)),
                ("hd_start_distance_m", bl_field(DataType::REAL, 1)),
            ],
        ),
    );
    m.insert("TX".to_string(), bl_desc("##TX", &[], vec![("tx_data", bl_rest(DataType::CHAR))]));
    m.insert("MD".to_string(), bl_desc("##MD", &[], vec![("md_data", bl_rest(DataType::CHAR))]));
    m.insert(
        "CN".to_string(),
        bl_desc(
            "##CN",
            &[
                "cn_cn_next",
                "cn_composition",
                "cn_tx_name",
                "cn_si_source",
                "cn_cc_conversion",
                "cn_data",
                "cn_md_unit",
                "cn_md_comment",
            ],
            vec![
                ("cn_type", bl_field(DataType::UINT8, 1)),
                ("cn_sync_type", bl_field(DataType::UINT8, 1)),
                ("cn_data_type", bl_field(DataType::UINT8, 1)),
                ("cn_bit_offset", bl_field(DataType::UINT8, 1)),
                ("cn_byte_offset", bl_field(DataType::UINT32, 1)),
                ("cn_bit_count", bl_field(DataType::UINT32, 1)),
                ("cn_flags", bl_field(DataType::UINT32, 1)),
                ("cn_inval_bit_pos", bl_field(DataType::UINT32, 1)),
                ("cn_precision", bl_field(DataType::UINT8, 1)),
                ("cn_reserved", bl_field(DataType::BYTE, 1)),
                ("cn_attachment_count", bl_field(DataType::UINT16, 1)),
                ("cn_val_range_min", bl_field(DataType::REAL, 1)),
                ("cn_val_range_max", bl_field(DataType::REAL, 1)),
                ("cn_limit_min", bl_field(DataType::REAL, 1)),
                ("cn_limit_max", bl_field(DataType::REAL, 1)),
                ("cn_limit_ext_min", bl_field(DataType::REAL, 1)),
                ("cn_limit_ext_max", bl_field(DataType::REAL, 1)),
            ],
        ),
    );
    m.insert(
        "CC".to_string(),
        bl_desc(
            "##CC",
            &["cc_tx_name", "cc_md_unit", "cc_md_comment", "cc_cc_inverse"],
            vec![
                ("cc_type", bl_field(DataType::UINT8, 1)),
                ("cc_precision", bl_field(DataType::UINT8, 1)),
                ("cc_flags", bl_field(DataType::UINT16, 1)),
                ("cc_ref_count", bl_field(DataType::UINT16, 1)),
                ("cc_val_count", bl_field(DataType::UINT16, 1)),
                ("cc_phy_range_min", bl_field(DataType::REAL, 1)),
                ("cc_phy_range_max", bl_field(DataType::REAL, 1)),
                ("cc_val", bl_rest(DataType::UINT64)),
            ],
        ),
    );
    m.insert(
        "CA".to_string(),
        bl_desc(
            "##CA",
            &["ca_composition"],
            vec![
                ("ca_type", bl_field(DataType::UINT8, 1)),
                ("unparsed_data", bl_rest(DataType::BYTE)),
            ],
        ),
    );
    m
}

fn bl_align(img: &mut Vec<u8>) {
    while img.len() % 8 != 0 {
        img.push(0);
    }
}

fn bl_block(img: &mut Vec<u8>, id: &str, links: &[u64], data: &[u8]) -> u64 {
    bl_align(img);
    let at = img.len() as u64;
    img.extend_from_slice(id.as_bytes());
    img.extend_from_slice(&[0u8; 4]);
    img.extend_from_slice(&((24 + 8 * links.len() + data.len()) as u64).to_le_bytes());
    img.extend_from_slice(&(links.len() as u64).to_le_bytes());
    for l in links {
        img.extend_from_slice(&l.to_le_bytes());
    }
    img.extend_from_slice(data);
    at
}

fn bl_start() -> Vec<u8> {
    // Room for the identification block; nothing lies at offset 0.
    vec![0u8; 64]
}

fn bl_cn_data(attachments: u16, flags: u32) -> Vec<u8> {
    let mut d = vec![0u8, 0, 0, 0];
    d.extend_from_slice(&0u32.to_le_bytes());
    d.extend_from_slice(&8u32.to_le_bytes());
    d.extend_from_slice(&flags.to_le_bytes());
    d.extend_from_slice(&0u32.to_le_bytes());
    d.push(0);
    d.push(0);
    d.extend_from_slice(&attachments.to_le_bytes());
    d.extend_from_slice(&[0u8; 48]);
    d
}

#[test]
fn data_group_block_gives_links_and_fields_by_name() {
    let map = bl_schemas();
    let mut img = bl_start();
    let at = bl_block(&mut img, "##DG", &[36144, 25600, 49712, 0], &[0, 0, 0, 0, 0, 0, 0, 0]);
    let desc = map.get("DG").unwrap();
    let info: BlockInfo = desc.try_parse_buf(&img, at).unwrap();
    assert_eq!(info.links.len(), 4);
    assert_eq!(info.data.len(), 2);
    assert_eq!(info.get_link_offset_normal("dg_dg_next").unwrap(), 36144);
    assert_eq!(info.get_link_offset_normal("dg_cg_first").unwrap(), 25600);
    assert_eq!(info.get_link_offset_normal("dg_data").unwrap(), 49712);
    assert_eq!(info.get_link_offset_normal("dg_md_comment").unwrap(), 0);
    assert_eq!(info.get_link_offset_normal("dg_nothing"), None);
    assert_eq!(info.get_link_offset_vec("dg_data"), None);
    assert_eq!(info.data.get("dg_rec_id_size").unwrap(), &DataValue::UINT8(vec![0]));
    assert_eq!(info.data.get("dg_reserved").unwrap(), &DataValue::BYTE(vec![0; 7]));
    assert_eq!(info.get_data_value("dg_rec_id_size1"), None);
    assert_eq!(info.get_data_value("dg_rec_id_size").unwrap(), &DataValue::UINT8(vec![0]));
    assert_eq!(info.get_data_value_copy("dg_reserved").unwrap(), DataValue::BYTE(vec![0; 7]));
    assert_eq!(info.get_data_value_first::<u8>("dg_rec_id_size"), Some(0));
    assert_eq!(info.get_data_value_first::<u16>("dg_rec_id_size"), None);
    assert_eq!(info.get_id(), "##DG");
    assert_eq!(info.get_links(), &vec![36144u64, 25600, 49712, 0]);
    let ks: Vec<&String> = info.data.keys().collect();
    assert_eq!(ks, vec!["dg_rec_id_size", "dg_reserved"]);
}

#[test]
fn block_is_refused_for_each_reason() {
    let map = bl_schemas();
    let mut img = bl_start();
    let at = bl_block(&mut img, "##DG", &[1, 2, 3, 4], &[0; 8]);
    let dg = map.get("DG").unwrap();
    let tx = map.get("TX").unwrap();
    // another tag
    assert_eq!(tx.try_parse_buf(&img, at).unwrap_err(), MdfError::BadBlockId);
    // the file ends before the tag, and within the header
    assert_eq!(dg.try_parse_buf(&img, img.len() as u64).unwrap_err(), MdfError::IoError);
    assert_eq!(dg.try_parse_buf(&img[..at as usize + 10], at).unwrap_err(), MdfError::IoError);
    // the file ends within the payload
    assert_eq!(dg.try_parse_buf(&img[..img.len() - 1], at).unwrap_err(), MdfError::IoError);
    // the header declares less than a header
    let mut short = img.clone();
    short[at as usize + 8..at as usize + 16].copy_from_slice(&23u64.to_le_bytes());
    assert_eq!(dg.try_parse_buf(&short, at).unwrap_err(), MdfError::IoError);
    // more links than the payload holds
    let mut many = img.clone();
    many[at as usize + 16..at as usize + 24].copy_from_slice(&6u64.to_le_bytes());
    assert_eq!(dg.try_parse_buf(&many, at).unwrap_err(), MdfError::IoError);
    // a fixed field that the payload has no room for
    let mut cut = bl_start();
    let at2 = bl_block(&mut cut, "##DG", &[1, 2, 3, 4], &[0; 4]);
    assert_eq!(dg.try_parse_buf(&cut, at2).unwrap_err(), MdfError::IoError);
    // text that is no UTF-8
    let mut bad = bl_start();
    let at3 = bl_block(&mut bad, "##TX", &[], &[0xff, 0xfe]);
    assert_eq!(tx.try_parse_buf(&bad, at3).unwrap_err(), MdfError::DataCorrupt);
}

#[test]
fn fields_take_their_declared_bytes_and_the_last_takes_the_rest() {
    let buf: Vec<u8> = vec![1, 0, 2, 0, 0xff, 0xff, 9, 8, 7];
    let mut cur = ByteCursor::new(&buf);
    let two = bl_field(DataType::UINT16, 2).try_parse_value(&mut cur).unwrap();
    assert_eq!(two, DataValue::UINT16(vec![1, 2]));
    assert_eq!(cur.pos, 4);
    let one = bl_field(DataType::INT16, 1).try_parse_value(&mut cur).unwrap();
    assert_eq!(one, DataValue::INT16(vec![-1]));
    assert_eq!(cur.pos, 6);
    assert_eq!(cur.remaining(), 3);
    let rest = bl_rest(DataType::BYTE).try_parse_value(&mut cur).unwrap();
    assert_eq!(rest, DataValue::BYTE(vec![9, 8, 7]));
    assert_eq!(cur.pos, 9);
    // nothing is left: a fixed field fails and the cursor stays
    assert_eq!(bl_field(DataType::UINT8, 1).try_parse_value(&mut cur).unwrap_err(), MdfError::IoError);
    assert_eq!(cur.pos, 9);
    // a field without a size takes whole elements only
    let five: Vec<u8> = vec![1, 0, 0, 0, 2];
    let mut c2 = ByteCursor::new(&five);
    assert_eq!(bl_rest(DataType::UINT32).try_parse_value(&mut c2).unwrap(), DataValue::UINT32(vec![1]));
    assert_eq!(c2.pos, 4);
}

#[test]
fn every_field_type_decodes_little_endian() {
    let b: Vec<u8> = vec![0x01, 0x02, 0x03, 0x04, 0x05, 0x06, 0x07, 0x88];
    let parse = |t: DataType, n: u32| {
        let mut c = ByteCursor::new(&b);
        BlockField::new(t, Some(n)).try_parse_value(&mut c).unwrap()
    };
    assert_eq!(parse(DataType::UINT8, 2), DataValue::UINT8(vec![1, 2]));
    assert_eq!(parse(DataType::BYTE, 3), DataValue::BYTE(vec![1, 2, 3]));
    assert_eq!(parse(DataType::CHAR, 2), DataValue::CHAR("\u{1}\u{2}".to_string()));
    assert_eq!(parse(DataType::UINT16, 1), DataValue::UINT16(vec![0x0201]));
    assert_eq!(parse(DataType::INT16, 1), DataValue::INT16(vec![0x0201]));
    assert_eq!(parse(DataType::UINT32, 2), DataValue::UINT32(vec![0x04030201, 0x88070605]));
    assert_eq!(parse(DataType::INT32, 2), DataValue::INT32(vec![0x04030201, 0x88070605u32 as i32]));
    assert_eq!(parse(DataType::UINT64, 1), DataValue::UINT64(vec![0x8807060504030201]));
    assert_eq!(parse(DataType::INT64, 1), DataValue::INT64(vec![0x8807060504030201u64 as i64]));
    assert_eq!(parse(DataType::REAL, 1), DataValue::REAL(vec![0x8807060504030201]));
    assert_eq!(BlockField::new(DataType::REAL, None).get_data_type(), "REAL");
    assert_eq!(BlockField::new(DataType::CHAR, None).get_data_type(), "CHAR");
    assert_eq!(BlockField::new(DataType::BYTE, None).get_data_type(), "BYTE");
    assert_eq!(BlockField::new(DataType::UINT8, None).get_data_type(), "UINT8");
    assert_eq!(BlockField::new(DataType::UINT16, None).get_data_type(), "UINT16");
    assert_eq!(BlockField::new(DataType::UINT32, None).get_data_type(), "UINT32");
    assert_eq!(BlockField::new(DataType::UINT64, None).get_data_type(), "UINT64");
    assert_eq!(BlockField::new(DataType::INT16, None).get_data_type(), "INT16");
    assert_eq!(BlockField::new(DataType::INT32, None).get_data_type(), "INT32");
    assert_eq!(BlockField::new(DataType::INT64, None).get_data_type(), "INT64");
}

#[test]
fn schema_answers_by_name() {
    let map = bl_schemas();
    let dg = map.get("DG").unwrap();
    assert!(dg.check_id("##DG".as_bytes()));
    assert!(!dg.check_id("##HD".as_bytes()));
    assert!(!dg.check_id("##D".as_bytes()));
    assert!(dg.is_implemented());
    let off = BlockDesc::new("##XX".to_string(), Some(false), None, None);
    assert!(!off.is_implemented());
    assert_eq!(off.get_data_fields(), None);
    assert_eq!(off.get_link_fields(), None);
    assert!(off.get_data_field("a").is_none());
    assert_eq!(off.get_link_block_type("a"), None);
    let names: Vec<String> = dg.get_link_fields().unwrap().into_iter().cloned().collect();
    assert_eq!(names, vec!["dg_dg_next", "dg_cg_first", "dg_data", "dg_md_comment"]);
    let fields: Vec<String> = dg.get_data_fields().unwrap().into_iter().cloned().collect();
    assert_eq!(fields, vec!["dg_rec_id_size", "dg_reserved"]);
    assert_eq!(dg.get_data_field("dg_reserved").unwrap().get_data_type(), "BYTE");
    assert!(dg.get_data_field("dg_other").is_none());
    let typed = BlockDesc::new(
        "##DG".to_string(),
        None,
        Some(vec![("dg_data".to_string(), vec!["DT".to_string(), "DL".to_string()])]),
        Some(vec![]),
    );
    assert_eq!(typed.get_link_block_type("dg_data").unwrap(), vec!["DT", "DL"]);
    assert_eq!(typed.get_link_block_type("dg_cg_first"), None);
    assert!(get_block_desc_by_name(&map, "dg".to_string()).unwrap().check_id(b"##DG"));
    assert!(get_block_desc_by_name(&map, "Hd".to_string()).unwrap().check_id(b"##HD"));
    assert!(get_block_desc_by_name(&map, "zz".to_string()).is_none());
}

#[test]
fn schema_is_found_by_the_tag_in_the_file() {
    let map = bl_schemas();
    let mut img = bl_start();
    let dg = bl_block(&mut img, "##DG", &[0, 0, 0, 0], &[0; 8]);
    let tx = bl_block(&mut img, "##TX", &[], b"abc\0\0");
    let xx = bl_block(&mut img, "##XX", &[], b"");
    assert!(get_block_desc(&map, &img, dg).unwrap().check_id(b"##DG"));
    assert!(get_block_desc(&map, &img, tx).unwrap().check_id(b"##TX"));
    assert_eq!(get_block_desc(&map, &img, 0).unwrap_err(), MdfError::NilLink);
    assert_eq!(get_block_desc(&map, &img, xx).unwrap_err(), MdfError::SchemaMissing);
    assert_eq!(get_block_desc(&map, &img, img.len() as u64 - 2).unwrap_err(), MdfError::IoError);
    assert_eq!(peek_block_type(&img, dg).unwrap(), "DG");
    assert_eq!(peek_block_type(&img, 0).unwrap_err(), MdfError::NilLink);
    let mut bad = img.clone();
    bad[dg as usize + 2] = 0xff;
    assert_eq!(peek_block_type(&bad, dg).unwrap_err(), MdfError::DataCorrupt);
}

#[test]
fn text_blocks_lose_the_nuls_at_their_end_only() {
    let map = bl_schemas();
    let mut img = bl_start();
    let tx = bl_block(&mut img, "##TX", &[], b"a\0b\0\0\0");
    let md = bl_block(&mut img, "##MD", &[], b"<x/>\0");
    let dg = bl_block(&mut img, "##DG", &[0, 0, 0, 0], &[0; 8]);
    assert_eq!(get_text(&map, &img, tx).unwrap(), "a\0b\0\0\0");
    assert_eq!(get_clean_text(&map, &img, tx).unwrap(), "a\0b");
    assert_eq!(get_clean_text(&map, &img, md).unwrap(), "<x/>");
    assert_eq!(get_tx_data(&map, &img, tx).unwrap(), "a\0b\0\0\0");
    assert_eq!(get_tx_data(&map, &img, md).unwrap_err(), MdfError::SchemaMissing);
    assert_eq!(get_text(&map, &img, dg).unwrap_err(), MdfError::BadBlockId);
    assert_eq!(get_clean_text(&map, &img, 0).unwrap_err(), MdfError::NilLink);
}

#[test]
fn chain_of_blocks_is_followed_to_the_nil_link() {
    let map = bl_schemas();
    let mut img = bl_start();
    let third = bl_block(&mut img, "##DG", &[0, 0, 0, 0], &[0; 8]);
    let second = bl_block(&mut img, "##DG", &[third, 0, 0, 0], &[1, 0, 0, 0, 0, 0, 0, 0]);
    let first = bl_block(&mut img, "##DG", &[second, 0, 0, 0], &[2, 0, 0, 0, 0, 0, 0, 0]);
    assert_eq!(get_child_links(&map, &img, first, "DG").unwrap(), vec![first, second, third]);
    let infos = get_child_info(&map, &img, first, "DG").unwrap();
    assert_eq!(infos.len(), 3);
    assert_eq!(infos[0].get_data_value_first::<u8>("dg_rec_id_size"), Some(2));
    assert_eq!(infos[1].get_data_value_first::<u8>("dg_rec_id_size"), Some(1));
    assert_eq!(infos[2].get_link_offset_normal("dg_dg_next"), Some(0));
    assert_eq!(get_child_links(&map, &img, third, "DG").unwrap(), vec![third]);
    assert_eq!(get_child_links(&map, &img, first, "ZZ").unwrap_err(), MdfError::SchemaMissing);
    assert_eq!(get_child_links(&map, &img, 0, "DG").unwrap_err(), MdfError::BadBlockId);
    // a chain that runs in a circle is cut off
    let mut ring = bl_start();
    let at = bl_block(&mut ring, "##DG", &[0, 0, 0, 0], &[0; 8]);
    ring[at as usize + 24..at as usize + 32].copy_from_slice(&at.to_le_bytes());
    assert_eq!(get_child_links(&map, &ring, at, "DG").unwrap_err(), MdfError::DataCorrupt);
    assert_eq!(get_child_info(&map, &ring, at, "DG").unwrap_err(), MdfError::DataCorrupt);
}

#[test]
fn channel_block_binds_attachments_and_default_axis() {
    let map = bl_schemas();
    let cn = map.get("CN").unwrap();
    let mut img = bl_start();
    let fixed: Vec<u64> = (1..=8).collect();
    let mut all = fixed.clone();
    all.extend_from_slice(&[101, 102, 201, 202, 203]);
    let at = bl_block(&mut img, "##CN", &all, &bl_cn_data(2, 1 << 12));
    let info = cn.try_parse_buf(&img, at).unwrap();
    assert_eq!(info.get_link_offset_normal("cn_cn_next"), Some(1));
    assert_eq!(info.get_link_offset_normal("cn_md_comment"), Some(8));
    assert_eq!(info.get_link_offset_vec("cn_attachment_first"), Some(vec![101, 102]));
    assert_eq!(info.get_link_offset_vec("cn_default_x"), Some(vec![201, 202, 203]));
    assert_eq!(info.get_link_offset_normal("cn_default_x"), None);
    // no tails
    let plain = bl_block(&mut img, "##CN", &fixed, &bl_cn_data(0, 0));
    let info = cn.try_parse_buf(&img, plain).unwrap();
    assert_eq!(info.get_link_offset_vec("cn_attachment_first"), None);
    assert_eq!(info.get_link_offset_vec("cn_default_x"), None);
    // the tail runs past the links
    let short = bl_block(&mut img, "##CN", &all[..9], &bl_cn_data(2, 0));
    assert_eq!(cn.try_parse_buf(&img, short).unwrap_err(), MdfError::LinkCountMismatch);
    let short_x = bl_block(&mut img, "##CN", &all[..12], &bl_cn_data(2, 1 << 12));
    assert_eq!(cn.try_parse_buf(&img, short_x).unwrap_err(), MdfError::LinkCountMismatch);
    let few = bl_block(&mut img, "##CN", &fixed[..7], &bl_cn_data(0, 0));
    assert_eq!(cn.try_parse_buf(&img, few).unwrap_err(), MdfError::LinkCountMismatch);
}

#[test]
fn conversion_block_binds_its_references_and_array_block_binds_nothing() {
    let map = bl_schemas();
    let cc = map.get("CC").unwrap();
    let mut img = bl_start();
    let mut data = vec![7u8, 0, 0, 0];
    data.extend_from_slice(&2u16.to_le_bytes());
    data.extend_from_slice(&1u16.to_le_bytes());
    data.extend_from_slice(&[0u8; 16]);
    data.extend_from_slice(&1.5f64.to_bits().to_le_bytes());
    let at = bl_block(&mut img, "##CC", &[1, 2, 3, 4, 50, 60], &data);
    let info = cc.try_parse_buf(&img, at).unwrap();
    assert_eq!(info.get_link_offset_normal("cc_cc_inverse"), Some(4));
    assert_eq!(info.get_link_offset_vec("cc_ref"), Some(vec![50, 60]));
    assert_eq!(info.get_data_value("cc_val").unwrap(), &DataValue::UINT64(vec![1.5f64.to_bits()]));
    let short = bl_block(&mut img, "##CC", &[1, 2, 3, 4, 50], &data);
    assert_eq!(cc.try_parse_buf(&img, short).unwrap_err(), MdfError::LinkCountMismatch);
    let ca = map.get("CA").unwrap();
    let arr = bl_block(&mut img, "##CA", &[9, 9], &[1, 2, 3]);
    let mut info = ca.try_parse_buf(&img, arr).unwrap();
    assert_eq!(info.links, vec![9, 9]);
    assert_eq!(info.get_link_offset_normal("ca_composition"), None);
    assert_eq!(info.get_data_value("unparsed_data").unwrap(), &DataValue::BYTE(vec![2, 3]));
    assert_eq!(info.map_links(ca).unwrap_err(), MdfError::NotImplemented);
}

#[test]
fn links_beyond_the_names_stay_unnamed() {
    let map = bl_schemas();
    let dg = map.get("DG").unwrap();
    let mut img = bl_start();
    let more = bl_block(&mut img, "##DG", &[1, 2, 3, 4, 5, 6], &[0; 8]);
    let info = dg.try_parse_buf(&img, more).unwrap();
    assert_eq!(info.links.len(), 6);
    assert_eq!(info.get_link_offset_normal("dg_md_comment"), Some(4));
    let less = bl_block(&mut img, "##DG", &[1, 2], &[0; 8]);
    let info = dg.try_parse_buf(&img, less).unwrap();
    assert_eq!(info.get_link_offset_normal("dg_cg_first"), Some(2));
    assert_eq!(info.get_link_offset_normal("dg_data"), None);
}

#[test]
fn header_gives_version_time_and_first_data_group() {
    let map = bl_schemas();
    let mut img: Vec<u8> = Vec::new();
    img.extend_from_slice(b"MDF     ");
    img.extend_from_slice(b"4.10    ");
    img.extend_from_slice(b"rdr     ");
    img.extend_from_slice(&[0u8; 4]);
    img.extend_from_slice(&410u16.to_le_bytes());
    img.extend_from_slice(&[0u8; 34]);
    assert_eq!(img.len(), 64);
    let mut hd = Vec::new();
    hd.extend_from_slice(&1662921288_000_000_123u64.to_le_bytes());
    hd.extend_from_slice(&[0u8; 8]);
    hd.extend_from_slice(&[0u8; 16]);
    let at = bl_block(&mut img, "##HD", &[0x8db0, 0, 0, 0, 0, 0], &hd);
    assert_eq!(at, 0x40);
    let info = MdfInfo::new(&map, &img).unwrap();
    assert_eq!(info.version, "4.10".to_string());
    assert_eq!(info.version_num, 410);
    assert_eq!(info.first_dg_offset, 0x8db0);
    assert_eq!(info.time_stamp, 1662921288_000_000_123);
    assert_eq!(info.date_time, "2022-09-11 18:34:48.000000123");
    // before 1970: the count of nanoseconds is read as a signed number
    let mut early = img.clone();
    early[0x40 + 24 + 48..0x40 + 24 + 56].copy_from_slice(&(-1_000_000_000i64).to_le_bytes());
    assert_eq!(MdfInfo::new(&map, &early).unwrap().date_time, "1969-12-31 23:59:59.000000000");
    let mut other = img.clone();
    other[0] = b'X';
    assert_eq!(MdfInfo::new(&map, &other).unwrap_err(), MdfError::NotAnMdfFile);
    let mut old = img.clone();
    old[28..30].copy_from_slice(&399u16.to_le_bytes());
    assert_eq!(MdfInfo::new(&map, &old).unwrap_err(), MdfError::UnsupportedVersion);
    let mut v4 = img.clone();
    v4[28..30].copy_from_slice(&400u16.to_le_bytes());
    assert_eq!(MdfInfo::new(&map, &v4).unwrap().version_num, 400);
    assert_eq!(MdfInfo::new(&map, &img[..7]).unwrap_err(), MdfError::IoError);
    assert_eq!(MdfInfo::new(&map, &img[..63]).unwrap_err(), MdfError::IoError);
    assert_eq!(MdfInfo::new(&map, &img[..64]).unwrap_err(), MdfError::IoError);
}

#[test]
fn errors_have_their_messages() {
    assert_eq!(MdfError::BadBlockId.message(), "Invalid block id");
    assert_eq!(MdfError::NotAnMdfFile.message(), "not a mdf file");
    assert_eq!(MdfError::LinkCountMismatch.message(), "Invalid link count");
    assert_eq!(MdfError::OutOfRange.message(), "Virtual offset out of range.");
    assert_eq!(MdfError::NotImplemented.message(), "Not Implemented");
}

#[test]
fn link_to_the_next_block_is_named_by_the_kind_of_block() {
    assert_eq!(make_link_name("cn"), "cn_cn_next");
    assert_eq!(make_link_name("dg"), "dg_dg_next");
    assert_eq!(make_link_name(""), "__next");
}

#[test]
fn nuls_are_trimmed_at_the_end_only() {
    assert_eq!(trim_end_nul("a\0\0"), "a");
    assert_eq!(trim_end_nul("\0a"), "\0a");
    assert_eq!(trim_end_nul("\0\0"), "");
    assert_eq!(trim_end_nul(""), "");
    assert_eq!(trim_end_nul("a b "), "a b ");
    let map = bl_schemas();
    let mut img = bl_start();
    let tx = bl_block(&mut img, "##TX", &[], b"unit\0");
    assert_eq!(text_or_empty(&map, &img, tx), "unit");
    assert_eq!(text_or_empty(&map, &img, 0), "");
}

#[test]
fn a_schema_kept_under_a_name_is_replaced_by_the_next() {
    let mut m = DescMap::new();
    assert!(m.get("TX").is_none());
    m.insert("TX".to_string(), bl_desc("##TX", &[], vec![("tx_data", bl_rest(DataType::CHAR))]));
    m.insert("MD".to_string(), bl_desc("##MD", &[], vec![("md_data", bl_rest(DataType::CHAR))]));
    assert!(m.get("TX").unwrap().check_id(b"##TX"));
    m.insert("TX".to_string(), bl_desc("##XT", &[], vec![("other", bl_rest(DataType::BYTE))]));
    assert!(m.get("TX").unwrap().check_id(b"##XT"));
    assert!(m.get("TX").unwrap().get_data_field("tx_data").is_none());
    assert!(m.get("MD").unwrap().check_id(b"##MD"));
    assert!(m.get("tx").is_none());
    assert!(get_block_desc_by_name(&m, "tx".to_string()).unwrap().check_id(b"##XT"));
}
