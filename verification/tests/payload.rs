use flate2::write::ZlibEncoder;
use flate2::Compression;
use mf4_parse::block::{BlockDesc, BlockField, DataType};
use mf4_parse::components::dx::{
    read_data_block, read_dl_block, DataBlock, DataLink, DZBlock, Fragment, VirtualBuf, DT,
};
use mf4_parse::error::MdfError;
use mf4_parse::parser::DescMap;
use std::io::Write;

fn pl_desc(id: &str, links: &[&str], data: Vec<(&str, BlockField)>) -> BlockDesc {
    let link = links.iter().map(|n| (n.to_string(), Vec::new())).collect();
    let data = data.into_iter().map(|(n, f)| (n.to_string(), f)).collect();
    BlockDesc::new(id.to_string(), None, Some(link), Some(data))
}

fn pl_schemas() -> DescMap {
    let mut m = DescMap::new();
    m.insert(
        "DZ".to_string(),
        pl_desc(
            "##DZ",
            &[],
            vec![
                ("dz_org_block_type", BlockField::new(DataType::CHAR, Some(2))),
                ("dz_zip_type", BlockField::new(DataType::UINT8, Some(1))),
                ("dz_reserved", BlockField::new(DataType::BYTE, Some(1))),
                ("dz_zip_parameter", BlockField::new(DataType::UINT32, Some(1))),
                ("dz_org_data_length", BlockField::new(DataType::UINT64, Some(1))),
                ("dz_data_length", BlockField::new(DataType::UINT64, Some(1))),
                ("unparsed_data", BlockField::new(DataType::BYTE, None)),
            ],
        ),
    );
    m.insert(
        "HL".to_string(),
        pl_desc(
            "##HL",
            &["hl_dl_first"],
            vec![
                ("hl_flags", BlockField::new(DataType::UINT16, Some(1))),
                ("hl_zip_type", BlockField::new(DataType::UINT8, Some(1))),
                ("hl_reserved", BlockField::new(DataType::BYTE, Some(5))),
            ],
        ),
    );
    m
}

fn pl_block(img: &mut Vec<u8>, id: &str, links: &[u64], data: &[u8]) -> u64 {
    while img.len() % 8 != 0 {
        img.push(0);
    }
    let at = img.len() as u64;
    img.extend_from_slice(id.as_bytes());
    img.extend_from_slice(&[0u8; 4]);
    img.extend_from_slice(&((24 + 8 * links.len() + data.len()) as u64).to_le_bytes());
    img.extend_from_slice(&(links.len() as u64).to_le_bytes());
    for l in links {
        img.extend_from_slice(&l.to_le_bytes());
    }
    img.extend_from_slice(data);
    at
}

fn pl_dl(img: &mut Vec<u8>, next: u64, blocks: &[u64], offsets: Option<&[u64]>, equal: u64) -> u64 {
    let mut links = vec![next];
    links.extend_from_slice(blocks);
    let mut data = Vec::new();
    match offsets {
        Some(offs) => {
            data.push(0u8);
            data.extend_from_slice(&[0u8; 3]);
            data.extend_from_slice(&(offs.len() as u32).to_le_bytes());
            for o in offs {
                data.extend_from_slice(&o.to_le_bytes());
            }
        }
        None => {
            data.push(1u8);
            data.extend_from_slice(&[0u8; 3]);
            data.extend_from_slice(&(blocks.len() as u32).to_le_bytes());
            data.extend_from_slice(&equal.to_le_bytes());
        }
    }
    pl_block(img, "##DL", &links, &data)
}

fn pl_dz(img: &mut Vec<u8>, payload: &[u8], zip_type: u8, declared: u64) -> u64 {
    let mut enc = ZlibEncoder::new(Vec::new(), Compression::default());
    enc.write_all(payload).unwrap();
    let packed = enc.finish().unwrap();
    let mut data = Vec::new();
    data.extend_from_slice(b"DT");
    data.push(zip_type);
    data.push(0);
    data.extend_from_slice(&0u32.to_le_bytes());
    data.extend_from_slice(&declared.to_le_bytes());
    data.extend_from_slice(&(packed.len() as u64).to_le_bytes());
    data.extend_from_slice(&packed);
    pl_block(img, "##DZ", &[], &data)
}

fn pl_bytes(from: u32, n: usize) -> Vec<u8> {
    (0..n).map(|i| ((from as usize + i * 7) % 251) as u8).collect()
}

#[test]
fn raw_block_reads_within_its_payload_only() {
    let mut img = vec![0u8; 64];
    let payload = pl_bytes(3, 40);
    let at = pl_block(&mut img, "##DT", &[], &payload);
    let dt = DT::new(&img, at).unwrap();
    assert_eq!(dt.get_data_len(), 40);
    let mut buf = [0u8; 10];
    dt.read_virtual_buf(&img, 0, &mut buf).unwrap();
    assert_eq!(&buf[..], &payload[..10]);
    dt.read_virtual_buf(&img, 30, &mut buf).unwrap();
    assert_eq!(&buf[..], &payload[30..]);
    assert_eq!(dt.read_virtual_buf(&img, 31, &mut buf).unwrap_err(), MdfError::OutOfRange);
    assert_eq!(dt.read_virtual_buf(&img, 41, &mut buf[..0]).unwrap_err(), MdfError::OutOfRange);
    dt.read_virtual_buf(&img, 40, &mut buf[..0]).unwrap();
    // the file is shorter than the block says
    assert_eq!(dt.read_virtual_buf(&img[..img.len() - 1], 30, &mut buf).unwrap_err(), MdfError::IoError);
    assert_eq!(DT::new(&img, 0).unwrap_err(), MdfError::NilLink);
    assert_eq!(DT::new(&img, img.len() as u64).unwrap_err(), MdfError::IoError);
    let empty = DT::default();
    assert_eq!(empty.get_data_len(), 0);
}

#[test]
fn compressed_block_is_inflated_once_and_read_from_memory() {
    let map = pl_schemas();
    let mut img = vec![0u8; 64];
    let payload = pl_bytes(9, 300);
    let at = pl_dz(&mut img, &payload, 0, 300);
    let dz = DZBlock::new(&map, &img, at).unwrap();
    assert_eq!(dz.get_data_len(), 300);
    assert_eq!(dz.get_data(), &payload[..]);
    assert!(dz.get_len() > 0);
    assert!(dz.get_len() < 300 + 64);
    let mut buf = [0u8; 20];
    // the file is not needed to read
    dz.read_virtual_buf(&[], 280, &mut buf).unwrap();
    assert_eq!(&buf[..], &payload[280..]);
    assert_eq!(dz.read_virtual_buf(&[], 281, &mut buf).unwrap_err(), MdfError::OutOfRange);
    // another algorithm than deflate
    let other = pl_dz(&mut img, &payload, 1, 300);
    assert_eq!(DZBlock::new(&map, &img, other).unwrap_err(), MdfError::UnsupportedCompression);
    // a length that the inflated bytes do not have
    let wrong = pl_dz(&mut img, &payload, 0, 299);
    assert_eq!(DZBlock::new(&map, &img, wrong).unwrap_err(), MdfError::DataCorrupt);
    // bytes that do not inflate
    let mut data = Vec::new();
    data.extend_from_slice(b"DT");
    data.extend_from_slice(&[0, 0, 0, 0, 0, 0]);
    data.extend_from_slice(&4u64.to_le_bytes());
    data.extend_from_slice(&4u64.to_le_bytes());
    data.extend_from_slice(&[1, 2, 3, 4]);
    let broken = pl_block(&mut img, "##DZ", &[], &data);
    assert_eq!(DZBlock::new(&map, &img, broken).unwrap_err(), MdfError::DataCorrupt);
    assert_eq!(DZBlock::new(&DescMap::new(), &img, at).unwrap_err(), MdfError::SchemaMissing);
}

#[test]
fn data_list_reads_across_its_blocks() {
    let map = pl_schemas();
    let mut img = vec![0u8; 64];
    let a = pl_bytes(1, 100);
    let b = pl_bytes(2, 50);
    let c = pl_bytes(3, 70);
    let at_a = pl_block(&mut img, "##DT", &[], &a);
    let at_b = pl_dz(&mut img, &b, 0, 50);
    let at_c = pl_block(&mut img, "##DT", &[], &c);
    let dl = pl_dl(&mut img, 0, &[at_a, at_b, at_c], Some(&[0, 100, 150]), 0);
    let list = DataLink::new(&map, &img, dl).unwrap();
    assert_eq!(list.get_num_of_blocks(), 3);
    assert_eq!(list.get_total_len(), 220);
    assert_eq!(list.get_data_len(), 220);
    assert_eq!(list.get_start_offsets_in_file(), &vec![at_a, at_b, at_c]);
    assert_eq!(list.get_virtual_offsets(), &vec![0, 100, 150]);
    let mut whole = a.clone();
    whole.extend_from_slice(&b);
    whole.extend_from_slice(&c);
    // within one block, across two, across all three, and at the very end
    for (from, n) in [(0usize, 10usize), (95, 10), (90, 80), (149, 2), (0, 220), (210, 10), (220, 0), (100, 50)] {
        let mut buf = vec![0xaau8; n];
        list.read_virtual_buf(&img, from as u64, &mut buf).unwrap();
        assert_eq!(buf, whole[from..from + n].to_vec());
    }
    let mut buf = [0u8; 10];
    assert_eq!(list.read_virtual_buf(&img, 211, &mut buf).unwrap_err(), MdfError::OutOfRange);
    assert_eq!(list.read_virtual_buf(&img, 300, &mut buf).unwrap_err(), MdfError::OutOfRange);
    // every read is the same as reading the pieces one by one
    let mut head = [0u8; 5];
    let mut tail = [0u8; 5];
    DT::new(&img, at_a).unwrap().read_virtual_buf(&img, 95, &mut head).unwrap();
    DZBlock::new(&map, &img, at_b).unwrap().read_virtual_buf(&img, 0, &mut tail).unwrap();
    list.read_virtual_buf(&img, 95, &mut buf).unwrap();
    assert_eq!(&buf[..5], &head[..]);
    assert_eq!(&buf[5..], &tail[..]);
}

#[test]
fn data_list_of_one_block_reads_first_and_last_bytes() {
    let map = pl_schemas();
    let mut img = vec![0u8; 64];
    let a = pl_bytes(5, 173);
    let at_a = pl_block(&mut img, "##DT", &[], &a);
    let dl = pl_dl(&mut img, 0, &[at_a], None, 173);
    let list = DataLink::new(&map, &img, dl).unwrap();
    assert_eq!(list.get_num_of_blocks(), 1);
    assert_eq!(list.get_total_len(), 173);
    let mut buf = [0u8; 10];
    list.read_virtual_buf(&img, 0, &mut buf).unwrap();
    assert_eq!(&buf[..], &a[..10]);
    list.read_virtual_buf(&img, 163, &mut buf).unwrap();
    assert_eq!(&buf[..], &a[163..]);
}

#[test]
fn chain_of_list_blocks_is_one_payload() {
    let map = pl_schemas();
    let mut img = vec![0u8; 64];
    let a = pl_bytes(1, 30);
    let b = pl_bytes(2, 30);
    let at_a = pl_block(&mut img, "##DT", &[], &a);
    let at_b = pl_block(&mut img, "##SD", &[], &b);
    let second = pl_dl(&mut img, 0, &[at_b], Some(&[30]), 0);
    let first = pl_dl(&mut img, second, &[at_a], Some(&[0]), 0);
    let list = DataLink::new(&map, &img, first).unwrap();
    assert_eq!(list.get_num_of_blocks(), 2);
    assert_eq!(list.get_virtual_offsets(), &vec![0, 30]);
    let mut buf = [0u8; 4];
    list.read_virtual_buf(&img, 28, &mut buf).unwrap();
    assert_eq!(buf, [a[28], a[29], b[0], b[1]]);
    let one = read_dl_block(&img, first).unwrap();
    assert_eq!(one.dl_dl_next, second);
    assert_eq!(one.dl_data, vec![at_a]);
    assert_eq!(one.dl_flags, 0);
    assert_eq!(one.dl_count, 1);
    assert_eq!(one.dl_offset, Some(vec![0]));
    assert_eq!(one.dl_equal_length, None);
}

#[test]
fn data_list_is_refused_for_each_reason() {
    let map = pl_schemas();
    let mut img = vec![0u8; 64];
    let a = pl_bytes(1, 30);
    let b = pl_bytes(2, 30);
    let at_a = pl_block(&mut img, "##DT", &[], &a);
    let at_b = pl_block(&mut img, "##DT", &[], &b);
    // the declared offsets are not where the blocks start
    let off = pl_dl(&mut img, 0, &[at_a, at_b], Some(&[0, 31]), 0);
    assert_eq!(DataLink::new(&map, &img, off).unwrap_err(), MdfError::OffsetMismatch);
    // fewer offsets than blocks
    let few = pl_dl(&mut img, 0, &[at_a, at_b], Some(&[0]), 0);
    assert_eq!(DataLink::new(&map, &img, few).unwrap_err(), MdfError::OffsetMismatch);
    // one list block with offsets, one with equal lengths
    let eq = pl_dl(&mut img, 0, &[at_b], None, 30);
    let mixed = pl_dl(&mut img, eq, &[at_a], Some(&[0]), 0);
    assert_eq!(DataLink::new(&map, &img, mixed).unwrap_err(), MdfError::OffsetMismatch);
    let eq2 = pl_dl(&mut img, 0, &[at_b], Some(&[30]), 0);
    let mixed2 = pl_dl(&mut img, eq2, &[at_a], None, 30);
    assert_eq!(DataLink::new(&map, &img, mixed2).unwrap_err(), MdfError::OffsetMismatch);
    // a block that is no data block
    let tx = pl_block(&mut img, "##TX", &[], b"x");
    let odd = pl_dl(&mut img, 0, &[tx], None, 1);
    assert_eq!(DataLink::new(&map, &img, odd).unwrap_err(), MdfError::BadBlockId);
    assert_eq!(Fragment::new(&map, &img, tx).unwrap_err(), MdfError::BadBlockId);
    // no list block
    assert_eq!(DataLink::new(&map, &img, at_a).unwrap_err(), MdfError::BadBlockId);
    // a list block without its first link
    let bare = pl_block(&mut img, "##DL", &[], &[1, 0, 0, 0, 0, 0, 0, 0, 0, 0, 0, 0, 0, 0, 0, 0]);
    assert_eq!(DataLink::new(&map, &img, bare).unwrap_err(), MdfError::LinkCountMismatch);
    // a chain that runs in a circle
    let ring = pl_dl(&mut img, 0, &[at_a], None, 30);
    img[ring as usize + 24..ring as usize + 32].copy_from_slice(&ring.to_le_bytes());
    assert_eq!(DataLink::new(&map, &img, ring).unwrap_err(), MdfError::DataCorrupt);
    assert_eq!(read_dl_block(&img, img.len() as u64).unwrap_err(), MdfError::IoError);
}

#[test]
fn payload_is_opened_by_the_tag_of_its_block() {
    let map = pl_schemas();
    let mut img = vec![0u8; 64];
    let a = pl_bytes(1, 30);
    let dt = pl_block(&mut img, "##DT", &[], &a);
    let sd = pl_block(&mut img, "##SD", &[], &a);
    let rd = pl_block(&mut img, "##RD", &[], &a);
    let dz = pl_dz(&mut img, &a, 0, 30);
    let dl = pl_dl(&mut img, 0, &[dt, dz], None, 30);
    let hl = pl_block(&mut img, "##HL", &[dl], &[0, 0, 0, 0, 0, 0, 0, 0]);
    let hl_other = pl_block(&mut img, "##HL", &[dl], &[0, 0, 2, 0, 0, 0, 0, 0]);
    let tx = pl_block(&mut img, "##TX", &[], b"x");
    assert!(matches!(read_data_block(&map, &img, 0).unwrap(), DataBlock::Raw(_)));
    assert_eq!(read_data_block(&map, &img, 0).unwrap().get_data_len(), 0);
    assert!(matches!(read_data_block(&map, &img, dt).unwrap(), DataBlock::Raw(_)));
    assert!(matches!(read_data_block(&map, &img, sd).unwrap(), DataBlock::Raw(_)));
    assert!(matches!(read_data_block(&map, &img, rd).unwrap(), DataBlock::Raw(_)));
    assert!(matches!(read_data_block(&map, &img, dz).unwrap(), DataBlock::Zipped(_)));
    assert!(matches!(read_data_block(&map, &img, dl).unwrap(), DataBlock::Linked(_)));
    let through = read_data_block(&map, &img, hl).unwrap();
    assert!(matches!(through, DataBlock::Linked(_)));
    assert_eq!(through.get_data_len(), 60);
    let mut buf = [0u8; 4];
    through.read_virtual_buf(&img, 28, &mut buf).unwrap();
    assert_eq!(buf, [a[28], a[29], a[0], a[1]]);
    assert_eq!(read_data_block(&map, &img, hl_other).unwrap_err(), MdfError::UnsupportedCompression);
    assert_eq!(read_data_block(&map, &img, tx).unwrap_err(), MdfError::BadBlockId);
    let mut empty = [0u8; 0];
    read_data_block(&map, &img, 0).unwrap().read_virtual_buf(&img, 0, &mut empty).unwrap();
    assert_eq!(
        read_data_block(&map, &img, 0).unwrap().read_virtual_buf(&img, 0, &mut buf).unwrap_err(),
        MdfError::OutOfRange
    );
}

#[test]
fn inflated_bytes_must_have_the_declared_length() {
    let dz = DZBlock::with_payload(5, 3, Some(vec![1, 2, 3])).unwrap();
    assert_eq!(dz.get_len(), 5);
    assert_eq!(dz.get_data(), &[1u8, 2, 3][..]);
    assert_eq!(dz.get_data_len(), 3);
    assert_eq!(DZBlock::with_payload(5, 3, Some(vec![1, 2])).unwrap_err(), MdfError::DataCorrupt);
    assert_eq!(DZBlock::with_payload(5, 3, Some(vec![1, 2, 3, 4])).unwrap_err(), MdfError::DataCorrupt);
    assert_eq!(DZBlock::with_payload(5, 3, None).unwrap_err(), MdfError::DataCorrupt);
    assert_eq!(DZBlock::with_payload(0, 0, Some(vec![])).unwrap().get_data_len(), 0);
}
