use mf4_parse::block::{BlockDesc, BlockField, DataType};
use mf4_parse::components::cc::{
    find_first_above, find_first_equal, find_first_range, table_int_lookup, table_lookup,
    value_range_lookup, CcType, Conversion, Interpolation, MixedStep, NumericStep, TextOrScale,
};
use mf4_parse::data_serde::{DataValue, StringOrReal};
use mf4_parse::error::MdfError;
use mf4_parse::parser::DescMap;

fn cv_desc(id: &str, links: &[&str], data: Vec<(&str, BlockField)>) -> BlockDesc {
    let link = links.iter().map(|n| (n.to_string(), Vec::new())).collect();
    let data = data.into_iter().map(|(n, f)| (n.to_string(), f)).collect();
    BlockDesc::new(id.to_string(), None, Some(link), Some(data))
}

fn cv_schemas() -> DescMap {
    let mut m = DescMap::new();
    m.insert(
        "TX".to_string(),
        cv_desc("##TX", &[], vec![("tx_data", BlockField::new(DataType::CHAR, None))]),
    );
    m.insert(
        "MD".to_string(),
        cv_desc("##MD", &[], vec![("md_data", BlockField::new(DataType::CHAR, None))]),
    );
    m.insert(
        "CC".to_string(),
        cv_desc(
            "##CC",
            &["cc_tx_name", "cc_md_unit", "cc_md_comment", "cc_cc_inverse"],
            vec![
                ("cc_type", BlockField::new(DataType::UINT8, Some(1))),
                ("cc_precision", BlockField::new(DataType::UINT8, Some(1))),
                ("cc_flags", BlockField::new(DataType::UINT16, Some(1))),
                ("cc_ref_count", BlockField::new(DataType::UINT16, Some(1))),
                ("cc_val_count", BlockField::new(DataType::UINT16, Some(1))),
                ("cc_phy_range_min", BlockField::new(DataType::REAL, Some(1))),
                ("cc_phy_range_max", BlockField::new(DataType::REAL, Some(1))),
                ("cc_val", BlockField::new(DataType::UINT64, None)),
            ],
        ),
    );
    m
}

fn cv_block(img: &mut Vec<u8>, id: &str, links: &[u64], data: &[u8]) -> u64 {
    while img.len() % 8 != 0 {
        img.push(0);
    }
    let at = img.len() as u64;
    img.extend_from_slice(id.as_bytes());
    img.extend_from_slice(&[0u8; 4]);
    img.extend_from_slice(&((24 + 8 * links.len() + data.len()) as u64).to_le_bytes());
    img.extend_from_slice(&(links.len() as u64).to_le_bytes());
    for l in links {
        img.extend_from_slice(&l.to_le_bytes());
    }
    img.extend_from_slice(data);
    at
}

fn cv_tx(img: &mut Vec<u8>, text: &str) -> u64 {
    let mut data = text.as_bytes().to_vec();
    data.push(0);
    cv_block(img, "##TX", &[], &data)
}

fn cv_cc(img: &mut Vec<u8>, kind: u8, unit: u64, inverse: u64, refs: &[u64], vals: &[f64]) -> u64 {
    cv_cc_counted(img, kind, unit, inverse, refs, vals, refs.len() as u16, vals.len() as u16)
}

fn cv_cc_counted(
    img: &mut Vec<u8>,
    kind: u8,
    unit: u64,
    inverse: u64,
    refs: &[u64],
    vals: &[f64],
    ref_count: u16,
    val_count: u16,
) -> u64 {
    let mut links = vec![0, unit, 0, inverse];
    links.extend_from_slice(refs);
    let mut data = vec![kind, 0, 0, 0];
    data.extend_from_slice(&ref_count.to_le_bytes());
    data.extend_from_slice(&val_count.to_le_bytes());
    data.extend_from_slice(&[0u8; 16]);
    for v in vals {
        data.extend_from_slice(&v.to_bits().to_le_bytes());
    }
    cv_block(img, "##CC", &links, &data)
}

fn cv_bits(v: &[f64]) -> Vec<u64> {
    v.iter().map(|x| x.to_bits()).collect()
}

fn cv_eval(step: NumericStep, x: f64) -> f64 {
    match step {
        NumericStep::Value(v) => f64::from_bits(v),
        NumericStep::Linear(a, b) => f64::from_bits(a) + f64::from_bits(b) * x,
        NumericStep::Rational(v) => {
            let c: Vec<f64> = v.iter().map(|b| f64::from_bits(*b)).collect();
            (c[0] * x * x + c[1] * x + c[2]) / (c[3] * x * x + c[4] * x + c[5])
        }
        NumericStep::Interpolate(x0, y0, x1, y1) => {
            let (x0, y0, x1, y1) =
                (f64::from_bits(x0), f64::from_bits(y0), f64::from_bits(x1), f64::from_bits(y1));
            y0 + (y1 - y0) / (x1 - x0) * (x - x0)
        }
        NumericStep::Algebraic(_) => panic!("no formula in these tests"),
    }
}

fn cv_text(cc: &Conversion, x: f64) -> String {
    match cc.convert_to_mix(x.to_bits()).unwrap() {
        MixedStep::Text(t) => t,
        MixedStep::Number(_) => panic!("a number where a text was expected"),
    }
}

#[test]
fn scans_find_the_first_place() {
    let xs = cv_bits(&[1.0, 2.0, 2.0, 5.0]);
    assert_eq!(find_first_above(&xs, 0.5f64.to_bits()), 0);
    assert_eq!(find_first_above(&xs, 1.0f64.to_bits()), 1);
    assert_eq!(find_first_above(&xs, 2.0f64.to_bits()), 3);
    assert_eq!(find_first_above(&xs, 5.0f64.to_bits()), 4);
    assert_eq!(find_first_above(&xs, f64::NAN.to_bits()), 4);
    assert_eq!(find_first_above(&vec![], 1.0f64.to_bits()), 0);
    assert_eq!(find_first_equal(&xs, 2.0f64.to_bits()), 1);
    assert_eq!(find_first_equal(&xs, 3.0f64.to_bits()), 4);
    assert_eq!(find_first_equal(&cv_bits(&[0.0]), (-0.0f64).to_bits()), 0);
    assert_eq!(find_first_equal(&cv_bits(&[f64::NAN]), f64::NAN.to_bits()), 1);
    let pairs = cv_bits(&[0.0, 1.0, 2.0, 3.0]);
    assert_eq!(find_first_range(&pairs, 2, 2, 1.0f64.to_bits()), 0);
    assert_eq!(find_first_range(&pairs, 2, 2, 1.5f64.to_bits()), 2);
    assert_eq!(find_first_range(&pairs, 2, 2, 2.0f64.to_bits()), 1);
}

#[test]
fn table_without_interpolation_is_constant_from_each_breakpoint_on() {
    let xs = cv_bits(&[1.0, 2.0, 4.0]);
    let ys = cv_bits(&[10.0, 20.0, 40.0]);
    let at = |x: f64| f64::from_bits(table_lookup(&xs, &ys, x.to_bits()).unwrap());
    assert_eq!(at(0.0), 10.0);
    assert_eq!(at(1.0), 10.0);
    assert_eq!(at(1.5), 10.0);
    assert_eq!(at(2.0), 20.0);
    assert_eq!(at(3.999), 20.0);
    assert_eq!(at(4.0), 40.0);
    assert_eq!(at(100.0), 40.0);
    assert_eq!(at(f64::NEG_INFINITY), 10.0);
    assert_eq!(table_lookup(&vec![], &vec![], 1.0f64.to_bits()).unwrap_err(), MdfError::UnsupportedConversion);
    assert_eq!(table_lookup(&xs, &cv_bits(&[1.0]), 1.0f64.to_bits()).unwrap_err(), MdfError::UnsupportedConversion);
}

#[test]
fn table_with_interpolation_clamps_and_hands_out_the_rows_between() {
    let xs = cv_bits(&[1.0, 2.0, 4.0]);
    let ys = cv_bits(&[10.0, 20.0, 40.0]);
    assert_eq!(
        table_int_lookup(&xs, &ys, 0.5f64.to_bits()).unwrap(),
        Interpolation::Value(10.0f64.to_bits())
    );
    assert_eq!(
        table_int_lookup(&xs, &ys, 4.5f64.to_bits()).unwrap(),
        Interpolation::Value(40.0f64.to_bits())
    );
    assert_eq!(table_int_lookup(&xs, &ys, 1.5f64.to_bits()).unwrap(), Interpolation::Between(1));
    assert_eq!(table_int_lookup(&xs, &ys, 3.0f64.to_bits()).unwrap(), Interpolation::Between(2));
    assert_eq!(table_int_lookup(&xs, &ys, 1.0f64.to_bits()).unwrap(), Interpolation::Between(1));
    assert_eq!(
        table_int_lookup(&vec![], &vec![], 0f64.to_bits()).unwrap_err(),
        MdfError::UnsupportedConversion
    );
    let mut img = vec![0u8; 64];
    let at = cv_cc(&mut img, 4, 0, 0, &[], &[1.0, 10.0, 2.0, 20.0, 4.0, 40.0]);
    let cc = Conversion::new(&cv_schemas(), &img, at).unwrap();
    assert!(cc.get_cc_type().is_num());
    let at_x = |x: f64| cv_eval(cc.convert_num_value(x.to_bits()).unwrap(), x);
    assert_eq!(at_x(0.0), 10.0);
    assert_eq!(at_x(1.5), 15.0);
    assert_eq!(at_x(3.0), 30.0);
    assert_eq!(at_x(9.0), 40.0);
}

#[test]
fn value_range_gives_the_default_outside_and_between_ranges() {
    let flat = cv_bits(&[0.0, 1.0, 100.0, 5.0, 6.0, 200.0, -1.0]);
    let at = |x: f64| f64::from_bits(value_range_lookup(&flat, x.to_bits()).unwrap());
    assert_eq!(at(0.0), 100.0);
    assert_eq!(at(0.5), 100.0);
    assert_eq!(at(1.0), 100.0);
    assert_eq!(at(5.5), 200.0);
    assert_eq!(at(3.0), -1.0);
    assert_eq!(at(-0.1), -1.0);
    assert_eq!(at(6.1), -1.0);
    assert_eq!(at(f64::NAN), -1.0);
    assert_eq!(f64::from_bits(value_range_lookup(&cv_bits(&[7.0]), 1f64.to_bits()).unwrap()), 7.0);
    assert_eq!(value_range_lookup(&vec![], 1f64.to_bits()).unwrap_err(), MdfError::UnsupportedConversion);
}

#[test]
fn linear_rule_doubles() {
    let mut img = vec![0u8; 64];
    let at = cv_cc(&mut img, 1, 0, 0, &[], &[0.0, 2.0]);
    let cc = Conversion::new(&cv_schemas(), &img, at).unwrap();
    assert_eq!(cc.get_unit(), "");
    assert_eq!(cc.get_comment(), "");
    assert_eq!(cc.get_cc_name(), "");
    assert!(!cc.is_inverse());
    assert_eq!(cv_eval(cc.convert_num_value(1000f64.to_bits()).unwrap(), 1000.0), 2000.0);
    let ident = cv_cc(&mut img, 1, 0, 0, &[], &[0.0, 1.0]);
    let cc = Conversion::new(&cv_schemas(), &img, ident).unwrap();
    assert_eq!(cv_eval(cc.convert_num_value(1000f64.to_bits()).unwrap(), 1000.0), 1000.0);
    let inv = cv_cc(&mut img, 1, 0, at, &[], &[1.0, 2.0]);
    assert!(Conversion::new(&cv_schemas(), &img, inv).unwrap().is_inverse());
}

#[test]
fn nil_link_gives_the_identity_rule() {
    let img = vec![0u8; 64];
    let cc = Conversion::new(&cv_schemas(), &img, 0).unwrap();
    assert!(matches!(cc.get_cc_type(), CcType::OneToOne));
    assert!(cc.get_cc_type().is_num());
    assert!(matches!(cc.convert_num_value(7f64.to_bits()).unwrap(), NumericStep::Value(v) if v == 7f64.to_bits()));
    let d = Conversion::default();
    assert_eq!(d.get_unit(), "");
    assert!(!d.is_inverse());
    let same = d.clone();
    assert!(matches!(same.get_cc_type(), CcType::OneToOne));
}

#[test]
fn rational_and_algebraic_rules_hand_out_their_formula() {
    let mut img = vec![0u8; 64];
    let rat = cv_cc(&mut img, 2, 0, 0, &[], &[0.0, 2.0, 1.0, 0.0, 0.0, 4.0]);
    let cc = Conversion::new(&cv_schemas(), &img, rat).unwrap();
    assert_eq!(cv_eval(cc.convert_num_value(3f64.to_bits()).unwrap(), 3.0), 1.75);
    let formula = cv_tx(&mut img, "X*2+1");
    let alg = cv_cc(&mut img, 3, 0, 0, &[formula], &[]);
    let cc = Conversion::new(&cv_schemas(), &img, alg).unwrap();
    assert!(cc.get_cc_type().is_num());
    match cc.convert_num_value(3f64.to_bits()).unwrap() {
        NumericStep::Algebraic(t) => assert_eq!(t, "X*2+1"),
        _ => panic!("not a formula"),
    }
    // the formula cannot be read
    let lost = cv_cc(&mut img, 3, 0, 0, &[2], &[]);
    assert!(Conversion::new(&cv_schemas(), &img, lost).is_err());
}

#[test]
fn range_to_text_rule_names_the_ranges() {
    let mut img = vec![0u8; 64];
    let unit = cv_tx(&mut img, "hundredfive");
    let r0 = cv_tx(&mut img, "Zero_to_one");
    let r1 = cv_tx(&mut img, "two_to_three");
    let r2 = cv_tx(&mut img, "fourteen_to_seventeen");
    let r3 = cv_tx(&mut img, "hundredfive");
    let at = cv_cc(
        &mut img,
        8,
        unit,
        0,
        &[r0, r1, r2, r3, 0],
        &[0.0, 1.0, 2.0, 3.0, 14.0, 17.0, 105.0, 105.0],
    );
    let cc = Conversion::new(&cv_schemas(), &img, at).unwrap();
    assert_eq!(cc.get_unit(), "hundredfive");
    assert_eq!(cc.get_comment(), "");
    assert!(!cc.is_inverse());
    assert!(!cc.get_cc_type().is_num());
    assert_eq!(cv_text(&cc, 0.5), "Zero_to_one");
    assert_eq!(cv_text(&cc, 1.0), "Zero_to_one");
    assert_eq!(cv_text(&cc, 2.5), "two_to_three");
    assert_eq!(cv_text(&cc, 105.0), "hundredfive");
    assert_eq!(cv_text(&cc, 105.1), "");
    assert_eq!(cv_text(&cc, 15.1), "fourteen_to_seventeen");
    assert_eq!(cv_text(&cc, 1.5), "");
    assert_eq!(cc.convert_num_value(1f64.to_bits()).unwrap_err(), MdfError::UnsupportedConversion);
}

#[test]
fn value_to_text_rule_names_the_values() {
    let mut img = vec![0u8; 64];
    let unit = cv_tx(&mut img, "unknown signal type");
    let t1 = cv_tx(&mut img, "SawTooth");
    let t2 = cv_tx(&mut img, "Square");
    let t3 = cv_tx(&mut img, "Sinus");
    let def = cv_tx(&mut img, "unknown signal type");
    let at = cv_cc(&mut img, 7, unit, 0, &[t1, t2, t3, def], &[1.0, 2.0, 3.0]);
    let cc = Conversion::new(&cv_schemas(), &img, at).unwrap();
    assert_eq!(cc.get_unit(), "unknown signal type");
    assert_eq!(cc.get_comment(), "");
    assert!(!cc.is_inverse());
    assert_eq!(cv_text(&cc, 15.1), "unknown signal type");
    assert_eq!(cv_text(&cc, 3.0), "Sinus");
    assert_eq!(cv_text(&cc, 2.0), "Square");
    assert_eq!(cv_text(&cc, 1.0), "SawTooth");
    match cc.get_cc_type() {
        CcType::Value2Text((keys, refs)) => {
            assert_eq!(keys, &cv_bits(&[1.0, 2.0, 3.0]));
            assert_eq!(refs.len(), 4);
            assert!(matches!(&refs[0], TextOrScale::Text(t) if t == "SawTooth"));
        }
        _ => panic!("not a value-to-text rule"),
    }
    let again = cc.clone();
    assert_eq!(cv_text(&again, 2.0), "Square");
}

#[test]
fn default_that_is_a_numeric_rule_gives_a_number() {
    let mut img = vec![0u8; 64];
    let t1 = cv_tx(&mut img, "one");
    let scale = cv_cc(&mut img, 1, 0, 0, &[], &[1.0, 10.0]);
    let at = cv_cc(&mut img, 7, 0, 0, &[t1, scale], &[1.0]);
    let cc = Conversion::new(&cv_schemas(), &img, at).unwrap();
    assert_eq!(cv_text(&cc, 1.0), "one");
    match cc.convert_to_mix(5f64.to_bits()).unwrap() {
        MixedStep::Number(step) => assert_eq!(cv_eval(step, 5.0), 51.0),
        MixedStep::Text(_) => panic!("a text where a number was expected"),
    }
    // a nested text rule is followed
    let inner = cv_cc(&mut img, 7, 0, 0, &[t1], &[]);
    let outer = cv_cc(&mut img, 7, 0, 0, &[t1, inner], &[2.0]);
    let cc = Conversion::new(&cv_schemas(), &img, outer).unwrap();
    assert_eq!(cv_text(&cc, 9.0), "one");
    // a reference to a block that is neither text nor rule: the rule is replaced
    let md = cv_block(&mut img, "##MD", &[], b"x\0");
    let odd = cv_cc(&mut img, 7, 0, 0, &[t1, md], &[1.0]);
    let cc = Conversion::new(&cv_schemas(), &img, odd).unwrap();
    assert!(matches!(cc.get_cc_type(), CcType::OneToOne));
    assert_eq!(cc.convert_to_mix(1f64.to_bits()).unwrap_err(), MdfError::UnsupportedConversion);
}

#[test]
fn rule_that_refers_to_itself_ends() {
    let mut img = vec![0u8; 64];
    let t1 = cv_tx(&mut img, "one");
    let at = cv_cc(&mut img, 7, 0, 0, &[t1, 0], &[1.0]);
    // let the default reference point to the rule itself
    let place = at as usize + 24 + 8 * 5;
    img[place..place + 8].copy_from_slice(&at.to_le_bytes());
    let cc = Conversion::new(&cv_schemas(), &img, at).unwrap();
    assert_eq!(cv_text(&cc, 1.0), "one");
    // at the bottom the default rule stands, which is numeric
    assert!(matches!(cc.convert_to_mix(2f64.to_bits()).unwrap(), MixedStep::Number(_)));
}

#[test]
fn counts_that_do_not_fit_the_kind_give_no_rule() {
    let mut img = vec![0u8; 64];
    let lin = cv_cc(&mut img, 1, 0, 0, &[], &[1.0, 2.0, 3.0]);
    let cc = Conversion::new(&cv_schemas(), &img, lin).unwrap();
    assert!(matches!(cc.get_cc_type(), CcType::NotImplemented));
    assert!(!cc.get_cc_type().is_num());
    assert_eq!(cc.convert_num_value(1f64.to_bits()).unwrap_err(), MdfError::UnsupportedConversion);
    let odd = cv_cc(&mut img, 5, 0, 0, &[], &[1.0, 2.0, 3.0]);
    assert!(matches!(Conversion::new(&cv_schemas(), &img, odd).unwrap().get_cc_type(), CcType::NotImplemented));
    let wrong = cv_cc_counted(&mut img, 6, 0, 0, &[], &[1.0, 2.0, 3.0, 4.0], 0, 3);
    assert!(matches!(Conversion::new(&cv_schemas(), &img, wrong).unwrap().get_cc_type(), CcType::NotImplemented));
    let unknown = cv_cc(&mut img, 99, 0, 0, &[], &[]);
    assert!(matches!(Conversion::new(&cv_schemas(), &img, unknown).unwrap().get_cc_type(), CcType::NotImplemented));
    let bits = cv_cc(&mut img, 11, 0, 0, &[1], &[1.0]);
    assert!(matches!(Conversion::new(&cv_schemas(), &img, bits).unwrap().get_cc_type(), CcType::BitfieldText(_)));
    let range = cv_cc(&mut img, 6, 0, 0, &[], &[0.0, 1.0, 5.0, 9.0]);
    let cc = Conversion::new(&cv_schemas(), &img, range).unwrap();
    assert_eq!(cv_eval(cc.convert_num_value(0.5f64.to_bits()).unwrap(), 0.5), 5.0);
    assert_eq!(cv_eval(cc.convert_num_value(2f64.to_bits()).unwrap(), 2.0), 9.0);
    let table = cv_cc(&mut img, 5, 0, 0, &[], &[1.0, 10.0, 2.0, 20.0]);
    let cc = Conversion::new(&cv_schemas(), &img, table).unwrap();
    assert_eq!(cv_eval(cc.convert_num_value(2f64.to_bits()).unwrap(), 2.0), 20.0);
    assert_eq!(Conversion::new(&DescMap::new(), &img, table).unwrap_err(), MdfError::SchemaMissing);
}

#[test]
fn text_rules_look_texts_up() {
    let map = cv_schemas();
    let mut img = vec![0u8; 64];
    let a = cv_tx(&mut img, "a");
    let b = cv_tx(&mut img, "b");
    let big = cv_tx(&mut img, "A");
    let other = cv_tx(&mut img, "?");
    let t2v = cv_cc(&mut img, 9, 0, 0, &[a, b], &[1.0, 2.0, -1.0]);
    let cc = Conversion::new(&map, &img, t2v).unwrap();
    let inp = vec!["b".to_string(), "x".to_string(), "a".to_string()];
    assert_eq!(
        cc.convert_from_text(&map, &img, &inp).unwrap(),
        DataValue::REAL(cv_bits(&[2.0, -1.0, 1.0]))
    );
    let t2t = cv_cc(&mut img, 10, 0, 0, &[a, big, b, big, other], &[]);
    let cc = Conversion::new(&map, &img, t2t).unwrap();
    assert_eq!(
        cc.convert_from_text(&map, &img, &inp).unwrap(),
        DataValue::STRINGS(vec!["A".to_string(), "?".to_string(), "A".to_string()])
    );
    let even = cv_cc(&mut img, 10, 0, 0, &[a, big], &[]);
    let cc = Conversion::new(&map, &img, even).unwrap();
    assert_eq!(cc.convert_from_text(&map, &img, &inp).unwrap_err(), MdfError::UnsupportedConversion);
    let lost = cv_cc(&mut img, 9, 0, 0, &[a, 2], &[1.0, 2.0, -1.0]);
    let cc = Conversion::new(&map, &img, lost).unwrap();
    assert!(cc.convert_from_text(&map, &img, &inp).is_err());
    let ident = Conversion::default();
    assert_eq!(ident.convert_from_text(&map, &img, &inp).unwrap(), DataValue::STRINGS(inp.clone()));
    let lin = cv_cc(&mut img, 1, 0, 0, &[], &[0.0, 2.0]);
    let cc = Conversion::new(&map, &img, lin).unwrap();
    assert_eq!(cc.convert_from_text(&map, &img, &inp).unwrap_err(), MdfError::UnsupportedConversion);
}

#[test]
fn mixed_value_is_text_or_number() {
    assert_eq!(StringOrReal::String("a".to_string()).into_string().unwrap(), "a");
    assert!(StringOrReal::Real(1).into_string().is_err());
    let v = DataValue::MIXED(vec![StringOrReal::Real(3), StringOrReal::String("x".to_string())]);
    assert_eq!(v.clone(), v);
    assert!(v.is_num());
    assert!(!v.is_strings());
    assert!(DataValue::STRINGS(vec![]).is_strings());
    assert!(!DataValue::CHAR(String::new()).is_num());
    assert!(!DataValue::BYTEARRAY(vec![]).is_num());
    assert!(DataValue::REAL(vec![]).is_num());
    let s = DataValue::STRUCT(vec![("a".to_string(), DataValue::UINT8(vec![1]))]);
    assert!(!s.is_num());
    assert_eq!(s.clone(), s);
    let nested = DataValue::STRUCT(vec![
        ("first".to_string(), DataValue::REAL(vec![1, 2])),
        ("inner".to_string(), s.clone()),
        ("texts".to_string(), DataValue::STRINGS(vec!["x".to_string()])),
    ]);
    match nested.clone() {
        DataValue::STRUCT(members) => {
            assert_eq!(members.len(), 3);
            assert_eq!(members[0], ("first".to_string(), DataValue::REAL(vec![1, 2])));
            assert_eq!(members[1], ("inner".to_string(), s.clone()));
            assert_eq!(members[2].0, "texts");
        }
        _ => panic!("a structure was expected"),
    }
    let bytes: Vec<u8> = DataValue::CHAR("hi".to_string()).try_into().unwrap();
    assert_eq!(bytes, b"hi".to_vec());
    let bytes: Vec<u8> = DataValue::BYTE(vec![1, 2]).try_into().unwrap();
    assert_eq!(bytes, vec![1, 2]);
    assert!(Vec::<u8>::try_from(DataValue::UINT16(vec![1])).is_err());
    let text: String = DataValue::CHAR("hi".to_string()).try_into().unwrap();
    assert_eq!(text, "hi");
    assert!(String::try_from(DataValue::BYTE(vec![])).is_err());
    let n: Vec<u64> = DataValue::UINT64(vec![5]).try_into().unwrap();
    assert_eq!(n, vec![5]);
    assert!(Vec::<u64>::try_from(DataValue::REAL(vec![5])).is_err());
    assert_eq!(Vec::<i16>::try_from(DataValue::INT16(vec![-5])).unwrap(), vec![-5]);
    assert_eq!(Vec::<u16>::try_from(DataValue::UINT16(vec![5])).unwrap(), vec![5]);
    assert_eq!(Vec::<i32>::try_from(DataValue::INT32(vec![-5])).unwrap(), vec![-5]);
    assert_eq!(Vec::<u32>::try_from(DataValue::UINT32(vec![5])).unwrap(), vec![5]);
    assert_eq!(Vec::<i64>::try_from(DataValue::INT64(vec![-5])).unwrap(), vec![-5]);
    assert_eq!(Vec::<String>::try_from(DataValue::STRINGS(vec!["a".to_string()])).unwrap(), vec!["a"]);
    assert_eq!(DataValue::UINT8(vec![1, 2]).as_bytes(), Some(&[1u8, 2][..]));
    assert_eq!(DataValue::UINT16(vec![1, 2]).as_bytes(), None);
}
