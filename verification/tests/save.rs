use mge::inventory::Item;
use mge::save::{decode_pixels, encode_pixels, equip_or_empty, save_slot, MAX_RUN};

#[test]
fn runs_of_equal_pixels_share_a_record() {
    let raw = [1u8, 2, 1, 2, 3, 4];
    assert_eq!(encode_pixels(&raw), vec![1, 2, 2, 0, 3, 4, 1, 0]);
}

#[test]
fn empty_stream_encodes_to_nothing() {
    assert!(encode_pixels(&[]).is_empty());
    assert_eq!(decode_pixels(&[], 0), Ok(vec![]));
}

#[test]
fn long_run_splits_at_the_cap() {
    let n = MAX_RUN as usize + 4465;
    let raw: Vec<u8> = (0..n).flat_map(|_| [7u8, 9u8]).collect();
    let enc = encode_pixels(&raw);
    assert_eq!(enc, vec![7, 9, 0xff, 0xff, 7, 9, (4465 & 0xff) as u8, (4465 >> 8) as u8]);
    assert_eq!(decode_pixels(&enc, raw.len()), Ok(raw));
}

#[test]
fn decode_undoes_encode() {
    let mut raw = Vec::new();
    for i in 0..500u32 {
        let m = (i / 37) as u8;
        let s = (i % 3 == 0) as u8;
        raw.push(m);
        raw.push(s);
    }
    let enc = encode_pixels(&raw);
    assert_eq!(enc.len() % 4, 0);
    assert_eq!(decode_pixels(&enc, raw.len()), Ok(raw));
}

#[test]
fn decode_reports_wrong_size() {
    let enc = [5u8, 6, 3, 0];
    assert_eq!(decode_pixels(&enc, 8), Err(6));
    assert_eq!(decode_pixels(&enc, 6), Ok(vec![5, 6, 5, 6, 5, 6]));
}

#[test]
fn decode_ignores_a_partial_record() {
    let enc = [5u8, 6, 1, 0, 9, 9];
    assert_eq!(decode_pixels(&enc, 2), Ok(vec![5, 6]));
}

#[test]
fn slots_outside_one_to_three_mean_one() {
    assert_eq!(save_slot(0), 1);
    assert_eq!(save_slot(1), 1);
    assert_eq!(save_slot(2), 2);
    assert_eq!(save_slot(3), 3);
    assert_eq!(save_slot(4), 1);
    assert_eq!(save_slot(255), 1);
}

#[test]
fn equipment_of_wrong_length_is_emptied() {
    let sword = Item { def: "sword_iron".to_string(), count: 1, affixes: vec![] };
    let five = vec![Some(sword.clone()), None, None, None, None];
    let kept = equip_or_empty(five);
    assert_eq!(kept.len(), 5);
    assert_eq!(kept[0].as_ref().map(|i| i.def.clone()), Some("sword_iron".to_string()));
    let three = vec![Some(sword), None, None];
    let emptied = equip_or_empty(three);
    assert_eq!(emptied.len(), 5);
    assert!(emptied.iter().all(|c| c.is_none()));
}
