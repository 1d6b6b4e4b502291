use record_index::codec::{decode_key, encode_key, read_record_key, read_record_value};
use record_index::register::{Arquivo, Registro};

fn is_alnum(b: u8) -> bool {
    (48..=57).contains(&b) || (65..=90).contains(&b) || (97..=122).contains(&b)
}

#[test]
fn key_codec_round_trip() {
    let bytes = encode_key(0xDEADBEEF);
    assert_eq!(bytes, vec![0xDE, 0xAD, 0xBE, 0xEF]);
    assert_eq!(decode_key(bytes[0], bytes[1], bytes[2], bytes[3]), 0xDEADBEEF);
    let zero = encode_key(0);
    assert_eq!(zero, vec![0, 0, 0, 0]);
    assert_eq!(decode_key(0xFF, 0xFF, 0xFF, 0xFF), 0xFFFF_FFFF);
}

#[test]
fn generated_register_is_alphanumeric() {
    let reg = Registro::new(7);
    assert_eq!(reg.get_nseq(), 7);
    let nome = reg.get_nome();
    assert_eq!(nome.len(), 96);
    assert!(nome.iter().all(|&b| is_alnum(b)));
}

#[test]
fn register_update_replaces_contents() {
    let mut reg = Registro::new(1);
    reg.update(9);
    assert_eq!(reg.get_nseq(), 9);
    let nome = reg.get_nome();
    assert_eq!(nome.len(), 96);
    assert!(nome.iter().all(|&b| is_alnum(b)));
}

#[test]
fn write_in_file_lays_out_sequential_records() {
    let arquivo = Arquivo::new(5, 2, String::from("store_a"));
    let data = arquivo.write_in_file();
    assert_eq!(data.len(), 500);
    for i in 0..5usize {
        assert_eq!(read_record_key(&data, i), i as u32);
        let value = read_record_value(&data, i);
        assert_eq!(value.len(), 96);
        assert!(value.iter().all(|&b| is_alnum(b)));
    }
}

#[test]
fn sequential_read_finds_each_written_record() {
    let arquivo = Arquivo::new(4, 10, String::from("store_b"));
    let data = arquivo.write_in_file();
    for i in 0..4u32 {
        let reg = arquivo.sequential_read(&data, i).expect("record should be found");
        assert_eq!(reg.get_nseq(), i);
        assert_eq!(reg.get_nome(), read_record_value(&data, i as usize));
    }
}

#[test]
fn sequential_read_misses_absent_and_out_of_range_keys() {
    let arquivo = Arquivo::new(3, 10, String::from("store_c"));
    let data = arquivo.write_in_file();
    // beyond the record count: rejected before scanning
    assert!(arquivo.sequential_read(&data, 4).is_none());
    // within range but deleted below
    let mut data = data;
    assert!(arquivo.delete_register(&mut data, 1));
    assert!(arquivo.sequential_read(&data, 1).is_none());
}

#[test]
fn insert_at_end_appends_one_record() {
    let mut arquivo = Arquivo::new(2, 10, String::from("store_d"));
    let mut data = arquivo.write_in_file();
    arquivo.insert_at_end(&mut data);
    assert_eq!(data.len(), 300);
    assert_eq!(read_record_key(&data, 2), 2);
    let reg = arquivo.sequential_read(&data, 2).expect("appended record should be found");
    assert_eq!(reg.get_nseq(), 2);
}

#[test]
fn update_random_rewrites_one_slot() {
    let arquivo = Arquivo::new(3, 10, String::from("store_e"));
    let mut data = arquivo.write_in_file();
    let before_0 = read_record_value(&data, 0);
    arquivo.update_random(&mut data, 1);
    assert_eq!(data.len(), 300);
    assert_eq!(read_record_key(&data, 1), 1);
    assert_eq!(read_record_value(&data, 0), before_0);
    assert_eq!(read_record_key(&data, 2), 2);
}

// Deleting the record at position 1 shifts all following records left
// by one slot and shrinks the image by exactly 100 bytes.
#[test]
fn delete_compacts_and_shrinks_by_one_record() {
    let arquivo = Arquivo::new(5, 2, String::from("store_f"));
    let mut data = arquivo.write_in_file();
    let values: Vec<Vec<u8>> = (0..5).map(|i| read_record_value(&data, i)).collect();
    let found = arquivo.delete_register(&mut data, 1);
    assert!(found);
    assert_eq!(data.len(), 400);
    // records 2, 3, 4 moved left by one slot, record 0 stayed
    assert_eq!(read_record_key(&data, 0), 0);
    assert_eq!(read_record_value(&data, 0), values[0]);
    assert_eq!(read_record_key(&data, 1), 2);
    assert_eq!(read_record_value(&data, 1), values[2]);
    assert_eq!(read_record_key(&data, 2), 3);
    assert_eq!(read_record_value(&data, 2), values[3]);
    assert_eq!(read_record_key(&data, 3), 4);
    assert_eq!(read_record_value(&data, 3), values[4]);
}

#[test]
fn delete_of_absent_key_changes_nothing_but_reports_false() {
    let arquivo = Arquivo::new(3, 10, String::from("store_g"));
    let mut data = arquivo.write_in_file();
    let before = data.clone();
    let found = arquivo.delete_register(&mut data, 77);
    assert!(!found);
    assert_eq!(data, before);
}
