use rmmodify::lcf_doc::{dump, parse};
use rmmodify::save::InvKind;
use rmmodify::save_lsd::SaveLsd;

fn field(id: u8, payload: &[u8]) -> Vec<u8> {
    let mut v = vec![id, payload.len() as u8];
    v.extend_from_slice(payload);
    v
}

fn chunk(id: u8, body: Vec<u8>) -> Vec<u8> {
    let mut v = vec![id, body.len() as u8];
    v.extend(body);
    v
}

fn lsd_bytes() -> Vec<u8> {
    let mut b = vec![11];
    b.extend_from_slice(b"LcfSaveData");
    let mut sys = Vec::new();
    sys.extend(field(0x1F, &[3]));
    sys.extend(field(0x20, &[0, 1, 0]));
    sys.extend(field(0x21, &[2]));
    sys.extend(field(0x22, &[0, 0, 0, 0, 7, 0, 0, 0]));
    sys.push(0);
    b.extend(chunk(0x65, sys));
    let mut actors = vec![1, 1];
    actors.extend(field(0x01, b"Al"));
    actors.extend(field(0x1F, &[5]));
    actors.extend(field(0x20, &[100]));
    actors.extend(field(0x21, &[0]));
    actors.extend(field(0x33, &[1]));
    actors.extend(field(0x34, &[3, 0]));
    actors.extend(field(0x3D, &[1, 0, 2, 0, 0, 0, 0, 0, 0, 0]));
    actors.extend(field(0x51, &[0]));
    actors.extend(field(0x52, &[]));
    actors.push(0);
    b.extend(chunk(0x6C, actors));
    let mut inv = Vec::new();
    inv.extend(field(0x02, &[1, 0]));
    inv.extend(field(0x0B, &[1]));
    inv.extend(field(0x0C, &[5, 0]));
    inv.extend(field(0x0D, &[2]));
    inv.extend(field(0x15, &[0x87, 0x68]));
    inv.push(0);
    b.extend(chunk(0x6D, inv));
    b
}

fn open() -> SaveLsd {
    SaveLsd::from_parsed(parse(&lsd_bytes()).unwrap()).unwrap()
}

#[test]
fn lsd_reads_system_inventory_and_actors() {
    let s = open();
    assert!(s.note.is_none());
    assert_eq!(s.dump_bytes(), lsd_bytes());
    assert_eq!(s.switch_array_len(), 3);
    assert_eq!(s.switch_ids(), vec![1]);
    assert_eq!(s.switch(1), Some(true));
    assert_eq!(s.switch(2), Some(false));
    assert_eq!(s.switch(50), Some(false));
    assert_eq!(s.variable_array_len(), 2);
    assert_eq!(s.variable_ids(), vec![1]);
    assert_eq!(s.variable(1), Some(7));
    assert_eq!(s.variable(9), Some(0));
    assert_eq!(s.gold(), Some(1000));
    assert_eq!(s.inventory(InvKind::Item), vec![(5, 2)]);
    assert_eq!(s.inventory(InvKind::Weapon), vec![]);
    assert_eq!(s.party_member_ids(), vec![1]);
    assert_eq!(s.actor_ids(), vec![1]);
    assert_eq!(s.actor(1), Some(1));
    assert_eq!(s.actor(2), None);
    assert_eq!(s.actor_name(1), Some("Al".to_string()));
    assert_eq!(s.actor_stat(1, "level"), Some(5));
    assert_eq!(s.actor_stat(1, "luck"), None);
    assert_eq!(s.actor_exp(1), Some(100));
    assert_eq!(s.actor_param_plus(1, 0), Some(0));
    assert_eq!(s.actor_param_plus(1, 5), None);
    assert_eq!(s.actor_equips(1), vec![1, 2, 0, 0, 0]);
    assert_eq!(s.actor_skills(1), vec![3]);
    assert_eq!(s.actor_states(1), vec![]);
}

#[test]
fn lsd_switches_and_variables_grow_with_their_counts() {
    let mut s = open();
    assert!(s.set_switch(1, false));
    assert_eq!(s.switch_ids(), Vec::<u32>::new());
    assert!(s.set_switch(5, true));
    assert_eq!(s.switch_array_len(), 6);
    assert_eq!(s.switch(5), Some(true));
    assert_eq!(s.switch(4), Some(false));
    // the count field follows, and the file reads back the same
    let again = SaveLsd::from_parsed(parse(&s.dump_bytes()).unwrap()).unwrap();
    assert_eq!(again.doc.int_field(0x65, 0x1F), Some(6));
    assert_eq!(again.switch_ids(), vec![5]);
    // variables are cut to 32 bits
    assert!(s.set_variable(4, (1i64 << 33) + 9));
    assert_eq!(s.variable(4), Some(9));
    assert_eq!(s.variable(1), Some(7));
    assert_eq!(s.variable_array_len(), 5);
    assert_eq!(s.doc.int_field(0x65, 0x21), Some(5));
    assert!(s.set_gold(123456));
    assert_eq!(s.gold(), Some(123456));
}

#[test]
fn lsd_inventory_edits() {
    let mut s = open();
    // a new item is appended with its count kept within 255
    assert!(s.set_inventory_qty(InvKind::Item, 7, 300));
    assert_eq!(s.inventory(InvKind::Item), vec![(5, 2), (7, 255)]);
    assert_eq!(s.doc.int_field(0x6D, 0x0B), Some(2));
    // a count of 0 removes the entry
    assert!(s.set_inventory_qty(InvKind::Item, 5, 0));
    assert_eq!(s.inventory(InvKind::Item), vec![(7, 255)]);
    assert!(s.add_inventory(InvKind::Item, 9, 4));
    assert!(s.add_inventory(InvKind::Item, 9, 3));
    assert_eq!(s.inventory(InvKind::Item), vec![(7, 255), (9, 7)]);
    assert!(s.add_inventory(InvKind::Armor, 9, 3));
    assert!(!s.set_inventory_qty(InvKind::Armor, 9, 3));
    let again = SaveLsd::from_parsed(parse(&dump(&s.doc)).unwrap()).unwrap();
    assert_eq!(again.inventory(InvKind::Item), vec![(7, 255), (9, 7)]);
}

#[test]
fn lsd_actor_edits() {
    let mut s = open();
    assert!(s.rename_actor(1, "Bob"));
    assert_eq!(s.actor_name(1), Some("Bob".to_string()));
    assert!(s.rename_actor(1, "\u{1}"));
    assert_eq!(s.actor_name(1), None);
    assert!(!s.rename_actor(2, "X"));
    assert!(s.set_actor_stat(1, "hp_mod", 12));
    assert_eq!(s.actor_param_plus(1, 0), Some(12));
    assert!(!s.set_actor_stat(1, "attack", 12));
    assert_eq!(s.actor_param_plus(1, 2), None);
    assert!(!s.set_actor_stat(1, "luck", 1));
    assert!(s.set_actor_level_sync(1, 2, &[0, 0, 10, 30]));
    assert_eq!(s.actor_stat(1, "level"), Some(2));
    assert_eq!(s.actor_exp(1), Some(10));
    assert!(s.set_actor_level_sync(1, 9, &[0, 0, 10, 30]));
    assert_eq!(s.actor_exp(1), Some(30));
    assert_eq!(s.set_actor_exp_sync(1, 35, &[0, 0, 10, 30]), Some(3));
    assert_eq!(s.actor_stat(1, "level"), Some(3));
    assert_eq!(s.set_actor_exp_sync(1, 5, &[]), None);
    assert_eq!(s.actor_exp(1), Some(5));
    assert!(s.set_actor_param_plus(1, 0, 50));
    assert_eq!(s.actor_param_plus(1, 0), Some(50));
    assert!(s.actor_add_id(1, "skills", 4));
    assert_eq!(s.actor_skills(1), vec![3, 4]);
    assert!(s.actor_add_id(1, "skills", 4));
    assert_eq!(s.actor_skills(1), vec![3, 4]);
    assert!(s.actor_remove_id(1, "skills", 3));
    assert_eq!(s.actor_skills(1), vec![4]);
    assert!(!s.actor_add_id(1, "items", 4));
    assert!(s.set_actor_equip(1, 0, 9));
    assert_eq!(s.actor_equips(1), vec![9, 2, 0, 0, 0]);
    assert!(!s.set_actor_equip(1, 7, 9));
    let again = SaveLsd::from_parsed(parse(&s.dump_bytes()).unwrap()).unwrap();
    assert_eq!(again.actor_skills(1), vec![4]);
    assert_eq!(again.actor_exp(1), Some(5));
}

#[test]
fn lsd_header_is_checked() {
    let mut b = vec![11];
    b.extend_from_slice(b"LcfDataBase");
    assert!(SaveLsd::from_parsed(parse(&b).unwrap()).is_err());
    let mut b2 = vec![11];
    b2.extend_from_slice(b"LcfSaveData");
    let s = SaveLsd::from_parsed(parse(&b2).unwrap()).unwrap();
    assert!(s.note.is_some());
    assert_eq!(s.switch(1), None);
    assert_eq!(s.gold(), None);
}
