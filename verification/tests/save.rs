use rmmodify::db::Engine;
use rmmodify::marshal::dump::dump;
use rmmodify::marshal::load::parse;
use rmmodify::marshal::model::Kind;
use rmmodify::marshal::tree::Tree;
use rmmodify::save::{InvKind, SaveData};

fn make_vxa_save() -> Tree {
    let mut tree = Tree::new();
    let sym = |t: &mut Tree, s: &str| t.alloc_sym(s.as_bytes().to_vec());
    let s_data = sym(&mut tree, "@data");
    let s_class = sym(&mut tree, "Game_Switches");
    let sw_b0 = tree.new_bool(false);
    let sw_b1 = tree.new_bool(true);
    let sw_arr = tree.alloc_node(Kind::Array(vec![sw_b0, sw_b1]));
    let switches = tree.alloc_node(Kind::Object { class: s_class, ivars: vec![(s_data, sw_arr)] });

    let s_data = sym(&mut tree, "@data");
    let s_class = sym(&mut tree, "Game_Variables");
    let v0 = tree.new_fixnum(0);
    let v1 = tree.new_fixnum(42);
    let var_arr = tree.alloc_node(Kind::Array(vec![v0, v1]));
    let variables = tree.alloc_node(Kind::Object { class: s_class, ivars: vec![(s_data, var_arr)] });

    let s_name = sym(&mut tree, "@name");
    let s_level = sym(&mut tree, "@level");
    let s_hp = sym(&mut tree, "@hp");
    let s_mp = sym(&mut tree, "@mp");
    let s_exp = sym(&mut tree, "@exp");
    let s_equips = sym(&mut tree, "@equips");
    let s_skills = sym(&mut tree, "@skills");
    let s_states = sym(&mut tree, "@states");
    let s_actor_id = sym(&mut tree, "@actor_id");
    let s_actor_cls = sym(&mut tree, "Game_Actor");
    let e0 = tree.new_fixnum(0);
    let e1 = tree.new_fixnum(0);
    let e2 = tree.new_fixnum(0);
    let e3 = tree.new_fixnum(0);
    let e4 = tree.new_fixnum(0);
    let equips = tree.alloc_node(Kind::Array(vec![e0, e1, e2, e3, e4]));
    let sk1 = tree.new_fixnum(1);
    let skills = tree.alloc_node(Kind::Array(vec![sk1]));
    let states = tree.alloc_node(Kind::Array(vec![]));
    let v_id = tree.new_fixnum(1);
    let v_name = tree.new_string("测试角色");
    let v_level = tree.new_fixnum(5);
    let v_hp = tree.new_fixnum(100);
    let v_mp = tree.new_fixnum(50);
    let v_exp = tree.new_fixnum(0);
    let actor_obj = tree.alloc_node(Kind::Object {
        class: s_actor_cls,
        ivars: vec![
            (s_actor_id, v_id),
            (s_name, v_name),
            (s_level, v_level),
            (s_hp, v_hp),
            (s_mp, v_mp),
            (s_exp, v_exp),
            (s_equips, equips),
            (s_skills, skills),
            (s_states, states),
        ],
    });
    let s_data = sym(&mut tree, "@data");
    let s_class = sym(&mut tree, "Game_Actors");
    let a_key = tree.new_fixnum(1);
    let actors_hash = tree.alloc_node(Kind::Hash { pairs: vec![(a_key, actor_obj)], default: None });
    let actors = tree.alloc_node(Kind::Object { class: s_class, ivars: vec![(s_data, actors_hash)] });

    let s_gold = sym(&mut tree, "@gold");
    let s_items = sym(&mut tree, "@items");
    let s_weapons = sym(&mut tree, "@weapons");
    let s_armors = sym(&mut tree, "@armors");
    let s_actors = sym(&mut tree, "@actors");
    let s_party_cls = sym(&mut tree, "Game_Party");
    let i_key = tree.new_fixnum(1);
    let i_qty = tree.new_fixnum(3);
    let items_hash = tree.alloc_node(Kind::Hash { pairs: vec![(i_key, i_qty)], default: None });
    let weapons_hash = tree.alloc_node(Kind::Hash { pairs: vec![], default: None });
    let armors_hash = tree.alloc_node(Kind::Hash { pairs: vec![], default: None });
    let m1 = tree.new_fixnum(1);
    let members = tree.alloc_node(Kind::Array(vec![m1]));
    let g = tree.new_fixnum(500);
    let party = tree.alloc_node(Kind::Object {
        class: s_party_cls,
        ivars: vec![
            (s_gold, g),
            (s_items, items_hash),
            (s_weapons, weapons_hash),
            (s_armors, armors_hash),
            (s_actors, members),
        ],
    });

    let mut items: Vec<u32> = Vec::new();
    items.push(tree.alloc_node(Kind::Nil));
    for _ in 0..12 {
        items.push(tree.alloc_node(Kind::Nil));
    }
    items[5] = switches;
    items[6] = variables;
    items[8] = actors;
    items[9] = party;
    let root = tree.alloc_node(Kind::Array(items));
    tree.set_root(root);
    tree
}

#[test]
fn vxa_layout_and_edits() {
    let tree = make_vxa_save();
    let mut save = SaveData::from_tree(tree, Engine::VxAce);
    assert!(save.layout.is_some());
    assert_eq!(save.switch(1), Some(true));
    assert_eq!(save.variable(1), Some(42));
    assert_eq!(save.gold(), Some(500));
    assert_eq!(save.inventory(InvKind::Item), vec![(1, 3)]);
    assert_eq!(save.party_member_ids(), vec![1]);
    assert_eq!(save.actor_ids(), vec![1]);
    assert_eq!(save.actor_name(1).as_deref(), Some("测试角色"));
    assert_eq!(save.actor_stat(1, "level"), Some(5));
    assert_eq!(save.actor_skills(1), vec![1]);

    assert!(save.set_gold(999));
    assert!(save.set_switch(3, true));
    assert!(save.set_variable(2, -7));
    assert!(save.set_actor_stat(1, "level", 99));
    assert!(save.set_actor_equip(1, 0, 12));
    assert!(save.actor_add_id(1, "skills", 7));
    assert!(save.add_inventory(InvKind::Item, 1, 5));
    assert!(save.set_inventory_qty(InvKind::Item, 2, 1));
    assert!(save.set_inventory_qty(InvKind::Item, 2, 0));

    assert_eq!(save.gold(), Some(999));
    assert_eq!(save.switch(3), Some(true));
    assert_eq!(save.variable(2), Some(-7));
    assert_eq!(save.actor_stat(1, "level"), Some(99));
    assert_eq!(save.actor_equips(1)[0], 12);
    assert_eq!(save.actor_skills(1), vec![1, 7]);
    assert_eq!(save.inventory(InvKind::Item), vec![(1, 8)]);

    let bytes = dump(&save.tree);
    assert!(parse(&bytes).is_ok());
}

#[test]
fn read_after_write_on_switches_variables_gold() {
    let tree = make_vxa_save();
    let mut save = SaveData::from_tree(tree, Engine::VxAce);
    assert!(save.set_switch(1, false));
    assert_eq!(save.switch(1), Some(false));
    assert!(save.set_variable(5, 123));
    assert_eq!(save.variable(5), Some(123));
    assert_eq!(save.variable(4), Some(0));
    assert!(save.set_gold(0));
    assert_eq!(save.gold(), Some(0));
    assert!(save.actor_remove_id(1, "skills", 1));
    assert_eq!(save.actor_skills(1), Vec::<u32>::new());
}

#[test]
fn non_standard_layouts_give_empty_results() {
    // an empty tree: the root is a sentinel, no layout
    let s = SaveData::from_tree(Tree::new(), Engine::VxAce);
    assert!(s.layout.is_none());
    assert_eq!(s.variable(1), None);
    assert_eq!(s.switch(1), None);
    // thirteen nils: a layout whose parts are all nil
    let mut v = vec![4, 8, b'[', 0x12];
    v.extend(std::iter::repeat(b'0').take(13));
    let s = SaveData::from_tree(parse(&v).unwrap(), Engine::VxAce);
    assert!(s.layout.is_some());
    assert_eq!(s.variable(1), None);
    assert_eq!(s.switch(1), None);
    assert!(s.switch_ids().is_empty());
    assert_eq!(s.variable_array_len(), 0);
    assert_eq!(s.actor(1), None);
    assert_eq!(s.gold(), None);
    assert!(s.actor_ids().is_empty());
}

#[test]
fn experience_is_added_for_the_actor_class() {
    // thirteen slots; slot 8 holds Game_Actors whose @data is [nil, actor],
    // the actor having @exp = {1 => 100} and @class_id = 2
    let mut v = vec![4, 8, b'[', 0x12];
    v.extend(std::iter::repeat(b'0').take(8));
    v.extend_from_slice(&[b'o', b':', 16]);
    v.extend_from_slice(b"Game_Actors");
    v.extend_from_slice(&[6, b':', 10]);
    v.extend_from_slice(b"@data");
    v.extend_from_slice(&[b'[', 7, b'0', b'o', b':', 15]);
    v.extend_from_slice(b"Game_Actor");
    v.extend_from_slice(&[7, b':', 9]);
    v.extend_from_slice(b"@exp");
    v.extend_from_slice(&[b'{', 6, b'i', 6, b'i', 105, b':', 14]);
    v.extend_from_slice(b"@class_id");
    v.extend_from_slice(&[b'i', 7]);
    v.extend(std::iter::repeat(b'0').take(4));
    let mut s = SaveData::from_tree(parse(&v).unwrap(), Engine::VxAce);
    let actor = s.actor(1).expect("actor 1");
    assert!(s.set_actor_exp(1, 500));
    assert_eq!(s.actor_exp(1), Some(500));
    // the pair for class 1 is kept, one for class 2 is added
    let exp = s.tree.ivar(actor, "exp").unwrap();
    let Kind::Hash { pairs, .. } = s.tree.kind(exp) else { panic!("not a hash") };
    assert_eq!(pairs.len(), 2);
    let value_of = |k: u32| match s.tree.kind(k) {
        Kind::Fixnum(n) => *n,
        _ => panic!("not an integer"),
    };
    assert_eq!((value_of(pairs[0].0), value_of(pairs[0].1)), (1, 100));
    assert_eq!((value_of(pairs[1].0), value_of(pairs[1].1)), (2, 500));
}
