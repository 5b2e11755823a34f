use rmmodify::db::{engine_from_markers, exp_table_from_params, lcf_table_chunk, Engine, LcfTable};

#[test]
fn exp_params_vxa_table() {
    let t = exp_table_from_params(&[30, 20, 30, 30]).expect("table");
    assert_eq!(t.len(), 100);
    assert_eq!(t[1], 0);
    assert_eq!(t[2], 80);
    assert_eq!(t[3], 270);
    assert_eq!(t[5], 1220);
    assert_eq!(t[10], 9720);
    assert_eq!(t[30], 266220);
    assert_eq!(t[50], 1238720);
    assert_eq!(t[99], 9656430);
}

#[test]
fn exp_params_vx_no_max_level() {
    let t = exp_table_from_params(&[30, 20, 30]).expect("table");
    assert_eq!(t.len(), 100);
    assert_eq!(t[50], 1238720);
    assert_eq!(t[99], 9656430);
}

#[test]
fn exp_params_invalid() {
    assert!(exp_table_from_params(&[0, 20, 30, 30]).is_none());
    assert!(exp_table_from_params(&[30, 20]).is_none());
    assert!(exp_table_from_params(&[]).is_none());
}

#[test]
fn exp_curve_saturates_instead_of_wrapping() {
    let t = exp_table_from_params(&[i64::MAX, 0, 0]).expect("table");
    assert_eq!(t[1], 0);
    assert_eq!(t[2], i64::MAX);
    assert_eq!(t[99], i64::MAX);
}

#[test]
fn engine_is_told_by_marker_files() {
    // a project file decides first
    assert_eq!(engine_from_markers(true, true, true, Some(true), false, false, false, true), Some(Engine::VxAce));
    assert_eq!(engine_from_markers(false, true, false, None, true, false, false, false), Some(Engine::Vx));
    assert_eq!(engine_from_markers(false, false, true, None, false, false, false, false), Some(Engine::Xp));
    // RPG_RT.ini: 2003 when it says so, else 2000
    assert_eq!(engine_from_markers(false, false, false, Some(true), true, false, false, false), Some(Engine::Rm2003));
    assert_eq!(engine_from_markers(false, false, false, Some(false), false, false, false, false), Some(Engine::Rm2000));
    // then the data files
    assert_eq!(engine_from_markers(false, false, false, None, true, true, false, false), Some(Engine::VxAce));
    assert_eq!(engine_from_markers(false, false, false, None, false, true, true, false), Some(Engine::Vx));
    assert_eq!(engine_from_markers(false, false, false, None, false, false, true, true), Some(Engine::Xp));
    assert_eq!(engine_from_markers(false, false, false, None, false, false, false, true), Some(Engine::Rm2000));
    assert_eq!(engine_from_markers(false, false, false, None, false, false, false, false), None);
}

#[test]
fn ldb_tables_come_from_their_chunks() {
    assert_eq!(lcf_table_chunk(Engine::Rm2000, LcfTable::Actors), Some(0x0B));
    assert_eq!(lcf_table_chunk(Engine::Rm2000, LcfTable::States), Some(0x12));
    assert_eq!(lcf_table_chunk(Engine::Rm2000, LcfTable::Switches), Some(0x17));
    assert_eq!(lcf_table_chunk(Engine::Rm2000, LcfTable::Classes), None);
    assert_eq!(lcf_table_chunk(Engine::Rm2003, LcfTable::Classes), Some(0x1E));
    assert_eq!(lcf_table_chunk(Engine::Rm2000, LcfTable::Variables), None);
    assert_eq!(lcf_table_chunk(Engine::Rm2003, LcfTable::Variables), Some(0x18));
    assert_eq!(lcf_table_chunk(Engine::Rm2003, LcfTable::Weapons), None);
}
