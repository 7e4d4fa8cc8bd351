use websweeper::lobby::{
    empty_rooms, field, free_slots, plan_slot, room_from_form, FormError, RoomId,
};

fn form(pairs: &[(&str, &str)]) -> Vec<(Vec<u8>, Vec<u8>)> {
    pairs.iter().map(|(k, v)| (k.as_bytes().to_vec(), v.as_bytes().to_vec())).collect()
}

fn good() -> Vec<(&'static str, &'static str)> {
    vec![
        ("bwidth", "30"),
        ("bheight", "16"),
        ("mineratio-n", "99"),
        ("mineratio-d", "480"),
        ("public", "on"),
        ("allsafe1move", "on"),
        ("revealonlose", "off"),
        ("limit", "8"),
        ("rname", "tea room"),
    ]
}

fn an_id() -> RoomId {
    RoomId(b"abcdefgh12345678".to_vec())
}

#[test]
fn a_good_form_makes_a_room() {
    let conf = room_from_form(&an_id(), &form(&good()), 1000).unwrap();
    assert_eq!(conf.name, b"tea room".to_vec());
    assert_eq!(conf.player_cap, 8);
    assert!(conf.public);
    assert_eq!((conf.board_conf.w, conf.board_conf.h), (30, 16));
    assert_eq!(conf.board_conf.mine_ratio, (99, 480));
    assert!(conf.board_conf.always_safe_first_move);
    assert!(!conf.board_conf.revealed_borders);
    assert!(!conf.board_conf.reveal_on_lose);
    assert!(!conf.board_conf.num_tile_reveal);
}

#[test]
fn an_empty_room_name_gives_way_to_the_id() {
    let mut f = good();
    f.retain(|(k, _)| *k != "rname" && *k != "public");
    f.push(("rname", ""));
    let conf = room_from_form(&an_id(), &form(&f), 1000).unwrap();
    assert_eq!(conf.name, b"abcdefgh12345678".to_vec());
    assert!(!conf.public);
}

#[test]
fn missing_and_malformed_fields_are_bad_form_data() {
    for missing in ["bwidth", "bheight", "mineratio-n", "mineratio-d", "limit", "rname"] {
        let mut f = good();
        f.retain(|(k, _)| *k != missing);
        match room_from_form(&an_id(), &form(&f), 1000) {
            Err(e) => assert!(e == FormError::BadFormData, "{}", missing),
            Ok(_) => panic!("{}", missing),
        }
    }
    for (key, bad) in [("bwidth", "0"), ("bheight", "x"), ("mineratio-d", "0"), ("limit", "-3"), ("mineratio-n", "")] {
        let mut f = good();
        f.retain(|(k, _)| *k != key);
        f.push((key, bad));
        match room_from_form(&an_id(), &form(&f), 1000) {
            Err(e) => assert!(e == FormError::BadFormData, "{}", key),
            Ok(_) => panic!("{}", key),
        }
    }
}

#[test]
fn a_board_beyond_the_limit_is_too_big() {
    match room_from_form(&an_id(), &form(&good()), 479) {
        Err(e) => assert!(e == FormError::BoardTooBig),
        Ok(_) => panic!(),
    }
    assert!(room_from_form(&an_id(), &form(&good()), 480).is_ok());
    let mut f = good();
    f.retain(|(k, _)| *k != "bwidth" && *k != "bheight");
    f.push(("bwidth", "4294967296"));
    f.push(("bheight", "1"));
    match room_from_form(&an_id(), &form(&f), usize::MAX) {
        Err(e) => assert!(e == FormError::BoardTooBig),
        Ok(_) => panic!(),
    }
}

#[test]
fn the_first_field_of_a_name_counts() {
    let f = form(&[("a", "1"), ("b", "2"), ("a", "3")]);
    assert_eq!(field(&f, b"a"), Some(&b"1".to_vec()));
    assert_eq!(field(&f, b"b"), Some(&b"2".to_vec()));
    assert_eq!(field(&f, b"c"), None);
}

#[test]
fn slots_are_planned() {
    assert!(plan_slot(4, 3, 0) == Ok(false));
    assert!(plan_slot(4, 4, 2) == Ok(true));
    assert!(plan_slot(4, 4, 0) == Err(FormError::NoRoomSlots));
    assert!(plan_slot(0, 0, 0) == Err(FormError::NoRoomSlots));
    assert_eq!(free_slots(10, 4, 1), 7);
    assert_eq!(free_slots(10, 10, 3), 3);
    assert_eq!(free_slots(2, 5, 0), 0);
}

#[test]
fn empty_rooms_are_those_without_players() {
    let rooms = vec![
        (RoomId(b"a".to_vec()), 2),
        (RoomId(b"b".to_vec()), 0),
        (RoomId(b"c".to_vec()), 1),
        (RoomId(b"d".to_vec()), 0),
    ];
    let names: Vec<Vec<u8>> = empty_rooms(&rooms).into_iter().map(|r| r.0).collect();
    assert_eq!(names, vec![b"b".to_vec(), b"d".to_vec()]);
    assert!(empty_rooms(&vec![]).is_empty());
}

#[test]
fn new_room_names_are_sixteen_letters_and_digits() {
    let mut existing = Vec::new();
    for _ in 0..50 {
        let id = RoomId::new_among(&existing).unwrap();
        assert_eq!(id.0.len(), 16);
        assert!(id.0.iter().all(|b| b.is_ascii_alphanumeric()));
        assert!(!RoomId::is_taken(&existing, &id.0));
        existing.push(id);
    }
    assert!(RoomId::is_taken(&existing, &existing[3].0.clone()));
}

#[test]
fn the_first_room_always_gets_a_name() {
    for _ in 0..200 {
        let id = RoomId::new_among(&Vec::new());
        assert!(id.is_some());
        assert_eq!(id.unwrap().0.len(), 16);
    }
}

#[test]
fn drawn_names_are_letters_and_digits() {
    let mut seen = std::collections::HashSet::new();
    for _ in 0..100 {
        let name = RoomId::draw_name();
        assert_eq!(name.len(), 16);
        assert!(name.iter().all(|b| b.is_ascii_alphanumeric()));
        seen.insert(name);
    }
    assert!(seen.len() > 1);
}

#[test]
fn a_taken_name_is_refused() {
    let existing = vec![an_id()];
    assert!(RoomId::fresh_among(b"abcdefgh12345678".to_vec(), &existing).is_none());
    let other = RoomId::fresh_among(b"abcdefgh1234567X".to_vec(), &existing).unwrap();
    assert_eq!(other.0, b"abcdefgh1234567X".to_vec());
}
