use std::io::Read;
use websweeper::board::{BoardConf, BoardPos};
use websweeper::command::{parse_command, Command};
use websweeper::game::{MoveType, Phase};
use websweeper::gameloop::GameLoop;
use websweeper::livepos::Tracker;
use websweeper::message::{end_message, logoff, pos_message, regack, Frame};
use websweeper::players::{Conn, PlayerMap};
use websweeper::room::{Effect, MetaMove, Req, ReqData, RoomConf};
use websweeper::session::{admits, display_name, leave, on_frame, register, Incoming};
use websweeper::text::{join_fields, parse_number, push_decimal, replace_spaces, split_fields};

fn plain_conf(w: usize, h: usize) -> BoardConf {
    BoardConf {
        w,
        h,
        mine_ratio: (0, 1),
        always_safe_first_move: false,
        revealed_borders: false,
        reveal_on_lose: false,
        num_tile_reveal: false,
    }
}

fn a_room() -> RoomConf {
    RoomConf { name: b"lobby".to_vec(), player_cap: 4, public: true, board_conf: plain_conf(3, 3) }
}

fn say(players: &mut PlayerMap, addr: u64, line: &str) -> Vec<Effect> {
    let out = on_frame(
        players,
        Conn { addr },
        &Incoming::Text(line.as_bytes().to_vec()),
        2048,
        &a_room(),
    );
    assert!(!out.close);
    out.effects
}

fn reply_text(e: &Effect) -> String {
    match e {
        Effect::Reply(Frame::Text(t)) => String::from_utf8(t.clone()).unwrap(),
        other => panic!("no text reply: {:?}", other),
    }
}

fn broadcast_text(e: &Effect) -> String {
    match e {
        Effect::Broadcast(Frame::Text(t)) => String::from_utf8(t.clone()).unwrap(),
        other => panic!("no text broadcast: {:?}", other),
    }
}

fn inflate(e: &Effect) -> String {
    match e {
        Effect::Broadcast(Frame::Binary(b)) => {
            let mut out = String::new();
            flate2::read::DeflateDecoder::new(&b[..]).read_to_string(&mut out).unwrap();
            assert_ne!(b.as_slice(), out.as_bytes());
            out
        }
        other => panic!("no binary broadcast: {:?}", other),
    }
}

fn drain(game: &mut GameLoop, players: &PlayerMap, first: MetaMove) -> Vec<Effect> {
    let mut queue = vec![first];
    let mut sent = Vec::new();
    while !queue.is_empty() {
        let req = queue.remove(0);
        for e in game.step(req, players) {
            match e {
                Effect::ToGame(m) => queue.push(m),
                other => sent.push(other),
            }
        }
    }
    sent
}

#[test]
fn numbers_are_read_as_rust_reads_them() {
    assert_eq!(parse_number(&b"0".to_vec()), Some(0));
    assert_eq!(parse_number(&b"10".to_vec()), Some(10));
    assert_eq!(parse_number(&b"+7".to_vec()), Some(7));
    assert_eq!(parse_number(&b"007".to_vec()), Some(7));
    assert_eq!(parse_number(&b"".to_vec()), None);
    assert_eq!(parse_number(&b"+".to_vec()), None);
    assert_eq!(parse_number(&b"-1".to_vec()), None);
    assert_eq!(parse_number(&b"1 ".to_vec()), None);
    assert_eq!(parse_number(&b"12a".to_vec()), None);
    assert_eq!(parse_number(&usize::MAX.to_string().into_bytes()), Some(usize::MAX));
    assert_eq!(parse_number(&b"99999999999999999999999999".to_vec()), None);
    for s in ["0", "10", "+7", "", "x", "18446744073709551616", "4294967296"] {
        assert_eq!(parse_number(&s.as_bytes().to_vec()), s.parse::<usize>().ok());
    }
}

#[test]
fn numbers_are_written_in_decimal() {
    for n in [0usize, 7, 10, 99, 100, 12345, usize::MAX] {
        let mut out = b"n=".to_vec();
        push_decimal(&mut out, n);
        assert_eq!(String::from_utf8(out).unwrap(), format!("n={}", n));
    }
}

#[test]
fn fields_are_parted_by_single_spaces() {
    let parts = split_fields(&b"a  bc ".to_vec());
    assert_eq!(parts, vec![b"a".to_vec(), b"".to_vec(), b"bc".to_vec(), b"".to_vec()]);
    assert_eq!(split_fields(&b"".to_vec()), vec![b"".to_vec()]);
    assert_eq!(join_fields(&parts, 0, 4), b"a  bc ".to_vec());
    assert_eq!(join_fields(&parts, 1, 3), b" bc".to_vec());
    assert_eq!(join_fields(&parts, 2, 2), b"".to_vec());
    assert_eq!(replace_spaces(&b"a b  c".to_vec(), &b"&nbsp;".to_vec()), b"a&nbsp;b&nbsp;&nbsp;c".to_vec());
}

#[test]
fn commands_are_recognised() {
    assert!(matches!(parse_command(&b"<3".to_vec()), Command::Heartbeat));
    assert!(matches!(parse_command(&b"pos 10 20".to_vec()), Command::Pos(10, 20)));
    assert!(matches!(parse_command(&b"pos 10 20 30".to_vec()), Command::Pos(10, 20)));
    assert!(matches!(parse_command(&b"reveal 1 2".to_vec()), Command::Reveal(1, 2)));
    assert!(matches!(parse_command(&b"flag 0 0".to_vec()), Command::Flag(0, 0)));
    assert!(matches!(parse_command(&b"reset".to_vec()), Command::Reset));
    assert!(matches!(parse_command(&b"reset now".to_vec()), Command::Reset));
}

#[test]
fn malformed_commands_are_ignored() {
    for line in ["", "pos", "pos 1", "pos a 2", "reveal 1 -2", "flag  1 2", "Reveal 1 2", "dance", "register", "pos1 2"] {
        assert!(matches!(parse_command(&line.as_bytes().to_vec()), Command::Ignored), "{}", line);
    }
}

#[test]
fn register_takes_the_name_and_cleans_the_colour() {
    match parse_command(&b"register Alice #ff0000".to_vec()) {
        Command::Register { name, color } => {
            assert_eq!(name, Some(b"Alice".to_vec()));
            assert_eq!(color, b"#ff0000".to_vec());
        }
        _ => panic!(),
    }
    match parse_command(&b"register Al  Ice red#zzAbC!".to_vec()) {
        Command::Register { name, color } => {
            assert_eq!(name, Some(b"Al  Ice".to_vec()));
            assert_eq!(color, b"ed#AbC".to_vec());
        }
        _ => panic!(),
    }
    match parse_command(&b"register #fff".to_vec()) {
        Command::Register { name, color } => {
            assert_eq!(name, None);
            assert_eq!(color, b"#fff".to_vec());
        }
        _ => panic!(),
    }
}

#[test]
fn empty_names_become_anon() {
    assert_eq!(display_name(b"".to_vec()), b"anon".to_vec());
    assert_eq!(display_name(b"  \t ".to_vec()), b"anon".to_vec());
    assert_eq!(display_name(b" x ".to_vec()), b" x ".to_vec());
    let mut players = PlayerMap::new();
    let fx = say(&mut players, 1, "register #fff");
    assert!(reply_text(&fx[0]).starts_with("regack lobby anon 0 "));
    let fx = say(&mut players, 2, "register   #fff");
    assert!(reply_text(&fx[0]).starts_with("regack lobby anon 1 "));
}

#[test]
fn register_and_board_dump() {
    let mut players = PlayerMap::new();
    let mut game = GameLoop::new(plain_conf(3, 3));
    assert!(admits(&players, 4));
    let fx = say(&mut players, 7, "register Alice #ff0000");
    assert_eq!(fx.len(), 4);
    assert_eq!(
        reply_text(&fx[0]),
        "regack lobby Alice 0 {\"w\":3,\"h\":3,\"mine_ratio\":[0,1],\"always_safe_first_move\":false,\"revealed_borders\":false,\"reveal_on_lose\":false}"
    );
    assert_eq!(broadcast_text(&fx[1]), "players [[0,\"Alice\",\"#ff0000\"]]");
    assert!(matches!(fx[2], Effect::ToCursors(Req { id: 0, data: ReqData::StateDump })));
    assert!(matches!(fx[3], Effect::ToGame(MetaMove::StateDump)));
    let sent = drain(&mut game, &players, MetaMove::StateDump);
    assert_eq!(sent.len(), 1);
    assert_eq!(inflate(&sent[0]), "###<br>###<br>###<br>");
}

#[test]
fn reveal_on_zero_board_is_broadcast_as_a_win() {
    let mut players = PlayerMap::new();
    let mut game = GameLoop::new(plain_conf(3, 3));
    say(&mut players, 7, "register Alice #ff0000");
    drain(&mut game, &players, MetaMove::StateDump);
    let fx = say(&mut players, 7, "reveal 1 1");
    assert_eq!(fx.len(), 1);
    let mv = match fx[0] {
        Effect::ToGame(m) => m,
        _ => panic!(),
    };
    match mv {
        MetaMove::Move(m, addr) => {
            assert!(m.t == MoveType::Reveal);
            assert_eq!((m.pos.0, m.pos.1, addr), (1, 1, 7));
        }
        _ => panic!(),
    }
    let sent = drain(&mut game, &players, mv);
    assert_eq!(sent.len(), 2);
    assert_eq!(inflate(&sent[0]), "   <br>   <br>   <br>");
    assert_eq!(broadcast_text(&sent[1]), "win Alice");
    assert!(game.game.phase == Phase::Win);
}

#[test]
fn several_moves_are_told_once() {
    let players = PlayerMap::new();
    let mut game = GameLoop::new(plain_conf(4, 1));
    game.game.board.data = vec![0x80, 0x81, 0x9f, 0x81];
    game.game.board.mine_count = 1;
    let mut queue = Vec::new();
    for x in [0u32, 3] {
        let m = websweeper::game::Move { t: MoveType::ToggleFlag, pos: BoardPos(x, 0) };
        for e in game.step(MetaMove::Move(m, 1), &players) {
            match e {
                Effect::ToGame(n) => queue.push(n),
                _ => panic!(),
            }
        }
    }
    assert_eq!(queue.len(), 2);
    let mut dumps = 0;
    for req in queue {
        assert!(matches!(req, MetaMove::StateSync));
        for e in game.step(req, &players) {
            assert!(matches!(e, Effect::ToGame(MetaMove::StateDump)));
            dumps += 1;
        }
    }
    assert_eq!(dumps, 1);
    let sent = game.step(MetaMove::StateDump, &players);
    assert_eq!(inflate(&sent[0]), "F##F<br>");
    assert!(!game.desynced);
}

#[test]
fn a_finished_game_takes_no_move() {
    let mut players = PlayerMap::new();
    say(&mut players, 7, "register Al Ice #ff0000");
    let mut c = plain_conf(2, 1);
    c.mine_ratio = (1, 2);
    let mut game = GameLoop::new(c);
    let mined = if game.game.board.data[0] == 0x9f { 0 } else { 1 };
    let hit = websweeper::game::Move { t: MoveType::Reveal, pos: BoardPos(mined, 0) };
    let sent = drain(&mut game, &players, MetaMove::Move(hit, 7));
    assert!(game.game.phase == Phase::Die);
    assert_eq!(broadcast_text(&sent[1]), "lose Al&nbspIce");
    let before = game.game.board.data.clone();
    let hidden = game.game.board.hidden_tiles;
    for t in [MoveType::Reveal, MoveType::ToggleFlag] {
        for x in 0..3u32 {
            let m = websweeper::game::Move { t, pos: BoardPos(x, 0) };
            assert!(game.step(MetaMove::Move(m, 7), &players).is_empty());
            assert_eq!(game.game.board.data, before);
            assert_eq!(game.game.board.hidden_tiles, hidden);
            assert!(game.game.phase == Phase::Die);
        }
    }
}

#[test]
fn reset_starts_over_only_when_the_game_is_over() {
    let players = PlayerMap::new();
    let mut game = GameLoop::new(plain_conf(3, 3));
    let flag = websweeper::game::Move { t: MoveType::ToggleFlag, pos: BoardPos(0, 0) };
    game.step(MetaMove::Move(flag, 1), &players);
    let before = game.game.board.data.clone();
    assert!(game.step(MetaMove::Reset, &players).is_empty());
    assert_eq!(game.game.board.data, before);
    assert!(game.game.phase == Phase::Run);
    game.step(MetaMove::Move(flag, 1), &players);
    game.step(MetaMove::Move(flag, 1), &players);
    assert_eq!(game.game.board.data, vec![0x80; 9]);
    let open = websweeper::game::Move { t: MoveType::Reveal, pos: BoardPos(2, 2) };
    let sent = drain(&mut game, &players, MetaMove::Move(open, 1));
    assert!(game.game.phase == Phase::Win);
    assert_eq!(broadcast_text(&sent[1]), "win unknown&nbspplayer");
    let fx = game.step(MetaMove::Reset, &players);
    assert_eq!(fx.len(), 1);
    assert!(matches!(fx[0], Effect::ToGame(MetaMove::StateDump)));
    assert!(game.game.phase == Phase::Run);
    assert_eq!(game.game.board.data, vec![0x80; 9]);
    assert_eq!(game.game.board.hidden_tiles, 9);
    assert_eq!(game.game.board.mine_count, 0);
    assert_eq!((game.game.board_conf.w, game.game.board_conf.h), (3, 3));
}

#[test]
fn names_are_sanitised() {
    let mut players = PlayerMap::new();
    let fx = say(&mut players, 1, "register XSS<script>attack</script> #abc");
    assert!(reply_text(&fx[0]).starts_with("regack lobby XSS 0 "));
    assert_eq!(broadcast_text(&fx[1]), "players [[0,\"XSS\",\"#abc\"]]");
    let fx = say(&mut players, 2, "register <script>x</script> #abc");
    assert!(reply_text(&fx[0]).starts_with("regack lobby anon 1 "));
}

#[test]
fn names_are_escaped_in_the_list_of_players() {
    let mut players = PlayerMap::new();
    let room = a_room();
    register(&mut players, Conn { addr: 1 }, b"a\"b\\c".to_vec(), b"#1".to_vec(), &room);
    let fx = register(&mut players, Conn { addr: 2 }, b"d".to_vec(), b"".to_vec(), &room);
    assert_eq!(broadcast_text(&fx[1]), "players [[0,\"a\\\"b\\\\c\",\"#1\"],[1,\"d\",\"\"]]");
    let empty = websweeper::message::players_message(&Vec::new());
    assert_eq!(empty, b"players []".to_vec());
}

#[test]
fn spaces_in_names_become_entities() {
    let mut players = PlayerMap::new();
    let mut room = a_room();
    room.name = b"my room".to_vec();
    let fx = register(&mut players, Conn { addr: 1 }, b"Al Ice".to_vec(), b"#fff".to_vec(), &room);
    assert!(reply_text(&fx[0]).starts_with("regack my&nbsp;room Al&nbsp;Ice 0 {"));
    assert_eq!(broadcast_text(&fx[1]), "players [[0,\"Al&nbspIce\",\"#fff\"]]");
    assert_eq!(end_message(true, &Some(b"Al Ice".to_vec())), b"win Al&nbspIce".to_vec());
    assert_eq!(end_message(false, &None), b"lose unknown&nbspplayer".to_vec());
    assert_eq!(
        regack(&b"r".to_vec(), &b"n".to_vec(), 12, &plain_conf(1, 2)),
        b"regack r n 12 {\"w\":1,\"h\":2,\"mine_ratio\":[0,1],\"always_safe_first_move\":false,\"revealed_borders\":false,\"reveal_on_lose\":false}".to_vec()
    );
}

#[test]
fn board_conf_json_has_every_option() {
    let c = BoardConf {
        w: 30,
        h: 16,
        mine_ratio: (99, 480),
        always_safe_first_move: true,
        revealed_borders: false,
        reveal_on_lose: true,
        num_tile_reveal: true,
    };
    assert_eq!(
        String::from_utf8(c.to_json()).unwrap(),
        "{\"w\":30,\"h\":16,\"mine_ratio\":[99,480],\"always_safe_first_move\":true,\"revealed_borders\":false,\"reveal_on_lose\":true}"
    );
}

#[test]
fn unregistered_connections_can_only_register() {
    let mut players = PlayerMap::new();
    for line in ["pos 1 2", "reveal 0 0", "flag 0 0", "reset", "<3", "hello"] {
        assert!(say(&mut players, 5, line).is_empty());
    }
    assert_eq!(players.len(), 0);
    say(&mut players, 5, "register Bob #00f");
    assert_eq!(players.len(), 1);
    assert!(say(&mut players, 5, "register Bob2 #00f").is_empty());
    assert_eq!(players.len(), 1);
    assert_eq!(players.name_of(5), Some(b"Bob".to_vec()));
    assert!(say(&mut players, 5, "<3").is_empty());
    assert!(say(&mut players, 5, "dance").is_empty());
}

#[test]
fn registered_commands_are_forwarded() {
    let mut players = PlayerMap::new();
    say(&mut players, 5, "register Bob #00f");
    let fx = say(&mut players, 5, "pos 10 10");
    assert!(matches!(fx[..], [Effect::ToCursors(Req { id: 0, data: ReqData::Pos((10, 10)) })]));
    let fx = say(&mut players, 5, "flag 2 3");
    match fx[..] {
        [Effect::ToGame(MetaMove::Move(m, 5))] => {
            assert!(m.t == MoveType::ToggleFlag);
            assert_eq!((m.pos.0, m.pos.1), (2, 3));
        }
        _ => panic!(),
    }
    let fx = say(&mut players, 5, "reset");
    assert!(matches!(fx[..], [Effect::ToGame(MetaMove::Reset)]));
    let fx = say(&mut players, 5, "reveal 99999999999 1");
    match fx[..] {
        [Effect::ToGame(MetaMove::Move(m, 5))] => {
            assert_eq!((m.pos.0, m.pos.1), (u32::MAX, u32::MAX));
        }
        _ => panic!(),
    }
}

#[test]
fn long_and_binary_frames_close_the_connection() {
    let mut players = PlayerMap::new();
    let room = a_room();
    let out = on_frame(&mut players, Conn { addr: 1 }, &Incoming::Other, 2048, &room);
    assert!(out.close && out.effects.is_empty());
    let long = Incoming::Text(vec![b'a'; 2049]);
    let out = on_frame(&mut players, Conn { addr: 1 }, &long, 2048, &room);
    assert!(out.close && out.effects.is_empty());
    let fits = Incoming::Text(vec![b'a'; 2048]);
    let out = on_frame(&mut players, Conn { addr: 1 }, &fits, 2048, &room);
    assert!(!out.close);
}

#[test]
fn uids_count_up() {
    let mut players = PlayerMap::new();
    assert_eq!(players.insert_conn(Conn { addr: 10 }, b"a".to_vec(), b"#1".to_vec()), 0);
    assert_eq!(players.insert_conn(Conn { addr: 11 }, b"b".to_vec(), b"#2".to_vec()), 1);
    assert_eq!(players.insert_conn(Conn { addr: 10 }, b"c".to_vec(), b"#3".to_vec()), 2);
    assert_eq!(players.len(), 2);
    assert_eq!(players.uid_of(10), Some(2));
    assert_eq!(players.uid_of(11), Some(1));
    assert_eq!(players.uid_of(12), None);
    assert_eq!(players.find(11), Some(1));
    let gone = players.remove(10).unwrap();
    assert_eq!((gone.uid, gone.name), (2, b"c".to_vec()));
    assert!(players.remove(10).is_none());
    assert_eq!(players.insert_conn(Conn { addr: 12 }, b"d".to_vec(), b"#4".to_vec()), 3);
}

#[test]
fn a_full_room_lets_nobody_in() {
    let mut players = PlayerMap::new();
    assert!(admits(&players, 1));
    players.insert_conn(Conn { addr: 1 }, b"a".to_vec(), b"#1".to_vec());
    assert!(!admits(&players, 1));
    assert!(admits(&players, 2));
}

#[test]
fn disconnect_broadcast() {
    let mut players = PlayerMap::new();
    let mut cursors = Tracker::new();
    say(&mut players, 100, "register A #a");
    say(&mut players, 200, "register B #b");
    cursors.apply(Req { id: 0, data: ReqData::Pos((1, 1)) });
    cursors.apply(Req { id: 1, data: ReqData::Pos((2, 2)) });
    let fx = leave(&mut players, Conn { addr: 100 });
    assert_eq!(fx.len(), 2);
    assert!(matches!(fx[0], Effect::ToCursors(Req { id: 0, data: ReqData::Quit })));
    assert_eq!(broadcast_text(&fx[1]), "logoff 0");
    if let Effect::ToCursors(req) = fx[0] {
        cursors.apply(req);
    }
    assert_eq!(players.len(), 1);
    assert_eq!(players.uid_of(100), None);
    let listing = websweeper::message::players_message(&players.rows());
    assert_eq!(String::from_utf8(listing).unwrap(), "players [[1,\"B\",\"#b\"]]");
    cursors.apply(Req { id: 1, data: ReqData::StateDump });
    let fx = cursors.tick();
    assert_eq!(broadcast_text(&fx[0]), "pos [[1,[2,2]]]");
    assert!(leave(&mut players, Conn { addr: 100 }).is_empty());
    assert_eq!(logoff(42), b"logoff 42".to_vec());
}

#[test]
fn cursor_coalescing() {
    let mut cursors = Tracker::new();
    for _ in 0..10 {
        cursors.apply(Req { id: 3, data: ReqData::Pos((10, 10)) });
    }
    let fx = cursors.tick();
    assert_eq!(fx.len(), 1);
    assert_eq!(broadcast_text(&fx[0]), "pos [[3,[10,10]]]");
    assert!(cursors.tick().is_empty());
    assert!(cursors.tick().is_empty());
    cursors.apply(Req { id: 3, data: ReqData::Pos((10, 10)) });
    assert!(cursors.tick().is_empty());
}

#[test]
fn cursors_are_tracked_per_player() {
    let mut cursors = Tracker::new();
    cursors.apply(Req { id: 1, data: ReqData::Pos((0, 0)) });
    assert!(cursors.tick().is_empty());
    cursors.apply(Req { id: 2, data: ReqData::Pos((5, 6)) });
    cursors.apply(Req { id: 1, data: ReqData::Pos((7, 8)) });
    cursors.apply(Req { id: 2, data: ReqData::Pos((9, 9)) });
    let fx = cursors.tick();
    assert_eq!(broadcast_text(&fx[0]), "pos [[2,[9,9]],[1,[7,8]]]");
    cursors.apply(Req { id: 9, data: ReqData::StateDump });
    let fx = cursors.tick();
    assert_eq!(broadcast_text(&fx[0]), "pos [[1,[7,8]],[2,[9,9]]]");
    cursors.apply(Req { id: 1, data: ReqData::Pos((1, 1)) });
    cursors.apply(Req { id: 1, data: ReqData::Quit });
    assert!(cursors.tick().is_empty());
    cursors.apply(Req { id: 1, data: ReqData::Quit });
    assert_eq!(cursors.ids, vec![2]);
    assert_eq!(pos_message(&vec![]), b"pos []".to_vec());
    assert_eq!(pos_message(&vec![(0, (1, 2)), (10, (0, 300))]), b"pos [[0,[1,2]],[10,[0,300]]]".to_vec());
}
