use websweeper::board::{Board, BoardConf, BoardPos};
use websweeper::game::{Game, Move, MoveType, Phase};
use websweeper::tile::{
    grade_tile, is_mine, render_tile, toggle_flag, unhide, CORRECT, FLAGGED_BIT, HIDDEN_BIT, MINED,
    QUESTION,
};

fn conf(w: usize, h: usize, num: usize, den: usize) -> BoardConf {
    BoardConf {
        w,
        h,
        mine_ratio: (num, den),
        always_safe_first_move: false,
        revealed_borders: false,
        reveal_on_lose: false,
        num_tile_reveal: false,
    }
}

fn laid_board(w: usize, h: usize, mines: &[(usize, usize)]) -> Board {
    let mut data = vec![HIDDEN_BIT; w * h];
    for &(x, y) in mines {
        data[y * w + x] = MINED;
    }
    for y in 0..h {
        for x in 0..w {
            if data[y * w + x] == MINED {
                continue;
            }
            let mut n = 0u8;
            for &(mx, my) in mines {
                let dx = (mx as i64 - x as i64).abs();
                let dy = (my as i64 - y as i64).abs();
                if dx <= 1 && dy <= 1 {
                    n += 1;
                }
            }
            data[y * w + x] = HIDDEN_BIT | n;
        }
    }
    Board {
        data,
        width: w,
        height: h,
        hidden_tiles: w * h,
        mine_count: mines.len(),
        num_tile_reveal: false,
    }
}

fn hidden_in(b: &Board) -> usize {
    b.data.iter().filter(|t| **t & HIDDEN_BIT != 0).count()
}

fn mines_in(b: &Board) -> usize {
    b.data.iter().filter(|t| is_mine(**t)).count()
}

fn counts_hold(b: &Board) -> bool {
    for y in 0..b.height as i64 {
        for x in 0..b.width as i64 {
            let t = b.data[(y as usize) * b.width + x as usize];
            if is_mine(t) {
                continue;
            }
            let mut n = 0u8;
            for dy in -1..=1i64 {
                for dx in -1..=1i64 {
                    let (nx, ny) = (x + dx, y + dy);
                    if (dx, dy) != (0, 0) && nx >= 0 && ny >= 0 && nx < b.width as i64
                        && ny < b.height as i64
                        && is_mine(b.data[(ny as usize) * b.width + nx as usize])
                    {
                        n += 1;
                    }
                }
            }
            if t & 0x1f != n {
                return false;
            }
        }
    }
    true
}

fn text(bytes: Vec<u8>) -> String {
    String::from_utf8(bytes).unwrap()
}

#[test]
fn tile_helpers_follow_the_bits() {
    assert!(is_mine(MINED));
    assert!(is_mine(0x1f));
    assert!(is_mine(CORRECT));
    assert!(!is_mine(HIDDEN_BIT | 8));
    assert_eq!(unhide(MINED), 0x1f);
    assert_eq!(unhide(HIDDEN_BIT | FLAGGED_BIT | 3), 3);
    assert_eq!(grade_tile(MINED | FLAGGED_BIT), CORRECT);
    assert_eq!(grade_tile(MINED), MINED);
    assert_eq!(grade_tile(HIDDEN_BIT | FLAGGED_BIT | 2), HIDDEN_BIT | FLAGGED_BIT | 2);
}

#[test]
fn tile_glyphs() {
    assert_eq!(render_tile(0), b' ');
    assert_eq!(render_tile(1), b'1');
    assert_eq!(render_tile(8), b'8');
    assert_eq!(render_tile(HIDDEN_BIT | QUESTION | 2), b'Q');
    assert_eq!(render_tile(CORRECT), b'C');
    assert_eq!(render_tile(HIDDEN_BIT | FLAGGED_BIT), b'F');
    assert_eq!(render_tile(HIDDEN_BIT | 4), b'#');
    assert_eq!(render_tile(MINED), b'#');
    assert_eq!(render_tile(0x1f), b'O');
    assert_eq!(render_tile(9), b'?');
}

#[test]
fn flag_toggle_cycles_through_three_marks() {
    let t = HIDDEN_BIT | 5;
    let a = toggle_flag(t);
    let b = toggle_flag(a);
    let c = toggle_flag(b);
    assert_eq!(a, HIDDEN_BIT | FLAGGED_BIT | 5);
    assert_eq!(b, HIDDEN_BIT | QUESTION | 5);
    assert_eq!(c, t);
    assert_eq!(toggle_flag(5), 5);
}

#[test]
fn mine_count_follows_the_ratio() {
    assert_eq!(conf(10, 10, 1, 5).mines(), 20);
    assert_eq!(conf(10, 10, 5, 1).mines(), 100);
    assert_eq!(conf(3, 3, 0, 1).mines(), 0);
    assert_eq!(conf(2, 2, 3, 4).mines(), 3);
    let mut ringed = conf(10, 10, 1, 5);
    ringed.revealed_borders = true;
    assert_eq!(ringed.mined_tiles(), 64);
    assert_eq!(ringed.mines(), 12);
    let mut small = conf(2, 5, 1, 2);
    small.revealed_borders = true;
    assert_eq!(small.mined_tiles(), 10);
    assert_eq!(small.mines(), 5);
}

#[test]
fn fresh_board_is_all_hidden() {
    let b = Board::new(conf(3, 3, 0, 1));
    assert_eq!(text(b.render()), "###<br>###<br>###<br>");
    assert_eq!(b.hidden_tiles, 9);
    assert_eq!(b.mine_count, 0);
}

#[test]
fn fresh_board_counts_are_right() {
    for _ in 0..20 {
        let b = Board::new(conf(7, 5, 1, 4));
        assert_eq!(b.data.len(), 35);
        assert_eq!(b.mine_count, 8);
        assert_eq!(mines_in(&b), 8);
        assert_eq!(b.hidden_tiles, 35);
        assert_eq!(hidden_in(&b), 35);
        assert!(counts_hold(&b));
    }
}

#[test]
fn full_board_takes_every_tile() {
    let b = Board::new(conf(4, 4, 1, 1));
    assert_eq!(b.mine_count, 16);
    assert!(b.data.iter().all(|t| *t == MINED));
}

#[test]
fn revealed_borders_keep_the_ring_clear() {
    for _ in 0..20 {
        let mut c = conf(6, 5, 1, 2);
        c.revealed_borders = true;
        let b = Board::new(c);
        assert_eq!(b.mine_count, 6);
        assert_eq!(mines_in(&b), 6);
        assert_eq!(b.hidden_tiles, hidden_in(&b));
        assert!(counts_hold(&b));
        for y in 0..5usize {
            for x in 0..6usize {
                let t = b.data[y * 6 + x];
                if x == 0 || y == 0 || x == 5 || y == 4 {
                    assert_eq!(t & HIDDEN_BIT, 0);
                    assert!(!is_mine(t));
                }
            }
        }
    }
}

#[test]
fn positions_and_offsets() {
    let b = laid_board(4, 3, &[]);
    assert!(BoardPos(3, 2).is_within(&b));
    assert!(!BoardPos(4, 2).is_within(&b));
    assert!(!BoardPos(0, 3).is_within(&b));
    assert_eq!(BoardPos(3, 2).rel_offset(&b), Some(11));
    assert_eq!(BoardPos(1, 1).rel_offset_unchecked(&b), 5);
    assert_eq!(BoardPos(4, 0).rel_offset(&b), None);
    let p = BoardPos::from_coords(2, 1);
    assert_eq!((p.0, p.1), (2, 1));
    let far = BoardPos::from_coords(usize::MAX, 0);
    assert!(!far.is_within(&b));
}

#[test]
fn neighbours_are_clipped_and_ordered() {
    let b = laid_board(3, 3, &[]);
    let corner: Vec<(u32, u32)> = b.neighs(BoardPos(0, 0)).iter().map(|p| (p.0, p.1)).collect();
    assert_eq!(corner, vec![(1, 0), (0, 1), (1, 1)]);
    let mid: Vec<(u32, u32)> = b.neighs(BoardPos(1, 1)).iter().map(|p| (p.0, p.1)).collect();
    assert_eq!(
        mid,
        vec![(0, 0), (1, 0), (2, 0), (0, 1), (2, 1), (0, 2), (1, 2), (2, 2)]
    );
}

#[test]
fn reveal_flood_on_zero_board() {
    let mut g = Game::new(conf(3, 3, 0, 1));
    assert!(g.phase == Phase::Run);
    g.act(Move { t: MoveType::Reveal, pos: BoardPos(1, 1) });
    assert_eq!(text(g.board.render()), "   <br>   <br>   <br>");
    assert!(g.phase == Phase::Win);
    assert_eq!(g.board.hidden_tiles, 0);
}

#[test]
fn flood_stops_at_numbers() {
    let mut b = laid_board(4, 4, &[(3, 3)]);
    let boom = b.flood_reveal(BoardPos(0, 0));
    assert!(!boom);
    assert_eq!(text(b.render()), "    <br>    <br>  11<br>  1#<br>");
    assert_eq!(b.hidden_tiles, 1);
    assert_eq!(hidden_in(&b), 1);
}

#[test]
fn flood_on_a_number_uncovers_one_tile() {
    let mut b = laid_board(4, 4, &[(3, 3)]);
    assert!(!b.flood_reveal(BoardPos(2, 2)));
    assert_eq!(text(b.render()), "####<br>####<br>##1#<br>####<br>");
    assert_eq!(b.hidden_tiles, 15);
}

#[test]
fn flood_on_a_mine_reports_it() {
    let mut b = laid_board(4, 4, &[(3, 3)]);
    assert!(b.flood_reveal(BoardPos(3, 3)));
    assert_eq!(text(b.render()), "####<br>####<br>####<br>###O<br>");
    assert_eq!(b.hidden_tiles, 15);
}

#[test]
fn plain_flag_blocks_the_flood_and_question_mark_does_not() {
    let mut b = laid_board(3, 1, &[]);
    b.flag(BoardPos(1, 0));
    assert!(!b.flood_reveal(BoardPos(0, 0)));
    assert_eq!(text(b.render()), " F#<br>");
    let mut q = laid_board(3, 1, &[]);
    q.flag(BoardPos(1, 0));
    q.flag(BoardPos(1, 0));
    assert!(!q.flood_reveal(BoardPos(0, 0)));
    assert_eq!(text(q.render()), "   <br>");
    assert_eq!(q.hidden_tiles, 0);
}

#[test]
fn only_a_plain_flag_keeps_a_tile_covered() {
    let mut graded = Board {
        data: vec![CORRECT],
        width: 1,
        height: 1,
        hidden_tiles: 1,
        mine_count: 1,
        num_tile_reveal: false,
    };
    assert!(graded.flood_reveal(BoardPos(0, 0)));
    assert_eq!(graded.data, vec![0x1f]);
    assert_eq!(graded.hidden_tiles, 0);
    let mut flagged = Board {
        data: vec![MINED | FLAGGED_BIT],
        width: 1,
        height: 1,
        hidden_tiles: 1,
        mine_count: 1,
        num_tile_reveal: false,
    };
    assert!(!flagged.flood_reveal(BoardPos(0, 0)));
    assert_eq!(flagged.data, vec![MINED | FLAGGED_BIT]);
}

#[test]
fn reveal_off_the_board_does_nothing() {
    let mut b = laid_board(2, 2, &[(0, 0)]);
    let before = b.data.clone();
    assert!(!b.reveal_at(BoardPos(2, 0)));
    assert!(!b.reveal_at(BoardPos(0, 9)));
    assert_eq!(b.data, before);
    b.flag(BoardPos(5, 5));
    assert_eq!(b.data, before);
}

#[test]
fn reveal_never_hides_again() {
    let mut b = laid_board(5, 5, &[(4, 4), (0, 4)]);
    let mut last = b.hidden_tiles;
    for p in [(0u32, 0u32), (2, 2), (0, 0), (3, 3), (1, 3), (9, 9)] {
        let before = b.data.clone();
        b.reveal_at(BoardPos(p.0, p.1));
        assert!(b.hidden_tiles <= last);
        last = b.hidden_tiles;
        assert_eq!(b.hidden_tiles, hidden_in(&b));
        for (o, n) in before.iter().zip(b.data.iter()) {
            assert!(*n == *o || *n == (*o & 0x1f));
        }
    }
}

#[test]
fn chord_reveal_uncovers_around_a_satisfied_number() {
    let mut b = laid_board(3, 3, &[(0, 0)]);
    b.num_tile_reveal = true;
    assert!(!b.reveal_at(BoardPos(1, 1)));
    assert_eq!(text(b.render()), "###<br>#1#<br>###<br>");
    assert!(!b.reveal_at(BoardPos(1, 1)));
    assert_eq!(text(b.render()), "###<br>#1#<br>###<br>");
    b.flag(BoardPos(0, 0));
    assert!(!b.reveal_at(BoardPos(1, 1)));
    assert_eq!(text(b.render()), "F1 <br>11 <br>   <br>");
    assert_eq!(b.hidden_tiles, 1);
}

#[test]
fn chord_reveal_with_a_wrong_flag_hits_the_mine() {
    let mut b = laid_board(3, 3, &[(0, 0)]);
    b.num_tile_reveal = true;
    b.reveal_at(BoardPos(1, 1));
    b.flag(BoardPos(2, 2));
    assert!(b.reveal_numtile(BoardPos(1, 1)));
    assert_eq!(text(b.render()), "O##<br>#1#<br>##F<br>");
}

#[test]
fn chord_reveal_is_off_without_the_option() {
    let mut b = laid_board(3, 3, &[(0, 0)]);
    b.reveal_at(BoardPos(1, 1));
    b.flag(BoardPos(0, 0));
    assert!(!b.reveal_at(BoardPos(1, 1)));
    assert_eq!(text(b.render()), "F##<br>#1#<br>###<br>");
}

#[test]
fn flag_cycle() {
    let mut g = Game::new(conf(1, 1, 0, 1));
    g.board.flag(BoardPos(0, 0));
    assert_eq!(text(g.board.render()), "F<br>");
    g.board.flag(BoardPos(0, 0));
    assert_eq!(text(g.board.render()), "Q<br>");
    g.board.flag(BoardPos(0, 0));
    assert_eq!(text(g.board.render()), "#<br>");
}

#[test]
fn flag_leaves_revealed_tiles_alone() {
    let mut b = laid_board(2, 1, &[(1, 0)]);
    b.flood_reveal(BoardPos(0, 0));
    let before = b.data.clone();
    b.flag(BoardPos(0, 0));
    assert_eq!(b.data, before);
}

#[test]
fn grade_marks_rightly_flagged_mines_only() {
    let mut b = laid_board(3, 1, &[(0, 0), (2, 0)]);
    b.flag(BoardPos(0, 0));
    b.flag(BoardPos(1, 0));
    b.grade();
    assert_eq!(b.data[0], CORRECT);
    assert_eq!(b.data[1], HIDDEN_BIT | FLAGGED_BIT | 2);
    assert_eq!(b.data[2], MINED);
    assert_eq!(text(b.render()), "CF#<br>");
    assert_eq!(b.hidden_tiles, 3);
}

#[test]
fn grade_and_flag_read_no_count() {
    let mut b = Board {
        data: vec![0xdf, 0xc1, 0xff, 0x9f, 0x02, 0x1f],
        width: 6,
        height: 1,
        hidden_tiles: 4,
        mine_count: 4,
        num_tile_reveal: false,
    };
    b.grade();
    assert_eq!(b.data, vec![0xbf, 0xc1, 0xff, 0x9f, 0x02, 0x1f]);
    assert_eq!(b.hidden_tiles, 4);
    b.grade();
    assert_eq!(b.data, vec![0xbf, 0xc1, 0xff, 0x9f, 0x02, 0x1f]);
    b.flag(BoardPos(1, 0));
    b.flag(BoardPos(4, 0));
    assert_eq!(b.data, vec![0xbf, 0xe1, 0xff, 0x9f, 0x02, 0x1f]);
    assert_eq!((b.hidden_tiles, b.mine_count), (4, 4));
}

#[test]
fn more_mines_can_be_laid_on_a_board_that_has_some() {
    for _ in 0..20 {
        let mut b = laid_board(4, 4, &[(1, 1)]);
        b.spread_mines(3, false);
        assert_eq!(mines_in(&b), 4);
        assert_eq!(b.mine_count, 1);
        assert_eq!(b.data[5], MINED);
        assert_eq!(b.hidden_tiles, 16);
        assert_eq!(hidden_in(&b), 16);
        assert!(counts_hold(&b));
        let mut ringed = laid_board(4, 4, &[]);
        ringed.spread_mines(4, true);
        for (x, y) in [(1usize, 1usize), (2, 1), (1, 2), (2, 2)] {
            assert_eq!(ringed.data[y * 4 + x], MINED);
        }
        assert_eq!(mines_in(&ringed), 4);
    }
}

#[test]
fn moving_a_mine_goes_to_the_first_free_tile() {
    let mut b = laid_board(3, 2, &[(0, 0), (1, 1)]);
    b.move_mine_elsewhere(BoardPos(1, 1));
    assert_eq!(
        b.data,
        vec![MINED, MINED, HIDDEN_BIT | 1, HIDDEN_BIT | 2, 2, HIDDEN_BIT | 1]
    );
    assert_eq!(b.mine_count, 2);
    assert_eq!(b.hidden_tiles, 6);
    assert!(counts_hold(&b));
}

#[test]
fn moving_an_exposed_mine_leaves_the_bare_count() {
    let mut b = Board {
        data: vec![0x80, 0x80, 0x81, 0x1f],
        width: 4,
        height: 1,
        hidden_tiles: 4,
        mine_count: 1,
        num_tile_reveal: false,
    };
    b.move_mine_elsewhere(BoardPos(3, 0));
    assert_eq!(b.data, vec![0x9f, 0x81, 0x80, 0x00]);
    assert_eq!(b.hidden_tiles, 4);
    assert_eq!(b.mine_count, 1);
    let mut c = Board {
        data: vec![0x1f, 0x9f, 0x9f, 0x83],
        width: 2,
        height: 2,
        hidden_tiles: 4,
        mine_count: 3,
        num_tile_reveal: false,
    };
    c.move_mine_elsewhere(BoardPos(0, 0));
    assert_eq!(c.data, vec![0x03, 0x9f, 0x9f, 0x9f]);
    assert_eq!(c.hidden_tiles, 4);
    assert_eq!(c.mine_count, 3);
}

#[test]
fn moving_a_mine_onto_an_uncovered_tile_covers_it() {
    let mut b = Board {
        data: vec![0x00, 0x81, 0x9f],
        width: 3,
        height: 1,
        hidden_tiles: 2,
        mine_count: 1,
        num_tile_reveal: false,
    };
    b.move_mine_elsewhere(BoardPos(2, 0));
    assert_eq!(b.data, vec![0x9f, 0x81, 0x00]);
    assert_eq!(b.hidden_tiles, 2);
    b.hide_tile(BoardPos(2, 0));
    assert_eq!(b.data, vec![0x9f, 0x81, 0x80]);
    assert_eq!(b.hidden_tiles, 2);
}

#[test]
fn a_first_move_that_moves_the_mine_onto_the_ring_keeps_the_count_right() {
    let c = BoardConf {
        w: 3,
        h: 3,
        mine_ratio: (1, 1),
        always_safe_first_move: true,
        revealed_borders: true,
        reveal_on_lose: false,
        num_tile_reveal: false,
    };
    let mut g = Game::new(c);
    assert_eq!(g.board.data, vec![1, 1, 1, 1, MINED, 1, 1, 1, 1]);
    assert_eq!(g.board.hidden_tiles, 1);
    g.act(Move { t: MoveType::Reveal, pos: BoardPos(1, 1) });
    assert_eq!(g.board.data, vec![MINED, 1, 0, 1, 1, 0, 0, 0, 0]);
    assert_eq!(g.board.hidden_tiles, 1);
    assert_eq!(g.board.mine_count, 1);
    assert!(g.phase == Phase::Win);
}

#[test]
fn moving_a_mine_keeps_flags_elsewhere() {
    let mut b = laid_board(3, 1, &[(2, 0)]);
    b.flag(BoardPos(0, 0));
    b.flag(BoardPos(1, 0));
    b.flag(BoardPos(1, 0));
    b.move_mine_elsewhere(BoardPos(2, 0));
    assert_eq!(b.data, vec![MINED | FLAGGED_BIT, HIDDEN_BIT | QUESTION | 1, 0]);
}

#[test]
fn first_move_safe_remapping() {
    for _ in 0..40 {
        let mut c = conf(2, 2, 3, 4);
        c.always_safe_first_move = true;
        let mut g = Game::new(c);
        assert!(g.phase == Phase::SafeFirstMove);
        g.act(Move { t: MoveType::Reveal, pos: BoardPos(0, 0) });
        assert!(g.phase != Phase::Die);
        assert!(g.phase == Phase::Win);
        let t = g.board.data[0];
        assert_eq!(t & HIDDEN_BIT, 0);
        assert!(!is_mine(t));
        assert_eq!(t, 3);
        assert_eq!(g.board.mine_count, 3);
        assert_eq!(mines_in(&g.board), 3);
        assert_eq!(g.board.hidden_tiles, 3);
    }
}

#[test]
fn first_move_on_a_mine_moves_it_and_goes_on() {
    let c = BoardConf {
        w: 4,
        h: 4,
        mine_ratio: (1, 8),
        always_safe_first_move: true,
        revealed_borders: false,
        reveal_on_lose: false,
        num_tile_reveal: false,
    };
    let mut g = Game { phase: Phase::SafeFirstMove, board: laid_board(4, 4, &[(3, 3), (0, 3)]), board_conf: c };
    g.act(Move { t: MoveType::Reveal, pos: BoardPos(3, 3) });
    assert!(g.phase == Phase::Run);
    assert_eq!(text(g.board.render()), "#1  <br>#1  <br>#1  <br>#1  <br>");
    assert_eq!(g.board.data[0], MINED);
    assert_eq!(g.board.data[12], MINED);
    assert_eq!(g.board.mine_count, 2);
    assert_eq!(g.board.hidden_tiles, hidden_in(&g.board));
    assert!(counts_hold(&g.board));
}

#[test]
fn first_move_is_safe_on_random_boards() {
    for i in 0..60u32 {
        let mut c = conf(5, 4, 2, 5);
        c.always_safe_first_move = true;
        c.revealed_borders = i % 2 == 0;
        let mut g = Game::new(c);
        let p = BoardPos(i % 5, (i / 5) % 4);
        g.act(Move { t: MoveType::Reveal, pos: p });
        assert!(g.phase == Phase::Run || g.phase == Phase::Win);
        let t = g.board.data[(p.1 as usize) * 5 + p.0 as usize];
        assert_eq!(t & HIDDEN_BIT, 0);
        assert!(!is_mine(t));
        assert_eq!(g.board.hidden_tiles, hidden_in(&g.board));
        assert_eq!(g.board.mine_count, mines_in(&g.board));
        assert!(counts_hold(&g.board));
    }
}

#[test]
fn first_move_on_a_full_board_loses() {
    let mut c = conf(1, 1, 1, 1);
    c.always_safe_first_move = true;
    let mut g = Game::new(c);
    g.act(Move { t: MoveType::Reveal, pos: BoardPos(0, 0) });
    assert!(g.phase == Phase::Die);
    assert_eq!(g.board.data, vec![0x1f]);
}

#[test]
fn hitting_a_mine_loses_and_shows_the_mines_if_asked() {
    let mut c = conf(3, 1, 2, 3);
    c.reveal_on_lose = true;
    let mut g = Game { phase: Phase::Run, board: laid_board(3, 1, &[(0, 0), (2, 0)]), board_conf: c };
    g.act(Move { t: MoveType::Reveal, pos: BoardPos(0, 0) });
    assert!(g.phase == Phase::Die);
    assert_eq!(text(g.board.render()), "O#O<br>");
    assert_eq!(g.board.hidden_tiles, 1);
    let mut quiet = Game {
        phase: Phase::Run,
        board: laid_board(3, 1, &[(0, 0), (2, 0)]),
        board_conf: conf(3, 1, 2, 3),
    };
    quiet.act(Move { t: MoveType::Reveal, pos: BoardPos(0, 0) });
    assert!(quiet.phase == Phase::Die);
    assert_eq!(text(quiet.board.render()), "O##<br>");
}

#[test]
fn flagging_keeps_the_phase() {
    let mut c = conf(3, 3, 1, 9);
    c.always_safe_first_move = true;
    let mut g = Game::new(c);
    g.act(Move { t: MoveType::ToggleFlag, pos: BoardPos(1, 1) });
    assert!(g.phase == Phase::SafeFirstMove);
    assert_eq!(g.board.data[4] & FLAGGED_BIT, FLAGGED_BIT);
}

#[test]
fn revealing_the_last_safe_tile_wins() {
    let mut g = Game {
        phase: Phase::Run,
        board: laid_board(2, 1, &[(1, 0)]),
        board_conf: conf(2, 1, 1, 2),
    };
    g.act(Move { t: MoveType::Reveal, pos: BoardPos(0, 0) });
    assert!(g.phase == Phase::Win);
    assert_eq!(text(g.board.render()), "1#<br>");
}

#[test]
fn render_shows_each_row_with_a_break() {
    let mut b = laid_board(2, 2, &[(1, 1)]);
    b.flood_reveal(BoardPos(0, 0));
    b.flag(BoardPos(1, 1));
    assert_eq!(text(b.render()), "1#<br>#F<br>");
}
