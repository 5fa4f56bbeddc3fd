use bit_checkers::{Board, Move, Piece, Player1, Player2, Position};

fn piece(player: bit_checkers::Player, king: bool, x: u32, y: u32) -> Piece {
    Piece {
        player,
        king,
        position: Position(x, y),
    }
}

#[test]
fn should_move_pieces() {
    let board = Board::new();
    let board2 = board.clone().move_piece(
        Player2,
        Move {
            from: Position(0, 5),
            to: Position(1, 4),
        },
    );
    let board3 = board2.clone().move_piece(
        Player1,
        Move {
            from: Position(5, 2),
            to: Position(4, 3),
        },
    );

    assert_eq!(board.piece_at(Position(0, 5)).unwrap().player, Player2);
    assert!(board2.piece_at(Position(0, 5)).is_none());
    assert!(board3.piece_at(Position(0, 5)).is_none());
    assert!(board.piece_at(Position(1, 4)).is_none());
    assert_eq!(board2.piece_at(Position(1, 4)).unwrap().player, Player2);
    assert_eq!(board2.piece_at(Position(1, 4)).unwrap().king, false);
    assert_eq!(board3.piece_at(Position(1, 4)).unwrap().player, Player2);

    assert_eq!(board.piece_at(Position(5, 2)).unwrap().player, Player1);
    assert_eq!(board2.piece_at(Position(5, 2)).unwrap().player, Player1);
    assert!(board3.piece_at(Position(5, 2)).is_none());
    assert!(board.piece_at(Position(4, 3)).is_none());
    assert!(board2.piece_at(Position(4, 3)).is_none());
    assert_eq!(board3.piece_at(Position(4, 3)).unwrap().player, Player1);
    assert_eq!(board3.piece_at(Position(4, 3)).unwrap().king, false);
}

#[test]
fn should_king_pieces() {
    let board = Board::new_with_pieces(vec![
        Piece {
            player: Player1,
            king: false,
            position: Position(5, 6),
        },
        Piece {
            player: Player2,
            king: false,
            position: Position(2, 1),
        },
    ]);
    let board2 = board
        .move_piece(
            Player1,
            Move {
                from: Position(5, 6),
                to: Position(6, 7),
            },
        )
        .move_piece(
            Player2,
            Move {
                from: Position(2, 1),
                to: Position(1, 0),
            },
        );
    let pieces: Vec<Piece> = board2.pieces_iter();
    assert_eq!(pieces.len(), 2);
    assert!(pieces.contains(&Piece {
        position: Position(6, 7),
        player: Player1,
        king: true
    }));
    assert!(pieces.contains(&Piece {
        position: Position(1, 0),
        player: Player2,
        king: true
    }));
}

#[test]
fn should_get_normal_moves() {
    let board = Board::new_with_pieces(vec![
        Piece {
            player: Player1,
            king: true,
            position: Position(3, 0),
        },
        Piece {
            player: Player1,
            king: false,
            position: Position(0, 3),
        },
        Piece {
            player: Player1,
            king: false,
            position: Position(7, 4),
        },
        Piece {
            player: Player1,
            king: false,
            position: Position(4, 5),
        },
        Piece {
            player: Player1,
            king: true,
            position: Position(3, 6),
        },
        Piece {
            player: Player1,
            king: true,
            position: Position(4, 7),
        },
        Piece {
            player: Player2,
            king: true,
            position: Position(5, 0),
        },
        Piece {
            player: Player2,
            king: true,
            position: Position(3, 4),
        },
        Piece {
            player: Player2,
            king: false,
            position: Position(2, 5),
        },
    ]);

    let player1_moves: Vec<Move> = board.normal_moves(Player1);
    let player2_moves: Vec<Move> = board.normal_moves(Player2);

    assert_eq!(player1_moves.len(), 7);
    assert!(player1_moves.contains(&Move::new(Position(3, 0), (-1, 1))));
    assert!(player1_moves.contains(&Move::new(Position(3, 0), (1, 1))));
    assert!(player1_moves.contains(&Move::new(Position(0, 3), (1, 1))));
    assert!(player1_moves.contains(&Move::new(Position(7, 4), (-1, 1))));
    assert!(player1_moves.contains(&Move::new(Position(4, 5), (1, 1))));
    assert!(player1_moves.contains(&Move::new(Position(3, 6), (-1, 1))));
    assert!(player1_moves.contains(&Move::new(Position(4, 7), (1, -1))));

    assert_eq!(player2_moves.len(), 5);
    assert!(player2_moves.contains(&Move::new(Position(5, 0), (1, 1))));
    assert!(player2_moves.contains(&Move::new(Position(5, 0), (-1, 1))));
    assert!(player2_moves.contains(&Move::new(Position(3, 4), (1, -1))));
    assert!(player2_moves.contains(&Move::new(Position(3, 4), (-1, -1))));
    assert!(player2_moves.contains(&Move::new(Position(2, 5), (-1, -1))));
}

#[test]
fn should_get_jump_moves() {
    let board = Board::new_with_pieces(vec![
        Piece {
            player: Player1,
            king: true,
            position: Position(0, 5),
        },
        Piece {
            player: Player1,
            king: false,
            position: Position(2, 5),
        },
        Piece {
            player: Player1,
            king: false,
            position: Position(3, 6),
        },
        Piece {
            player: Player1,
            king: true,
            position: Position(0, 7),
        },
        Piece {
            player: Player2,
            king: true,
            position: Position(1, 4),
        },
        Piece {
            player: Player2,
            king: false,
            position: Position(1, 6),
        },
        Piece {
            player: Player2,
            king: false,
            position: Position(4, 7),
        },
    ]);

    let player1_moves: Vec<Move> = board.jump_moves(Player1);
    let player2_moves: Vec<Move> = board.jump_moves(Player2);

    assert_eq!(player1_moves.len(), 2);
    assert!(player1_moves.contains(&Move::new(Position(0, 5), (2, -2))));
    assert!(player1_moves.contains(&Move::new(Position(0, 5), (2, 2))));

    assert_eq!(player2_moves.len(), 1);
    assert!(player2_moves.contains(&Move::new(Position(1, 6), (2, -2))));
}

#[test]
fn initial_board_has_seven_forward_steps_and_no_jumps() {
    let board = Board::new();
    let steps = board.normal_moves(Player1);
    assert_eq!(steps.len(), 7);
    for m in &steps {
        assert_eq!(m.from.1, 2);
        assert_eq!(m.to.1, 3);
    }
    // down-left first, then down-right, each in ascending order of origin
    assert_eq!(
        steps,
        vec![
            Move::new(Position(1, 2), (-1, 1)),
            Move::new(Position(3, 2), (-1, 1)),
            Move::new(Position(5, 2), (-1, 1)),
            Move::new(Position(7, 2), (-1, 1)),
            Move::new(Position(1, 2), (1, 1)),
            Move::new(Position(3, 2), (1, 1)),
            Move::new(Position(5, 2), (1, 1)),
        ]
    );
    assert_eq!(board.normal_moves(Player2).len(), 7);
    assert!(board.jump_moves(Player1).is_empty());
    assert!(board.jump_moves(Player2).is_empty());
}

#[test]
fn initial_board_layout() {
    let board = Board::new();
    let pieces = board.pieces_iter();
    assert_eq!(pieces.len(), 24);
    assert_eq!(pieces[0], piece(Player1, false, 1, 0));
    assert_eq!(pieces[11], piece(Player1, false, 7, 2));
    assert_eq!(pieces[12], piece(Player2, false, 0, 5));
    assert_eq!(pieces[23], piece(Player2, false, 6, 7));
    for p in &pieces {
        assert_ne!(p.position.0 % 2, p.position.1 % 2);
        assert!(!p.king);
    }
    assert!(board.piece_at(Position(0, 0)).is_none());
    assert!(board.piece_at(Position(1, 4)).is_none());
}

#[test]
fn promotion_leaves_the_earlier_board_unchanged() {
    let board = Board::new_with_pieces(vec![piece(Player1, false, 1, 6), piece(Player2, false, 6, 1)]);
    let crowned = board.clone().move_piece(
        Player1,
        Move {
            from: Position(1, 6),
            to: Position(0, 7),
        },
    );
    assert_eq!(crowned.piece_at(Position(0, 7)), Some(piece(Player1, true, 0, 7)));
    assert!(crowned.piece_at(Position(1, 6)).is_none());
    assert_eq!(board.piece_at(Position(1, 6)), Some(piece(Player1, false, 1, 6)));
    assert!(board.piece_at(Position(0, 7)).is_none());

    let crowned2 = board.clone().move_piece(
        Player2,
        Move {
            from: Position(6, 1),
            to: Position(7, 0),
        },
    );
    assert_eq!(crowned2.piece_at(Position(7, 0)), Some(piece(Player2, true, 7, 0)));
    assert_eq!(board.piece_at(Position(6, 1)), Some(piece(Player2, false, 6, 1)));
}

#[test]
fn a_man_short_of_the_last_row_stays_a_man() {
    let board = Board::new_with_pieces(vec![piece(Player1, false, 1, 4), piece(Player2, false, 6, 3)]);
    let moved = board.move_piece(
        Player1,
        Move {
            from: Position(1, 4),
            to: Position(2, 5),
        },
    );
    assert_eq!(moved.piece_at(Position(2, 5)), Some(piece(Player1, false, 2, 5)));
    let moved = moved.move_piece(
        Player2,
        Move {
            from: Position(6, 3),
            to: Position(7, 2),
        },
    );
    assert_eq!(moved.piece_at(Position(7, 2)), Some(piece(Player2, false, 7, 2)));
}

#[test]
fn a_king_keeps_its_crown_when_it_moves() {
    let board = Board::new_with_pieces(vec![piece(Player2, true, 3, 2), piece(Player1, false, 0, 1)]);
    let moved = board.move_piece(
        Player2,
        Move {
            from: Position(3, 2),
            to: Position(4, 3),
        },
    );
    assert_eq!(moved.piece_at(Position(4, 3)), Some(piece(Player2, true, 4, 3)));
    assert!(moved.piece_at(Position(3, 2)).is_none());
}

#[test]
fn winner_when_a_side_has_no_piece() {
    assert_eq!(Board::new().winner(), None);
    let only_first = Board::new_with_pieces(vec![piece(Player1, false, 5, 6)]);
    assert_eq!(only_first.winner(), Some(Player1));
    let only_second = Board::new_with_pieces(vec![piece(Player2, true, 2, 1)]);
    assert_eq!(only_second.winner(), Some(Player2));
    // with no piece at all the first side is looked at first
    let nobody = Board::new_with_pieces(vec![]);
    assert_eq!(nobody.winner(), Some(Player2));
}

#[test]
fn pieces_round_trip() {
    let input = vec![
        piece(Player2, true, 7, 6),
        piece(Player1, false, 0, 1),
        piece(Player1, true, 3, 4),
        piece(Player2, false, 2, 3),
        piece(Player1, false, 6, 7),
    ];
    let board = Board::new_with_pieces(input.clone());
    let listed = board.pieces_iter();
    assert_eq!(listed.len(), input.len());
    for p in &input {
        assert!(listed.contains(p));
    }
    // first side first, each side in ascending order of cell
    assert_eq!(
        listed,
        vec![
            piece(Player1, false, 0, 1),
            piece(Player1, true, 3, 4),
            piece(Player1, false, 6, 7),
            piece(Player2, false, 2, 3),
            piece(Player2, true, 7, 6),
        ]
    );
}

#[test]
fn piece_at_reports_player_and_crown() {
    let board = Board::new_with_pieces(vec![
        piece(Player1, true, 1, 0),
        piece(Player1, false, 3, 0),
        piece(Player2, true, 0, 7),
        piece(Player2, false, 2, 7),
    ]);
    assert_eq!(board.piece_at(Position(1, 0)), Some(piece(Player1, true, 1, 0)));
    assert_eq!(board.piece_at(Position(3, 0)), Some(piece(Player1, false, 3, 0)));
    assert_eq!(board.piece_at(Position(0, 7)), Some(piece(Player2, true, 0, 7)));
    assert_eq!(board.piece_at(Position(2, 7)), Some(piece(Player2, false, 2, 7)));
    assert_eq!(board.piece_at(Position(5, 0)), None);
}

#[test]
fn king_on_the_left_edge_jumps_both_ways() {
    let board = Board::new_with_pieces(vec![
        piece(Player1, true, 0, 5),
        piece(Player2, false, 1, 4),
        piece(Player2, false, 1, 6),
    ]);
    let jumps = board.jump_moves(Player1);
    assert!(jumps.contains(&Move {
        from: Position(0, 5),
        to: Position(2, 3)
    }));
    assert!(jumps.contains(&Move {
        from: Position(0, 5),
        to: Position(2, 7)
    }));
    assert_eq!(jumps.len(), 2);
    // the men of the second side cannot jump the king: they move up only,
    // and the cell behind the king is off the board
    assert!(board.jump_moves(Player2).is_empty());
}

#[test]
fn edge_pieces_do_not_wrap_to_the_other_side() {
    // a man on the right edge and one on the left edge
    let board = Board::new_with_pieces(vec![piece(Player1, false, 7, 2), piece(Player1, false, 0, 3)]);
    let steps = board.normal_moves(Player1);
    assert_eq!(
        steps,
        vec![
            Move::new(Position(7, 2), (-1, 1)),
            Move::new(Position(0, 3), (1, 1)),
        ]
    );
    let board = Board::new_with_pieces(vec![
        piece(Player1, false, 0, 1),
        piece(Player2, false, 1, 2),
        piece(Player2, false, 2, 3),
    ]);
    assert!(board.jump_moves(Player1).is_empty());
    assert!(board.jump_moves(Player2).is_empty());
}

#[test]
fn blocked_pieces_have_no_steps() {
    let board = Board::new_with_pieces(vec![
        piece(Player1, false, 1, 0),
        piece(Player2, false, 0, 1),
        piece(Player2, false, 2, 1),
        piece(Player2, false, 3, 2),
    ]);
    assert!(board.normal_moves(Player1).is_empty());
    let jumps = board.jump_moves(Player1);
    assert_eq!(jumps, vec![]);
    let board = Board::new_with_pieces(vec![
        piece(Player1, false, 1, 0),
        piece(Player2, false, 2, 1),
    ]);
    assert_eq!(board.jump_moves(Player1), vec![Move::new(Position(1, 0), (2, 2))]);
}

#[test]
fn move_new_adds_the_offset() {
    let m = Move::new(Position(4, 5), (-2, 2));
    assert_eq!(m.from, Position(4, 5));
    assert_eq!(m.to, Position(2, 7));
}

#[test]
fn validity_of_boards() {
    let board = Board::new();
    assert!(board.is_valid());
    let onto_light = board.clone().move_piece(
        Player1,
        Move {
            from: Position(1, 0),
            to: Position(0, 0),
        },
    );
    assert!(!onto_light.is_valid());
    let onto_opponent = board.clone().move_piece(
        Player1,
        Move {
            from: Position(1, 2),
            to: Position(0, 5),
        },
    );
    assert!(!onto_opponent.is_valid());
    // every generated move keeps the board valid
    for player in [Player1, Player2] {
        for m in board.normal_moves(player) {
            assert!(board.clone().move_piece(player, m).is_valid());
        }
    }
}
