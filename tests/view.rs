use connect4::game::{Options, RulesVariation, Token};
use connect4::player::HumanPlayer;
use connect4::view::{BoardView, Command};

fn fresh() -> BoardView {
    BoardView::new(Options { rules: RulesVariation::Classic })
}

#[test]
fn view_starts_empty() {
    let v = fresh();
    assert_eq!(v.overlay().len(), 42);
    assert!(v.overlay().iter().all(|t| *t == Token::Invalid));
    assert_eq!(v.focus(), 0);
    assert_eq!(v.winner(), Token::Invalid);
    assert!(v.winner_plays().is_empty());
    assert_eq!(v.board().current_token, Token::Red);
}

#[test]
fn cell_id_is_row_major() {
    let v = fresh();
    assert_eq!(v.cell_id(0, 0), 0);
    assert_eq!(v.cell_id(2, 1), 9);
    assert_eq!(v.cell_id(6, 5), 41);
}

#[test]
fn focus_stops_at_edges() {
    let mut v = fresh();
    assert!(v.on_command(Command::Left));
    assert_eq!(v.focus(), 0);
    for _ in 0..10 {
        assert!(v.on_command(Command::Right));
    }
    assert_eq!(v.focus(), 6);
    assert!(v.on_command(Command::Left));
    assert_eq!(v.focus(), 5);
}

#[test]
fn commit_places_token_and_passes_turn() {
    let mut v = fresh();
    assert!(v.on_command(Command::Right));
    assert!(v.on_command(Command::Commit));
    assert_eq!(v.overlay()[1], Token::Red);
    assert_eq!(v.board().current_token, Token::Yellow);
    assert!(v.on_command(Command::Commit));
    assert_eq!(v.overlay()[8], Token::Yellow);
    assert_eq!(v.board().token_at(1, 1), Some(Token::Yellow));
}

#[test]
fn commit_on_full_column_is_refused() {
    let mut v = fresh();
    for _ in 0..6 {
        assert!(v.on_command(Command::Commit));
    }
    let before = v.overlay().clone();
    assert!(!v.on_command(Command::Commit));
    assert_eq!(v.overlay(), &before);
    assert_eq!(v.board().current_token, Token::Red);
}

#[test]
fn winner_stops_the_game() {
    let mut v = fresh();
    // Red plays column 0, Yellow column 1, four times over.
    for i in 0..7 {
        if i % 2 == 0 {
            while v.focus() > 0 {
                v.on_command(Command::Left);
            }
        } else {
            v.on_command(Command::Right);
        }
        assert!(v.on_command(Command::Commit));
        assert_eq!(v.winner(), if i == 6 { Token::Red } else { Token::Invalid });
    }
    assert!(!v.on_command(Command::Commit));
    assert!(!v.on_command(Command::Right));
    assert_eq!(v.overlay()[21], Token::Red);
    assert_eq!(v.winner_plays(), &vec![(0, 0), (0, 1), (0, 2), (0, 3)]);
}

#[test]
fn human_player_keeps_name() {
    let p = HumanPlayer::new("Ada");
    assert_eq!(p.name(), "Ada");
}
