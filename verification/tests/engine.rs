use sokoban::game::attempt_move;
use sokoban::game::Game;
use sokoban::game::History;
use sokoban::loader::get_board_dimensions;
use sokoban::loader::group_sokoban_tokens;
use sokoban::loader::parse_sokoban_worlds;
use sokoban::loader::tokenize;
use sokoban::menu::update;
use sokoban::menu::MenuAction;
use sokoban::menu::Model;
use sokoban::menu::RunningState;
use sokoban::Coordinate;
use sokoban::Direction;
use sokoban::Entity;
use sokoban::Tile;
use sokoban::World;

fn parse_one(text: &str) -> World {
    let worlds = parse_sokoban_worlds(text).expect("parse failed");
    assert_eq!(worlds.len(), 1);
    worlds.into_iter().next().unwrap()
}

fn player_of(w: &World) -> Coordinate {
    for e in &w.entities {
        if let Entity::Player(c) = e {
            return *c;
        }
    }
    panic!("no player");
}

fn boxes_of(w: &World) -> Vec<Coordinate> {
    let mut r = Vec::new();
    for e in &w.entities {
        if let Entity::SokoBox(c) = e {
            r.push(*c);
        }
    }
    r
}

const PUSH_LEVEL: &str = "; Push\n#####\n#@$ #\n#####\n";

#[test]
fn round_trip_geometry() {
    let w = parse_one("; Geometry\n###\n#.\n+*$@ #\n");
    // three rows, the longest six columns wide
    assert_eq!(w.board.rows(), 3);
    assert_eq!(w.board.cols(), 6);
    // first row: three walls, then padding
    assert_eq!(w.board.get(0, 0), Tile::Wall);
    assert_eq!(w.board.get(0, 1), Tile::Wall);
    assert_eq!(w.board.get(0, 2), Tile::Wall);
    assert_eq!(w.board.get(0, 3), Tile::Empty);
    assert_eq!(w.board.get(0, 4), Tile::Empty);
    assert_eq!(w.board.get(0, 5), Tile::Empty);
    // second row: wall, goal, padding
    assert_eq!(w.board.get(1, 0), Tile::Wall);
    assert_eq!(w.board.get(1, 1), Tile::Goal);
    assert_eq!(w.board.get(1, 2), Tile::Empty);
    // third row: player-on-goal, box-on-goal, box, player, floor, wall
    assert_eq!(w.board.get(2, 0), Tile::Goal);
    assert_eq!(w.board.get(2, 1), Tile::Goal);
    assert_eq!(w.board.get(2, 2), Tile::Empty);
    assert_eq!(w.board.get(2, 3), Tile::Empty);
    assert_eq!(w.board.get(2, 4), Tile::Empty);
    assert_eq!(w.board.get(2, 5), Tile::Wall);
    // entities, in walk order
    assert_eq!(w.entities.len(), 4);
    assert!(matches!(w.entities[0], Entity::Player(Coordinate { x: 0, y: 2 })));
    assert!(matches!(w.entities[1], Entity::SokoBox(Coordinate { x: 1, y: 2 })));
    assert!(matches!(w.entities[2], Entity::SokoBox(Coordinate { x: 2, y: 2 })));
    assert!(matches!(w.entities[3], Entity::Player(Coordinate { x: 3, y: 2 })));
}

#[test]
fn dimensions_of_tokens() {
    let toks = tokenize("## #\n#\n###\n").expect("tokenize failed");
    let dims = get_board_dimensions(&toks);
    assert_eq!(dims, (4, 3));
}

#[test]
fn grouping_splits_at_titles() {
    let toks = tokenize("; One\n#\n; Two\n##\n###\n").expect("tokenize failed");
    let groups = group_sokoban_tokens(toks);
    assert_eq!(groups.len(), 2);
    assert_eq!(groups[0].len(), 3);
    assert_eq!(groups[1].len(), 8);
}

#[test]
fn title_extraction() {
    let w = parse_one("; Level One\n#@#\n");
    assert_eq!(w.name, "Level One");
}

#[test]
fn short_title_line_is_empty_title() {
    let worlds = parse_sokoban_worlds(";\n#@#\n").expect("parse failed");
    assert_eq!(worlds.len(), 1);
    assert_eq!(worlds[0].name, "");
}

#[test]
fn crlf_lines_parse_like_lf_lines() {
    let w = parse_one("; Windows\r\n#@#\r\n");
    assert_eq!(w.name, "Windows");
    assert_eq!(w.board.rows(), 1);
    assert_eq!(w.board.cols(), 3);
}

#[test]
fn leading_tokens_without_title_are_dropped() {
    let worlds = parse_sokoban_worlds("###\n; Real\n#@#\n").expect("parse failed");
    assert_eq!(worlds.len(), 1);
    assert_eq!(worlds[0].name, "Real");
}

#[test]
fn empty_input_yields_no_worlds() {
    let worlds = parse_sokoban_worlds("").expect("parse failed");
    assert_eq!(worlds.len(), 0);
    let worlds = parse_sokoban_worlds("\n\n").expect("parse failed");
    assert_eq!(worlds.len(), 0);
}

#[test]
fn malformed_character_rejects_whole_parse() {
    match parse_sokoban_worlds("; Bad\n#%#\n") {
        Err(message) => assert_eq!(message, "Level failed to load"),
        Ok(_) => panic!("parse accepted a bad character"),
    }
    // even a level after a good one poisons the whole call
    assert!(parse_sokoban_worlds("; Good\n#@#\n; Bad\n#q#\n").is_err());
}

#[test]
fn wall_blocking() {
    let w = parse_one(PUSH_LEVEL);
    // up from (1,1) is a wall
    assert!(attempt_move(&w, Direction::Up).is_none());
    assert!(attempt_move(&w, Direction::Down).is_none());
    assert!(attempt_move(&w, Direction::Left).is_none());
    assert_eq!(player_of(&w), Coordinate { x: 1, y: 1 });
}

#[test]
fn simple_push() {
    let w = parse_one(PUSH_LEVEL);
    assert_eq!(player_of(&w), Coordinate { x: 1, y: 1 });
    assert_eq!(boxes_of(&w), vec![Coordinate { x: 2, y: 1 }]);
    let w2 = attempt_move(&w, Direction::Right).expect("push failed");
    assert_eq!(player_of(&w2), Coordinate { x: 2, y: 1 });
    assert_eq!(boxes_of(&w2), vec![Coordinate { x: 3, y: 1 }]);
    // the board itself never changes
    assert_eq!(w2.board.get(1, 3), Tile::Empty);
}

#[test]
fn blocked_push() {
    let w = parse_one("; Blocked\n#####\n#@$##\n#####\n");
    assert!(attempt_move(&w, Direction::Right).is_none());
    assert_eq!(player_of(&w), Coordinate { x: 1, y: 1 });
    assert_eq!(boxes_of(&w), vec![Coordinate { x: 2, y: 1 }]);
}

#[test]
fn double_box_push_rejected() {
    let w = parse_one("; Chain\n######\n#@$$ #\n######\n");
    assert!(attempt_move(&w, Direction::Right).is_none());
    assert_eq!(boxes_of(&w), vec![Coordinate { x: 2, y: 1 }, Coordinate { x: 3, y: 1 }]);
}

#[test]
fn push_into_edge_clamp_rejected() {
    // the player stands at the left edge; moving left cannot change its cell
    let w = parse_one("; Edge\n@ \n");
    assert!(attempt_move(&w, Direction::Left).is_none());
    assert!(attempt_move(&w, Direction::Up).is_none());
    // moving off the bottom edge leads off the board
    assert!(attempt_move(&w, Direction::Down).is_none());
    // a plain move onto floor works
    let w2 = attempt_move(&w, Direction::Right).expect("move failed");
    assert_eq!(player_of(&w2), Coordinate { x: 1, y: 0 });
}

#[test]
fn undo_restores_start() {
    let w = parse_one("; Walk\n#####\n#@  #\n#####\n");
    let mut game = Game::new(w.duplicate());
    assert!(game.try_move(Direction::Right));
    assert!(game.try_move(Direction::Right));
    assert_eq!(player_of(&game.world), Coordinate { x: 3, y: 1 });
    assert!(game.undo_move());
    assert!(game.undo_move());
    assert!(game.world.same_state(&w));
    // one more undo is a no-op
    assert!(!game.undo_move());
    assert!(game.world.same_state(&w));
}

#[test]
fn reset_semantics() {
    let w = parse_one("; Walk\n#####\n#@  #\n#####\n");
    let mut game = Game::new(w.duplicate());
    assert!(game.try_move(Direction::Right));
    assert!(game.try_move(Direction::Right));
    let before_reset = game.world.duplicate();
    game.reset_game();
    // reset jumps to the first-ever recorded world
    assert!(game.world.same_state(&w));
    // and one undo returns to the pre-reset state
    assert!(game.undo_move());
    assert!(game.world.same_state(&before_reset));
}

#[test]
fn illegal_moves_are_idempotent() {
    let w = parse_one(PUSH_LEVEL);
    let mut game = Game::new(w.duplicate());
    for _ in 0..3 {
        assert!(!game.try_move(Direction::Up));
        assert_eq!(game.history.len(), 0);
        assert!(game.world.same_state(&w));
    }
}

#[test]
fn history_record_undo_reset() {
    let a = parse_one("; A\n#@#\n");
    let b = parse_one("; B\n#@$ #\n");
    let mut h = History::new();
    assert!(h.undo().is_none());
    h.record(a.duplicate());
    h.record(b.duplicate());
    assert_eq!(h.len(), 2);
    let popped = h.undo().expect("undo failed");
    assert!(popped.same_state(&b));
    // reset records the current world and returns the oldest snapshot
    let back = h.reset(b.duplicate());
    assert!(back.same_state(&a));
    assert_eq!(h.len(), 2);
    // reset on an empty history returns the current world itself
    let mut h2 = History::new();
    let same = h2.reset(a.duplicate());
    assert!(same.same_state(&a));
    assert_eq!(h2.len(), 1);
}

#[test]
fn menu_update_switches_screens() {
    let mut model = Model { counter: 7, running_state: RunningState::Menu };
    assert!(update(&mut model, MenuAction::StartGame).is_none());
    assert_eq!(model.running_state, RunningState::Game);
    assert_eq!(model.counter, 7);
    assert!(update(&mut model, MenuAction::Quit).is_none());
    assert_eq!(model.running_state, RunningState::Done);
}

#[test]
fn multiple_levels_parse_in_order() {
    let text = "; First\n#@#\n\n; Second\n#####\n#@$.#\n#####\n";
    let worlds = parse_sokoban_worlds(text).expect("parse failed");
    assert_eq!(worlds.len(), 2);
    assert_eq!(worlds[0].name, "First");
    assert_eq!(worlds[1].name, "Second");
    assert_eq!(worlds[1].board.get(1, 3), Tile::Goal);
}
