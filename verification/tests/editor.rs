use moveset::app::{App, Selected, State};
use moveset::file::{Move, SaveFile};

fn sample_app() -> App {
    App::from_save_file(SaveFile {
        file_start: vec![0xaa],
        pokemons: vec![
            vec![Move::new(1, 5), Move::new(2, 10), Move::new(3, 20)],
            vec![],
            vec![Move::new(9, 1)],
        ],
    })
}

#[test]
fn from_save_file_starts_on_first_species() {
    let app = sample_app();
    assert_eq!(app.gui_state.current_pokemon, 0);
    assert_eq!(app.gui_state.selected, Selected::Pokemon);
}

#[test]
fn state_default_matches_initial_cursor() {
    let state = State::default();
    assert_eq!(state.current_pokemon, 0);
    assert_eq!(state.selected, Selected::Pokemon);
}

#[test]
fn select_next_cycles_species() {
    let mut app = sample_app();
    app.select_next();
    assert_eq!(app.gui_state.current_pokemon, 1);
    app.select_next();
    assert_eq!(app.gui_state.current_pokemon, 2);
    app.select_next();
    assert_eq!(app.gui_state.current_pokemon, 0);
}

#[test]
fn select_previous_cycles_species_backwards() {
    let mut app = sample_app();
    app.select_previous();
    assert_eq!(app.gui_state.current_pokemon, 2);
    app.select_previous();
    assert_eq!(app.gui_state.current_pokemon, 1);
}

#[test]
fn select_right_enters_move_pane() {
    let mut app = sample_app();
    app.select_right();
    assert_eq!(app.gui_state.selected, Selected::Move(0));
    app.select_left();
    assert_eq!(app.gui_state.selected, Selected::Pokemon);
}

#[test]
fn select_right_without_moves_stays_put() {
    let mut app = sample_app();
    app.select_next(); // species 1 has no moves
    app.select_right();
    assert_eq!(app.gui_state.selected, Selected::Pokemon);
}

#[test]
fn select_next_cycles_move_rows() {
    let mut app = sample_app();
    app.select_right();
    app.select_next();
    assert_eq!(app.gui_state.selected, Selected::Move(1));
    app.select_next();
    assert_eq!(app.gui_state.selected, Selected::Move(2));
    app.select_next();
    assert_eq!(app.gui_state.selected, Selected::Move(0));
    app.select_previous();
    assert_eq!(app.gui_state.selected, Selected::Move(2));
    assert_eq!(app.gui_state.current_pokemon, 0);
}

#[test]
fn get_moves_follows_cursor() {
    let mut app = sample_app();
    assert_eq!(app.get_moves().len(), 3);
    app.select_next();
    assert_eq!(app.get_moves().len(), 0);
}

#[test]
fn delete_move_selected_removes_cursor_row() {
    let mut app = sample_app();
    app.select_right();
    app.select_next(); // row 1: {2, 10}
    app.delete_move_selected();
    assert_eq!(
        app.save_file.pokemons[0],
        vec![Move::new(1, 5), Move::new(3, 20)]
    );
    assert_eq!(app.gui_state.selected, Selected::Move(1));
}

#[test]
fn delete_move_selected_clamps_to_last_row() {
    let mut app = sample_app();
    app.select_right();
    app.select_next();
    app.select_next(); // row 2, the last one
    app.delete_move_selected();
    assert_eq!(app.gui_state.selected, Selected::Move(1));
}

#[test]
fn delete_move_selected_leaves_empty_list_for_species_pane() {
    let mut app = App::from_save_file(SaveFile {
        file_start: vec![],
        pokemons: vec![vec![Move::new(1, 5)]],
    });
    app.select_right();
    app.delete_move_selected();
    assert!(app.save_file.pokemons[0].is_empty());
    assert_eq!(app.gui_state.selected, Selected::Pokemon);
}

#[test]
fn delete_move_selected_on_species_pane_is_a_no_op() {
    let mut app = sample_app();
    app.delete_move_selected();
    assert_eq!(app.save_file.pokemons[0].len(), 3);
    assert_eq!(app.gui_state.selected, Selected::Pokemon);
}
