//! Interactive selection state over a parsed save file: which species and
//! which of its moves the cursor rests on, and how the cursor moves.  The
//! rendering and the key handling around it live outside the library; every
//! state change is decided here.

use crate::file::Move;
use crate::file::SaveFile;
use vstd::prelude::*;

verus! {

/// `i + 1`, wrapped to 0 at `n`.
pub open spec fn wrap_inc(i: int, n: int) -> int {
    if i + 1 >= n {
        0
    } else {
        i + 1
    }
}

/// `i - 1`, wrapped to `n - 1` below 0.
pub open spec fn wrap_dec(i: int, n: int) -> int {
    if i == 0 {
        n - 1
    } else {
        i - 1
    }
}

/// Which pane holds the cursor: the species list, or a row of the current
/// species' move list.
#[derive(Debug, Clone, Copy, PartialEq, Eq, Structural)]
pub enum Selected {
    Pokemon,
    Move(usize),
}

/// The cursor: the species it rests on and the pane (and move row) selected.
#[derive(Debug, Clone, Copy, PartialEq, Eq, Structural)]
pub struct State {
    pub current_pokemon: usize,
    pub selected: Selected,
}

impl Default for State {
    /// The initial cursor: the first species, species pane selected.
    fn default() -> (r: State)
        ensures
            r == (State { current_pokemon: 0usize, selected: Selected::Pokemon }),
    {
        State { current_pokemon: 0, selected: Selected::Pokemon }
    }
}

impl State {
    /// Move the cursor one row down: to the next move row (wrapping within
    /// `max_move_len`) when the move pane is selected, else to the next
    /// species (wrapping within `pokemon_count`).
    pub fn next(&mut self, max_move_len: usize, pokemon_count: usize)
        requires
            old(self).selected matches Selected::Move(i) ==> i < max_move_len,
            old(self).selected is Pokemon ==> old(self).current_pokemon < pokemon_count,
        ensures
            final(self).selected == (match old(self).selected {
                Selected::Move(i) => Selected::Move(
                    wrap_inc(i as int, max_move_len as int) as usize,
                ),
                Selected::Pokemon => Selected::Pokemon,
            }),
            final(self).current_pokemon == (match old(self).selected {
                Selected::Move(i) => old(self).current_pokemon as int,
                Selected::Pokemon => wrap_inc(
                    old(self).current_pokemon as int,
                    pokemon_count as int,
                ),
            }),
    {
        if let Selected::Move(index) = self.selected {
            let index = index + 1;
            self.selected = Selected::Move(
                if index >= max_move_len {
                    0
                } else {
                    index
                },
            );
        } else {
            self.next_pokemon(pokemon_count);
        }
    }

    /// Move the cursor one row up, wrapping to the last row: the mirror of
    /// [`State::next`].
    pub fn previous(&mut self, max_move_len: usize, pokemon_count: usize)
        requires
            old(self).selected is Move ==> max_move_len >= 1,
            old(self).selected is Pokemon ==> pokemon_count >= 1,
        ensures
            final(self).selected == (match old(self).selected {
                Selected::Move(i) => Selected::Move(
                    wrap_dec(i as int, max_move_len as int) as usize,
                ),
                Selected::Pokemon => Selected::Pokemon,
            }),
            final(self).current_pokemon == (match old(self).selected {
                Selected::Move(i) => old(self).current_pokemon as int,
                Selected::Pokemon => wrap_dec(
                    old(self).current_pokemon as int,
                    pokemon_count as int,
                ),
            }),
    {
        if let Selected::Move(index) = self.selected {
            self.selected = Selected::Move(
                if index == 0 {
                    max_move_len - 1
                } else {
                    index - 1
                },
            );
        } else {
            self.previous_pokemon(pokemon_count);
        }
    }

    /// Step to the next species, wrapping to the first past `pokemon_count`.
    pub fn next_pokemon(&mut self, pokemon_count: usize)
        requires
            old(self).current_pokemon < pokemon_count,
        ensures
            final(self).current_pokemon == wrap_inc(
                old(self).current_pokemon as int,
                pokemon_count as int,
            ),
            final(self).selected == old(self).selected,
    {
        self.current_pokemon = self.current_pokemon + 1;
        if self.current_pokemon >= pokemon_count {
            self.current_pokemon = 0;
        }
    }

    /// Step to the previous species, wrapping to the last below the first.
    pub fn previous_pokemon(&mut self, pokemon_count: usize)
        requires
            pokemon_count >= 1,
        ensures
            final(self).current_pokemon == wrap_dec(
                old(self).current_pokemon as int,
                pokemon_count as int,
            ),
            final(self).selected == old(self).selected,
    {
        self.current_pokemon = match self.current_pokemon.checked_sub(1) {
            Some(value) => value,
            None => pokemon_count - 1,
        };
    }

    /// Put the cursor on the species pane.
    pub fn select_pokemon(&mut self)
        ensures
            final(self).selected == Selected::Pokemon,
            final(self).current_pokemon == old(self).current_pokemon,
    {
        self.selected = Selected::Pokemon;
    }

    /// Put the cursor on the first row of the move pane.
    pub fn select_moves(&mut self)
        ensures
            final(self).selected == Selected::Move(0usize),
            final(self).current_pokemon == old(self).current_pokemon,
    {
        self.selected = Selected::Move(0);
    }
}

/// The editor: the parsed save file together with the cursor over it.
pub struct App {
    pub save_file: SaveFile,
    pub gui_state: State,
}

impl App {
    /// The cursor is in bounds: it rests on a parsed species, and on an
    /// existing move row whenever the move pane is selected.
    pub open spec fn wf(self) -> bool {
        &&& self.save_file.species().len() > 0
        &&& (self.gui_state.current_pokemon as int) < self.save_file.species().len()
        &&& (self.gui_state.selected matches Selected::Move(i) ==> (i as int)
            < self.current_moves().len())
    }

    /// The move list of the species the cursor rests on.
    pub open spec fn current_moves(self) -> Seq<Move> {
        self.save_file.species()[self.gui_state.current_pokemon as int]
    }

    /// Start editing a parsed save file, cursor on the first species.  The
    /// roster must be non-empty; that its size matches the external species
    /// table is the caller's external invariant, not checked here.
    pub fn from_save_file(save_file: SaveFile) -> (r: App)
        requires
            save_file.species().len() > 0,
        ensures
            r.save_file == save_file,
            r.gui_state == (State { current_pokemon: 0usize, selected: Selected::Pokemon }),
            r.wf(),
    {
        App { gui_state: State { current_pokemon: 0, selected: Selected::Pokemon }, save_file }
    }

    /// The move list of the species the cursor rests on.
    pub fn get_moves(&self) -> (r: &Vec<Move>)
        requires
            self.wf(),
        ensures
            r@ == self.current_moves(),
    {
        &self.save_file.pokemons[self.gui_state.current_pokemon]
    }

    /// Mutable access to the move list of the species the cursor rests on;
    /// nothing else of the editor changes through it.
    pub fn get_moves_mut(&mut self) -> (r: &mut Vec<Move>)
        requires
            old(self).wf(),
        ensures
            *r == old(self).save_file.pokemons@[old(self).gui_state.current_pokemon as int],
            final(self).save_file.pokemons@ == old(self).save_file.pokemons@.update(
                old(self).gui_state.current_pokemon as int,
                *final(r),
            ),
            final(self).save_file.file_start == old(self).save_file.file_start,
            final(self).gui_state == old(self).gui_state,
    {
        &mut self.save_file.pokemons[self.gui_state.current_pokemon]
    }

    /// Move the cursor one row down in its pane, wrapping at the bottom.
    pub fn select_next(&mut self)
        requires
            old(self).wf(),
        ensures
            final(self).wf(),
            final(self).save_file == old(self).save_file,
            final(self).gui_state.selected == (match old(self).gui_state.selected {
                Selected::Move(i) => Selected::Move(
                    wrap_inc(i as int, old(self).current_moves().len() as int) as usize,
                ),
                Selected::Pokemon => Selected::Pokemon,
            }),
            final(self).gui_state.current_pokemon == (match old(self).gui_state.selected {
                Selected::Move(i) => old(self).gui_state.current_pokemon as int,
                Selected::Pokemon => wrap_inc(
                    old(self).gui_state.current_pokemon as int,
                    old(self).save_file.species().len() as int,
                ),
            }),
    {
        let max_move_len = self.get_moves().len();
        let pokemon_count = self.save_file.pokemons.len();
        self.gui_state.next(max_move_len, pokemon_count);
    }

    /// Move the cursor one row up in its pane, wrapping at the top.
    pub fn select_previous(&mut self)
        requires
            old(self).wf(),
        ensures
            final(self).wf(),
            final(self).save_file == old(self).save_file,
            final(self).gui_state.selected == (match old(self).gui_state.selected {
                Selected::Move(i) => Selected::Move(
                    wrap_dec(i as int, old(self).current_moves().len() as int) as usize,
                ),
                Selected::Pokemon => Selected::Pokemon,
            }),
            final(self).gui_state.current_pokemon == (match old(self).gui_state.selected {
                Selected::Move(i) => old(self).gui_state.current_pokemon as int,
                Selected::Pokemon => wrap_dec(
                    old(self).gui_state.current_pokemon as int,
                    old(self).save_file.species().len() as int,
                ),
            }),
    {
        let max_move_len = self.get_moves().len();
        let pokemon_count = self.save_file.pokemons.len();
        self.gui_state.previous(max_move_len, pokemon_count);
    }

    /// Put the cursor on the move pane's first row.  A species without moves
    /// has no row to rest on, so for it the cursor stays where it is.
    pub fn select_right(&mut self)
        requires
            old(self).wf(),
        ensures
            final(self).wf(),
            final(self).save_file == old(self).save_file,
            final(self).gui_state.current_pokemon == old(self).gui_state.current_pokemon,
            final(self).gui_state.selected == (if old(self).current_moves().len() > 0 {
                Selected::Move(0usize)
            } else {
                old(self).gui_state.selected
            }),
    {
        if self.get_moves().len() > 0 {
            self.gui_state.select_moves();
        }
    }

    /// Put the cursor back on the species pane.
    pub fn select_left(&mut self)
        requires
            old(self).wf(),
        ensures
            final(self).wf(),
            final(self).save_file == old(self).save_file,
            final(self).gui_state.current_pokemon == old(self).gui_state.current_pokemon,
            final(self).gui_state.selected == Selected::Pokemon,
    {
        self.gui_state.select_pokemon();
    }

    /// Delete the move the cursor rests on, keeping the cursor in bounds:
    /// after the removal it rests on the same row, or the last row when it
    /// pointed past the end, or back on the species pane when the list became
    /// empty.  With the species pane selected there is nothing to delete and
    /// nothing changes.
    pub fn delete_move_selected(&mut self)
        requires
            old(self).wf(),
        ensures
            final(self).wf(),
            final(self).save_file.header() == old(self).save_file.header(),
            match old(self).gui_state.selected {
                Selected::Pokemon => *final(self) == *old(self),
                Selected::Move(i) => {
                    &&& final(self).save_file.species() == old(self).save_file.species().update(
                        old(self).gui_state.current_pokemon as int,
                        old(self).current_moves().remove(i as int),
                    )
                    &&& final(self).gui_state.current_pokemon == old(
                        self,
                    ).gui_state.current_pokemon
                    &&& final(self).gui_state.selected == (if old(self).current_moves().len() == 1 {
                        Selected::Pokemon
                    } else if i as int >= old(self).current_moves().len() - 1 {
                        Selected::Move((old(self).current_moves().len() - 2) as usize)
                    } else {
                        Selected::Move(i)
                    })
                },
            },
    {
        match self.gui_state.selected {
            Selected::Pokemon => {},
            Selected::Move(index) => {
                let list = self.get_moves_mut();
                list.remove(index);
                proof {
                    assert(self.save_file.species() =~= old(self).save_file.species().update(
                        old(self).gui_state.current_pokemon as int,
                        old(self).current_moves().remove(index as int),
                    ));
                }
                let n = self.save_file.pokemons[self.gui_state.current_pokemon].len();
                self.gui_state.selected = if n == 0 {
                    Selected::Pokemon
                } else if index >= n {
                    Selected::Move(n - 1)
                } else {
                    Selected::Move(index)
                };
            },
        }
    }
}

} // verus!
