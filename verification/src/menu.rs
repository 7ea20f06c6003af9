//! The interactive front end's decisions: mapping one line of user
//! input to a menu action. Reading the line and acting on the choice
//! stay outside the library.

use vstd::prelude::*;

use crate::bytes::{trim, trim_spec};
use crate::numbers::{int_literal_val, parse_int_in_range};

verus! {

/// What one line of main-menu input asks for.
#[derive(Debug, Clone, Copy, PartialEq, Eq, Structural)]
pub enum MenuChoice {
    ShowByYear,
    BestPerYear,
    ShowByLanguage,
    Quit,
    Invalid,
}

/// The choice a trimmed input line denotes: the integer literals 1 to
/// 4 select an action; everything else is invalid and re-prompts.
pub open spec fn menu_choice_spec(s: Seq<u8>) -> MenuChoice {
    match int_literal_val(s) {
        Some(v) => if v == 1 {
            MenuChoice::ShowByYear
        } else if v == 2 {
            MenuChoice::BestPerYear
        } else if v == 3 {
            MenuChoice::ShowByLanguage
        } else if v == 4 {
            MenuChoice::Quit
        } else {
            MenuChoice::Invalid
        },
        None => MenuChoice::Invalid,
    }
}

/// Map one raw line of menu input to its action.
pub fn menu_choice(line: &Vec<u8>) -> (r: MenuChoice)
    ensures
        r == menu_choice_spec(trim_spec(line@)),
{
    let t = trim(line);
    match parse_int_in_range(&t, 1, 4) {
        Some(v) => {
            if v == 1 {
                MenuChoice::ShowByYear
            } else if v == 2 {
                MenuChoice::BestPerYear
            } else if v == 3 {
                MenuChoice::ShowByLanguage
            } else {
                MenuChoice::Quit
            }
        },
        None => MenuChoice::Invalid,
    }
}

} // verus!
