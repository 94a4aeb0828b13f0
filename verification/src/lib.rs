//! Game logic of a roguelike whose enemies run on readable Lisp rules.

pub mod entity;
pub mod map;
pub mod levels;
pub mod text;
pub mod fragment;
pub mod rules;
pub mod prototype_rules;
pub mod highlight;
pub mod mapgen;
pub mod rng;
pub mod flashlight;
pub mod paths;
pub mod game;
pub mod no_hit;
pub mod save;
pub mod profile;
pub mod console;
pub mod layout;
pub mod colors;
pub mod event_log;
pub mod dialogue;
pub mod cave;
pub mod frame;
pub mod draw;
pub mod mechanics;
pub mod walks;
pub mod countdown;
pub mod movement;
pub mod interface;
pub mod population;
pub mod ai;
pub mod player_move;
pub mod inspector;
pub mod turn_end;
