//! A register of birthdays.
//!
//! The register holds people with the day they were born, gives each entry
//! an identifier, and lists the entries in the order of who celebrates
//! next, with the days left and the age reached.
//!
//! - [`calendar`]: the days of the calendar and the number of days between
//!   two of them.
//! - [`occurrence`]: the next occurrence of a yearly event after a given day.
//! - [`registry`]: the register, and how entries are added and removed.
//! - [`order`]: the register in the order of who celebrates next.
//! - [`listing`]: what is shown of each entry.
//! - [`text`]: dates as they are written in the stored register.
//! - [`input`]: what is typed on the command line.
//! - [`scan`]: text and numbers, character by character.
//!
//! Every function is verified against its contract, but for four that call
//! chrono and rand and say above their header what is believed of the call:
//! the days between two dates, the day it is, a date read by chrono from a
//! text that the library does not read itself, and a random number.

pub mod calendar;
pub mod input;
pub mod listing;
pub mod occurrence;
pub mod order;
pub mod registry;
pub mod scan;
pub mod text;
