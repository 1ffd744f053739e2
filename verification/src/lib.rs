//! The rules of StickyMD, a sticky-note application: how notes and timers are
//! linked into groups of windows that stand below each other, and what becomes
//! of a group when one of its windows is moved, resized, folded, closed or
//! restored.
//!
//! Nothing here touches a window, a file or a clock. An operation is a plan of
//! single effects ([`effect`]); a [`transaction`] hands them out one at a time,
//! is told how each went, and takes back what was done if one fails. What the
//! plans promise is stated over a model of the desktop ([`world`]).
pub mod arrange;
pub mod close;
pub mod columns;
pub mod effect;
pub mod error;
pub mod geometry;
pub mod groups;
pub mod in_place;
pub mod layout;
pub mod link;
pub mod linked;
pub mod member;
pub mod member_set;
pub mod ordering;
pub mod outcome;
pub mod packed;
pub mod persist;
pub mod placement;
pub mod rearrange;
pub mod relink;
pub mod reset;
pub mod resize;
pub mod resized;
pub mod rest;
pub mod restore;
pub mod runtime;
pub mod settings;
pub mod settle;
pub mod shown;
pub mod slots;
pub mod stack;
pub mod store;
pub mod surface;
pub mod table;
pub mod taken_back;
pub mod text_checking;
pub mod transaction;
pub mod views;
pub mod world;
