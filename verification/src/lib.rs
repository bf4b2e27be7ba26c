//! Assigning boomwhackers to the hands of a group of players.
//!
//! Every boomwhacker is tuned to one [`note::Note`] and is played at known
//! times.  A hand holds a few of them for the whole piece and has to swap
//! whenever two consecutive hits of that hand fall on different tubes.  The
//! library scores such an assignment by how hurried its swaps are and looks
//! for a good one by random-restart hill climbing.

pub mod assign;
pub mod assignment;
pub mod layout;
pub mod merge;
pub mod music_xml;
pub mod note;
pub mod presentation;
pub mod rng;
pub mod scoring;
pub mod search;
pub mod whacker;
pub mod whacker_vec;
