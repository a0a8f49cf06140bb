//! Objectives, the questions that lead to them and the action points that
//! answer those questions, with validation, scheduling and text renderings.

pub mod app_core;
pub mod cli;
pub mod days;
pub mod dummy;
pub mod gui;
pub mod priority;
pub mod questions;
pub mod text;
pub mod writer;
