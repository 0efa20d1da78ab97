pub mod text;
pub mod ranking;
pub mod decimal;
pub mod calendar;
pub mod render;
pub mod api;
pub mod schedule;
pub mod standings;
pub mod leaders;
pub mod boxscore;
pub mod milestone;
