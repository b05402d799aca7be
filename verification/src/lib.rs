pub mod text;
pub mod glob;
pub mod guard;
pub mod json;
pub mod control;
pub mod calendar;
pub mod markdown;
pub mod goal_loop;
pub mod round;
pub mod report;
pub mod corpus;
pub mod snapshot;
pub mod templates;
pub mod cli;
