//! Quizzes and tests in Markdown.
//!
//! The library turns Markdown documents holding question blocks into
//! randomized quizzes with answer keys, grades submitted answers against a
//! key, and builds a ranked report with letter grades and summary statistics.

pub mod bank;
pub mod codec;
pub mod grade;
pub mod key;
pub mod letters;
pub mod md;
pub mod question;
pub mod quiz;
pub mod render;
pub mod report;
pub mod text;
