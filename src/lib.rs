/// Calendar dates: reading `YYYY-MM-DD`, writing it, checking a year, month and day.
pub mod date;
/// Ids after initialisation: no two tasks share one.
pub mod ids;
/// Web addresses in task lines.
pub mod links;
/// What a command-line token names; which files hold no tasks.
pub mod select;
/// Task files as sequences of lines: queries and whole-file rewrites.
pub mod store;
/// One task, and the one line of text that holds it.
pub mod task;
/// Words, joining, and decimal integers over characters.
pub mod text;
