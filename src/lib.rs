pub mod text;
pub mod task;
pub mod document;
pub mod reference;
pub mod ops;
pub mod done_log;
pub mod config;

pub use config::Config;
pub use document::{Entry, Section, TodoFile};
pub use done_log::append_to_done;
pub use reference::{parse_numbers, parse_task_ref, parse_task_ref_multi, TodoError};
pub use task::Task;
