//! Verified core of a programming-contest task preparation tool: executable format detection,
//! validation of execution DAGs, parsing of the task description files and the pure logic of the
//! sanity checks run on a task.

pub mod text;
pub mod words;
pub mod sorting;
pub mod lexing;
pub mod detect_exe;
pub mod check_dag;
pub mod ioi;
pub mod gen_gen;
pub mod task;
pub mod subtask_name;
pub mod gen_toml;
pub mod toml_resolve;
pub mod sanity;
pub mod detect_format;
pub mod channel;
pub mod controller;
pub mod remote;
pub mod sandbox;
pub mod task_checks;
pub mod evaluation;
pub mod client;
pub mod samples;
pub mod cases_gen;
pub mod outputs_equal;
pub mod scheduler;
pub mod relay;
pub mod subtask_checks;
pub mod att_samples;
pub mod bits_include;
pub mod statement_checks;
pub mod text_order;
