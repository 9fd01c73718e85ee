pub mod text;
pub mod env;
pub mod env_diff;
pub mod proc_net;
pub mod proc_tree;
pub mod proc_view;
pub mod port_args;
pub mod port_scan;
pub mod git_log;
pub mod env_report;
pub mod tui_state;
pub mod kill;
