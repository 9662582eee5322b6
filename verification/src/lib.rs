//! Version control for relational tables: content-addressed commits, branches,
//! three-way merges, replay, constraint checks and remote synchronisation.

pub mod assoc;
pub mod check_laws;
pub mod checks;
pub mod chunk;
pub mod commit;
pub mod conflicts;
pub mod connection;
pub mod constraint_laws;
pub mod constraints;
pub mod creds;
pub mod digest;
pub mod func_args;
pub mod func_laws;
pub mod funcs;
pub mod gc;
pub mod merge;
pub mod merge_schema;
pub mod model;
pub mod names;
pub mod octets;
pub mod operations;
pub mod orm;
pub mod reach;
pub mod readback;
pub mod reader;
pub mod rebase_laws;
pub mod refs;
pub mod remote;
pub mod remote_files;
pub mod remote_transport;
pub mod remote_wire;
pub mod replay;
pub mod replay_state;
pub mod schema_laws;
pub mod session;
pub mod sorting;
pub mod source;
pub mod sql;
pub mod staging;
pub mod store_laws;
pub mod sync;
pub mod table_merge;
pub mod text;
pub mod values;
pub mod vtab;
pub mod vtab_laws;
pub mod vtab_plan;
pub mod vtab_rows;
pub mod walk;
