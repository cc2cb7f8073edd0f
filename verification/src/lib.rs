//! Reading, searching and ranking shell history kept in a full-history file.
pub mod bytes;
pub mod call_laws;
pub mod clock;
pub mod colors;
pub mod count_laws;
pub mod counts;
pub mod coverage;
pub mod database;
pub mod dates;
pub mod default_laws;
pub mod defaults;
pub mod escape;
pub mod filter;
pub mod groups;
pub mod history;
pub mod input;
pub mod inspect_laws;
pub mod list_laws;
pub mod logs;
pub mod meanings;
pub mod mode_laws;
pub mod numbers;
pub mod options;
pub mod order;
pub mod paths;
pub mod places;
pub mod query;
pub mod query_laws;
pub mod rank_laws;
pub mod reader;
pub mod reading_laws;
pub mod record_laws;
pub mod round_trip;
pub mod row_laws;
pub mod session;
pub mod settings;
pub mod shell;
pub mod skim;
pub mod sort;
pub mod stat_laws;
pub mod stats;
pub mod tally;
pub mod text;
pub mod theme;
pub mod theme_laws;
pub mod theme_manager;
pub mod timezone;
pub mod ui;
pub mod written;
