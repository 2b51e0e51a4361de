//! Reading mail: its configuration, the IMAP dialogue, and the messages.
pub mod charset;
pub mod config;
pub mod config_laws;
pub mod dates;
pub mod dialogue_laws;
pub mod html;
pub mod html_laws;
pub mod imap_client;
pub mod imap_laws;
pub mod imap_lines;
pub mod interval;
pub mod interval_laws;
pub mod listener;
pub mod mail_laws;
pub mod message;
pub mod mime;
pub mod part_laws;
pub mod plain;
pub mod session;
pub mod session_laws;
pub mod start;
pub mod transfer;
pub mod word_laws;
pub mod words;
pub mod written;
