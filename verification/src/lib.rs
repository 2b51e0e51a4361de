pub mod args;
pub mod browser;
pub mod code;
pub mod http;
pub mod http_laws;
pub mod keyboard;
pub mod lines;
pub mod logs;
pub mod mail;
pub mod notification;
pub mod number;
pub mod platform;
pub mod push;
pub mod sms;
pub mod text;
pub mod unicode;
