use vstd::prelude::*;

pub mod text;
pub mod clock;
pub mod cookie;
pub mod request;
pub mod response;
pub mod interceptor;
pub mod tls;
pub mod client;
pub mod storage;
pub mod ssrf;
pub mod js_source;
pub mod node;
pub mod tree;
pub mod element;
pub mod event;
pub mod selector;
pub mod html;
pub mod mutation;
pub mod page;
pub mod commands;
pub mod dom_script;
pub mod element_table;
pub mod fetch;
pub mod xhr;
pub mod websocket;


verus! {
} // verus!
