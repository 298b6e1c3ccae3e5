pub mod evn;
pub mod key;
pub mod request;
pub mod sort_values;
pub mod store;
pub mod cluster;
pub mod http_req;
pub mod route;
