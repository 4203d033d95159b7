//! Decision logic of the desktop shell around its bundled web host.
pub mod bundle;
pub mod bytes;
pub mod cookie_proxy;
pub mod host;
pub mod host_output;
pub mod launch;
pub mod login_env;
pub mod paths;
pub mod session_cookie;
pub mod shell;
pub mod splash;
pub mod stub;
pub mod text;
pub mod web_url;
