pub mod hardware;
pub mod network;
pub mod wifi;
