pub mod network;
pub mod servidores_dns;
pub mod wifi;
