pub mod hardware_service;
pub mod history_service;
pub mod memory_service;
