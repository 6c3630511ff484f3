pub mod memory_repo;
pub mod ree_client;
pub mod scheduler;
