pub mod bathrooms;
pub mod edits;
pub mod fortress;
pub mod keyboard;
pub mod labyrinth;
pub mod modulus;
pub mod numeric;
pub mod partitions;
pub mod paxos;
pub mod ranking;
pub mod rps;
pub mod text;
pub mod tuentistic;
pub mod tournament;
