pub mod coalition;
pub mod coalitionPerm;
pub mod coalitionsB;
