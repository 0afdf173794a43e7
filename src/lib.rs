pub mod aggregate;
pub mod alphabet;
pub mod dispatch;
pub mod enumerator;
pub mod prefix;
pub mod protocol;
pub mod report;
pub mod session;
pub mod state;
pub mod types;
pub mod worker;
