//! Building blocks of concurrent programs, with their protocols stated and proved:
//! a counting semaphore, the banker's algorithm, the bakery and ticket locks,
//! a LIFO stack, a hand-written future, a key-value session server and a table of
//! the wakers of tasks waiting on I/O.

pub mod basics;
pub mod banker;
pub mod bakery;
pub mod ticketlock;
pub mod semaphore;
pub mod stack;
pub mod hello;
pub mod kvserver;
pub mod waker_table;
