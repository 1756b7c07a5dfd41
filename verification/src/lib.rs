//! The logic of a small kernel that runs Linux programs: tasks and their scheduling,
//! files, pipes and descriptors, the memory of a program, starting a program, and the
//! system calls. Devices are outside: a function that needs one says what it is to do,
//! and another takes its answer.

pub mod books;
pub mod calls;
pub mod desc;
pub mod elf;
pub mod execv;
pub mod exit;
pub mod file;
pub mod fork;
pub mod fs;
pub mod ident;
pub mod io;
pub mod kernel;
pub mod laws;
pub mod le;
pub mod load;
pub mod mm;
pub mod path;
pub mod pipe;
pub mod poll;
pub mod proc;
pub mod region;
pub mod sched;
pub mod space;
pub mod stack;
pub mod task;
pub mod vm;
pub mod wq;
