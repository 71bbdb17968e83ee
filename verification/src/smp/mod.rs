//! Starting the application processors: the code they begin with.

pub mod trampoline;
