pub mod flow;
pub mod runner;
pub mod runnercache;
pub mod template;
