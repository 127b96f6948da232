//! A code-writing agent driven by a mermaid state diagram: the diagram's
//! states name the work to do (ask the model, extract code or a number from
//! its answer, write the sandbox project, build it) and its transitions say
//! where each result leads.
pub mod text;
pub mod parser;
pub mod state_machine;
pub mod cache;
pub mod runner;
pub mod tools;
pub mod sandbox;
pub mod llm;
