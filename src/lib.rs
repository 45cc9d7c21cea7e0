pub mod command;
pub mod machine;
pub mod run;
pub mod translate;
