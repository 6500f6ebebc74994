pub mod jmap;
