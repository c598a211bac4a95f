pub mod action;
pub mod engine;
pub mod fingerprint;
pub mod group;
pub mod hash;
pub mod paths;
pub mod replacement;
pub mod replacer;
pub mod run;
pub mod store;
pub mod world;
