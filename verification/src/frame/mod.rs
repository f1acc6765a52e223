pub mod translation;
