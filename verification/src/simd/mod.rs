pub mod portable;
