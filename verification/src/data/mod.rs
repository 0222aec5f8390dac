pub mod gen;
