pub mod moska;
