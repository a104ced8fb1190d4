pub mod chess1;
