pub mod robot;
