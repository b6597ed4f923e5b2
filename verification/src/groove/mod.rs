pub mod objective_master;
