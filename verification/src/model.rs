pub mod rt_type;
