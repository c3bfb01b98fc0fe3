pub mod loads_data;
pub mod model;
pub mod models;
pub mod request;
pub mod response;
pub mod text;
pub mod time;
pub mod timetables;
pub mod transit_data;
