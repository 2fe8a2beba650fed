pub mod stamp;
