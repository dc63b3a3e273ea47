pub mod mapper;
pub mod scanner;
pub mod text;
