pub mod bit;
pub mod string;
pub mod convert;
pub mod dates;
pub mod numbers;
pub mod text;
