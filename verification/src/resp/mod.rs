#[allow(non_snake_case)]
pub mod Data_Storage;
pub mod decode;
pub mod value;
