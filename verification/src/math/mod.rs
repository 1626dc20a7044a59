pub mod field_element;
pub mod modular;
pub mod algebra;
pub mod polynomial;
pub mod evaluation;
pub mod laws;
