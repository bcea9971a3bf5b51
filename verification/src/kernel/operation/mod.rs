pub mod sum;
pub mod min;
