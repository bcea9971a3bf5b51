pub mod axpy;
