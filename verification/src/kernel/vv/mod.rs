pub mod amax;
pub mod argmax;
pub mod argmin;
pub mod asum;
pub mod dot;
pub mod max;
pub mod scal;
