pub mod nrm2;
