pub mod serdict;
