//! Verified core of a small distributed-systems playground: a service
//! registry, a prefix math-expression parser and the evaluation plan that
//! drives remote arithmetic services.

pub mod svc_mat;
pub mod svc_dsc;
pub mod dst_pfm;
pub mod hello;
