//! Collections whose growth can fail: every operation that needs memory
//! reports an allocation failure to the caller instead of aborting.

pub mod btree;
