//! IPv4 CIDR block expansion: parse `A.B.C.D/P` notation, derive the subnet
//! mask, the network start address and the total address count, and render
//! every address of the block in ascending order as dotted-decimal text.

pub mod addr;
pub mod parse;
pub mod subnet;
