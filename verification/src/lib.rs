//! Twisted zigzag qudit chains: the integer structure of heterogeneous
//! dimension profiles, their crossings and networks, hosted registers,
//! stepwise cascade machines, the a-priori width calculus, dense basis
//! indexing and the partitions behind multiresolution fusion.
pub mod cascade;
pub mod chain;
pub mod crossing;
pub mod cut_rank;
pub mod dense;
pub mod embed;
pub mod gates;
pub mod network;
pub mod radix;
pub mod sheaf;
pub mod text;
pub mod width;
pub mod zigzag;
