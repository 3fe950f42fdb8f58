//! Framing, bit stuffing, Hamming coding and CSMA/CD decisions for a
//! point-to-point serial link between two peers.

pub mod connection;
pub mod csma;
pub mod framing;
pub mod hamming;
pub mod hamming_laws;
pub mod hamming_link;
pub mod outside;
pub mod packet;
pub mod screen;
pub mod stuffing;
pub mod stuffing_link;
pub mod text;
