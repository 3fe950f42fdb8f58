//! Which pair of serial ports a peer uses, and the search for a free pair.
//!
//! Two peers share the ports ttyS10/ttyS11 and ttyS20/ttyS21. The first peer to start
//! writes to ttyS20 and reads ttyS21; the second writes to ttyS10 and reads ttyS11.

use vstd::prelude::*;

verus! {

/// The port numbers a peer reads and writes, and those of the other peer.
pub struct SerialConnection {
    pub self_read: u32,
    pub self_write: u32,
    pub other_read: u32,
    pub other_write: u32,
}

impl SerialConnection {
    /// The connection of the peer that took the pair ttyS20/ttyS21.
    pub fn default() -> (c: Self)
        ensures
            c.self_read == 21,
            c.self_write == 20,
            c.other_read == 11,
            c.other_write == 10,
    {
        SerialConnection { self_read: 21, self_write: 20, other_read: 11, other_write: 10 }
    }

    /// The connection of the peer that took the pair ttyS10/ttyS11: the default
    /// connection with the two peers' sides exchanged.
    pub fn change_pair() -> (c: Self)
        ensures
            c.self_read == 11,
            c.self_write == 10,
            c.other_read == 21,
            c.other_write == 20,
    {
        SerialConnection { self_read: 11, self_write: 10, other_read: 21, other_write: 20 }
    }
}

/// The steps of the search for a free pair of ports.
#[derive(PartialEq, Eq, Structural, Clone, Copy)]
pub enum ProbeStage {
    /// Try to open ttyS20.
    PrimaryWrite,
    /// ttyS20 opened; try ttyS21.
    PrimaryRead,
    /// ttyS20 did not open; try ttyS10.
    SecondaryWrite,
    /// ttyS10 opened; try ttyS11.
    SecondaryRead,
}

/// What the search does after one attempt to open a port.
pub enum ProbeOutcome {
    /// Go on with the given step.
    Next(ProbeStage),
    /// A pair was found: the port to read, the port to write, and the connection.
    Found(String, String, SerialConnection),
    /// The attempt failed; start again with ttyS20.
    Retry,
}

/// The port a step tries to open.
pub open spec fn probe_path(stage: ProbeStage) -> Seq<char> {
    match stage {
        ProbeStage::PrimaryWrite => "/tmp/ttyS20"@,
        ProbeStage::PrimaryRead => "/tmp/ttyS21"@,
        ProbeStage::SecondaryWrite => "/tmp/ttyS10"@,
        ProbeStage::SecondaryRead => "/tmp/ttyS11"@,
    }
}

/// The port that the given step tries to open.
pub fn probe_port(stage: ProbeStage) -> (path: String)
    ensures
        path@ == probe_path(stage),
{
    match stage {
        ProbeStage::PrimaryWrite => String::from_str("/tmp/ttyS20"),
        ProbeStage::PrimaryRead => String::from_str("/tmp/ttyS21"),
        ProbeStage::SecondaryWrite => String::from_str("/tmp/ttyS10"),
        ProbeStage::SecondaryRead => String::from_str("/tmp/ttyS11"),
    }
}

/// The search's decision after trying to open the port of `stage`.
///
/// ttyS20 opened: try ttyS21; ttyS21 opened too: read ttyS21, write ttyS20 with the
/// default connection. ttyS20 did not open: try ttyS10; ttyS10 opened: try ttyS11;
/// ttyS11 opened: read ttyS11, write ttyS10 with the exchanged connection. Any other
/// failure: start again.
pub fn probe_step(stage: ProbeStage, opened: bool) -> (out: ProbeOutcome)
    ensures
        match stage {
            ProbeStage::PrimaryWrite => if opened {
                out == ProbeOutcome::Next(ProbeStage::PrimaryRead)
            } else {
                out == ProbeOutcome::Next(ProbeStage::SecondaryWrite)
            },
            ProbeStage::PrimaryRead => if opened {
                out matches ProbeOutcome::Found(read, write, c) && read@ == "/tmp/ttyS21"@
                    && write@ == "/tmp/ttyS20"@ && c.self_read == 21 && c.self_write == 20
                    && c.other_read == 11 && c.other_write == 10
            } else {
                out is Retry
            },
            ProbeStage::SecondaryWrite => if opened {
                out == ProbeOutcome::Next(ProbeStage::SecondaryRead)
            } else {
                out is Retry
            },
            ProbeStage::SecondaryRead => if opened {
                out matches ProbeOutcome::Found(read, write, c) && read@ == "/tmp/ttyS11"@
                    && write@ == "/tmp/ttyS10"@ && c.self_read == 11 && c.self_write == 10
                    && c.other_read == 21 && c.other_write == 20
            } else {
                out is Retry
            },
        },
{
    match stage {
        ProbeStage::PrimaryWrite => if opened {
            ProbeOutcome::Next(ProbeStage::PrimaryRead)
        } else {
            ProbeOutcome::Next(ProbeStage::SecondaryWrite)
        },
        ProbeStage::PrimaryRead => if opened {
            ProbeOutcome::Found(
                String::from_str("/tmp/ttyS21"),
                String::from_str("/tmp/ttyS20"),
                SerialConnection::default(),
            )
        } else {
            ProbeOutcome::Retry
        },
        ProbeStage::SecondaryWrite => if opened {
            ProbeOutcome::Next(ProbeStage::SecondaryRead)
        } else {
            ProbeOutcome::Retry
        },
        ProbeStage::SecondaryRead => if opened {
            ProbeOutcome::Found(
                String::from_str("/tmp/ttyS11"),
                String::from_str("/tmp/ttyS10"),
                SerialConnection::change_pair(),
            )
        } else {
            ProbeOutcome::Retry
        },
    }
}

/// Whether the search has gone on for longer than five seconds and gives up.
pub fn search_timed_out(elapsed_nanos: u128) -> (r: bool)
    ensures
        r == (elapsed_nanos > 5_000_000_000),
{
    elapsed_nanos > 5_000_000_000
}

} // verus!
