//! A packet read as a vector of datums: the children of the root list.

use vstd::prelude::*;
use crate::datum::parser::{parse_spec, PacketParseError};
use crate::datum::{seq_datum_view, DatumView, PacketDatum};

verus! {

/// The error for text that does not parse into a packet.
#[derive(Debug)]
pub struct PacketParserError;

/// A parsed packet: the datums of the root list, in order.
pub struct PacketParser {
    pub packet: Vec<PacketDatum>,
}

impl PacketParser {
    /// Parse a packet text into the vector of its top-level datums.
    pub fn parse_packet(s: &str) -> (r: Result<PacketParser, PacketParserError>)
        ensures
            match r {
                Ok(p) => parse_spec(s@) == Some(DatumView::List(seq_datum_view(p.packet@))),
                Err(_) => !(parse_spec(s@) matches Some(DatumView::List(_))),
            },
    {
        match PacketDatum::parse(s) {
            Ok(PacketDatum::List(l)) => Ok(PacketParser { packet: l }),
            Ok(PacketDatum::Integer(_)) => Err(PacketParserError),
            Err(_) => Err(PacketParserError),
        }
    }
}

impl core::str::FromStr for PacketParser {
    type Err = PacketParserError;

    /// Parse a packet text; `str::parse` reaches
    /// [`PacketParser::parse_packet`].
    fn from_str(s: &str) -> Result<PacketParser, PacketParserError> {
        PacketParser::parse_packet(s)
    }
}

} // verus!
