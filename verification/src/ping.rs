//! Asking a server that one has no session with to describe itself.

use crate::error::CodecError;
use crate::packets::unconnected_ping::UnconnectedPing;
use crate::packets::unconnected_pong::{UnconnectedPong, UnconnectedPongView};
use crate::packets::{decode, encode, Packet};
use vstd::prelude::*;

verus! {

/// The datagram that asks: a probe with clock and identifier zero.
pub fn request() -> (r: Vec<u8>)
    ensures
        r@ == seq![0x01u8] + UnconnectedPing::body(UnconnectedPing { time: 0, guid: 0 }),
{
    let unconnected_ping = UnconnectedPing::new(0, 0);
    match encode(unconnected_ping) {
        Ok(payload) => payload,
        Err(_) => Vec::new(),
    }
}

/// The line in the answer `buff`: the server's description where `buff`
/// is an answer to a probe, the empty line where it is something else.
pub open spec fn answered(buff: Seq<u8>) -> Result<Seq<char>, CodecError> {
    if buff.len() > 0 && buff[0] == 0x1c {
        match UnconnectedPong::parse(buff.skip(1)) {
            Ok(pong) => Ok(pong.motd),
            Err(e) => Err(e),
        }
    } else {
        Ok(Seq::<char>::empty())
    }
}

/// Reads the line with which the server describes itself.
pub fn answer(buff: &[u8]) -> (r: Result<String, CodecError>)
    ensures
        match r {
            Ok(line) => answered(buff@) == Ok::<Seq<char>, CodecError>(line@),
            Err(e) => answered(buff@) == Err::<Seq<char>, CodecError>(e),
        },
{
    if buff.len() > 0 && buff[0] == UnconnectedPong::ID {
        match decode::<UnconnectedPong>(buff) {
            Ok(pong) => Ok(pong.motd),
            Err(e) => Err(e),
        }
    } else {
        let line = String::new();
        assert(line@ =~= Seq::<char>::empty());
        Ok(line)
    }
}

} // verus!
