//! The coordinator wire protocol.
//!
//! Every message is a fixed-size byte frame whose length is determined by
//! its 1-byte opcode: an assignment query carries six ignored bytes and a
//! 4-byte caller-chosen client identifier; release and deregister carry a
//! 6-byte backend key; the assignment reply carries the chosen backend key
//! and the echoed client identifier. There is no length prefix — framing is
//! implicit in the opcode-determined fixed lengths.

use vstd::prelude::*;

use crate::LbError;

verus! {

/// Opcode of an assignment query.
pub const OP_ASSIGN: u8 = 0;

/// Opcode of a release command.
pub const OP_RELEASE: u8 = 1;

/// Opcode of a deregister command.
pub const OP_DEREGISTER: u8 = 2;

/// Length in bytes of an assignment query frame.
pub const ASSIGN_FRAME_LEN: usize = 11;

/// Length in bytes of a release or deregister frame.
pub const KEY_FRAME_LEN: usize = 7;

/// Length in bytes of an assignment reply frame.
pub const REPLY_FRAME_LEN: usize = 10;

/// A command a worker sends to the coordinator.
#[derive(Clone, Copy, Debug)]
pub enum Command {
    /// Ask for the least-loaded backend; the reply echoes `client_id`.
    Assign {
        /// Worker-chosen identifier correlating the reply to a client.
        client_id: u32,
    },
    /// A connection to `server` completed: lower its count.
    Release {
        /// The 6-byte backend key.
        server: [u8; 6],
    },
    /// Remove `server` from the index.
    Deregister {
        /// The 6-byte backend key.
        server: [u8; 6],
    },
}

/// The big-endian bytes of a client identifier.
pub open spec fn be_bytes_u32(x: u32) -> Seq<u8> {
    seq![
        ((x >> 24) & 0xff) as u8,
        ((x >> 16) & 0xff) as u8,
        ((x >> 8) & 0xff) as u8,
        (x & 0xff) as u8,
    ]
}

/// The client identifier read back from four big-endian bytes.
pub open spec fn u32_of_be(b0: u8, b1: u8, b2: u8, b3: u8) -> u32 {
    ((b0 as u32) << 24) | ((b1 as u32) << 16) | ((b2 as u32) << 8) | (b3 as u32)
}

/// An identifier survives the trip into big-endian bytes and back.
pub proof fn lemma_client_id_round_trip(x: u32)
    ensures
        u32_of_be(
            be_bytes_u32(x)[0],
            be_bytes_u32(x)[1],
            be_bytes_u32(x)[2],
            be_bytes_u32(x)[3],
        ) == x,
{
    assert((((((x >> 24) & 0xff) as u8) as u32) << 24) | (((((x >> 16) & 0xff) as u8) as u32)
        << 16) | (((((x >> 8) & 0xff) as u8) as u32) << 8) | (((x & 0xff) as u8) as u32) == x)
        by (bit_vector);
}

/// The backend key carried by a release or deregister frame.
pub open spec fn frame_key(f: Seq<u8>) -> Seq<u8> {
    f.subrange(1, 7)
}

/// The bytes of an assignment query for `client_id`.
pub open spec fn assign_frame(client_id: u32) -> Seq<u8> {
    seq![OP_ASSIGN, 0u8, 0u8, 0u8, 0u8, 0u8, 0u8] + be_bytes_u32(client_id)
}

/// The bytes of a release command for key `k`.
pub open spec fn release_frame(k: Seq<u8>) -> Seq<u8> {
    seq![OP_RELEASE] + k
}

/// The bytes of a deregister command for key `k`.
pub open spec fn deregister_frame(k: Seq<u8>) -> Seq<u8> {
    seq![OP_DEREGISTER] + k
}

/// The bytes of an assignment reply: the backend key, then the echoed
/// identifier.
pub open spec fn reply_frame(k: Seq<u8>, client_id: u32) -> Seq<u8> {
    k + be_bytes_u32(client_id)
}

/// The bytes a command is sent as.
pub open spec fn encoded(c: Command) -> Seq<u8> {
    match c {
        Command::Assign { client_id } => assign_frame(client_id),
        Command::Release { server } => release_frame(server@),
        Command::Deregister { server } => deregister_frame(server@),
    }
}

/// Appends the big-endian bytes of `x`.
fn push_be_u32(v: &mut Vec<u8>, x: u32)
    ensures
        final(v)@ == old(v)@ + be_bytes_u32(x),
{
    v.push(((x >> 24) & 0xff) as u8);
    v.push(((x >> 16) & 0xff) as u8);
    v.push(((x >> 8) & 0xff) as u8);
    v.push((x & 0xff) as u8);
    proof {
        assert(v@ =~= old(v)@ + be_bytes_u32(x));
    }
}

/// Reads a client identifier from four big-endian bytes.
pub fn client_id_from_be(b0: u8, b1: u8, b2: u8, b3: u8) -> (r: u32)
    ensures
        r == u32_of_be(b0, b1, b2, b3),
{
    ((b0 as u32) << 24) | ((b1 as u32) << 16) | ((b2 as u32) << 8) | (b3 as u32)
}

/// Turns a command into its wire frame.
pub fn encode_command(c: &Command) -> (r: Vec<u8>)
    ensures
        r@ == encoded(*c),
{
    let mut v: Vec<u8> = Vec::new();
    match c {
        Command::Assign { client_id } => {
            v.push(OP_ASSIGN);
            v.push(0u8);
            v.push(0u8);
            v.push(0u8);
            v.push(0u8);
            v.push(0u8);
            v.push(0u8);
            push_be_u32(&mut v, *client_id);
            proof {
                assert(v@ =~= encoded(*c));
            }
        },
        Command::Release { server } => {
            v.push(OP_RELEASE);
            let mut i: usize = 0;
            while i < 6
                invariant
                    0 <= i <= 6,
                    v@ == seq![OP_RELEASE] + server@.subrange(0, i as int),
                decreases 6 - i,
            {
                v.push(server[i]);
                proof {
                    assert(v@ =~= seq![OP_RELEASE] + server@.subrange(0, i + 1));
                }
                i = i + 1;
            }
            proof {
                assert(server@.subrange(0, 6) =~= server@);
                assert(v@ =~= encoded(*c));
            }
        },
        Command::Deregister { server } => {
            v.push(OP_DEREGISTER);
            let mut i: usize = 0;
            while i < 6
                invariant
                    0 <= i <= 6,
                    v@ == seq![OP_DEREGISTER] + server@.subrange(0, i as int),
                decreases 6 - i,
            {
                v.push(server[i]);
                proof {
                    assert(v@ =~= seq![OP_DEREGISTER] + server@.subrange(0, i + 1));
                }
                i = i + 1;
            }
            proof {
                assert(server@.subrange(0, 6) =~= server@);
                assert(v@ =~= encoded(*c));
            }
        },
    }
    v
}

/// Reads an assignment reply: the backend key and the echoed identifier.
/// Anything but exactly ten bytes is a framing error.
pub fn parse_reply(buf: &Vec<u8>) -> (r: Result<([u8; 6], u32), LbError>)
    ensures
        buf@.len() != REPLY_FRAME_LEN ==> r == Err::<([u8; 6], u32), LbError>(
            LbError::ProtocolFraming,
        ),
        buf@.len() == REPLY_FRAME_LEN ==> (r matches Ok(p) && p.0@ == buf@.subrange(0, 6) && p.1
            == u32_of_be(buf@[6], buf@[7], buf@[8], buf@[9])),
{
    if buf.len() != REPLY_FRAME_LEN {
        return Err(LbError::ProtocolFraming);
    }
    let key: [u8; 6] = [buf[0], buf[1], buf[2], buf[3], buf[4], buf[5]];
    proof {
        assert(key@ =~= buf@.subrange(0, 6));
    }
    let id = client_id_from_be(buf[6], buf[7], buf[8], buf[9]);
    Ok((key, id))
}

} // verus!
