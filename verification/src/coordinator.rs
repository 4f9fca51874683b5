//! The coordinator's message handling.
//!
//! A single process owns one [`LCS`] index and mutates it only here, one
//! inbound frame at a time; workers reach the index exclusively through
//! this protocol. An assignment query on an empty index is a hard error
//! returned to the caller; release and deregister against an unknown key
//! are silently ignored, so callers may resend them under uncertain
//! delivery.

use vstd::prelude::*;

use crate::LbError;
use crate::least_conn_server::{
    LCS, decremented, has_server, incremented, least_index, removed,
};
use crate::protocol::{
    ASSIGN_FRAME_LEN, KEY_FRAME_LEN, OP_ASSIGN, OP_DEREGISTER, OP_RELEASE, frame_key,
};

verus! {

/// Applies one inbound frame to the index and yields the reply to send
/// back, if the opcode calls for one.
///
/// An assignment query selects the least-loaded backend, commits its
/// increment, and answers with the backend key followed by the four echoed
/// identifier bytes. A release lowers the named backend's count, flooring
/// at zero; a deregister removes it; both leave the index unchanged when
/// the key is unknown. A frame of the wrong length or with an unknown
/// opcode is a framing error and changes nothing.
pub fn handle_frame(index: &mut LCS, frame: &Vec<u8>) -> (r: Result<Option<Vec<u8>>, LbError>)
    requires
        old(index).wf(),
    ensures
        final(index).wf(),
        frame@.len() == 0 ==> r == Err::<Option<Vec<u8>>, LbError>(LbError::ProtocolFraming)
            && final(index)@ == old(index)@,
        frame@.len() > 0 && frame@[0] == OP_ASSIGN && frame@.len() != ASSIGN_FRAME_LEN ==> r
            == Err::<Option<Vec<u8>>, LbError>(LbError::ProtocolFraming) && final(index)@ == old(
            index,
        )@,
        frame@.len() == ASSIGN_FRAME_LEN && frame@[0] == OP_ASSIGN && old(index)@.len() == 0 ==> r
            == Err::<Option<Vec<u8>>, LbError>(LbError::NoBackendsAvailable) && final(index)@
            == old(index)@,
        frame@.len() == ASSIGN_FRAME_LEN && frame@[0] == OP_ASSIGN && old(index)@.len() > 0 ==> (
        r matches Ok(o) && o matches Some(rep) && rep@ == old(index)@[least_index(
            old(index)@,
        )].server@ + frame@.subrange(7, 11)) && final(index)@ == incremented(
            old(index)@,
            old(index)@[least_index(old(index)@)].server@,
        ),
        frame@.len() > 0 && frame@[0] == OP_RELEASE && frame@.len() != KEY_FRAME_LEN ==> r
            == Err::<Option<Vec<u8>>, LbError>(LbError::ProtocolFraming) && final(index)@ == old(
            index,
        )@,
        frame@.len() == KEY_FRAME_LEN && frame@[0] == OP_RELEASE ==> r == Ok::<
            Option<Vec<u8>>,
            LbError,
        >(None) && (if has_server(old(index)@, frame_key(frame@)) {
            final(index)@ == decremented(old(index)@, frame_key(frame@))
        } else {
            final(index)@ == old(index)@
        }),
        frame@.len() > 0 && frame@[0] == OP_DEREGISTER && frame@.len() != KEY_FRAME_LEN ==> r
            == Err::<Option<Vec<u8>>, LbError>(LbError::ProtocolFraming) && final(index)@ == old(
            index,
        )@,
        frame@.len() == KEY_FRAME_LEN && frame@[0] == OP_DEREGISTER ==> r == Ok::<
            Option<Vec<u8>>,
            LbError,
        >(None) && (if has_server(old(index)@, frame_key(frame@)) {
            final(index)@ == removed(old(index)@, frame_key(frame@))
        } else {
            final(index)@ == old(index)@
        }),
        frame@.len() > 0 && frame@[0] != OP_ASSIGN && frame@[0] != OP_RELEASE && frame@[0]
            != OP_DEREGISTER ==> r == Err::<Option<Vec<u8>>, LbError>(LbError::ProtocolFraming)
            && final(index)@ == old(index)@,
{
    if frame.len() == 0 {
        return Err(LbError::ProtocolFraming);
    }
    let op = frame[0];
    if op == OP_ASSIGN {
        if frame.len() != ASSIGN_FRAME_LEN {
            return Err(LbError::ProtocolFraming);
        }
        match index.get_least_conn_server() {
            Err(_) => Err(LbError::NoBackendsAvailable),
            Ok(server) => {
                let mut rep: Vec<u8> = Vec::new();
                let mut i: usize = 0;
                while i < 6
                    invariant
                        0 <= i <= 6,
                        rep@ == server@.subrange(0, i as int),
                    decreases 6 - i,
                {
                    rep.push(server[i]);
                    proof {
                        assert(rep@ =~= server@.subrange(0, i + 1));
                    }
                    i = i + 1;
                }
                rep.push(frame[7]);
                rep.push(frame[8]);
                rep.push(frame[9]);
                rep.push(frame[10]);
                proof {
                    assert(server@.subrange(0, 6) =~= server@);
                    assert(rep@ =~= server@ + frame@.subrange(7, 11));
                }
                let inc = index.server_conn_increament(&server);
                proof {
                    assert(inc == Ok::<(), LbError>(()));
                }
                Ok(Some(rep))
            },
        }
    } else if op == OP_RELEASE {
        if frame.len() != KEY_FRAME_LEN {
            return Err(LbError::ProtocolFraming);
        }
        let key: [u8; 6] = [frame[1], frame[2], frame[3], frame[4], frame[5], frame[6]];
        proof {
            assert(key@ =~= frame_key(frame@));
        }
        let _ = index.server_conn_decreament(&key);
        Ok(None)
    } else if op == OP_DEREGISTER {
        if frame.len() != KEY_FRAME_LEN {
            return Err(LbError::ProtocolFraming);
        }
        let key: [u8; 6] = [frame[1], frame[2], frame[3], frame[4], frame[5], frame[6]];
        proof {
            assert(key@ =~= frame_key(frame@));
        }
        let _ = index.delete(&key);
        Ok(None)
    } else {
        Err(LbError::ProtocolFraming)
    }
}

} // verus!
