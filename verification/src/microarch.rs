//! Scans used by the micro-architecture experiments.

use vstd::prelude::*;
use crate::parser::layout::{frames, frames_from, read_len_prefix};

verus! {

/// Start offsets of the bodies of the messages in `s`.
pub open spec fn message_starts(s: Seq<u8>) -> Seq<usize> {
    frames(s).map_values(|f: (usize, usize)| f.0)
}

/// Finds where each length-prefixed message body of `data` starts, the
/// first step of a batched message-type scan.
pub fn simd_scan_message_types(data: &[u8]) -> (r: Vec<usize>)
    ensures
        r@ == message_starts(data@),
{
    let mut positions: Vec<usize> = Vec::new();
    let len = data.len();
    let mut pos: usize = 0;
    let ghost mut seen: Seq<(usize, usize)> = Seq::empty();
    while 2 <= len - pos
        invariant
            pos <= len,
            len == data@.len(),
            seen + frames_from(data@, pos as int) == frames(data@),
            positions@ == seen.map_values(|f: (usize, usize)| f.0),
        ensures
            frames_from(data@, pos as int) == Seq::<(usize, usize)>::empty(),
        decreases len - pos,
    {
        let msg_len = read_len_prefix(data, pos);
        let msg_start = pos + 2;
        if msg_len > len - msg_start {
            assert(frames_from(data@, pos as int) =~= Seq::<(usize, usize)>::empty());
            break;
        }
        let msg_end = msg_start + msg_len;
        positions.push(msg_start);
        proof {
            let old_seen = seen;
            seen = seen.push((msg_start, msg_end));
            assert(old_seen + frames_from(data@, pos as int) =~= seen + frames_from(
                data@,
                msg_end as int,
            ));
            assert(positions@ =~= seen.map_values(|f: (usize, usize)| f.0));
        }
        pos = msg_end;
    }
    proof {
        assert(seen =~= frames(data@));
    }
    positions
}

} // verus!
