use vstd::prelude::*;

verus! {

/// The status message reported on acceptance.
pub open spec fn accept_msg() -> Seq<u8> {
    seq![65u8, 67u8, 67u8, 69u8, 80u8, 84u8, 10u8]
}

/// The status message reported on rejection.
pub open spec fn reject_msg() -> Seq<u8> {
    seq![82u8, 69u8, 74u8, 69u8, 67u8, 84u8, 10u8]
}

/// Whether the policy accepts: both input buffers have even length.
pub open spec fn accepts(entry_len: nat, state_len: nat) -> bool {
    entry_len % 2 == 0 && state_len % 2 == 0
}

/// The status message written for a verdict, truncated to the capacity of
/// the caller's output buffer.
pub open spec fn reported_msg(accept: bool, out_cap: nat) -> Seq<u8> {
    let msg = if accept {
        accept_msg()
    } else {
        reject_msg()
    };
    if out_cap < msg.len() {
        msg.take(out_cap as int)
    } else {
        msg
    }
}

/// Validate an entry against a state under the demonstration policy: accept
/// exactly when both byte buffers have even length.  The returned code is
/// `0` for acceptance and nonzero for rejection; the returned bytes are the
/// UTF-8 status message, truncated to the given output capacity, and their
/// number never exceeds that capacity.  The routine is pure and
/// deterministic and reports failure only through its code, never by
/// panicking.
pub fn validate(entry: &Vec<u8>, state: &Vec<u8>, out_cap: usize) -> (r: (u32, Vec<u8>))
    ensures
        r.0 == 0 <==> accepts(entry@.len(), state@.len()),
        r.1@ == reported_msg(accepts(entry@.len(), state@.len()), out_cap as nat),
        r.1@.len() <= out_cap,
{
    let accept = entry.len() % 2 == 0 && state.len() % 2 == 0;
    let mut msg: Vec<u8> = Vec::new();
    if accept {
        msg.push(65);
        msg.push(67);
        msg.push(67);
        msg.push(69);
        msg.push(80);
        msg.push(84);
        msg.push(10);
        proof {
            assert(msg@ =~= accept_msg());
        }
    } else {
        msg.push(82);
        msg.push(69);
        msg.push(74);
        msg.push(69);
        msg.push(67);
        msg.push(84);
        msg.push(10);
        proof {
            assert(msg@ =~= reject_msg());
        }
    }
    let mut out: Vec<u8> = Vec::new();
    let mut i: usize = 0;
    while i < msg.len() && i < out_cap
        invariant
            0 <= i <= msg@.len(),
            i <= out_cap,
            out@ == msg@.take(i as int),
        decreases msg@.len() - i,
    {
        out.push(msg[i]);
        proof {
            assert(out@ =~= msg@.take(i + 1int));
        }
        i = i + 1;
    }
    proof {
        if i == msg@.len() {
            assert(msg@.take(i as int) =~= msg@);
        }
        assert(out@ == reported_msg(accept, out_cap as nat));
    }
    let code: u32 = if accept {
        0
    } else {
        1
    };
    (code, out)
}

} // verus!
