//! One connection's buffered input: complete frames are taken from the front of
//! the buffer and answered in order; a partial frame waits for more bytes.
use vstd::prelude::*;
use vstd::slice::slice_subrange;
use crate::command::{dispatch, frames_of, spec_dispatch};
use crate::decode::{parse_resp, spec_decode, DecodeError};
use crate::store::{EntryModel, Store};
use crate::value::{append_bytes, reply_bytes, Frame, RespValue};

verus! {

/// What answering a buffer comes to: the bytes to send, how many input bytes
/// were used, whether the connection must be closed, and the store afterwards.
pub struct Progress {
    pub output: Seq<u8>,
    pub consumed: int,
    pub close: bool,
    pub store: Map<Seq<u8>, EntryModel>,
}

/// The bytes sent back for one decoded frame and the store after it. A command
/// is an array whose first element names it; anything else is ignored.
pub open spec fn spec_step(f: Frame, m: Map<Seq<u8>, EntryModel>, now: u128) -> (Seq<u8>, Map<Seq<u8>, EntryModel>) {
    match f {
        Frame::Array(items) => if items.len() > 0 {
            let (reply, m2) = spec_dispatch(items[0], items.subrange(1, items.len() as int), m, now);
            match reply {
                Some(r) => (reply_bytes(r), m2),
                None => (Seq::empty(), m2),
            }
        } else {
            (Seq::empty(), m)
        },
        _ => (Seq::empty(), m),
    }
}

/// Answers every complete frame at the front of `s` in order. It stops at an
/// incomplete frame, keeping its bytes, or at a malformed one, asking to close.
pub open spec fn spec_process(s: Seq<u8>, m: Map<Seq<u8>, EntryModel>, now: u128) -> Progress
    decreases s.len(),
{
    if s.len() == 0 {
        Progress { output: Seq::empty(), consumed: 0, close: false, store: m }
    } else {
        match spec_decode(s) {
            Ok((f, j)) => if 0 < j <= s.len() {
                let (out, m2) = spec_step(f, m, now);
                let rest = spec_process(s.subrange(j, s.len() as int), m2, now);
                Progress { output: out + rest.output, consumed: j + rest.consumed, close: rest.close, store: rest.store }
            } else {
                Progress { output: Seq::empty(), consumed: 0, close: true, store: m }
            },
            Err(DecodeError::Incomplete) => Progress { output: Seq::empty(), consumed: 0, close: false, store: m },
            Err(_) => Progress { output: Seq::empty(), consumed: 0, close: true, store: m },
        }
    }
}

/// Answers one decoded frame.
fn step(v: RespValue, store: &mut Store, now: u128) -> (r: Vec<u8>)
    requires
        old(store).wf(),
    ensures
        final(store).wf(),
        (r@, final(store)@) == spec_step(v.frame(), old(store)@, now),
{
    match v {
        RespValue::Array(items) => {
            if items.len() > 0 {
                let args = slice_subrange(items.as_slice(), 1, items.len());
                let ghost fs = v.frame()->Array_0;
                assert(frames_of(args@) =~= fs.subrange(1, fs.len() as int));
                assert(fs[0] == items@[0].frame());
                match dispatch(&items[0], args, store, now) {
                    Some(reply) => reply.encode(),
                    None => Vec::new(),
                }
            } else {
                Vec::new()
            }
        },
        _ => Vec::new(),
    }
}

/// Answers the complete frames at the front of `buf` at time `now`: the bytes to
/// send, the number of bytes used (the rest waits for more input), and whether a
/// malformed frame was met, after which the connection is to be closed.
pub fn process_buffer(buf: &[u8], store: &mut Store, now: u128) -> (r: (Vec<u8>, usize, bool))
    requires
        old(store).wf(),
    ensures
        final(store).wf(),
        ({
            let p = spec_process(buf@, old(store)@, now);
            r.0@ == p.output && r.1 == p.consumed && r.2 == p.close && final(store)@ == p.store
        }),
{
    let mut out: Vec<u8> = Vec::new();
    let mut pos: usize = 0;
    let ghost m0 = store@;
    assert(buf@.subrange(0, buf@.len() as int) =~= buf@);
    assert(out@ + spec_process(buf@, m0, now).output =~= spec_process(buf@, m0, now).output);
    loop
        invariant
            m0 == old(store)@,
            pos <= buf@.len(),
            store.wf(),
            ({
                let whole = spec_process(buf@, m0, now);
                let rest = spec_process(buf@.subrange(pos as int, buf@.len() as int), store@, now);
                whole.output == out@ + rest.output && whole.consumed == pos + rest.consumed
                    && whole.close == rest.close && whole.store == rest.store
            }),
        decreases buf@.len() - pos,
    {
        let ghost s = buf@.subrange(pos as int, buf@.len() as int);
        if pos == buf.len() {
            assert(s =~= Seq::<u8>::empty());
            assert(out@ + Seq::<u8>::empty() =~= out@);
            return (out, pos, false);
        }
        match parse_resp(slice_subrange(buf, pos, buf.len())) {
            Ok((v, rest)) => {
                let used = (buf.len() - pos) - rest.len();
                let ghost m1 = store@;
                let ghost j = used as int;
                assert(buf@.subrange(pos + used, buf@.len() as int) =~= s.subrange(j, s.len() as int));
                let reply = step(v, store, now);
                let ghost before = out@;
                append_bytes(&mut out, &reply);
                assert(out@ + spec_process(s.subrange(j, s.len() as int), store@, now).output
                    =~= before + (reply@ + spec_process(s.subrange(j, s.len() as int), store@, now).output));
                proof {
                    let p1 = spec_process(s, m1, now);
                    let p2 = spec_process(s.subrange(j, s.len() as int), store@, now);
                    assert(spec_decode(s) == Ok::<(Frame, int), DecodeError>((v.frame(), j)));
                    assert(spec_step(v.frame(), m1, now) == (reply@, store@));
                    assert(p1.output == reply@ + p2.output);
                    assert(p1.consumed == j + p2.consumed);
                }
                pos = pos + used;
            },
            Err(DecodeError::Incomplete) => {
                assert(out@ + Seq::<u8>::empty() =~= out@);
                return (out, pos, false);
            },
            Err(_) => {
                assert(out@ + Seq::<u8>::empty() =~= out@);
                return (out, pos, true);
            },
        }
    }
}

} // verus!
