//! The command dispatcher: a decoded command name and its arguments, applied
//! to the store at a given time, give a reply.
use vstd::prelude::*;
use crate::decode::{decimal_at_most, parse_decimal};
use crate::store::{copy_bytes, EntryModel, Store, StoreEntry};
use crate::value::{reply_bytes, Frame, RespValue};

verus! {

/// The upper-case form of an ASCII letter; other bytes are unchanged.
pub open spec fn upper(b: u8) -> u8 {
    if 97 <= b <= 122 {
        (b - 32) as u8
    } else {
        b
    }
}

/// Whether `s` spells the upper-case `word`, ignoring the case of ASCII letters.
pub open spec fn spells(s: Seq<u8>, word: Seq<u8>) -> bool {
    s.len() == word.len() && forall|k: int| 0 <= k < s.len() ==> upper(#[trigger] s[k]) == word[k]
}

/// The bytes of `ECHO`.
pub open spec fn echo_word() -> Seq<u8> {
    seq![69u8, 67u8, 72u8, 79u8]
}

/// The bytes of `SET`.
pub open spec fn set_word() -> Seq<u8> {
    seq![83u8, 69u8, 84u8]
}

/// The bytes of `GET`.
pub open spec fn get_word() -> Seq<u8> {
    seq![71u8, 69u8, 84u8]
}

/// The bytes of `PX`.
pub open spec fn px_word() -> Seq<u8> {
    seq![80u8, 88u8]
}

/// The liveness reply.
pub open spec fn pong_frame() -> Frame {
    Frame::Simple(seq![80u8, 79u8, 78u8, 71u8])
}

/// The acknowledgement of a write.
pub open spec fn ok_frame() -> Frame {
    Frame::Simple(seq![79u8, 75u8])
}

/// The signed number of milliseconds a token spells: an optional `-` and
/// decimal digits, within the range of a 64-bit signed integer.
pub open spec fn duration_of(tok: Seq<u8>) -> Option<int> {
    if tok.len() > 0 && tok[0] == 45 {
        match decimal_at_most(tok.drop_first(), 0x8000_0000_0000_0000) {
            Some(n) => Some(-n),
            None => None,
        }
    } else {
        match decimal_at_most(tok, 0x7fff_ffff_ffff_ffff) {
            Some(n) => Some(n as int),
            None => None,
        }
    }
}

/// The expiry time of a write at `now` with a duration `d`: none unless `d` is
/// positive; a sum past the largest time is held at the largest time.
pub open spec fn expiry_for(now: u128, d: int) -> Option<u128> {
    if d <= 0 {
        None
    } else if now + d > u128::MAX {
        Some(u128::MAX)
    } else {
        Some((now + d) as u128)
    }
}

/// Whether an entry is still visible at `now`.
pub open spec fn is_live(e: EntryModel, now: u128) -> bool {
    match e.1 {
        Some(t) => now < t,
        None => true,
    }
}

/// The reply to reading `key` at `now`.
pub open spec fn get_reply(m: Map<Seq<u8>, EntryModel>, key: Seq<u8>, now: u128) -> Frame {
    if m.contains_key(key) && is_live(m[key], now) {
        Frame::Simple(m[key].0)
    } else {
        Frame::Null
    }
}

/// The reply to `SET` with the arguments `args` (`None`: malformed), and the write it makes.
pub open spec fn set_outcome(args: Seq<Frame>, now: u128) -> Option<(Seq<u8>, EntryModel)> {
    if args.len() == 2 && args[0] is Bulk && args[1] is Bulk {
        Some((args[0]->Bulk_0, (args[1]->Bulk_0, None)))
    } else if args.len() == 4 && args[0] is Bulk && args[1] is Bulk && args[2] is Bulk && args[3] is Bulk
        && spells(args[2]->Bulk_0, px_word()) && duration_of(args[3]->Bulk_0) is Some {
        Some((args[0]->Bulk_0, (args[1]->Bulk_0, expiry_for(now, duration_of(args[3]->Bulk_0)->0))))
    } else {
        None
    }
}

/// What a command does: the reply (`None`: nothing is sent) and the store after it.
pub open spec fn spec_dispatch(
    cmd: Frame,
    args: Seq<Frame>,
    m: Map<Seq<u8>, EntryModel>,
    now: u128,
) -> (Option<Frame>, Map<Seq<u8>, EntryModel>) {
    match cmd {
        Frame::Bulk(name) => if spells(name, echo_word()) {
            if args.len() == 1 && args[0] is Bulk {
                (Some(Frame::Simple(args[0]->Bulk_0)), m)
            } else {
                (None, m)
            }
        } else if spells(name, set_word()) {
            match set_outcome(args, now) {
                Some((k, e)) => (Some(ok_frame()), m.insert(k, e)),
                None => (Some(Frame::Null), m),
            }
        } else if spells(name, get_word()) {
            if args.len() == 1 && args[0] is Bulk {
                (Some(get_reply(m, args[0]->Bulk_0, now)), m)
            } else {
                (None, m)
            }
        } else {
            (Some(pong_frame()), m)
        },
        _ => (Some(pong_frame()), m),
    }
}

/// The frames of a sequence of values.
pub open spec fn frames_of(vs: Seq<RespValue>) -> Seq<Frame> {
    vs.map_values(|v: RespValue| v.frame())
}

/// The model of an optional reply.
pub open spec fn reply_frame(r: Option<RespValue>) -> Option<Frame> {
    match r {
        Some(v) => Some(v.frame()),
        None => None,
    }
}

/// Whether `s` spells the upper-case `word`, ignoring the case of ASCII letters.
pub fn is_word(s: &Vec<u8>, word: &Vec<u8>) -> (r: bool)
    ensures
        r == spells(s@, word@),
{
    if s.len() != word.len() {
        return false;
    }
    let mut k: usize = 0;
    while k < s.len()
        invariant
            s@.len() == word@.len(),
            k <= s@.len(),
            forall|q: int| 0 <= q < k ==> upper(#[trigger] s@[q]) == word@[q],
        decreases s@.len() - k,
    {
        let b = s[k];
        let u = if 97 <= b && b <= 122 { b - 32 } else { b };
        if u != word[k] {
            return false;
        }
        k = k + 1;
    }
    true
}

/// Reads a duration token: an optional `-` and decimal digits within `i64`.
pub fn parse_duration(tok: &Vec<u8>) -> (r: Option<i64>)
    ensures
        r matches Some(d) ==> duration_of(tok@) == Some(d as int),
        r is None ==> duration_of(tok@) is None,
{
    let s = tok.as_slice();
    if s.len() > 0 && s[0] == 45 {
        assert(s@.subrange(1, s@.len() as int) =~= tok@.drop_first());
        match parse_decimal(s, 1, s.len(), 0x8000_0000_0000_0000) {
            Some(n) => if n == 0x8000_0000_0000_0000 {
                Some(i64::MIN)
            } else {
                Some(-(n as i64))
            },
            None => None,
        }
    } else {
        assert(s@.subrange(0, s@.len() as int) =~= tok@);
        match parse_decimal(s, 0, s.len(), 0x7fff_ffff_ffff_ffff) {
            Some(n) => Some(n as i64),
            None => None,
        }
    }
}

/// The liveness reply.
pub fn pong() -> (r: RespValue)
    ensures
        r.frame() == pong_frame(),
{
    RespValue::SimpleString(vec![80u8, 79u8, 78u8, 71u8])
}

/// The reply that repeats `message`.
pub fn echo(message: &Vec<u8>) -> (r: RespValue)
    ensures
        r.frame() == Frame::Simple(message@),
{
    RespValue::SimpleString(copy_bytes(message))
}

/// Writes `val` under `key` at time `now`; a positive `duration` in milliseconds
/// makes the entry expire that long after `now`. Returns the acknowledgement.
pub fn set(key: &Vec<u8>, val: &Vec<u8>, duration: i64, now: u128, store: &mut Store) -> (r: RespValue)
    requires
        old(store).wf(),
    ensures
        final(store).wf(),
        final(store)@ == old(store)@.insert(key@, (val@, expiry_for(now, duration as int))),
        r.frame() == ok_frame(),
{
    let expires_at: Option<u128> = if duration <= 0 {
        None
    } else if now > u128::MAX - (duration as u128) {
        Some(u128::MAX)
    } else {
        Some(now + duration as u128)
    };
    store.set(copy_bytes(key), copy_bytes(val), expires_at);
    RespValue::SimpleString(vec![79u8, 75u8])
}

/// The entry stored under `key`, whether or not it has expired.
pub fn get(key: &Vec<u8>, store: &Store) -> (r: Option<StoreEntry>)
    requires
        store.wf(),
    ensures
        r is Some <==> store@.contains_key(key@),
        r matches Some(e) ==> e@ == store@[key@],
{
    store.get(key)
}

/// The reply to reading `key` at `now`: its value while the entry is live, else `Null`.
pub fn get_at(key: &Vec<u8>, store: &Store, now: u128) -> (r: RespValue)
    requires
        store.wf(),
    ensures
        r.frame() == get_reply(store@, key@, now),
{
    match get(key, store) {
        Some(entry) => {
            let live = match entry.expires_at {
                Some(t) => now < t,
                None => true,
            };
            if live {
                RespValue::SimpleString(entry.value)
            } else {
                RespValue::Null
            }
        },
        None => RespValue::Null,
    }
}

/// Applies `SET` to its arguments.
fn dispatch_set(arguments: &[RespValue], store: &mut Store, now: u128) -> (r: RespValue)
    requires
        old(store).wf(),
    ensures
        final(store).wf(),
        match set_outcome(frames_of(arguments@), now) {
            Some((k, e)) => r.frame() == ok_frame() && final(store)@ == old(store)@.insert(k, e),
            None => r.frame() == Frame::Null && final(store)@ == old(store)@,
        },
{
    let ghost args = frames_of(arguments@);
    if arguments.len() == 2 {
        assert(args[0] == arguments@[0].frame() && args[1] == arguments@[1].frame());
        if let (RespValue::BulkString(key), RespValue::BulkString(val)) = (&arguments[0], &arguments[1]) {
            return set(key, val, 0, now, store);
        }
    } else if arguments.len() == 4 {
        assert(args[0] == arguments@[0].frame() && args[1] == arguments@[1].frame());
        assert(args[2] == arguments@[2].frame() && args[3] == arguments@[3].frame());
        if let (RespValue::BulkString(key), RespValue::BulkString(val), RespValue::BulkString(px), RespValue::BulkString(tok))
            = (&arguments[0], &arguments[1], &arguments[2], &arguments[3]) {
            if is_word(px, &vec![80u8, 88u8]) {
                if let Some(d) = parse_duration(tok) {
                    return set(key, val, d, now, store);
                }
            }
        }
    }
    RespValue::Null
}

/// Applies a decoded command to the store at time `now` and gives the reply;
/// `None` means that nothing is sent back. Names are matched ignoring ASCII case,
/// and an unrecognised command is answered as a liveness check.
pub fn dispatch(command: &RespValue, arguments: &[RespValue], store: &mut Store, now: u128) -> (r: Option<RespValue>)
    requires
        old(store).wf(),
    ensures
        final(store).wf(),
        (reply_frame(r), final(store)@) == spec_dispatch(command.frame(), frames_of(arguments@), old(store)@, now),
        r matches Some(v) ==> v is Null || v is SimpleString,
{
    let ghost args = frames_of(arguments@);
    match command {
        RespValue::BulkString(name) => {
            if is_word(name, &vec![69u8, 67u8, 72u8, 79u8]) {
                if arguments.len() == 1 {
                    assert(args[0] == arguments@[0].frame());
                    if let RespValue::BulkString(message) = &arguments[0] {
                        return Some(echo(message));
                    }
                }
                None
            } else if is_word(name, &vec![83u8, 69u8, 84u8]) {
                Some(dispatch_set(arguments, store, now))
            } else if is_word(name, &vec![71u8, 69u8, 84u8]) {
                if arguments.len() == 1 {
                    assert(args[0] == arguments@[0].frame());
                    if let RespValue::BulkString(key) = &arguments[0] {
                        return Some(get_at(key, store, now));
                    }
                }
                None
            } else {
                Some(pong())
            }
        },
        _ => Some(pong()),
    }
}

/// The bytes sent back for a command: the encoded reply, or nothing.
pub open spec fn spec_response(cmd: Frame, args: Seq<Frame>, m: Map<Seq<u8>, EntryModel>, now: u128) -> Seq<u8> {
    match spec_dispatch(cmd, args, m, now).0 {
        Some(f) => reply_bytes(f),
        None => Seq::empty(),
    }
}

/// Applies a decoded command and gives the bytes to send back.
pub fn handle_command(command: &RespValue, arguments: &[RespValue], store: &mut Store, now: u128) -> (r: Vec<u8>)
    requires
        old(store).wf(),
    ensures
        final(store).wf(),
        final(store)@ == spec_dispatch(command.frame(), frames_of(arguments@), old(store)@, now).1,
        r@ == spec_response(command.frame(), frames_of(arguments@), old(store)@, now),
{
    match dispatch(command, arguments, store, now) {
        Some(v) => v.encode(),
        None => Vec::new(),
    }
}

/// The store after `SET key v` for each `v` of `vs` in turn, at time `now`.
pub open spec fn run_sets(name: Seq<u8>, key: Seq<u8>, vs: Seq<Seq<u8>>, m: Map<Seq<u8>, EntryModel>, now: u128)
    -> Map<Seq<u8>, EntryModel>
    decreases vs.len(),
{
    if vs.len() == 0 {
        m
    } else {
        let before = run_sets(name, key, vs.drop_last(), m, now);
        spec_dispatch(Frame::Bulk(name), seq![Frame::Bulk(key), Frame::Bulk(vs.last())], before, now).1
    }
}

/// Writing the same arguments twice at one time leaves the store as writing them once.
pub proof fn lemma_set_idempotent(name: Seq<u8>, args: Seq<Frame>, m: Map<Seq<u8>, EntryModel>, now: u128)
    requires
        spells(name, set_word()),
    ensures
        ({
            let once = spec_dispatch(Frame::Bulk(name), args, m, now);
            let twice = spec_dispatch(Frame::Bulk(name), args, once.1, now);
            twice == once
        }),
{
    assert(!spells(name, echo_word())) by {
        if spells(name, echo_word()) {
            assert(name.len() == 4);
        }
    }
    match set_outcome(args, now) {
        Some((k, e)) => {
            assert(m.insert(k, e).insert(k, e) =~= m.insert(k, e));
        },
        None => {},
    }
}

/// After `SET key value PX tok` at `t`, `GET key` at `t2` returns the value if the
/// duration is not positive or `t2` comes before `t` plus the duration, and `Null` otherwise.
pub proof fn lemma_expiry_boundary(
    set_name: Seq<u8>,
    get_name: Seq<u8>,
    px: Seq<u8>,
    key: Seq<u8>,
    value: Seq<u8>,
    tok: Seq<u8>,
    m: Map<Seq<u8>, EntryModel>,
    t: u128,
    t2: u128,
)
    requires
        spells(set_name, set_word()),
        spells(get_name, get_word()),
        spells(px, px_word()),
        duration_of(tok) is Some,
    ensures
        ({
            let d = duration_of(tok)->0;
            let args = seq![Frame::Bulk(key), Frame::Bulk(value), Frame::Bulk(px), Frame::Bulk(tok)];
            let after = spec_dispatch(Frame::Bulk(set_name), args, m, t).1;
            let reply = spec_dispatch(Frame::Bulk(get_name), seq![Frame::Bulk(key)], after, t2).0;
            reply == if d <= 0 || (t2 < t + d && t2 < u128::MAX) {
                Some(Frame::Simple(value))
            } else {
                Some(Frame::Null)
            }
        }),
{
    lemma_words_distinct(set_name);
    lemma_words_distinct(get_name);
}

/// No name spells two of the command words.
pub proof fn lemma_words_distinct(name: Seq<u8>)
    ensures
        spells(name, set_word()) ==> !spells(name, echo_word()) && !spells(name, get_word()),
        spells(name, get_word()) ==> !spells(name, echo_word()) && !spells(name, set_word()),
{
    if spells(name, set_word()) && spells(name, get_word()) {
        assert(upper(name[0]) == set_word()[0]);
    }
    if spells(name, set_word()) || spells(name, get_word()) {
        assert(name.len() == 3);
    }
}

/// `GET` with any number of arguments but one leaves the store alone and sends nothing back.
pub proof fn lemma_get_arity(name: Seq<u8>, args: Seq<Frame>, m: Map<Seq<u8>, EntryModel>, now: u128)
    requires
        spells(name, get_word()),
        args.len() != 1,
    ensures
        spec_dispatch(Frame::Bulk(name), args, m, now) == (None::<Frame>, m),
{
    lemma_words_distinct(name);
}

/// Two names that differ only in the case of ASCII letters dispatch identically.
pub proof fn lemma_case_insensitive(
    a: Seq<u8>,
    b: Seq<u8>,
    args: Seq<Frame>,
    m: Map<Seq<u8>, EntryModel>,
    now: u128,
)
    requires
        a.len() == b.len(),
        forall|k: int| 0 <= k < a.len() ==> upper(#[trigger] a[k]) == upper(b[k]),
    ensures
        spec_dispatch(Frame::Bulk(a), args, m, now) == spec_dispatch(Frame::Bulk(b), args, m, now),
{
    assert forall|w: Seq<u8>| spells(a, w) == spells(b, w) by {
        if a.len() == w.len() {
            if spells(a, w) {
                assert forall|k: int| 0 <= k < b.len() implies upper(#[trigger] b[k]) == w[k] by {
                    assert(upper(a[k]) == w[k]);
                }
            }
            if spells(b, w) {
                assert forall|k: int| 0 <= k < a.len() implies upper(#[trigger] a[k]) == w[k] by {
                    assert(upper(b[k]) == w[k]);
                }
            }
        }
    }
}

/// Writes of one key, in whatever order they were applied, leave exactly the last
/// value applied, one of those written, with no expiry; reading the key returns it.
pub proof fn lemma_last_write_wins(
    set_name: Seq<u8>,
    get_name: Seq<u8>,
    key: Seq<u8>,
    vs: Seq<Seq<u8>>,
    m: Map<Seq<u8>, EntryModel>,
    now: u128,
    later: u128,
)
    requires
        spells(set_name, set_word()),
        spells(get_name, get_word()),
        vs.len() > 0,
    ensures
        run_sets(set_name, key, vs, m, now).contains_key(key),
        run_sets(set_name, key, vs, m, now)[key] == (vs.last(), None::<u128>),
        exists|i: int| 0 <= i < vs.len() && vs[i] == run_sets(set_name, key, vs, m, now)[key].0,
        spec_dispatch(Frame::Bulk(get_name), seq![Frame::Bulk(key)], run_sets(set_name, key, vs, m, now), later).0
            == Some(Frame::Simple(vs.last())),
{
    lemma_words_distinct(set_name);
    lemma_words_distinct(get_name);
    assert(vs[vs.len() - 1] == vs.last());
}

} // verus!
