use vstd::prelude::*;

verus! {

/// Carriage return.
pub const CR: u8 = 13;

/// Line feed.
pub const LF: u8 = 10;

/// The mathematical model of a protocol value.
pub enum Frame {
    /// The "not found" marker.
    Null,
    /// A status line.
    Simple(Seq<u8>),
    /// A length-prefixed byte string.
    Bulk(Seq<u8>),
    /// A length-prefixed sequence of values.
    Array(Seq<Frame>),
}

/// A protocol value, as decoded from requests or produced as a reply.
#[derive(Debug)]
pub enum RespValue {
    /// The "not found" marker.
    Null,
    /// A single-line status reply.
    SimpleString(Vec<u8>),
    /// An explicit-length byte string.
    BulkString(Vec<u8>),
    /// An explicit-length sequence of values.
    Array(Vec<RespValue>),
}

impl RespValue {
    /// The model of this value.
    pub open spec fn frame(self) -> Frame
        decreases self,
    {
        match self {
            RespValue::Null => Frame::Null,
            RespValue::SimpleString(s) => Frame::Simple(s@),
            RespValue::BulkString(b) => Frame::Bulk(b@),
            RespValue::Array(items) => Frame::Array(
                Seq::new(items.len() as nat, |i: int| if 0 <= i < items.len() { items[i].frame() } else { Frame::Null }),
            ),
        }
    }
}

/// The wire bytes of a reply: the missing-bulk-string marker for `Null`,
/// and a `+`-prefixed line for a status reply.
pub open spec fn reply_bytes(f: Frame) -> Seq<u8> {
    match f {
        Frame::Simple(s) => seq![43u8] + s + seq![CR, LF],
        _ => seq![36u8, 45u8, 49u8, CR, LF],
    }
}

/// Appends `src` to `dst`.
pub fn append_bytes(dst: &mut Vec<u8>, src: &Vec<u8>)
    ensures
        final(dst)@ == old(dst)@ + src@,
{
    let mut k: usize = 0;
    while k < src.len()
        invariant
            k <= src@.len(),
            dst@ == old(dst)@ + src@.subrange(0, k as int),
        decreases src@.len() - k,
    {
        dst.push(src[k]);
        k = k + 1;
        assert(dst@ =~= old(dst)@ + src@.subrange(0, k as int));
    }
    assert(src@.subrange(0, k as int) =~= src@);
}

impl RespValue {
    /// Encodes a reply value. Only `Null` and status replies are ever sent.
    pub fn encode(self) -> (r: Vec<u8>)
        requires
            self is Null || self is SimpleString,
        ensures
            r@ == reply_bytes(self.frame()),
    {
        match self {
            RespValue::SimpleString(s) => {
                let mut out: Vec<u8> = vec![43u8];
                append_bytes(&mut out, &s);
                out.push(CR);
                out.push(LF);
                assert(out@ =~= seq![43u8] + s@ + seq![CR, LF]);
                out
            },
            _ => vec![36u8, 45u8, 49u8, CR, LF],
        }
    }
}

} // verus!
