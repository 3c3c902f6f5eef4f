//! The flat buffer handed to the renderer: draw records laid end to end.
use vstd::prelude::*;

use crate::element::DrawRecord;

verus! {

/// One value of the buffer. The renderer reads each as a single-precision
/// float: `Tag` is `1.0`, a `Length` its number of pixels, a `Channel` the
/// single with that bit pattern, `Zero` is `0.0`.
#[derive(Clone, Copy, Debug, PartialEq, Eq, Structural)]
pub enum BufferWord {
    /// The kind of a record: a solid rectangle.
    Tag,
    Length(i64),
    Channel(u32),
    Zero,
}

/// Number of values in one record.
pub const RECORD_LEN: usize = 9;

/// Number of values in the padding that stands for an empty buffer.
pub const PADDING_LEN: usize = 4;

/// The nine values of a record: the tag, `x_min`, `x_max`, `y_min`, `y_max`,
/// then red, green, blue and alpha.
pub open spec fn record_words(r: DrawRecord) -> Seq<BufferWord> {
    seq![
        BufferWord::Tag,
        BufferWord::Length(r.x_min),
        BufferWord::Length(r.x_max),
        BufferWord::Length(r.y_min),
        BufferWord::Length(r.y_max),
        BufferWord::Channel(r.color.r),
        BufferWord::Channel(r.color.g),
        BufferWord::Channel(r.color.b),
        BufferWord::Channel(r.color.a),
    ]
}

/// The records laid end to end, in order.
pub open spec fn words_of(s: Seq<DrawRecord>) -> Seq<BufferWord>
    decreases s.len(),
{
    if s.len() == 0 {
        Seq::empty()
    } else {
        words_of(s.drop_last()) + record_words(s.last())
    }
}

/// The buffer for a frame: the records laid end to end, or four zeros where
/// there is no record, since the renderer cannot take an empty buffer.
pub open spec fn buffer_of(s: Seq<DrawRecord>) -> Seq<BufferWord> {
    if s.len() == 0 {
        seq![BufferWord::Zero, BufferWord::Zero, BufferWord::Zero, BufferWord::Zero]
    } else {
        words_of(s)
    }
}

/// Lays the records of a frame end to end, with the padding for an empty
/// frame.
pub fn frame_buffer(records: &Vec<DrawRecord>) -> (r: Vec<BufferWord>)
    ensures
        r@ == buffer_of(records@),
{
    let mut out: Vec<BufferWord> = Vec::new();
    if records.len() == 0 {
        let mut k: usize = 0;
        while k < PADDING_LEN
            invariant
                k <= PADDING_LEN,
                out@ == Seq::new(k as nat, |j: int| BufferWord::Zero),
            decreases PADDING_LEN - k,
        {
            out.push(BufferWord::Zero);
            k = k + 1;
            assert(out@ =~= Seq::new(k as nat, |j: int| BufferWord::Zero));
        }
        assert(out@ =~= buffer_of(records@));
        return out;
    }
    let mut i: usize = 0;
    while i < records.len()
        invariant
            i <= records@.len(),
            out@ == words_of(records@.take(i as int)),
        decreases records@.len() - i,
    {
        let r = records[i];
        out.push(BufferWord::Tag);
        out.push(BufferWord::Length(r.x_min));
        out.push(BufferWord::Length(r.x_max));
        out.push(BufferWord::Length(r.y_min));
        out.push(BufferWord::Length(r.y_max));
        out.push(BufferWord::Channel(r.color.r));
        out.push(BufferWord::Channel(r.color.g));
        out.push(BufferWord::Channel(r.color.b));
        out.push(BufferWord::Channel(r.color.a));
        proof {
            let s = records@.take(i as int + 1);
            assert(s.drop_last() =~= records@.take(i as int));
            assert(out@ =~= words_of(s));
        }
        i = i + 1;
    }
    assert(records@.take(records@.len() as int) =~= records@);
    out
}

} // verus!
