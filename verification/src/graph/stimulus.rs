use super::eval::Value;
use crate::text::{lemma_line_end_bounds, line_at, line_end, ByteReader};
use vstd::prelude::*;

verus! {

/// Something that supplies one input vector per clock cycle.
pub trait Stimulus {
    /// The input vectors that are still to come, in order.  A stimulus that
    /// does not describe them promises none.
    open spec fn remaining(&self) -> Seq<Seq<Value>> {
        Seq::empty()
    }

    /// Get the input vector for the next clock cycle.
    ///
    /// `Some(...)` means another vector was read.
    /// `None` means the stimulus is finished.
    fn next_vector(&mut self) -> (r: Option<Vec<Value>>)
        ensures
            old(self).remaining().len() == 0 ==> r is None,
            old(self).remaining().len() > 0 ==> (r matches Some(v) && v@ == old(self).remaining()[0]
                && final(self).remaining() == old(self).remaining().drop_first()),
            r is None ==> final(self).remaining().len() == 0,
    ;
}

/// Allow a slice of vectors to be used as a stimulus: one vector per cycle,
/// in order.
impl<'a> Stimulus for &'a [Vec<Value>] {
    open spec fn remaining(&self) -> Seq<Seq<Value>> {
        (**self)@.map_values(|v: Vec<Value>| v@)
    }

    fn next_vector(&mut self) -> (r: Option<Vec<Value>>)
        ensures
            old(self)@.len() == 0 ==> r is None && final(self)@ == old(self)@,
            old(self)@.len() > 0 ==> (r matches Some(v) && v@ == old(self)@[0]@ && final(self)@
                == old(self)@.drop_first()),
    {
        if self.len() == 0 {
            return None;
        }
        let first = vstd::slice::slice_to_vec(self[0].as_slice());
        *self = vstd::slice::slice_subrange(*self, 1, self.len());
        assert(self@ =~= old(self)@.drop_first());
        assert(self.remaining() =~= old(self).remaining().drop_first());
        Some(first)
    }
}

} // verus!

verus! {

/// `s` without trailing `\r` and `\n` characters.
pub open spec fn trim_crlf(s: Seq<u8>) -> Seq<u8>
    decreases s.len(),
{
    if s.len() > 0 && (s.last() == 13 || s.last() == 10) {
        trim_crlf(s.drop_last())
    } else {
        s
    }
}

/// The text of the stimulus line at `pos`, without its line ending.
pub open spec fn stim_line(data: Seq<u8>, pos: int) -> Seq<u8> {
    trim_crlf(line_at(data, pos))
}

/// Every character is `0` or `1`.
pub open spec fn is_bits(t: Seq<u8>) -> bool {
    forall|i: int| 0 <= i < t.len() ==> (#[trigger] t[i] == 48 || t[i] == 49)
}

/// The values of a line of bits: `0` is all zeros, `1` all ones.
pub open spec fn bits_values(t: Seq<u8>) -> Seq<Value> {
    t.map_values(|b: u8| if b == 48 { 0usize } else { usize::MAX })
}

/// The input vectors of the stimulus lines from `pos` up to the end of the
/// data, a `.` line, or a line with a character other than `0` and `1`.
pub open spec fn stim_vectors(data: Seq<u8>, pos: int) -> Seq<Seq<Value>>
    decreases data.len() - pos,
{
    if pos < 0 || pos >= data.len() {
        seq![]
    } else {
        let t = stim_line(data, pos);
        if t == seq![46u8] || !is_bits(t) {
            seq![]
        } else {
            proof {
                lemma_line_end_bounds(data, pos);
            }
            seq![bits_values(t)] + stim_vectors(data, line_end(data, pos))
        }
    }
}

/// Parses text stimulus vectors: one line of `0`s and `1`s per clock cycle,
/// ended by the end of the data or a line `.`; a line with any other
/// character also ends it.
pub struct StimulusParser {
    reader: ByteReader,
    finished: bool,
}

pub struct StimulusView {
    pub data: Seq<u8>,
    pub pos: int,
    pub finished: bool,
}

impl View for StimulusParser {
    type V = StimulusView;

    closed spec fn view(&self) -> StimulusView {
        StimulusView { data: self.reader@.data, pos: self.reader@.pos, finished: self.finished }
    }
}

impl StimulusParser {
    pub fn new(reader: ByteReader) -> (r: Self)
        ensures
            r@ == (StimulusView { data: reader@.data, pos: reader@.pos, finished: false }),
    {
        StimulusParser { reader, finished: false }
    }
}

/// The values of a line of bits, or `None` when the line holds another
/// character.
fn parse_bits(t: &[u8]) -> (r: Option<Vec<Value>>)
    ensures
        r is Some <==> is_bits(t@),
        r matches Some(v) ==> v@ == bits_values(t@),
{
    let mut values: Vec<Value> = Vec::new();
    let mut i: usize = 0;
    while i < t.len()
        invariant
            i <= t@.len(),
            is_bits(t@.subrange(0, i as int)),
            values@ == bits_values(t@.subrange(0, i as int)),
        decreases t@.len() - i,
    {
        // True is represented by all 1 bits because eval uses
        // bitwise operations such as `!` and `&`.
        let v = if t[i] == 48 {
            0
        } else if t[i] == 49 {
            Value::MAX
        } else {
            assert(!is_bits(t@)) by {
                assert(!(t@[i as int] == 48 || t@[i as int] == 49));
            }
            return None;
        };
        values.push(v);
        i = i + 1;
        assert(t@.subrange(0, i as int).drop_last() =~= t@.subrange(0, i - 1));
        assert(values@ =~= bits_values(t@.subrange(0, i as int)));
    }
    assert(t@.subrange(0, t@.len() as int) =~= t@);
    Some(values)
}

fn trim_line_ending(s: &[u8]) -> (r: &[u8])
    ensures
        r@ == trim_crlf(s@),
{
    let mut end = s.len();
    assert(s@.subrange(0, end as int) =~= s@);
    while end > 0 && (s[end - 1] == 13 || s[end - 1] == 10)
        invariant
            end <= s@.len(),
            trim_crlf(s@.subrange(0, end as int)) == trim_crlf(s@),
        decreases end,
    {
        assert(s@.subrange(0, end as int).drop_last() =~= s@.subrange(0, end - 1));
        end = end - 1;
    }
    vstd::slice::slice_subrange(s, 0, end)
}

impl Stimulus for StimulusParser {
    open spec fn remaining(&self) -> Seq<Seq<Value>> {
        if self@.finished {
            seq![]
        } else {
            stim_vectors(self@.data, self@.pos)
        }
    }

    fn next_vector(&mut self) -> (r: Option<Vec<Value>>)
        ensures
            ({
                let s = old(self)@;
                let t = stim_line(s.data, s.pos);
                if s.finished {
                    r is None && final(self)@ == s
                } else if s.pos >= s.data.len() {
                    r is None && final(self)@ == (StimulusView { finished: true, ..s })
                } else if t == seq![46u8] || !is_bits(t) {
                    r is None && final(self)@ == (StimulusView {
                        pos: line_end(s.data, s.pos),
                        finished: true,
                        ..s
                    })
                } else {
                    r matches Some(v) && v@ == bits_values(t) && final(self)@ == (StimulusView {
                        pos: line_end(s.data, s.pos),
                        ..s
                    })
                }
            }),
    {
        if self.finished {
            return None;
        }
        let ghost p = self.reader@.pos;
        proof {
            self.reader.lemma_pos_nonneg();
        }
        let line = self.reader.read_line();
        proof {
            lemma_line_end_bounds(self.reader@.data, p);
        }
        // End of file.
        if line.len() == 0 {
            self.finished = true;
            return None;
        }
        // `read_line` keeps the newline, so remove "\n" or "\r\n".
        let t = trim_line_ending(line.as_slice());
        // The C stimulus format uses "." to end the input sequence.
        if t.len() == 1 && t[0] == 46 {
            assert(t@ =~= seq![46u8]);
            self.finished = true;
            return None;
        }
        assert(t@ != seq![46u8]);
        match parse_bits(t) {
            Some(values) => Some(values),
            None => {
                // A character other than `0` and `1` ends the stimulus.
                self.finished = true;
                None
            },
        }
    }
}

} // verus!
