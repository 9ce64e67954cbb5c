//! Reassembly of COBS frames from a byte stream.
use vstd::prelude::*;

verus! {

broadcast use vstd::string::group_string_axioms;

/// The one way a frame is rejected.
#[derive(Debug, PartialEq, Eq, Structural)]
pub enum DecodeError {
    /// The delimiter arrived where the last code byte did not place the end of the frame.
    InvalidLength,
}

impl DecodeError {
    /// The text that describes the error.
    pub fn message(&self) -> (r: String)
        ensures
            r@ == "The length of the encoded data was incorrect."@,
    {
        "The length of the encoded data was incorrect.".to_string()
    }
}

/// The decoder as Verus sees it.
#[verifier::ext_equal]
pub struct DecoderState {
    /// The bytes of the current frame decoded so far.
    pub buffer: Seq<u8>,
    /// The next code byte is due once `buffer.len() + 1 == pointer`.
    pub pointer: int,
    /// Whether the first code byte of a frame has been read.
    pub parsing: bool,
}

/// What one byte, or a run of bytes, does to the frame being decoded.
pub enum Step {
    /// The frame is not complete yet.
    Pending,
    /// A whole frame arrived; these are its decoded bytes.
    Frame(Seq<u8>),
    /// The delimiter arrived at the wrong place; the frame is dropped.
    Invalid,
}

impl DecoderState {
    /// A decoder that has read nothing.
    pub open spec fn initial() -> DecoderState {
        DecoderState { buffer: Seq::empty(), pointer: 0, parsing: false }
    }

    /// Whether the next byte of the frame is a code byte.
    pub open spec fn at_code(self) -> bool {
        self.buffer.len() + 1 == self.pointer
    }
}

/// What reading `byte` in state `s` leads to.
///
/// The first byte of a frame is its first code byte. Every later non-zero byte is either data
/// or, where the last code byte placed a zero, the next code byte, which stands for that zero.
/// A zero byte ends the frame, which is whole if it ends where a code byte is due; either way
/// the decoder then waits for the first code byte of the next frame.
pub open spec fn feed_step(s: DecoderState, byte: u8) -> (DecoderState, Step) {
    if !s.parsing {
        (DecoderState { buffer: Seq::empty(), pointer: byte as int, parsing: true }, Step::Pending)
    } else if byte == 0 {
        if s.at_code() {
            (DecoderState::initial(), Step::Frame(s.buffer))
        } else {
            (DecoderState::initial(), Step::Invalid)
        }
    } else if s.at_code() {
        (
            DecoderState {
                buffer: s.buffer.push(0),
                pointer: s.buffer.len() + 1 + byte,
                parsing: true,
            },
            Step::Pending,
        )
    } else {
        (DecoderState { buffer: s.buffer.push(byte), pointer: s.pointer, parsing: true }, Step::Pending)
    }
}

/// What reading `data` in state `s` leads to: the bytes are read in order until one of them
/// completes or rejects a frame; the bytes after that one are dropped.
pub open spec fn push_steps(s: DecoderState, data: Seq<u8>) -> (DecoderState, Step)
    decreases data.len(),
{
    if data.len() == 0 {
        (s, Step::Pending)
    } else {
        let (t, step) = feed_step(s, data[0]);
        if step is Pending {
            push_steps(t, data.drop_first())
        } else {
            (t, step)
        }
    }
}

/// The step that a result of [`Decoder::feed`] or [`Decoder::push`] reports.
pub open spec fn step_of(r: Result<Option<Vec<u8>>, DecodeError>) -> Step {
    match r {
        Ok(None) => Step::Pending,
        Ok(Some(frame)) => Step::Frame(frame@),
        Err(_) => Step::Invalid,
    }
}

/// Reads a stream of COBS encoded frames, each ended by a zero byte.
#[derive(Debug)]
pub struct Decoder {
    buffer: Vec<u8>,
    /// How many data bytes come before the next code byte is due; `None` where the frame's
    /// first code byte was zero, so that no code byte is ever due.
    code_in: Option<u8>,
    is_parsing: bool,
}

impl View for Decoder {
    type V = DecoderState;

    closed spec fn view(&self) -> DecoderState {
        DecoderState {
            buffer: self.buffer@,
            pointer: match self.code_in {
                Some(r) => self.buffer@.len() + 1 + r,
                None => 0,
            },
            parsing: self.is_parsing,
        }
    }
}

impl Default for Decoder {
    fn default() -> (d: Self)
        ensures
            d@ == DecoderState::initial(),
    {
        let d = Decoder { buffer: Vec::new(), code_in: None, is_parsing: false };
        assert(d@ =~= DecoderState::initial());
        d
    }
}

impl Clone for Decoder {
    fn clone(&self) -> (d: Self)
        ensures
            d@ == self@,
    {
        let buffer = self.buffer.clone();
        assert(buffer@ =~= self.buffer@);
        Decoder { buffer, code_in: self.code_in, is_parsing: self.is_parsing }
    }
}

impl Decoder {
    /// How many bytes of the current frame have been decoded so far.
    pub fn buffered_len(&self) -> (r: usize)
        ensures
            r == self@.buffer.len(),
    {
        self.buffer.len()
    }

    /// Adds a single byte for the decoder to decode.
    pub fn feed(&mut self, byte: u8) -> (r: Result<Option<Vec<u8>>, DecodeError>)
        ensures
            final(self)@ == feed_step(old(self)@, byte).0,
            step_of(r) == feed_step(old(self)@, byte).1,
            r is Err ==> r == Err::<Option<Vec<u8>>, DecodeError>(DecodeError::InvalidLength),
    {
        if !self.is_parsing {
            // The first byte of a frame is its first code byte.
            self.buffer = Vec::new();
            self.code_in = if byte == 0 {
                None
            } else {
                Some(byte - 1)
            };
            self.is_parsing = true;
            assert(self@ =~= feed_step(old(self)@, byte).0);
            return Ok(None);
        }
        if byte == 0 {
            // The frame is over; it is whole if a code byte was due here.
            let whole = match self.code_in {
                Some(r) => r == 0,
                None => false,
            };
            let mut frame: Vec<u8> = Vec::new();
            std::mem::swap(&mut frame, &mut self.buffer);
            self.code_in = None;
            self.is_parsing = false;
            assert(self@ =~= DecoderState::initial());
            if whole {
                return Ok(Some(frame));
            } else {
                return Err(DecodeError::InvalidLength);
            }
        }
        match self.code_in {
            Some(0) => {
                // A code byte: it stands for a zero and says where the next one is due.
                self.buffer.push(0);
                self.code_in = Some(byte - 1);
            },
            Some(r) => {
                self.buffer.push(byte);
                self.code_in = Some(r - 1);
            },
            None => {
                self.buffer.push(byte);
            },
        }
        assert(self@ =~= feed_step(old(self)@, byte).0);
        Ok(None)
    }

    /// Sends multiple bytes for the decoder to decode.
    pub fn push(&mut self, data: Vec<u8>) -> (r: Result<Option<Vec<u8>>, DecodeError>)
        ensures
            final(self)@ == push_steps(old(self)@, data@).0,
            step_of(r) == push_steps(old(self)@, data@).1,
            r is Err ==> r == Err::<Option<Vec<u8>>, DecodeError>(DecodeError::InvalidLength),
    {
        let n = data.len();
        let mut i: usize = 0;
        assert(data@.skip(0) =~= data@);
        while i < n
            invariant
                n == data@.len(),
                i <= n,
                push_steps(old(self)@, data@) == push_steps(self@, data@.skip(i as int)),
            decreases n - i,
        {
            let byte = data[i];
            assert(data@.skip(i as int).drop_first() =~= data@.skip(i + 1));
            assert(data@.skip(i as int)[0] == byte);
            match self.feed(byte) {
                Ok(Some(frame)) => return Ok(Some(frame)),
                Ok(None) => {},
                Err(err) => return Err(err),
            }
            i += 1;
        }
        assert(data@.skip(n as int) =~= Seq::<u8>::empty());
        Ok(None)
    }
}

} // verus!
