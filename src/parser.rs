use vstd::prelude::*;

verus! {

/// Most pointer dereferences that one name may take.
pub const MAX_JUMPS: usize = 5;

/// Size of a UDP datagram buffer.
pub const UDP_PACKET_SIZE: usize = 512;

/// Why a packet could not be read.
#[derive(Clone, Copy, Debug, PartialEq, Eq, Structural)]
pub enum ParseError {
    /// A read would go past the end of the buffer.
    EndOfBuffer,
    /// A name took more pointer dereferences than `MAX_JUMPS`.
    TooManyJumps,
    /// A label length byte is neither a length of at most 63 nor a pointer.
    BadLabelLength,
}

/// Each byte read as the character with the same code (Latin-1).
pub open spec fn latin1(b: Seq<u8>) -> Seq<char> {
    b.map_values(|x: u8| x as char)
}

/// Labels joined by dots.
pub open spec fn join_labels(labels: Seq<Seq<u8>>) -> Seq<char>
    decreases labels.len(),
{
    if labels.len() == 0 {
        Seq::empty()
    } else if labels.len() == 1 {
        latin1(labels[0])
    } else {
        join_labels(labels.drop_last()) + seq!['.'] + latin1(labels.last())
    }
}

/// Big-endian value of two bytes at `p`.
pub open spec fn be16_at(buf: Seq<u8>, p: int) -> int {
    buf[p] * 256 + buf[p + 1]
}

/// Big-endian value of four bytes at `p`.
pub open spec fn be32_at(buf: Seq<u8>, p: int) -> int {
    be16_at(buf, p) * 65536 + be16_at(buf, p + 2)
}

/// The labels of the name whose next length byte is at `cur`, after `jumps`
/// pointer dereferences, and the position right after the name's bytes at `cur`:
/// after its zero byte, or after the first pointer met from `cur`.
pub open spec fn name_at(buf: Seq<u8>, cur: int, jumps: int) -> Result<(Seq<Seq<u8>>, int), ParseError>
    decreases MAX_JUMPS + 1 - jumps, buf.len() - cur,
{
    if jumps > MAX_JUMPS || jumps < 0 {
        Err(ParseError::TooManyJumps)
    } else if cur < 0 || cur >= buf.len() {
        Err(ParseError::EndOfBuffer)
    } else {
        let len = buf[cur];
        if len >= 0xC0 {
            if cur + 1 >= buf.len() {
                Err(ParseError::EndOfBuffer)
            } else {
                let offset = (len - 0xC0) * 256 + buf[cur + 1];
                match name_at(buf, offset, jumps + 1) {
                    Ok((labels, _)) => Ok((labels, cur + 2)),
                    Err(e) => Err(e),
                }
            }
        } else if len == 0 {
            Ok((Seq::empty(), cur + 1))
        } else if len > 63 {
            Err(ParseError::BadLabelLength)
        } else if cur + 1 + len > buf.len() {
            Err(ParseError::EndOfBuffer)
        } else {
            match name_at(buf, cur + 1 + len, jumps) {
                Ok((rest, end)) => Ok((seq![buf.subrange(cur + 1, cur + 1 + len)] + rest, end)),
                Err(e) => Err(e),
            }
        }
    }
}

/// The name at `p` as text, and the position after it.
pub open spec fn parse_name(buf: Seq<u8>, p: int) -> Result<(Seq<char>, int), ParseError> {
    match name_at(buf, p, 0) {
        Ok((labels, end)) => Ok((join_labels(labels), end)),
        Err(e) => Err(e),
    }
}

/// Relies on String::push: appends one character.
#[verifier::external_body]
pub(crate) fn push_char(s: &mut String, c: char)
    ensures
        final(s)@ == old(s)@.push(c),
{
    s.push(c);
}

/// A reader over a packet's bytes with a cursor.
#[derive(Clone, Debug)]
pub struct PacketParser {
    pub buffer: Vec<u8>,
    pub position: usize,
}

impl PacketParser {
    /// A parser over a zeroed datagram buffer, at position 0.
    pub fn new() -> (r: PacketParser)
        ensures
            r.buffer@ == Seq::new(UDP_PACKET_SIZE as nat, |i: int| 0u8),
            r.position == 0,
    {
        let mut buffer: Vec<u8> = Vec::new();
        let mut i: usize = 0;
        while i < UDP_PACKET_SIZE
            invariant
                i <= UDP_PACKET_SIZE,
                buffer@ == Seq::new(i as nat, |k: int| 0u8),
            decreases UDP_PACKET_SIZE - i,
        {
            buffer.push(0);
            i = i + 1;
        }
        PacketParser { buffer, position: 0 }
    }

    /// A parser over the given bytes, at position 0.
    pub fn from_bytes(bytes: Vec<u8>) -> (r: PacketParser)
        ensures
            r.buffer@ == bytes@,
            r.position == 0,
    {
        PacketParser { buffer: bytes, position: 0 }
    }

    /// Moves the cursor to `new_position`.
    pub fn jump(&mut self, new_position: usize)
        ensures
            final(self).position == new_position,
            final(self).buffer@ == old(self).buffer@,
    {
        self.position = new_position;
    }

    /// Reads the byte at the cursor and moves past it.
    pub fn parse_byte(&mut self) -> (r: Result<u8, ParseError>)
        ensures
            old(self).position < old(self).buffer@.len() ==> r == Ok::<u8, ParseError>(
                old(self).buffer@[old(self).position as int],
            ) && final(self).position == old(self).position + 1,
            old(self).position >= old(self).buffer@.len() ==> r == Err::<u8, ParseError>(
                ParseError::EndOfBuffer,
            ) && final(self).position == old(self).position,
            final(self).buffer@ == old(self).buffer@,
    {
        if self.position < self.buffer.len() {
            let b = self.buffer[self.position];
            self.position = self.position + 1;
            Ok(b)
        } else {
            Err(ParseError::EndOfBuffer)
        }
    }

    /// Reads the byte at `given_position`, leaving the cursor.
    pub fn get_byte(&self, given_position: usize) -> (r: Result<u8, ParseError>)
        ensures
            given_position < self.buffer@.len() ==> r == Ok::<u8, ParseError>(
                self.buffer@[given_position as int],
            ),
            given_position >= self.buffer@.len() ==> r == Err::<u8, ParseError>(
                ParseError::EndOfBuffer,
            ),
    {
        if given_position < self.buffer.len() {
            Ok(self.buffer[given_position])
        } else {
            Err(ParseError::EndOfBuffer)
        }
    }

    /// The `length` bytes from `start_position` as text, one character per byte.
    pub fn parse_byte_range(&self, start_position: usize, length: usize) -> (r: Result<
        String,
        ParseError,
    >)
        ensures
            start_position + length <= self.buffer@.len() ==> r is Ok && r->Ok_0@ == latin1(
                self.buffer@.subrange(start_position as int, start_position + length),
            ),
            start_position + length > self.buffer@.len() ==> r == Err::<String, ParseError>(
                ParseError::EndOfBuffer,
            ),
    {
        if length > self.buffer.len() || start_position > self.buffer.len() - length {
            return Err(ParseError::EndOfBuffer);
        }
        let end = start_position + length;
        let mut name = String::new();
        let mut pos: usize = start_position;
        while pos < end
            invariant
                start_position <= pos <= end,
                end == start_position + length,
                end <= self.buffer@.len(),
                name@ == latin1(self.buffer@.subrange(start_position as int, pos as int)),
            decreases end - pos,
        {
            let letter = self.buffer[pos] as char;
            push_char(&mut name, letter);
            pos = pos + 1;
            assert(self.buffer@.subrange(start_position as int, pos as int)
                == self.buffer@.subrange(start_position as int, pos - 1).push(
                self.buffer@[pos - 1],
            ));
        }
        Ok(name)
    }

    /// Reads a big-endian 16-bit value at the cursor and moves past it.
    pub fn parse_u16(&mut self) -> (r: Result<u16, ParseError>)
        ensures
            old(self).position + 2 <= old(self).buffer@.len() ==> r is Ok && r->Ok_0 == be16_at(
                old(self).buffer@,
                old(self).position as int,
            ) && final(self).position == old(self).position + 2,
            old(self).position + 2 > old(self).buffer@.len() ==> r == Err::<u16, ParseError>(
                ParseError::EndOfBuffer,
            ) && final(self).position == old(self).position,
            final(self).buffer@ == old(self).buffer@,
    {
        if self.position >= self.buffer.len() || self.buffer.len() - self.position < 2 {
            return Err(ParseError::EndOfBuffer);
        }
        let hi = self.buffer[self.position] as u16;
        let lo = self.buffer[self.position + 1] as u16;
        self.position = self.position + 2;
        Ok(hi * 256 + lo)
    }

    /// Reads a big-endian 32-bit value at the cursor and moves past it.
    pub fn parse_u32(&mut self) -> (r: Result<u32, ParseError>)
        ensures
            old(self).position + 4 <= old(self).buffer@.len() ==> r is Ok && r->Ok_0 == be32_at(
                old(self).buffer@,
                old(self).position as int,
            ) && final(self).position == old(self).position + 4,
            old(self).position + 4 > old(self).buffer@.len() ==> r == Err::<u32, ParseError>(
                ParseError::EndOfBuffer,
            ) && final(self).position == old(self).position,
            final(self).buffer@ == old(self).buffer@,
    {
        if self.position >= self.buffer.len() || self.buffer.len() - self.position < 4 {
            return Err(ParseError::EndOfBuffer);
        }
        let hi = self.parse_u16();
        let lo = self.parse_u16();
        match (hi, lo) {
            (Ok(h), Ok(l)) => Ok((h as u32) * 65536 + (l as u32)),
            _ => Err(ParseError::EndOfBuffer),
        }
    }

    /// Reads a possibly compressed domain name at the cursor. The cursor moves
    /// past the name's own bytes: after its zero byte, or after its first pointer.
    pub fn parse_qname(&mut self) -> (r: Result<String, ParseError>)
        ensures
            final(self).buffer@ == old(self).buffer@,
            match parse_name(old(self).buffer@, old(self).position as int) {
                Ok((name, end)) => r is Ok && r->Ok_0@ == name && final(self).position == end,
                Err(e) => r == Err::<String, ParseError>(e) && final(self).position == old(
                    self,
                ).position,
            },
    {
        match self.read_name(self.position) {
            Ok((name, end)) => {
                self.position = end;
                Ok(name)
            },
            Err(e) => Err(e),
        }
    }

    /// The name at `start` and the position after its own bytes.
    fn read_name(&self, start: usize) -> (r: Result<(String, usize), ParseError>)
        ensures
            match parse_name(self.buffer@, start as int) {
                Ok((name, end)) => r is Ok && r->Ok_0.0@ == name && r->Ok_0.1 == end,
                Err(e) => r == Err::<(String, usize), ParseError>(e),
            },
    {
        let ghost buf = self.buffer@;
        let mut outstr = String::new();
        let mut current_position: usize = start;
        let mut jumped = false;
        let mut saved_end: usize = 0;
        let mut jumps_performed: usize = 0;
        let mut has_label = false;
        let ghost mut acc: Seq<Seq<u8>> = Seq::empty();
        loop
            invariant
                self.buffer@ == buf,
                jumps_performed <= MAX_JUMPS + 1,
                outstr@ == join_labels(acc),
                has_label == (acc.len() > 0),
                jumped ==> saved_end <= buf.len() + 1,
                name_at(buf, start as int, 0) == match name_at(
                    buf,
                    current_position as int,
                    jumps_performed as int,
                ) {
                    Ok((rest, end)) => Ok::<(Seq<Seq<u8>>, int), ParseError>((acc + rest, if jumped {
                        saved_end as int
                    } else {
                        end
                    })),
                    Err(e) => Err(e),
                },
            decreases MAX_JUMPS + 1 - jumps_performed, buf.len() - current_position,
        {
            if jumps_performed > MAX_JUMPS {
                return Err(ParseError::TooManyJumps);
            }
            if current_position >= self.buffer.len() {
                return Err(ParseError::EndOfBuffer);
            }
            let label_length = self.buffer[current_position];
            if label_length >= 0xC0 {
                if current_position + 1 >= self.buffer.len() {
                    return Err(ParseError::EndOfBuffer);
                }
                let second_byte = self.buffer[current_position + 1] as usize;
                let offset = ((label_length - 0xC0) as usize) * 256 + second_byte;
                if !jumped {
                    saved_end = current_position + 2;
                }
                jumped = true;
                current_position = offset;
                jumps_performed = jumps_performed + 1;
            } else if label_length == 0 {
                assert(acc + Seq::<Seq<u8>>::empty() == acc);
                let end = if jumped {
                    saved_end
                } else {
                    current_position + 1
                };
                return Ok((outstr, end));
            } else if label_length > 63 {
                return Err(ParseError::BadLabelLength);
            } else {
                let len = label_length as usize;
                if len >= self.buffer.len() - current_position {
                    return Err(ParseError::EndOfBuffer);
                }
                let label = self.parse_byte_range(current_position + 1, len);
                let label = match label {
                    Ok(l) => l,
                    Err(e) => {
                        return Err(e);
                    },
                };
                let ghost bytes = buf.subrange(current_position + 1, current_position + 1 + len);
                if has_label {
                    push_char(&mut outstr, '.');
                }
                has_label = true;
                outstr.append(label.as_str());
                proof {
                    let next = acc.push(bytes);
                    assert(next.drop_last() == acc);
                    match name_at(buf, current_position + 1 + len, jumps_performed as int) {
                        Ok((rest, end)) => {
                            assert(acc + (seq![bytes] + rest) == next + rest);
                        },
                        Err(e) => {},
                    }
                    acc = next;
                }
                current_position = current_position + 1 + len;
            }
        }
    }
}

} // verus!
