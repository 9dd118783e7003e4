use vstd::prelude::*;

use crate::parser::UDP_PACKET_SIZE;

verus! {

broadcast use vstd::string::group_string_axioms;

/// Size of the buffer that carries a length-prefixed TCP message.
pub const TCP_BUFFER_SIZE: usize = 63000;

/// Why a packet could not be written.
#[derive(Clone, Copy, Debug, PartialEq, Eq, Structural)]
pub enum WriteError {
    /// The bytes would not fit under the writer's capacity.
    BufferFull,
    /// A name is not ASCII, or has an empty label or one longer than 63 bytes.
    InvalidName,
    /// A section holds more entries than a 16-bit count can give.
    TooManyEntries,
}

/// The two bytes of `v`, most significant first.
pub open spec fn u16_bytes(v: u16) -> Seq<u8> {
    seq![(v / 256) as u8, (v % 256) as u8]
}

/// The four bytes of `v`, most significant first.
pub open spec fn u32_bytes(v: u32) -> Seq<u8> {
    u16_bytes((v / 65536) as u16) + u16_bytes((v % 65536) as u16)
}

/// Each character as one byte.
pub open spec fn ascii_bytes(s: Seq<char>) -> Seq<u8> {
    s.map_values(|c: char| c as u8)
}

/// Index of the first dot in `s`, or its length when it has none.
pub open spec fn dot_index(s: Seq<char>) -> int
    decreases s.len(),
{
    if s.len() == 0 {
        0
    } else if s[0] == '.' {
        0
    } else {
        1 + dot_index(s.drop_first())
    }
}

/// Every dot-separated label of `s` has between 1 and 63 characters.
pub open spec fn valid_labels(s: Seq<char>) -> bool
    decreases s.len(),
{
    let k = dot_index(s);
    &&& 1 <= k <= 63
    &&& (k < s.len() ==> valid_labels(s.subrange(k + 1, s.len() as int)))
}

/// Most characters in a name, so that its wire form takes at most 255 bytes.
pub const MAX_NAME_LEN: usize = 253;

/// A name that can be written: ASCII, at most `MAX_NAME_LEN` characters, and
/// either empty (the root) or made of labels of 1 to 63 characters.
pub open spec fn valid_name(s: Seq<char>) -> bool {
    &&& vstd::utf8::is_ascii_chars(s)
    &&& s.len() <= MAX_NAME_LEN
    &&& (s.len() == 0 || valid_labels(s))
}

/// The labels of `s`, each as a length byte and its bytes, then a zero byte.
pub open spec fn encode_labels(s: Seq<char>) -> Seq<u8>
    decreases s.len(),
{
    let k = dot_index(s);
    if k >= s.len() {
        seq![k as u8] + ascii_bytes(s) + seq![0u8]
    } else if k < 0 {
        Seq::empty()
    } else {
        seq![k as u8] + ascii_bytes(s.subrange(0, k)) + encode_labels(
            s.subrange(k + 1, s.len() as int),
        )
    }
}

/// The wire form of a name: the root is a single zero byte.
pub open spec fn encode_name(s: Seq<char>) -> Seq<u8> {
    if s.len() == 0 {
        seq![0u8]
    } else {
        encode_labels(s)
    }
}

proof fn lemma_dot_index_bounds(s: Seq<char>)
    ensures
        0 <= dot_index(s) <= s.len(),
        dot_index(s) < s.len() ==> s[dot_index(s)] == '.',
        forall|m: int| 0 <= m < dot_index(s) ==> s[m] != '.',
    decreases s.len(),
{
    if s.len() > 0 && s[0] != '.' {
        lemma_dot_index_bounds(s.drop_first());
        assert forall|m: int| 0 <= m < dot_index(s) implies s[m] != '.' by {
            if m > 0 {
                assert(s[m] == s.drop_first()[m - 1]);
            }
        }
    }
}

proof fn lemma_dot_index_is(s: Seq<char>, k: int)
    requires
        0 <= k <= s.len(),
        k == s.len() || s[k] == '.',
        forall|m: int| 0 <= m < k ==> s[m] != '.',
    ensures
        dot_index(s) == k,
    decreases k,
{
    if k > 0 {
        assert forall|m: int| 0 <= m < k - 1 implies s.drop_first()[m] != '.' by {
            assert(s.drop_first()[m] == s[m + 1]);
        }
        lemma_dot_index_is(s.drop_first(), k - 1);
    }
}

/// A valid non-empty name takes two bytes more than its characters.
pub proof fn lemma_encode_labels_len(s: Seq<char>)
    requires
        s.len() > 0,
        valid_labels(s),
    ensures
        encode_labels(s).len() == s.len() + 2,
    decreases s.len(),
{
    lemma_dot_index_bounds(s);
    let k = dot_index(s);
    if k < s.len() {
        lemma_dot_index_bounds(s.subrange(k + 1, s.len() as int));
        lemma_encode_labels_len(s.subrange(k + 1, s.len() as int));
    }
}

/// The wire form of a valid name takes two bytes more than its characters, or
/// one for the root.
pub proof fn lemma_encode_name_len(s: Seq<char>)
    requires
        valid_name(s),
    ensures
        encode_name(s).len() == if s.len() == 0 {
            1
        } else {
            s.len() + 2
        },
{
    if s.len() > 0 {
        lemma_encode_labels_len(s);
    }
}

/// The wire form of `qname`, when it is valid.
pub(crate) fn encode_qname(qname: &str) -> (r: Result<Vec<u8>, WriteError>)
    ensures
        valid_name(qname@) ==> r is Ok && r->Ok_0@ == encode_name(qname@),
        !valid_name(qname@) ==> r == Err::<Vec<u8>, WriteError>(WriteError::InvalidName),
{
    if !qname.is_ascii() {
        return Err(WriteError::InvalidName);
    }
    let bytes = qname.as_bytes();
    let n = bytes.len();
    if n > MAX_NAME_LEN {
        return Err(WriteError::InvalidName);
    }
    let ghost s = qname@;
    assert(bytes@.len() == s.len());
    assert(forall|i: int| 0 <= i < n ==> bytes@[i] == s[i] as u8);
    let mut out: Vec<u8> = Vec::new();
    if n == 0 {
        out.push(0);
        return Ok(out);
    }
    let mut i: usize = 0;
    assert(s.subrange(0, n as int) == s);
    loop
        invariant
            s == qname@,
            vstd::utf8::is_ascii_chars(s),
            n == s.len(),
            n > 0,
            n <= MAX_NAME_LEN,
            bytes@.len() == n,
            forall|m: int| 0 <= m < n ==> bytes@[m] == s[m] as u8,
            i < n,
            out@ + encode_labels(s.subrange(i as int, n as int)) == encode_labels(s),
            valid_labels(s) == valid_labels(s.subrange(i as int, n as int)),
        decreases n - i,
    {
        let ghost t = s.subrange(i as int, n as int);
        let mut j: usize = i;
        while j < n && bytes[j] != 0x2e
            invariant
                i <= j <= n,
                forall|m: int| i <= m < j ==> s[m] != '.',
                forall|m: int| 0 <= m < n ==> bytes@[m] == s[m] as u8,
                vstd::utf8::is_ascii_chars(s),
                bytes@.len() == n,
                n == s.len(),
            decreases n - j,
        {
            assert(s[j as int] != '.') by {
                assert('\0' <= s[j as int] <= '\u{7f}');
            }
            j = j + 1;
        }
        proof {
            if j < n {
                assert(s[j as int] == '.') by {
                    assert('\0' <= s[j as int] <= '\u{7f}');
                }
            }
            lemma_dot_index_is(t, j - i);
        }
        let k = j - i;
        if k == 0 || k > 63 {
            return Err(WriteError::InvalidName);
        }
        let ghost before = out@;
        out.push(k as u8);
        let mut m: usize = i;
        while m < j
            invariant
                i <= m <= j,
                j <= n,
                n == s.len(),
                bytes@.len() == n,
                out@ == before + seq![k as u8] + ascii_bytes(s.subrange(i as int, m as int)),
                forall|q: int| 0 <= q < n ==> bytes@[q] == s[q] as u8,
            decreases j - m,
        {
            out.push(bytes[m]);
            m = m + 1;
            assert(s.subrange(i as int, m as int) == s.subrange(i as int, m - 1).push(s[m - 1]));
            assert(ascii_bytes(s.subrange(i as int, m as int)) =~= ascii_bytes(
                s.subrange(i as int, m - 1),
            ).push(s[m - 1] as u8));
        }
        assert(t.subrange(0, k as int) == s.subrange(i as int, j as int));
        if j == n {
            out.push(0);
            assert(t == s.subrange(i as int, j as int));
            return Ok(out);
        }
        assert(t.subrange(k + 1, t.len() as int) == s.subrange(j + 1, n as int));
        i = j + 1;
        if i == n {
            assert(dot_index(s.subrange(i as int, n as int)) == 0);
            assert(!valid_labels(s.subrange(i as int, n as int)));
            assert(!valid_labels(t));
            return Err(WriteError::InvalidName);
        }
    }
}

/// A writer that appends a packet's bytes to a buffer of bounded size.
#[derive(Clone, Debug)]
pub struct PacketWriter {
    pub buffer: Vec<u8>,
    pub capacity: usize,
}

impl PacketWriter {
    /// An empty writer capped at one UDP datagram.
    pub fn new() -> (r: PacketWriter)
        ensures
            r.buffer@ == Seq::<u8>::empty(),
            r.capacity == UDP_PACKET_SIZE,
    {
        PacketWriter { buffer: Vec::new(), capacity: UDP_PACKET_SIZE }
    }

    /// An empty writer capped at `capacity` bytes.
    pub fn with_capacity(capacity: usize) -> (r: PacketWriter)
        ensures
            r.buffer@ == Seq::<u8>::empty(),
            r.capacity == capacity,
    {
        PacketWriter { buffer: Vec::new(), capacity }
    }

    fn write(&mut self, value: u8)
        requires
            old(self).buffer@.len() < old(self).capacity,
        ensures
            final(self).buffer@ == old(self).buffer@.push(value),
            final(self).capacity == old(self).capacity,
    {
        self.buffer.push(value);
    }

    /// Appends one byte.
    pub fn write_u8(&mut self, value: u8)
        requires
            old(self).buffer@.len() < old(self).capacity,
        ensures
            final(self).buffer@ == old(self).buffer@.push(value),
            final(self).capacity == old(self).capacity,
    {
        self.write(value);
    }

    /// Appends two bytes, most significant first.
    pub fn write_u16(&mut self, value: u16)
        requires
            old(self).buffer@.len() + 2 <= old(self).capacity,
        ensures
            final(self).buffer@ == old(self).buffer@ + u16_bytes(value),
            final(self).capacity == old(self).capacity,
    {
        self.write((value / 256) as u8);
        self.write((value % 256) as u8);
    }

    /// Appends four bytes, most significant first.
    pub fn write_u32(&mut self, value: u32)
        requires
            old(self).buffer@.len() + 4 <= old(self).capacity,
        ensures
            final(self).buffer@ == old(self).buffer@ + u32_bytes(value),
            final(self).capacity == old(self).capacity,
    {
        self.write_u16((value / 65536) as u16);
        self.write_u16((value % 65536) as u16);
        assert(old(self).buffer@ + u32_bytes(value) == old(self).buffer@ + u16_bytes(
            (value / 65536) as u16,
        ) + u16_bytes((value % 65536) as u16));
    }

    /// Appends a name as length-prefixed labels and a zero byte, without
    /// compression. Nothing is written when it fails.
    pub fn write_qname(&mut self, qname: &str) -> (r: Result<(), WriteError>)
        ensures
            final(self).capacity == old(self).capacity,
            !valid_name(qname@) ==> r == Err::<(), WriteError>(WriteError::InvalidName),
            valid_name(qname@) && old(self).buffer@.len() + encode_name(qname@).len()
                > old(self).capacity ==> r == Err::<(), WriteError>(WriteError::BufferFull),
            valid_name(qname@) && old(self).buffer@.len() + encode_name(qname@).len()
                <= old(self).capacity ==> r is Ok,
            r is Ok ==> final(self).buffer@ == old(self).buffer@ + encode_name(qname@),
            r is Err ==> final(self).buffer@ == old(self).buffer@,
    {
        let encoded = match encode_qname(qname) {
            Ok(e) => e,
            Err(e) => {
                return Err(e);
            },
        };
        if encoded.len() > self.capacity || self.buffer.len() > self.capacity - encoded.len() {
            return Err(WriteError::BufferFull);
        }
        self.write_bytes(encoded);
        Ok(())
    }

    /// Appends `bytes`.
    pub(crate) fn write_bytes(&mut self, bytes: Vec<u8>)
        requires
            old(self).buffer@.len() + bytes@.len() <= old(self).capacity,
        ensures
            final(self).buffer@ == old(self).buffer@ + bytes@,
            final(self).capacity == old(self).capacity,
    {
        let mut tail = bytes;
        self.buffer.append(&mut tail);
    }

    fn set(&mut self, pos: usize, val: u8)
        requires
            pos < old(self).buffer@.len(),
        ensures
            final(self).buffer@ == old(self).buffer@.update(pos as int, val),
            final(self).capacity == old(self).capacity,
    {
        self.buffer.set(pos, val);
    }

    /// Overwrites the two bytes at `pos` with `val`, most significant first.
    pub fn set_u16(&mut self, pos: usize, val: u16)
        requires
            pos + 2 <= old(self).buffer@.len(),
        ensures
            final(self).buffer@ == old(self).buffer@.update(pos as int, (val / 256) as u8).update(
                pos + 1,
                (val % 256) as u8,
            ),
            final(self).capacity == old(self).capacity,
    {
        let len = self.buffer.len();
        self.set(pos, (val / 256) as u8);
        self.set(pos + 1, (val % 256) as u8);
    }

    /// Number of bytes written so far.
    pub fn position(&self) -> (r: usize)
        ensures
            r == self.buffer@.len(),
    {
        self.buffer.len()
    }

    /// The `len` bytes written from `start` on.
    pub fn get_range(&self, start: usize, len: usize) -> (r: &[u8])
        requires
            start + len <= self.buffer@.len(),
        ensures
            r@ == self.buffer@.subrange(start as int, start + len),
    {
        let s = self.buffer.as_slice();
        let total = s.len();
        &s[start..start + len]
    }

    /// Writes `num` into the first two bytes of `array`, most significant first.
    pub fn write_label_length(num: u16, array: &mut [u8])
        requires
            old(array)@.len() >= 2,
        ensures
            final(array)@ == old(array)@.update(0, (num / 256) as u8).update(1, (num % 256) as u8),
    {
        array[0] = (num / 256) as u8;
        array[1] = (num % 256) as u8;
    }

    /// The elements of `array1` followed by those of `array2`.
    pub fn concatenate_arrays<T: Copy>(array1: &[T], array2: &[T]) -> (r: Vec<T>)
        ensures
            r@ == array1@ + array2@,
    {
        let mut out: Vec<T> = Vec::new();
        let mut i: usize = 0;
        while i < array1.len()
            invariant
                i <= array1@.len(),
                out@ == array1@.subrange(0, i as int),
            decreases array1@.len() - i,
        {
            out.push(array1[i]);
            i = i + 1;
            assert(array1@.subrange(0, i as int) == array1@.subrange(0, i - 1).push(
                array1@[i - 1],
            ));
        }
        let mut j: usize = 0;
        while j < array2.len()
            invariant
                i == array1@.len(),
                j <= array2@.len(),
                out@ == array1@ + array2@.subrange(0, j as int),
            decreases array2@.len() - j,
        {
            out.push(array2[j]);
            j = j + 1;
            assert(array2@.subrange(0, j as int) == array2@.subrange(0, j - 1).push(
                array2@[j - 1],
            ));
        }
        assert(array1@.subrange(0, i as int) == array1@);
        assert(array2@.subrange(0, j as int) == array2@);
        out
    }

    /// The bytes of `vec` at the start of a zeroed TCP buffer; `vec` itself back
    /// when it does not fit.
    pub fn vec_to_array(vec: Vec<u8>) -> (r: Result<[u8; TCP_BUFFER_SIZE], Vec<u8>>)
        ensures
            vec@.len() <= TCP_BUFFER_SIZE ==> r is Ok && r->Ok_0@ == vec@ + Seq::new(
                (TCP_BUFFER_SIZE - vec@.len()) as nat,
                |i: int| 0u8,
            ),
            vec@.len() > TCP_BUFFER_SIZE ==> r == Err::<[u8; TCP_BUFFER_SIZE], Vec<u8>>(vec),
    {
        if vec.len() > TCP_BUFFER_SIZE {
            return Err(vec);
        }
        let mut array = [0u8; TCP_BUFFER_SIZE];
        let mut pos: usize = 0;
        while pos < vec.len()
            invariant
                vec@.len() <= TCP_BUFFER_SIZE,
                pos <= vec@.len(),
                array@.len() == TCP_BUFFER_SIZE,
                forall|i: int| 0 <= i < pos ==> array@[i] == vec@[i],
                forall|i: int| pos <= i < TCP_BUFFER_SIZE ==> array@[i] == 0u8,
            decreases vec@.len() - pos,
        {
            array[pos] = vec[pos];
            pos = pos + 1;
        }
        assert(array@ == vec@ + Seq::new((TCP_BUFFER_SIZE - vec@.len()) as nat, |i: int| 0u8));
        Ok(array)
    }
}

} // verus!
