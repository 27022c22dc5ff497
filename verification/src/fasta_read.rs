use vstd::prelude::*;

use crate::constants::BUFFER_SIZE;
use crate::fasta::{ascii_upper, push_char};
use crate::sequence::SeqBuf;

verus! {

/// The position of the first newline byte in `r` at or past `from`, or the
/// length of `r` where none is left.
pub open spec fn first_newline(r: Seq<u8>, from: int) -> int
    decreases r.len() - from,
{
    if from < 0 || from >= r.len() {
        r.len() as int
    } else if r[from] == 10 {
        from
    } else {
        first_newline(r, from + 1)
    }
}

proof fn lemma_first_newline_at(r: Seq<u8>, from: int, k: int)
    requires
        0 <= from <= k <= r.len(),
        forall|j: int| from <= j < k ==> r[j] != 10,
        k == r.len() || r[k] == 10,
    ensures
        first_newline(r, from) == k,
    decreases k - from,
{
    if from < k {
        lemma_first_newline_at(r, from + 1, k);
    }
}

/// Reads sequence records from a byte source held in memory, through a
/// fixed-size read buffer and a fixed-size line buffer, as a record-oriented
/// reader over a file stream would.
pub struct SeqLoader {
    pub source: Vec<u8>,
    pub source_index: usize,
    pub read_buffer: Vec<u8>,
    pub read_index: usize,
    pub read_length: usize,
    pub line_buffer: Vec<u8>,
    pub line_length: usize,
}

impl SeqLoader {
    /// The bytes not yet consumed: the unread tail of the read buffer,
    /// followed by the unread tail of the source.
    pub open spec fn remaining(self) -> Seq<u8> {
        self.read_buffer@.subrange(self.read_index as int, self.read_length as int)
            + self.source@.subrange(self.source_index as int, self.source@.len() as int)
    }

    /// Buffers span `BUFFER_SIZE` bytes and all cursors stay in range.
    pub open spec fn wf(self) -> bool {
        &&& self.read_buffer@.len() == BUFFER_SIZE
        &&& self.line_buffer@.len() == BUFFER_SIZE
        &&& self.read_index <= self.read_length <= BUFFER_SIZE
        &&& self.source_index <= self.source@.len()
        &&& self.line_length <= BUFFER_SIZE
    }

    /// Builds a loader over a byte source already in memory and primes the
    /// line buffer with the source's first line.
    pub fn from_bytes(source: Vec<u8>) -> (loader: SeqLoader)
        ensures
            loader.wf(),
            loader.source@ == source@,
            loader.line_length as int == min_int(first_newline(source@, 0), BUFFER_SIZE as int),
            forall|j: int| 0 <= j < loader.line_length ==> loader.line_buffer@[j] == source@[j],
            loader.remaining() == chop_line(source@, first_newline(source@, 0)),
    {
        let mut read_buffer: Vec<u8> = Vec::new();
        let mut line_buffer: Vec<u8> = Vec::new();
        let mut i: usize = 0;
        while i < BUFFER_SIZE
            invariant
                i <= BUFFER_SIZE,
                read_buffer@.len() == i,
                line_buffer@.len() == i,
            decreases BUFFER_SIZE - i,
        {
            read_buffer.push(0);
            line_buffer.push(0);
            i += 1;
        }
        let mut loader = SeqLoader {
            source,
            source_index: 0,
            read_buffer,
            read_index: 0,
            read_length: 0,
            line_buffer,
            line_length: 0,
        };
        proof {
            assert(loader.remaining() =~= loader.source@);
        }
        loader.next_line();
        loader
    }

    /// Builds a loader by draining the given reader.
    pub fn from_bufread<T: std::io::BufRead>(file: T) -> (loader: SeqLoader)
        ensures
            loader.wf(),
    {
        SeqLoader::from_bytes(read_all(file))
    }

    /// Tops the read buffer up from the source, once it is exhausted.  The
    /// stream of unconsumed bytes is unchanged either way.
    fn fill_buffer(&mut self)
        requires
            old(self).wf(),
        ensures
            final(self).wf(),
            final(self).source@ == old(self).source@,
            final(self).line_buffer == old(self).line_buffer,
            final(self).line_length == old(self).line_length,
            final(self).remaining() == old(self).remaining(),
            old(self).read_index < old(self).read_length ==> *final(self) == *old(self),
            old(self).read_index >= old(self).read_length ==> final(self).read_index == 0
                && final(self).read_length as int == min_int(
                BUFFER_SIZE as int,
                old(self).remaining().len() as int,
            ),
    {
        if self.read_index >= self.read_length {
            // Nothing is left over from last time, so read from the source.
            let ghost before = *self;
            let avail = self.source.len() - self.source_index;
            let n = if avail < BUFFER_SIZE {
                avail
            } else {
                BUFFER_SIZE
            };
            let mut i: usize = 0;
            while i < n
                invariant
                    self.source@ == before.source@,
                    self.source_index == before.source_index,
                    self.line_buffer == before.line_buffer,
                    self.line_length == before.line_length,
                    self.read_index == before.read_index,
                    self.read_length == before.read_length,
                    self.read_buffer@.len() == BUFFER_SIZE,
                    n as int == min_int(BUFFER_SIZE as int, before.source@.len() - before.source_index),
                    self.source_index + n <= self.source@.len(),
                    self.source_index + n <= usize::MAX,
                    i <= n,
                    forall|j: int|
                        0 <= j < i ==> self.read_buffer@[j] == self.source@[before.source_index + j],
                decreases n - i,
            {
                let b = self.source[self.source_index + i];
                self.read_buffer[i] = b;
                i += 1;
            }
            self.read_length = n;
            self.read_index = 0;
            self.source_index = self.source_index + n;
            proof {
                assert(before.read_buffer@.subrange(
                    before.read_index as int,
                    before.read_length as int,
                ) =~= Seq::<u8>::empty());
                assert(final(self).remaining() =~= before.remaining());
            }
        }
    }

    /// Reads the next line of the stream into the line buffer, consuming
    /// the line and its newline: the line buffer receives the line's first
    /// `BUFFER_SIZE` bytes and `line_length` their count.
    pub fn next_line(&mut self)
        requires
            old(self).wf(),
        ensures
            final(self).wf(),
            final(self).source@ == old(self).source@,
            final(self).line_length as int == min_int(
                first_newline(old(self).remaining(), 0),
                BUFFER_SIZE as int,
            ),
            forall|j: int|
                0 <= j < final(self).line_length ==> final(self).line_buffer@[j] == old(
                    self,
                ).remaining()[j],
            final(self).remaining() == chop_line(
                old(self).remaining(),
                first_newline(old(self).remaining(), 0),
            ),
    {
        self.line_length = 0;
        let ghost r0 = old(self).remaining();
        let ghost mut consumed: int = 0;
        proof {
            assert(self.remaining() =~= r0);
        }

        loop
            invariant
                self.wf(),
                self.source@ == old(self).source@,
                r0 == old(self).remaining(),
                0 <= consumed <= r0.len(),
                self.line_length as int == min_int(consumed, BUFFER_SIZE as int),
                forall|j: int| 0 <= j < self.line_length ==> self.line_buffer@[j] == r0[j],
                forall|j: int| 0 <= j < consumed ==> r0[j] != 10,
                self.remaining() == r0.subrange(consumed, r0.len() as int),
            decreases r0.len() - consumed,
        {
            self.fill_buffer();

            if self.read_length == 0 {
                // The source is drained: the line ends with it.
                proof {
                    assert(r0.subrange(consumed, r0.len() as int).len() == r0.len() - consumed);
                    assert(self.remaining().len() == 0);
                    assert(consumed == r0.len());
                    lemma_first_newline_at(r0, 0, consumed);
                    assert(self.remaining() =~= chop_line(r0, first_newline(r0, 0)));
                }
                return ;
            }

            let ghost entry_consumed = consumed;
            let ghost entry_read_index = self.read_index;
            let ghost entry_read_length = self.read_length;
            proof {
                assert(entry_read_index < entry_read_length);
            }
            while self.read_index < self.read_length
                invariant
                    self.wf(),
                    self.source@ == old(self).source@,
                    r0 == old(self).remaining(),
                    self.read_length == entry_read_length,
                    entry_read_index < entry_read_length,
                    0 <= consumed <= r0.len(),
                    consumed - entry_consumed == self.read_index - entry_read_index,
                    entry_read_index <= self.read_index,
                    self.line_length as int == min_int(consumed, BUFFER_SIZE as int),
                    forall|j: int| 0 <= j < self.line_length ==> self.line_buffer@[j] == r0[j],
                    forall|j: int| 0 <= j < consumed ==> r0[j] != 10,
                    self.remaining() == r0.subrange(consumed, r0.len() as int),
                decreases self.read_length - self.read_index,
            {
                let b = self.read_buffer[self.read_index];
                proof {
                    assert(self.remaining().len() >= self.read_length - self.read_index);
                    assert(r0.subrange(consumed, r0.len() as int).len() == r0.len() - consumed);
                    assert(consumed < r0.len());
                    assert(self.remaining()[0] == b);
                    assert(r0.subrange(consumed, r0.len() as int)[0] == r0[consumed]);
                    assert(b == r0[consumed]);
                }
                if b == 10 {
                    // The newline itself is consumed but not stored.
                    let ghost rem_before = self.remaining();
                    self.read_index += 1;
                    proof {
                        lemma_first_newline_at(r0, 0, consumed);
                        assert(rem_before == r0.subrange(consumed, r0.len() as int));
                        assert(rem_before.len() == r0.len() - consumed);
                        assert forall|i: int| 0 <= i < self.remaining().len() implies self
                            .remaining()[i] == r0[consumed + 1 + i] by {
                            assert(self.remaining()[i] == rem_before[i + 1]);
                            assert(rem_before[i + 1] == r0.subrange(consumed, r0.len() as int)[i
                                + 1]);
                        }
                        assert(self.remaining().len() == r0.len() - consumed - 1);
                        assert(self.remaining() =~= r0.subrange(consumed + 1, r0.len() as int));
                        assert(self.remaining() =~= chop_line(r0, first_newline(r0, 0)));
                    }
                    return ;
                }
                if self.line_length < BUFFER_SIZE {
                    let ll = self.line_length;
                    self.line_buffer[ll] = b;
                    self.line_length = ll + 1;
                }
                let ghost rem_before = self.remaining();
                self.read_index += 1;
                proof {
                    consumed = consumed + 1;
                    assert(rem_before == r0.subrange(consumed - 1, r0.len() as int));
                    assert(rem_before.len() == r0.len() - (consumed - 1));
                    assert forall|i: int| 0 <= i < self.remaining().len() implies self
                        .remaining()[i] == r0[consumed + i] by {
                        assert(self.remaining()[i] == rem_before[i + 1]);
                        assert(rem_before[i + 1] == r0.subrange(consumed - 1, r0.len() as int)[i
                            + 1]);
                    }
                    assert(self.remaining().len() == r0.len() - consumed);
                    assert(self.remaining() =~= r0.subrange(consumed, r0.len() as int));
                }
            }
        }
    }
    /// Reads one record into `seq`: an identifier line opening with `>`,
    /// then sequence lines up to the next identifier line or the end of the
    /// data, copied into the character buffer raised to uppercase (a record
    /// longer than the buffer is cut off at its end).  False is returned
    /// where no data is left, where the current line carries no identifier,
    /// or where a record has an identifier but no sequence text.
    pub fn next_seq(&mut self, seq: &mut SeqBuf) -> (res: bool)
        requires
            old(self).wf(),
            old(seq).wf(),
        ensures
            final(self).wf(),
            final(seq).wf(),
            final(self).source@ == old(self).source@,
            old(self).line_length == 0 ==> !res,
            old(self).line_length >= 1 && old(self).line_buffer@[0] != 62 ==> !res,
            res ==> 1 <= old(self).line_length && old(self).line_buffer@[0] == 62,
            res ==> final(seq).identifier@.len() == old(self).line_length - 1,
            res ==> forall|j: int|
                0 <= j < final(seq).identifier@.len() ==> final(seq).identifier@[j] == (old(
                    self,
                ).line_buffer@[j + 1] as char),
            res ==> 0 < final(seq).length <= BUFFER_SIZE,
            res ==> forall|j: int|
                0 <= j < final(seq).length ==> #[trigger] final(seq).characters@[j] == ascii_upper(
                    final(seq).characters@[j],
                ),
            res ==> final(seq).length == gather_record(old(self).remaining(), Seq::empty()).0.len(),
            res ==> final(seq).characters@.subrange(0, final(seq).length as int) == gather_record(
                old(self).remaining(),
                Seq::empty(),
            ).0,
            old(self).line_length >= 1 && old(self).line_buffer@[0] == 62 ==> (res
                <==> gather_record(old(self).remaining(), Seq::empty()).0.len() > 0),
    {
        seq.identifier = String::new();

        if self.line_length == 0 {
            // No data was left for another record.
            return false;
        }

        if self.line_buffer[0] as char != '>' {
            // An identifier line was expected here.
            return false;
        }

        let mut i: usize = 1;
        while i < self.line_length
            invariant
                *self == *old(self),
                self.wf(),
                1 <= i <= self.line_length,
                seq.identifier@.len() == i - 1,
                forall|j: int|
                    0 <= j < i - 1 ==> seq.identifier@[j] == (self.line_buffer@[j + 1] as char),
                seq.characters == old(seq).characters,
                seq.length == old(seq).length,
            decreases self.line_length - i,
        {
            let c = self.line_buffer[i];
            push_char(&mut seq.identifier, c as char);
            i += 1;
        }

        let ghost ident = seq.identifier;
        let ghost mut acc: Seq<char> = Seq::empty();
        let mut sequence_length: usize = 0;
        proof {
            assert(seq.characters@.subrange(0, 0) =~= acc);
        }

        // Run until the record is complete or the data has run out.
        loop
            invariant_except_break
                gather_record(old(self).remaining(), Seq::empty()) == gather_record(
                    self.remaining(),
                    acc,
                ),
            invariant
                self.wf(),
                self.source@ == old(self).source@,
                seq.identifier == ident,
                ident@.len() == old(self).line_length - 1,
                forall|j: int|
                    0 <= j < ident@.len() ==> ident@[j] == (old(self).line_buffer@[j + 1] as char),
                seq.characters@.len() == BUFFER_SIZE,
                seq.length == old(seq).length,
                old(seq).length <= BUFFER_SIZE,
                1 <= old(self).line_length,
                sequence_length <= BUFFER_SIZE,
                acc.len() == sequence_length,
                seq.characters@.subrange(0, sequence_length as int) == acc,
                forall|j: int|
                    0 <= j < sequence_length ==> #[trigger] seq.characters@[j] == ascii_upper(
                        seq.characters@[j],
                    ),
            ensures
                self.wf(),
                self.source@ == old(self).source@,
                seq.identifier == ident,
                seq.characters@.len() == BUFFER_SIZE,
                0 < sequence_length <= BUFFER_SIZE,
                acc.len() == sequence_length,
                seq.characters@.subrange(0, sequence_length as int) == acc,
                gather_record(old(self).remaining(), Seq::empty()).0 == acc,
                forall|j: int|
                    0 <= j < sequence_length ==> #[trigger] seq.characters@[j] == ascii_upper(
                        seq.characters@[j],
                    ),
            decreases self.remaining().len(),
        {
            let ghost rem0 = self.remaining();
            self.next_line();
            proof {
                lemma_first_newline_bounds(rem0, 0);
                assert(take_line(rem0).len() == self.line_length);
            }

            if self.line_length == 0 {
                // The end of the data, or a blank line, ends the record.
                proof {
                    assert(gather_record(rem0, acc) == (acc, rem0));
                    assert(gather_record(old(self).remaining(), Seq::empty()).0 == acc);
                }
                if sequence_length == 0 {
                    return false;
                }
                break ;
            }

            if self.line_buffer[0] as char == '>' {
                // The next record's identifier line: it stays in the line
                // buffer for the next call.
                proof {
                    assert(take_line(rem0)[0] == rem0[0]);
                    assert(take_line(rem0)[0] == 62);
                    assert(gather_record(rem0, acc) == (acc, rem0));
                    assert(gather_record(old(self).remaining(), Seq::empty()).0 == acc);
                }
                if sequence_length == 0 {
                    return false;
                }
                break ;
            }

            let ghost after_line = *self;
            let ghost chars_entry = seq.characters@;
            let count = self.line_length;
            let mut i: usize = 0;
            while i < count
                invariant
                    *self == after_line,
                    self.wf(),
                    count == self.line_length,
                    seq.identifier == ident,
                    seq.characters@.len() == BUFFER_SIZE,
                    seq.length == old(seq).length,
                    sequence_length <= BUFFER_SIZE,
                    i <= count,
                    forall|j: int|
                        0 <= j < sequence_length ==> #[trigger] seq.characters@[j]
                            == chars_entry[j],
                    forall|k2: int|
                        0 <= k2 < i && sequence_length + k2 < BUFFER_SIZE
                            ==> #[trigger] seq.characters@[sequence_length + k2]
                            == upper_byte_char(after_line.line_buffer@[k2]),
                    forall|j: int|
                        0 <= j < sequence_length + i && j < BUFFER_SIZE
                            ==> #[trigger] seq.characters@[j] == ascii_upper(seq.characters@[j]),
                decreases count - i,
            {
                let c = self.line_buffer[i];
                if sequence_length + i < BUFFER_SIZE {
                    let ch: char = if c >= 97 && c <= 122 {
                        // A lowercase letter is raised as it is stored.
                        (c - 32) as char
                    } else {
                        c as char
                    };
                    seq.characters[sequence_length + i] = ch;
                }
                i += 1;
            }

            let ghost acc_old = acc;
            let ghost seqlen_old = sequence_length as int;
            sequence_length = if sequence_length + count > BUFFER_SIZE {
                BUFFER_SIZE
            } else {
                sequence_length + count
            };
            proof {
                let line = take_line(rem0);
                let room: int = if acc_old.len() < BUFFER_SIZE {
                    BUFFER_SIZE - acc_old.len()
                } else {
                    0
                };
                let take = min_int(line.len() as int, room);
                assert(forall|j: int|
                    0 <= j < count ==> line[j] == #[trigger] after_line.line_buffer@[j]);
                acc = acc_old + upper_image(line.subrange(0, take));
                assert(sequence_length as int == seqlen_old + take);
                assert forall|j: int| 0 <= j < sequence_length implies #[trigger] seq.characters@[j]
                    == acc[j] by {
                    if j < seqlen_old {
                        assert(seq.characters@[j] == chars_entry[j]);
                        assert(chars_entry[j] == acc_old[j]);
                    } else {
                        let k2 = j - seqlen_old;
                        assert(seq.characters@[seqlen_old + k2] == upper_byte_char(
                            after_line.line_buffer@[k2],
                        ));
                        assert(upper_image(line.subrange(0, take))[k2] == upper_byte_char(
                            line[k2],
                        ));
                    }
                }
                assert(seq.characters@.subrange(0, sequence_length as int) =~= acc);
                assert(line.len() > 0 && line[0] != 62);
                assert(self.remaining() == rest_after_line(rem0));
                assert(gather_record(rem0, acc_old) == gather_record(self.remaining(), acc));
                assert(self.remaining().len() < rem0.len());
            }
        }

        seq.length = sequence_length;
        true
    }
}

/// The least of two integers.
pub open spec fn min_int(a: int, b: int) -> int {
    if a < b {
        a
    } else {
        b
    }
}

/// A line's worth of `r` chopped off at newline position `k`: what is left
/// after the line and its newline are consumed.
pub open spec fn chop_line(r: Seq<u8>, k: int) -> Seq<u8> {
    if 0 <= k < r.len() {
        r.subrange(k + 1, r.len() as int)
    } else {
        Seq::empty()
    }
}

/// The capped content of the next line of `r`: its bytes up to the first
/// newline, cut off at the line buffer's size.
pub open spec fn take_line(r: Seq<u8>) -> Seq<u8> {
    r.subrange(0, min_int(first_newline(r, 0), BUFFER_SIZE as int))
}

/// What is left of `r` after its first line and newline are consumed.
pub open spec fn rest_after_line(r: Seq<u8>) -> Seq<u8> {
    chop_line(r, first_newline(r, 0))
}

/// The character stored for one sequence byte: lowercase letters are
/// raised as they are stored.
pub open spec fn upper_byte_char(b: u8) -> char {
    if 97 <= b <= 122 {
        ((b - 32) as u8) as char
    } else {
        b as char
    }
}

/// The characters stored for a run of sequence bytes.
pub open spec fn upper_image(bytes: Seq<u8>) -> Seq<char> {
    Seq::new(bytes.len(), |i: int| upper_byte_char(bytes[i]))
}

proof fn lemma_first_newline_bounds(r: Seq<u8>, from: int)
    requires
        0 <= from <= r.len(),
    ensures
        from <= first_newline(r, from) <= r.len(),
    decreases r.len() - from,
{
    if from < r.len() && r[from] != 10 {
        lemma_first_newline_bounds(r, from + 1);
    }
}

/// The sequence text gathered for one record from the unconsumed bytes
/// `rem`, appended to `acc`: line by line up to the end of the data, a
/// blank line, or the next identifier line, each line's characters are
/// stored uppercase until the record buffer is full.  The result carries
/// the gathered text and the bytes from the stopping line onward.
pub open spec fn gather_record(rem: Seq<u8>, acc: Seq<char>) -> (Seq<char>, Seq<u8>)
    decreases rem.len(),
    via gather_record_decreases
{
    let line = take_line(rem);
    if line.len() == 0 || line[0] == 62 {
        (acc, rem)
    } else {
        let room: int = if acc.len() < BUFFER_SIZE {
            BUFFER_SIZE - acc.len()
        } else {
            0
        };
        let take = min_int(line.len() as int, room);
        gather_record(rest_after_line(rem), acc + upper_image(line.subrange(0, take)))
    }
}

#[via_fn]
proof fn gather_record_decreases(rem: Seq<u8>, acc: Seq<char>) {
    lemma_first_newline_bounds(rem, 0);
}

/// Relies on `std::io::Read::read_to_end`: drains the reader into a byte
/// vector.  What comes back depends on the outside source, so nothing is
/// assumed about the contents.
#[verifier::external_body]
fn read_all<T: std::io::BufRead>(mut file: T) -> (bytes: Vec<u8>) {
    let mut bytes = Vec::new();
    let _ = file.read_to_end(&mut bytes);
    bytes
}

} // verus!
