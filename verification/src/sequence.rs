use vstd::prelude::*;
use vstd::string::*;

use crate::constants::BUFFER_SIZE;

verus! {

/// One sequence record for the byte-oriented reader: an identifier and a
/// fixed-size character buffer, of which the first `length` entries are
/// meaningful.  The buffer is reused from record to record.
#[derive(Debug)]
pub struct SeqBuf {
    pub identifier: String,
    pub length: usize,
    pub characters: Vec<char>,
}

impl SeqBuf {
    /// The buffer always spans `BUFFER_SIZE` characters, of which at most
    /// that many are meaningful.
    pub open spec fn wf(self) -> bool {
        &&& self.characters@.len() == BUFFER_SIZE
        &&& self.length <= BUFFER_SIZE
    }

    /// An empty record: no identifier, no meaningful characters, and the
    /// buffer filled with a padding character.
    pub fn new() -> (r: SeqBuf)
        ensures
            r.wf(),
            r.identifier@.len() == 0,
            r.length == 0,
            r.characters@ == Seq::new(BUFFER_SIZE as nat, |i: int| 255u8 as char),
    {
        let mut characters: Vec<char> = Vec::new();
        let mut i: usize = 0;
        while i < BUFFER_SIZE
            invariant
                i <= BUFFER_SIZE,
                characters@.len() == i,
                forall|j: int| 0 <= j < i ==> characters@[j] == 255u8 as char,
            decreases BUFFER_SIZE - i,
        {
            characters.push(255u8 as char);
            i += 1;
        }
        proof {
            assert(characters@ =~= Seq::new(BUFFER_SIZE as nat, |i: int| 255u8 as char));
        }
        SeqBuf { identifier: String::new(), length: 0, characters }
    }

    /// A record built from given contents, for setting up fixed fixtures:
    /// the characters fill the front of the buffer and the rest keeps the
    /// padding character.
    pub fn pre_filled(id: &str, chars: &str) -> (r: SeqBuf)
        requires
            chars@.len() <= BUFFER_SIZE,
        ensures
            r.wf(),
            r.identifier@ == id@,
            r.length == chars@.len(),
            r.characters@.subrange(0, r.length as int) == chars@,
            forall|j: int| chars@.len() <= j < BUFFER_SIZE ==> r.characters@[j] == 255u8 as char,
    {
        let mut r = SeqBuf::new();
        let len = chars.unicode_len();
        let mut i: usize = 0;
        while i < len
            invariant
                r.characters@.len() == BUFFER_SIZE,
                len == chars@.len() <= BUFFER_SIZE,
                i <= len,
                forall|j: int| 0 <= j < i ==> r.characters@[j] == chars@[j],
                forall|j: int| i <= j < BUFFER_SIZE ==> r.characters@[j] == 255u8 as char,
            decreases len - i,
        {
            let c = chars.get_char(i);
            r.characters[i] = c;
            i += 1;
        }
        r.identifier = String::from_str(id);
        r.length = len;
        proof {
            assert(r.characters@.subrange(0, len as int) =~= chars@);
        }
        r
    }
}

} // verus!
