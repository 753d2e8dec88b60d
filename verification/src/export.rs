//! Handing out exported lines in chunks.

use vstd::prelude::*;

verus! {

/// The greatest number of lines in one chunk.
pub const EXPORT_CHUNK_SIZE: usize = 16;

/// The number of lines in the next chunk of `len` lines that are left.
pub open spec fn chunk_len(len: nat) -> nat {
    if len < EXPORT_CHUNK_SIZE as nat {
        len
    } else {
        EXPORT_CHUNK_SIZE as nat
    }
}

/// Lines that are still to be handed out, in order.
#[derive(Debug, Clone, PartialEq, Eq)]
pub struct ExportStream {
    pub data: Vec<String>,
}

impl ExportStream {
    /// Takes the next chunk off the front: up to sixteen lines, in order.
    /// When no line is left there is no chunk.
    pub fn next_chunk(&mut self) -> (r: Option<Vec<String>>)
        ensures
            old(self).data@.len() == 0 ==> r is None && final(self).data@ == old(self).data@,
            old(self).data@.len() > 0 ==> ({
                let n = chunk_len(old(self).data@.len()) as int;
                &&& r matches Some(chunk) && chunk@ == old(self).data@.take(n)
                &&& final(self).data@ == old(self).data@.skip(n)
            }),
    {
        let l = self.data.len();
        if l == 0 {
            return None;
        }
        let chunk_size: usize = if l < EXPORT_CHUNK_SIZE {
            l
        } else {
            EXPORT_CHUNK_SIZE
        };
        let mut rest = self.data.split_off(chunk_size);
        std::mem::swap(&mut self.data, &mut rest);
        Some(rest)
    }
}

} // verus!
