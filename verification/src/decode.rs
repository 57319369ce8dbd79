//! Decoding: from the ids of tokens to the bytes of their text.
use crate::model::Model;
use crate::tables::Tables;
use vstd::prelude::*;

verus! {

/// Why ids do not decode.
#[derive(Clone, Copy, Debug, PartialEq, Eq, Structural)]
pub enum DecodeError {
    /// The ids do not come in rows of four.
    Shape,
    /// A row names a variation, a prefix, a core or a suffix that there is not.
    OutOfRange { variation: usize, prefix: usize, core: usize, suffix: usize },
}

/// The table index that an id stands for.
pub open spec fn index_of(id: i32) -> usize {
    id as usize
}

impl Tables {
    /// The bytes of a token, if there is such a token: its prefix, its core in its variation, and
    /// its suffix.
    pub open spec fn tok_bytes(
        self,
        variation: usize,
        prefix: usize,
        core: usize,
        suffix: usize,
    ) -> Option<Seq<u8>> {
        if prefix < self.dec_prefix.len() && variation < self.dec_core.len() && core
            < self.dec_core[variation as int].len() && suffix < self.dec_suffix.len() {
            Some(
                self.dec_prefix[prefix as int] + self.dec_core[variation as int][core as int]
                    + self.dec_suffix[suffix as int],
            )
        } else {
            None
        }
    }

    /// The bytes of tokens in a row, four ids each: variation, prefix, core, suffix. The first
    /// token that there is not is the error.
    pub open spec fn decode(self, ids: Seq<i32>) -> Result<Seq<u8>, DecodeError>
        decreases ids.len(),
    {
        if ids.len() < 4 {
            Ok(seq![])
        } else {
            let (v, p, c, s) = (
                index_of(ids[0]),
                index_of(ids[1]),
                index_of(ids[2]),
                index_of(ids[3]),
            );
            match self.tok_bytes(v, p, c, s) {
                None => Err(
                    DecodeError::OutOfRange { variation: v, prefix: p, core: c, suffix: s },
                ),
                Some(bytes) => match self.decode(ids.skip(4)) {
                    Err(e) => Err(e),
                    Ok(rest) => Ok(bytes + rest),
                },
            }
        }
    }
}

impl Model {
    /// The bytes of the text that ids in rows of `cols` columns stand for, row after row.
    pub fn decode(&self, ids: &[i32], cols: usize) -> (r: Result<Vec<u8>, DecodeError>)
        requires
            cols == 4 ==> ids@.len() % 4 == 0,
        ensures
            cols != 4 ==> r == Err::<Vec<u8>, DecodeError>(DecodeError::Shape),
            cols == 4 ==> match r {
                Ok(bytes) => self@.decode(ids@) == Ok::<Seq<u8>, DecodeError>(bytes@),
                Err(e) => self@.decode(ids@) == Err::<Seq<u8>, DecodeError>(e),
            },
    {
        if cols != 4 {
            return Err(DecodeError::Shape);
        }
        let n: usize = ids.len();
        let mut buf: Vec<u8> = Vec::new();
        let mut i: usize = 0;
        assert(ids@.skip(0) =~= ids@);
        while i < n
            invariant
                cols == 4,
                n == ids@.len(),
                n % 4 == 0,
                i % 4 == 0,
                i <= n,
                self@.decode(ids@) == (match self@.decode(ids@.skip(i as int)) {
                    Ok(rest) => Ok::<Seq<u8>, DecodeError>(buf@ + rest),
                    Err(e) => Err::<Seq<u8>, DecodeError>(e),
                }),
            decreases n - i,
        {
            let ghost rest = ids@.skip(i as int);
            let ghost buf0 = buf@;
            let v: usize = ids[i] as usize;
            let p: usize = ids[i + 1] as usize;
            let c: usize = ids[i + 2] as usize;
            let s: usize = ids[i + 3] as usize;
            assert(rest.skip(4) =~= ids@.skip(i + 4));
            match (self.prefix_bytes(p), self.core_bytes(v, c), self.suffix_bytes(s)) {
                (Some(pp), Some(cc), Some(ss)) => {
                    buf.extend_from_slice(pp.as_slice());
                    buf.extend_from_slice(cc.as_slice());
                    buf.extend_from_slice(ss.as_slice());
                    proof {
                        let bytes = pp@ + cc@ + ss@;
                        assert(buf@ =~= buf0 + bytes);
                        if let Ok(tail) = self@.decode(rest.skip(4)) {
                            assert(buf0 + (bytes + tail) =~= buf@ + tail);
                        }
                    }
                },
                _ => {
                    return Err(
                        DecodeError::OutOfRange { variation: v, prefix: p, core: c, suffix: s },
                    );
                },
            }
            i = i + 4;
        }
        assert(buf@ + seq![] =~= buf@);
        Ok(buf)
    }
}

} // verus!
