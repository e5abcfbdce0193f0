//! A seekable concatenation of two byte streams: the logical stream is the
//! front's remainder followed by the back's remainder. It exists so that a
//! few bytes sniffed off a file (to detect compression) can be fused back in
//! front of the file as one seekable stream.

use crate::byte_stream::{ByteSource, SeekFrom};
use crate::errors::SplitError;
use vstd::prelude::*;

verus! {

/// Two seekable streams fused into one: logical position `p` maps into the
/// front while `p` is below the front's remaining length, and into the back,
/// shifted, thereafter.
pub struct Chain<R1: ByteSource, R2: ByteSource> {
    front: R1,
    back: R2,
    past_front: bool,
    initial_front_pos: u64,
    front_len: u64,
    initial_back_pos: u64,
}

impl<R1: ByteSource, R2: ByteSource> Chain<R1, R2> {
    /// The structural part of well-formedness: components usable and the
    /// recorded lengths and initial positions consistent with them.
    closed spec fn struct_wf(&self) -> bool {
        &&& self.front.wf()
        &&& self.back.wf()
        &&& self.initial_front_pos as int + self.front_len as int == self.front.bytes().len()
        &&& self.initial_back_pos as int <= self.back.bytes().len()
    }

    /// Create a seekable chain over two streams, reading the front first
    /// from its current position, then the back from its current position.
    pub fn new(mut front: R1, mut back: R2) -> (r: Result<Self, SplitError>)
        requires
            front.wf(),
            back.wf(),
            front.pos() <= front.bytes().len(),
            back.pos() <= back.bytes().len(),
        ensures
            r matches Ok(c) ==> ({
                &&& c.wf()
                &&& c.bytes() == front.bytes().skip(front.pos()) + back.bytes().skip(back.pos())
                &&& c.pos() == 0
            }),
    {
        let initial_front_pos = match front.stream_position() {
            Ok(p) => p,
            Err(e) => {
                return Err(e);
            },
        };
        let front_end = match front.seek(SeekFrom::End(0)) {
            Ok(p) => p,
            Err(e) => {
                return Err(e);
            },
        };
        let front_len = front_end - initial_front_pos;
        match front.seek(SeekFrom::Start(initial_front_pos)) {
            Ok(_) => {},
            Err(e) => {
                return Err(e);
            },
        }
        let initial_back_pos = match back.stream_position() {
            Ok(p) => p,
            Err(e) => {
                return Err(e);
            },
        };
        Ok(
            Chain {
                front,
                back,
                past_front: front_len == 0,
                initial_front_pos,
                front_len,
                initial_back_pos,
            },
        )
    }

    /// Move the logical cursor to an absolute position.
    fn seek_start(&mut self, p: u64) -> (r: Result<u64, SplitError>)
        requires
            old(self).struct_wf(),
        ensures
            final(self).bytes() == old(self).bytes(),
            r matches Ok(ret) ==> final(self).wf() && final(self).pos() == p as int && ret == p,
    {
        if p >= self.front_len {
            self.past_front = true;
            let rel = p - self.front_len;
            if rel <= u64::MAX - self.initial_back_pos {
                match self.back.seek(SeekFrom::Start(rel + self.initial_back_pos)) {
                    Ok(_) => Ok(p),
                    Err(e) => Err(e),
                }
            } else {
                Err(SplitError::Codec)
            }
        } else {
            match self.back.seek(SeekFrom::Start(self.initial_back_pos)) {
                Ok(_) => {},
                Err(e) => {
                    return Err(e);
                },
            }
            self.past_front = false;
            if p <= u64::MAX - self.initial_front_pos {
                match self.front.seek(SeekFrom::Start(p + self.initial_front_pos)) {
                    Ok(_) => Ok(p),
                    Err(e) => Err(e),
                }
            } else {
                Err(SplitError::Codec)
            }
        }
    }
}

impl<R1: ByteSource, R2: ByteSource> ByteSource for Chain<R1, R2> {
    closed spec fn bytes(&self) -> Seq<u8> {
        self.front.bytes().skip(self.initial_front_pos as int) + self.back.bytes().skip(
            self.initial_back_pos as int,
        )
    }

    closed spec fn pos(&self) -> int {
        if self.past_front {
            self.front_len as int + self.back.pos() - self.initial_back_pos as int
        } else {
            self.front.pos() - self.initial_front_pos as int
        }
    }

    closed spec fn wf(&self) -> bool {
        &&& self.struct_wf()
        &&& if self.past_front {
            self.back.pos() >= self.initial_back_pos as int
        } else {
            self.initial_front_pos as int <= self.front.pos() <= self.front.bytes().len()
                && self.back.pos() == self.initial_back_pos as int
        }
    }

    proof fn lemma_wf(&self) {
    }

    fn stream_position(&mut self) -> (r: Result<u64, SplitError>) {
        if self.past_front {
            let bpos = match self.back.stream_position() {
                Ok(p) => p,
                Err(e) => {
                    return Err(e);
                },
            };
            let rel = bpos - self.initial_back_pos;
            if self.front_len <= u64::MAX - rel {
                Ok(self.front_len + rel)
            } else {
                Err(SplitError::Codec)
            }
        } else {
            let fpos = match self.front.stream_position() {
                Ok(p) => p,
                Err(e) => {
                    return Err(e);
                },
            };
            Ok(fpos - self.initial_front_pos)
        }
    }

    fn seek(&mut self, from: SeekFrom) -> (r: Result<u64, SplitError>) {
        match from {
            SeekFrom::Start(p) => self.seek_start(p),
            SeekFrom::Current(d) => {
                if d == 0 {
                    // A pure position query, with no side effect.
                    self.stream_position()
                } else {
                    let cur = match self.stream_position() {
                        Ok(p) => p,
                        Err(e) => {
                            return Err(e);
                        },
                    };
                    if d >= 0 {
                        let step = d as u64;
                        if cur <= u64::MAX - step {
                            self.seek_start(cur + step)
                        } else {
                            Err(SplitError::Codec)
                        }
                    } else {
                        let neg: i128 = -(d as i128);
                        let step = neg as u64;
                        if cur >= step {
                            self.seek_start(cur - step)
                        } else {
                            Err(SplitError::Codec)
                        }
                    }
                }
            },
            SeekFrom::End(d) => {
                if d >= 0 {
                    // Land exactly at (or past) the logical end.
                    self.past_front = true;
                    match self.front.seek(SeekFrom::End(0)) {
                        Ok(_) => {},
                        Err(e) => {
                            return Err(e);
                        },
                    }
                    let bend = match self.back.seek(SeekFrom::End(d)) {
                        Ok(p) => p,
                        Err(e) => {
                            return Err(e);
                        },
                    };
                    let rel = bend - self.initial_back_pos;
                    if self.front_len <= u64::MAX - rel {
                        Ok(self.front_len + rel)
                    } else {
                        Err(SplitError::Codec)
                    }
                } else {
                    let bl = match self.back.seek(SeekFrom::End(0)) {
                        Ok(p) => p,
                        Err(e) => {
                            return Err(e);
                        },
                    };
                    let rel = bl - self.initial_back_pos;
                    let total = if self.front_len <= u64::MAX - rel {
                        self.front_len + rel
                    } else {
                        return Err(SplitError::Codec);
                    };
                    let neg: i128 = -(d as i128);
                    let step = neg as u64;
                    if total >= step {
                        self.seek_start(total - step)
                    } else {
                        Err(SplitError::Codec)
                    }
                }
            },
        }
    }

    fn read_upto(&mut self, max: usize) -> (r: Result<Vec<u8>, SplitError>) {
        let ghost cb = self.bytes();
        let ghost cp = self.pos();
        if self.past_front {
            let v = match self.back.read_upto(max) {
                Ok(v) => v,
                Err(e) => {
                    return Err(e);
                },
            };
            proof {
                if v@.len() > 0 {
                    assert(v@ =~= cb.subrange(cp, cp + v@.len()));
                }
            }
            Ok(v)
        } else {
            let v = match self.front.read_upto(max) {
                Ok(v) => v,
                Err(e) => {
                    return Err(e);
                },
            };
            if v.len() == 0 {
                // The front is exhausted: continue transparently in the back.
                self.past_front = true;
                let v2 = match self.back.read_upto(max) {
                    Ok(v2) => v2,
                    Err(e) => {
                        return Err(e);
                    },
                };
                proof {
                    if v2@.len() > 0 {
                        assert(v2@ =~= cb.subrange(cp, cp + v2@.len()));
                    }
                }
                Ok(v2)
            } else {
                proof {
                    assert(v@ =~= cb.subrange(cp, cp + v@.len()));
                }
                Ok(v)
            }
        }
    }
}

} // verus!
