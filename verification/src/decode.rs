use vstd::prelude::*;

use crate::encode::{edge_enc, edge_request_enc, lemma_scores_body_concat, lemma_scores_body_snoc,
    score_enc, scores_body_enc, scores_enc, valid_edge, valid_score, valid_scores};
use crate::types::{score_models, Edge, EdgeModel, GatewayError, GatewayErrorModel, NodeScore,
    NodeScoreModel};
use crate::wire::{array_hdr, be16, be32, be64, float_enc, lemma_be16_inj, lemma_be32_inj,
    lemma_be64_inj, lemma_join, lemma_split, read_be16, read_be32, read_be64, str_enc, str_hdr,
    valid_count, valid_str};

verus! {

// ---------------------------------------------------------------------------
// Where an encoding sits inside a byte sequence.
//
// Each predicate says: the canonical encoding of the given value starts at
// `pos` and fits. The parsers below are proved sound (whatever they return
// was encoded there) and complete (whatever was encoded there, they return).
// ---------------------------------------------------------------------------

/// The encoding of string `s` occupies `b` from `pos` on.
pub open spec fn str_at(b: Seq<u8>, pos: int, s: Seq<u8>) -> bool {
    &&& 0 <= pos
    &&& valid_str(s)
    &&& pos + str_enc(s).len() <= b.len()
    &&& b.subrange(pos, pos + str_enc(s).len()) == str_enc(s)
}

/// The canonical array header for `n` elements occupies `b` from `pos` on.
pub open spec fn arr_at(b: Seq<u8>, pos: int, n: int) -> bool {
    &&& 0 <= pos
    &&& valid_count(n)
    &&& pos + array_hdr(n).len() <= b.len()
    &&& b.subrange(pos, pos + array_hdr(n).len()) == array_hdr(n)
}

/// The encoding of a float with bit pattern `bits` occupies `b` from `pos` on.
pub open spec fn float_at(b: Seq<u8>, pos: int, bits: u64) -> bool {
    &&& 0 <= pos
    &&& pos + 9 <= b.len()
    &&& b.subrange(pos, pos + 9) == float_enc(bits)
}

// ---------------------------------------------------------------------------
// Reading raw bytes.
// ---------------------------------------------------------------------------

/// Copies `len` bytes starting at `pos`, if they are all there.
fn read_bytes(bytes: &Vec<u8>, pos: usize, len: usize) -> (r: Option<(Vec<u8>, usize)>)
    requires
        pos <= bytes@.len(),
    ensures
        r matches Some((s, end)) ==> pos + len <= bytes@.len() && s@ == bytes@.subrange(
            pos as int,
            pos + len,
        ) && end == pos + len,
        pos + len <= bytes@.len() ==> r is Some,
{
    let n_bytes = bytes.len();
    if n_bytes - pos < len {
        return None;
    }
    let mut out: Vec<u8> = Vec::new();
    assert(out@ =~= bytes@.subrange(pos as int, pos as int));
    let mut i: usize = 0;
    while i < len
        invariant
            pos + len <= bytes@.len(),
            bytes@.len() <= usize::MAX,
            i <= len,
            out@ == bytes@.subrange(pos as int, pos as int + i as int),
        decreases len - i,
    {
        out.push(bytes[pos + i]);
        i += 1;
        assert(out@ =~= bytes@.subrange(pos as int, pos as int + i as int));
    }
    Some((out, pos + len))
}

// ---------------------------------------------------------------------------
// Parsing the wire primitives.
// ---------------------------------------------------------------------------

/// Parses a canonically encoded string at `pos`.
#[verifier::rlimit(100)]
pub fn parse_str(bytes: &Vec<u8>, pos: usize) -> (r: Option<(Vec<u8>, usize)>)
    requires
        pos <= bytes@.len(),
    ensures
        r matches Some((s, end)) ==> pos < end <= bytes@.len() && valid_str(s@)
            && bytes@.subrange(pos as int, end as int) == str_enc(s@),
        forall|s: Seq<u8>|
            #[trigger] str_at(bytes@, pos as int, s) ==> (r matches Some((rs, rend)) && rs@ == s
                && rend == pos + str_enc(s).len()),
{
    let n_bytes = bytes.len();
    if pos >= n_bytes {
        proof {
            assert forall|s: Seq<u8>| #[trigger] str_at(bytes@, pos as int, s) implies false by {
                assert(str_enc(s).len() >= 1);
            };
        }
        return None;
    }
    let b0 = bytes[pos];
    let len: usize;
    let hdr_len: usize;
    if 0xa0 <= b0 && b0 < 0xc0 {
        len = (b0 - 0xa0) as usize;
        hdr_len = 1;
        proof {
            assert(str_hdr(len as int) =~= bytes@.subrange(pos as int, pos as int + 1));
            assert forall|s: Seq<u8>| #[trigger] str_at(bytes@, pos as int, s) implies s.len()
                == len as int by {
                let le = str_enc(s).len() as int;
                assert(bytes@.subrange(pos as int, pos as int + le)[0] == bytes@[pos as int]);
                assert(str_enc(s)[0] == str_hdr(s.len() as int)[0]);
                if s.len() >= 32 {
                    assert(false);
                }
            };
        }
    } else if b0 == 0xd9 {
        if n_bytes - pos < 2 {
            proof {
                assert forall|s: Seq<u8>| #[trigger] str_at(bytes@, pos as int, s) implies false by {
                    let le = str_enc(s).len() as int;
                    assert(bytes@.subrange(pos as int, pos as int + le)[0] == bytes@[pos as int]);
                    assert(str_enc(s)[0] == str_hdr(s.len() as int)[0]);
                    if s.len() < 32 {
                        assert(false);
                    }
                    assert(str_enc(s).len() >= 2 + s.len());
                };
            }
            return None;
        }
        let l = bytes[pos + 1];
        if l < 32 {
            proof {
                assert forall|s: Seq<u8>| #[trigger] str_at(bytes@, pos as int, s) implies false by {
                    let le = str_enc(s).len() as int;
                    assert(bytes@.subrange(pos as int, pos as int + le)[0] == bytes@[pos as int]);
                    assert(str_enc(s)[0] == str_hdr(s.len() as int)[0]);
                    if s.len() < 32 {
                        assert(false);
                    }
                    if s.len() >= 256 {
                        assert(false);
                    }
                    assert(bytes@.subrange(pos as int, pos as int + le)[1] == bytes@[pos as int
                        + 1]);
                    assert(str_enc(s)[1] == (s.len() as u8));
                };
            }
            return None;
        }
        len = l as usize;
        hdr_len = 2;
        proof {
            assert(str_hdr(len as int) =~= bytes@.subrange(pos as int, pos as int + 2));
            assert forall|s: Seq<u8>| #[trigger] str_at(bytes@, pos as int, s) implies s.len()
                == len as int by {
                let le = str_enc(s).len() as int;
                assert(bytes@.subrange(pos as int, pos as int + le)[0] == bytes@[pos as int]);
                assert(str_enc(s)[0] == str_hdr(s.len() as int)[0]);
                if s.len() < 32 {
                    assert(false);
                }
                if s.len() >= 256 {
                    assert(false);
                }
                assert(bytes@.subrange(pos as int, pos as int + le)[1] == bytes@[pos as int + 1]);
                assert(str_enc(s)[1] == (s.len() as u8));
            };
        }
    } else if b0 == 0xda {
        if n_bytes - pos < 3 {
            proof {
                assert forall|s: Seq<u8>| #[trigger] str_at(bytes@, pos as int, s) implies false by {
                    let le = str_enc(s).len() as int;
                    assert(bytes@.subrange(pos as int, pos as int + le)[0] == bytes@[pos as int]);
                    assert(str_enc(s)[0] == str_hdr(s.len() as int)[0]);
                    if s.len() < 256 {
                        assert(false);
                    }
                    if s.len() >= 65536 {
                        assert(false);
                    }
                    assert(str_enc(s).len() >= 3 + s.len());
                };
            }
            return None;
        }
        let n16 = read_be16(bytes, pos + 1);
        proof {
            assert forall|s: Seq<u8>| #[trigger] str_at(bytes@, pos as int, s) implies s.len()
                == n16 as int by {
                let le = str_enc(s).len() as int;
                assert(bytes@.subrange(pos as int, pos as int + le)[0] == bytes@[pos as int]);
                assert(str_enc(s)[0] == str_hdr(s.len() as int)[0]);
                if s.len() < 256 {
                    assert(false);
                }
                if s.len() >= 65536 {
                    assert(false);
                }
                assert(bytes@.subrange(pos as int, pos as int + le)[1] == bytes@[pos as int + 1]);
                assert(bytes@.subrange(pos as int, pos as int + le)[2] == bytes@[pos as int + 2]);
                assert(str_enc(s)[1] == be16(s.len() as u16)[0]);
                assert(str_enc(s)[2] == be16(s.len() as u16)[1]);
                assert(be16(s.len() as u16) =~= bytes@.subrange(pos as int + 1, pos as int + 3));
                lemma_be16_inj(s.len() as u16, n16);
            };
        }
        if n16 < 256 {
            proof {
                assert forall|s: Seq<u8>| #[trigger] str_at(bytes@, pos as int, s) implies false by {
                    assert(s.len() == n16 as int);
                    let le = str_enc(s).len() as int;
                    assert(bytes@.subrange(pos as int, pos as int + le)[0] == bytes@[pos as int]);
                    assert(str_enc(s)[0] == str_hdr(s.len() as int)[0]);
                    if s.len() < 32 {
                        assert(false);
                    }
                    if s.len() < 256 {
                        assert(false);
                    }
                };
            }
            return None;
        }
        len = n16 as usize;
        hdr_len = 3;
        proof {
            assert(str_hdr(len as int) =~= bytes@.subrange(pos as int, pos as int + 3));
        }
    } else if b0 == 0xdb {
        if n_bytes - pos < 5 {
            proof {
                assert forall|s: Seq<u8>| #[trigger] str_at(bytes@, pos as int, s) implies false by {
                    let le = str_enc(s).len() as int;
                    assert(bytes@.subrange(pos as int, pos as int + le)[0] == bytes@[pos as int]);
                    assert(str_enc(s)[0] == str_hdr(s.len() as int)[0]);
                    if s.len() < 65536 {
                        assert(false);
                    }
                    assert(str_enc(s).len() >= 5 + s.len());
                };
            }
            return None;
        }
        let n32 = read_be32(bytes, pos + 1);
        proof {
            assert forall|s: Seq<u8>| #[trigger] str_at(bytes@, pos as int, s) implies s.len()
                == n32 as int by {
                let le = str_enc(s).len() as int;
                assert(bytes@.subrange(pos as int, pos as int + le)[0] == bytes@[pos as int]);
                assert(str_enc(s)[0] == str_hdr(s.len() as int)[0]);
                if s.len() < 65536 {
                    assert(false);
                }
                assert(bytes@.subrange(pos as int, pos as int + le)[1] == bytes@[pos as int + 1]);
                assert(bytes@.subrange(pos as int, pos as int + le)[2] == bytes@[pos as int + 2]);
                assert(bytes@.subrange(pos as int, pos as int + le)[3] == bytes@[pos as int + 3]);
                assert(bytes@.subrange(pos as int, pos as int + le)[4] == bytes@[pos as int + 4]);
                assert(str_enc(s)[1] == be32(s.len() as u32)[0]);
                assert(str_enc(s)[2] == be32(s.len() as u32)[1]);
                assert(str_enc(s)[3] == be32(s.len() as u32)[2]);
                assert(str_enc(s)[4] == be32(s.len() as u32)[3]);
                assert(be32(s.len() as u32) =~= bytes@.subrange(pos as int + 1, pos as int + 5));
                lemma_be32_inj(s.len() as u32, n32);
            };
        }
        if n32 < 65536 {
            proof {
                assert forall|s: Seq<u8>| #[trigger] str_at(bytes@, pos as int, s) implies false by {
                    assert(s.len() == n32 as int);
                    let le = str_enc(s).len() as int;
                    assert(bytes@.subrange(pos as int, pos as int + le)[0] == bytes@[pos as int]);
                    assert(str_enc(s)[0] == str_hdr(s.len() as int)[0]);
                    if s.len() < 32 {
                        assert(false);
                    }
                    if s.len() < 256 {
                        assert(false);
                    }
                    if s.len() < 65536 {
                        assert(false);
                    }
                };
            }
            return None;
        }
        len = n32 as usize;
        hdr_len = 5;
        proof {
            assert(str_hdr(len as int) =~= bytes@.subrange(pos as int, pos as int + 5));
        }
    } else {
        proof {
            assert forall|s: Seq<u8>| #[trigger] str_at(bytes@, pos as int, s) implies false by {
                let le = str_enc(s).len() as int;
                assert(bytes@.subrange(pos as int, pos as int + le)[0] == bytes@[pos as int]);
                assert(str_enc(s)[0] == str_hdr(s.len() as int)[0]);
                if s.len() < 32 {
                    assert(false);
                }
                if s.len() < 256 {
                    assert(false);
                }
                if s.len() < 65536 {
                    assert(false);
                }
            };
        }
        return None;
    }
    // In every remaining path: the header for `len` payload bytes sits at
    // `pos`, takes `hdr_len` bytes, and any encoded string here has `len`
    // payload bytes.
    assert(str_hdr(len as int).len() == hdr_len as int);
    assert(bytes@.subrange(pos as int, pos as int + hdr_len as int) == str_hdr(len as int));
    let data_pos = pos + hdr_len;
    match read_bytes(bytes, data_pos, len) {
        None => {
            proof {
                assert forall|s: Seq<u8>| #[trigger] str_at(bytes@, pos as int, s) implies false by {
                    assert(s.len() == len as int);
                    assert(str_enc(s).len() == hdr_len as int + len as int);
                };
            }
            None
        },
        Some((s, end)) => {
            proof {
                lemma_join(bytes@, pos as int, data_pos as int, end as int);
                assert(bytes@.subrange(pos as int, end as int) =~= str_enc(s@));
                assert forall|c: Seq<u8>| #[trigger] str_at(bytes@, pos as int, c) implies c == s@
                    && pos + str_enc(c).len() == end as int by {
                    assert(c.len() == len as int);
                    lemma_split(bytes@, pos as int, str_hdr(len as int), c);
                    assert(c =~= s@);
                };
            }
            Some((s, end))
        },
    }
}

/// Parses a canonical array header at `pos`, returning the element count.
pub fn parse_array_hdr(bytes: &Vec<u8>, pos: usize) -> (r: Option<(usize, usize)>)
    requires
        pos <= bytes@.len(),
    ensures
        r matches Some((n, end)) ==> pos < end <= bytes@.len() && valid_count(n as int)
            && bytes@.subrange(pos as int, end as int) == array_hdr(n as int),
        forall|n: int|
            #[trigger] arr_at(bytes@, pos as int, n) ==> (r matches Some((rn, rend)) && rn == n
                && rend == pos + array_hdr(n).len()),
{
    let n_bytes = bytes.len();
    if pos >= n_bytes {
        proof {
            assert forall|n: int| #[trigger] arr_at(bytes@, pos as int, n) implies false by {
                assert(array_hdr(n).len() >= 1);
            };
        }
        return None;
    }
    let b0 = bytes[pos];
    if 0x90 <= b0 && b0 < 0xa0 {
        let n = (b0 - 0x90) as usize;
        proof {
            assert(array_hdr(n as int) =~= bytes@.subrange(pos as int, pos as int + 1));
            assert forall|c: int| #[trigger] arr_at(bytes@, pos as int, c) implies c == n as int
                && pos + array_hdr(c).len() == pos as int + 1 by {
                let le = array_hdr(c).len() as int;
                assert(bytes@.subrange(pos as int, pos as int + le)[0] == bytes@[pos as int]);
                if c >= 16 {
                    assert(false);
                }
            };
        }
        Some((n, pos + 1))
    } else if b0 == 0xdc {
        if n_bytes - pos < 3 {
            proof {
                assert forall|c: int| #[trigger] arr_at(bytes@, pos as int, c) implies false by {
                    let le = array_hdr(c).len() as int;
                    assert(bytes@.subrange(pos as int, pos as int + le)[0] == bytes@[pos as int]);
                    if c < 16 {
                        assert(false);
                    }
                    if c >= 65536 {
                        assert(false);
                    }
                    assert(array_hdr(c).len() == 3);
                };
            }
            return None;
        }
        let n16 = read_be16(bytes, pos + 1);
        proof {
            assert forall|c: int| #[trigger] arr_at(bytes@, pos as int, c) implies c
                == n16 as int by {
                let le = array_hdr(c).len() as int;
                assert(bytes@.subrange(pos as int, pos as int + le)[0] == bytes@[pos as int]);
                if c < 16 {
                    assert(false);
                }
                if c >= 65536 {
                    assert(false);
                }
                assert(bytes@.subrange(pos as int, pos as int + le)[1] == bytes@[pos as int + 1]);
                assert(bytes@.subrange(pos as int, pos as int + le)[2] == bytes@[pos as int + 2]);
                assert(array_hdr(c)[1] == be16(c as u16)[0]);
                assert(array_hdr(c)[2] == be16(c as u16)[1]);
                assert(be16(c as u16) =~= bytes@.subrange(pos as int + 1, pos as int + 3));
                lemma_be16_inj(c as u16, n16);
            };
        }
        if n16 < 16 {
            proof {
                assert forall|c: int| #[trigger] arr_at(bytes@, pos as int, c) implies false by {
                    assert(c == n16 as int);
                    let le = array_hdr(c).len() as int;
                    assert(bytes@.subrange(pos as int, pos as int + le)[0] == bytes@[pos as int]);
                    if c < 16 {
                        assert(false);
                    }
                };
            }
            return None;
        }
        proof {
            assert(array_hdr(n16 as int) =~= bytes@.subrange(pos as int, pos as int + 3));
        }
        Some((n16 as usize, pos + 3))
    } else if b0 == 0xdd {
        if n_bytes - pos < 5 {
            proof {
                assert forall|c: int| #[trigger] arr_at(bytes@, pos as int, c) implies false by {
                    let le = array_hdr(c).len() as int;
                    assert(bytes@.subrange(pos as int, pos as int + le)[0] == bytes@[pos as int]);
                    if c < 65536 {
                        assert(false);
                    }
                    assert(array_hdr(c).len() == 5);
                };
            }
            return None;
        }
        let n32 = read_be32(bytes, pos + 1);
        proof {
            assert forall|c: int| #[trigger] arr_at(bytes@, pos as int, c) implies c
                == n32 as int by {
                let le = array_hdr(c).len() as int;
                assert(bytes@.subrange(pos as int, pos as int + le)[0] == bytes@[pos as int]);
                if c < 65536 {
                    assert(false);
                }
                assert(bytes@.subrange(pos as int, pos as int + le)[1] == bytes@[pos as int + 1]);
                assert(bytes@.subrange(pos as int, pos as int + le)[2] == bytes@[pos as int + 2]);
                assert(bytes@.subrange(pos as int, pos as int + le)[3] == bytes@[pos as int + 3]);
                assert(bytes@.subrange(pos as int, pos as int + le)[4] == bytes@[pos as int + 4]);
                assert(array_hdr(c)[1] == be32(c as u32)[0]);
                assert(array_hdr(c)[2] == be32(c as u32)[1]);
                assert(array_hdr(c)[3] == be32(c as u32)[2]);
                assert(array_hdr(c)[4] == be32(c as u32)[3]);
                assert(be32(c as u32) =~= bytes@.subrange(pos as int + 1, pos as int + 5));
                lemma_be32_inj(c as u32, n32);
            };
        }
        if n32 < 65536 {
            proof {
                assert forall|c: int| #[trigger] arr_at(bytes@, pos as int, c) implies false by {
                    assert(c == n32 as int);
                    let le = array_hdr(c).len() as int;
                    assert(bytes@.subrange(pos as int, pos as int + le)[0] == bytes@[pos as int]);
                    if c < 16 {
                        assert(false);
                    }
                    if c < 65536 {
                        assert(false);
                    }
                };
            }
            return None;
        }
        proof {
            assert(array_hdr(n32 as int) =~= bytes@.subrange(pos as int, pos as int + 5));
        }
        Some((n32 as usize, pos + 5))
    } else {
        proof {
            assert forall|c: int| #[trigger] arr_at(bytes@, pos as int, c) implies false by {
                let le = array_hdr(c).len() as int;
                assert(bytes@.subrange(pos as int, pos as int + le)[0] == bytes@[pos as int]);
                if c < 16 {
                    assert(false);
                }
                if c < 65536 {
                    assert(false);
                }
            };
        }
        None
    }
}

/// Parses an encoded 64-bit float at `pos`, returning its bit pattern.
pub fn parse_float(bytes: &Vec<u8>, pos: usize) -> (r: Option<(u64, usize)>)
    requires
        pos <= bytes@.len(),
    ensures
        r matches Some((bits, end)) ==> pos < end <= bytes@.len() && end == pos + 9
            && bytes@.subrange(pos as int, end as int) == float_enc(bits),
        forall|bits: u64|
            #[trigger] float_at(bytes@, pos as int, bits) ==> (r matches Some((rb, rend)) && rb
                == bits && rend == pos + 9),
{
    let n_bytes = bytes.len();
    if pos >= n_bytes || n_bytes - pos < 9 {
        proof {
            assert forall|bits: u64| #[trigger] float_at(bytes@, pos as int, bits) implies false by {
            };
        }
        return None;
    }
    if bytes[pos] != 0xcb {
        proof {
            assert forall|bits: u64| #[trigger] float_at(bytes@, pos as int, bits) implies false by {
                assert(bytes@.subrange(pos as int, pos as int + 9)[0] == bytes@[pos as int]);
                assert(float_enc(bits)[0] == 0xcb);
            };
        }
        return None;
    }
    let v = read_be64(bytes, pos + 1);
    proof {
        assert(bytes@.subrange(pos as int, pos as int + 9) =~= float_enc(v));
        assert forall|bits: u64| #[trigger] float_at(bytes@, pos as int, bits) implies bits == v by {
            lemma_split(bytes@, pos as int, seq![0xcbu8], be64(bits));
            lemma_be64_inj(bits, v);
        };
    }
    Some((v, pos + 9))
}

// ---------------------------------------------------------------------------
// Parsing records: [string, string, float] triples.
// ---------------------------------------------------------------------------

/// The encoding of a three-element array `[string, string, float]`, the
/// shape shared by edge and score records.
pub open spec fn ssf_enc(x: Seq<u8>, y: Seq<u8>, bits: u64) -> Seq<u8> {
    array_hdr(3) + str_enc(x) + str_enc(y) + float_enc(bits)
}

/// The encoding of the record `(x, y, bits)` occupies `b` from `pos` on.
pub open spec fn ssf_at(b: Seq<u8>, pos: int, x: Seq<u8>, y: Seq<u8>, bits: u64) -> bool {
    &&& 0 <= pos
    &&& valid_str(x)
    &&& valid_str(y)
    &&& pos + ssf_enc(x, y, bits).len() <= b.len()
    &&& b.subrange(pos, pos + ssf_enc(x, y, bits).len()) == ssf_enc(x, y, bits)
}

/// Locates the three fields inside an encoded record.
proof fn lemma_ssf_peel(b: Seq<u8>, pos: int, x: Seq<u8>, y: Seq<u8>, bits: u64)
    requires
        ssf_at(b, pos, x, y, bits),
    ensures
        str_at(b, pos + 1, x),
        str_at(b, pos + 1 + str_enc(x).len(), y),
        float_at(b, pos + 1 + str_enc(x).len() + str_enc(y).len(), bits),
        pos + ssf_enc(x, y, bits).len() == pos + 1 + str_enc(x).len() + str_enc(y).len() + 9,
{
    let a = array_hdr(3);
    assert(a =~= seq![0x93u8]);
    let sx = str_enc(x);
    let sy = str_enc(y);
    let fe = float_enc(bits);
    assert(fe.len() == 9);
    assert(ssf_enc(x, y, bits) =~= a + (sx + (sy + fe)));
    lemma_split(b, pos, a, sx + (sy + fe));
    lemma_split(b, pos + 1, sx, sy + fe);
    lemma_split(b, pos + 1 + sx.len(), sy, fe);
}

/// Parses a record `[string, string, float]` at `pos`.
fn parse_ssf(bytes: &Vec<u8>, pos: usize) -> (r: Option<(Vec<u8>, Vec<u8>, u64, usize)>)
    requires
        pos <= bytes@.len(),
    ensures
        r matches Some((x, y, bits, end)) ==> pos < end <= bytes@.len() && valid_str(x@)
            && valid_str(y@) && bytes@.subrange(pos as int, end as int) == ssf_enc(x@, y@, bits),
        forall|x: Seq<u8>, y: Seq<u8>, bits: u64|
            #[trigger] ssf_at(bytes@, pos as int, x, y, bits) ==> (r matches Some(
                (rx, ry, rb, rend),
            ) && rx@ == x && ry@ == y && rb == bits && rend == pos + ssf_enc(x, y, bits).len()),
{
    let n_bytes = bytes.len();
    if pos >= n_bytes {
        proof {
            assert forall|x: Seq<u8>, y: Seq<u8>, bits: u64| #[trigger] ssf_at(
                bytes@,
                pos as int,
                x,
                y,
                bits,
            ) implies false by {
                assert(ssf_enc(x, y, bits).len() >= 1);
            };
        }
        return None;
    }
    if bytes[pos] != 0x93 {
        proof {
            assert forall|x: Seq<u8>, y: Seq<u8>, bits: u64| #[trigger] ssf_at(
                bytes@,
                pos as int,
                x,
                y,
                bits,
            ) implies false by {
                let le = ssf_enc(x, y, bits).len() as int;
                assert(bytes@.subrange(pos as int, pos as int + le)[0] == bytes@[pos as int]);
                assert(array_hdr(3) =~= seq![0x93u8]);
                assert(ssf_enc(x, y, bits)[0] == 0x93);
            };
        }
        return None;
    }
    match parse_str(bytes, pos + 1) {
        None => {
            proof {
                assert forall|x: Seq<u8>, y: Seq<u8>, bits: u64| #[trigger] ssf_at(
                    bytes@,
                    pos as int,
                    x,
                    y,
                    bits,
                ) implies false by {
                    lemma_ssf_peel(bytes@, pos as int, x, y, bits);
                };
            }
            None
        },
        Some((vx, p1)) => match parse_str(bytes, p1) {
            None => {
                proof {
                    assert forall|x: Seq<u8>, y: Seq<u8>, bits: u64| #[trigger] ssf_at(
                        bytes@,
                        pos as int,
                        x,
                        y,
                        bits,
                    ) implies false by {
                        lemma_ssf_peel(bytes@, pos as int, x, y, bits);
                    };
                }
                None
            },
            Some((vy, p2)) => match parse_float(bytes, p2) {
                None => {
                    proof {
                        assert forall|x: Seq<u8>, y: Seq<u8>, bits: u64| #[trigger] ssf_at(
                            bytes@,
                            pos as int,
                            x,
                            y,
                            bits,
                        ) implies false by {
                            lemma_ssf_peel(bytes@, pos as int, x, y, bits);
                        };
                    }
                    None
                },
                Some((vb, p3)) => {
                    proof {
                        lemma_join(bytes@, pos as int, pos as int + 1, p1 as int);
                        lemma_join(bytes@, pos as int, p1 as int, p2 as int);
                        lemma_join(bytes@, pos as int, p2 as int, p3 as int);
                        assert(bytes@.subrange(pos as int, pos as int + 1) =~= array_hdr(3));
                        assert(bytes@.subrange(pos as int, p3 as int) =~= ssf_enc(vx@, vy@, vb));
                        assert forall|x: Seq<u8>, y: Seq<u8>, bits: u64| #[trigger] ssf_at(
                            bytes@,
                            pos as int,
                            x,
                            y,
                            bits,
                        ) implies vx@ == x && vy@ == y && vb == bits && p3 == pos + ssf_enc(
                            x,
                            y,
                            bits,
                        ).len() by {
                            lemma_ssf_peel(bytes@, pos as int, x, y, bits);
                        };
                    }
                    Some((vx, vy, vb, p3))
                },
            },
        },
    }
}

/// The encoding of score `m` occupies `b` from `pos` on.
pub open spec fn score_at(b: Seq<u8>, pos: int, m: NodeScoreModel) -> bool {
    &&& 0 <= pos
    &&& valid_score(m)
    &&& pos + score_enc(m).len() <= b.len()
    &&& b.subrange(pos, pos + score_enc(m).len()) == score_enc(m)
}

/// The encoding of edge `m` occupies `b` from `pos` on.
pub open spec fn edge_at(b: Seq<u8>, pos: int, m: EdgeModel) -> bool {
    &&& 0 <= pos
    &&& valid_edge(m)
    &&& pos + edge_enc(m).len() <= b.len()
    &&& b.subrange(pos, pos + edge_enc(m).len()) == edge_enc(m)
}

/// Parses one score record at `pos`.
fn parse_score(bytes: &Vec<u8>, pos: usize) -> (r: Option<(NodeScore, usize)>)
    requires
        pos <= bytes@.len(),
    ensures
        r matches Some((ns, end)) ==> pos < end <= bytes@.len() && valid_score(ns@)
            && bytes@.subrange(pos as int, end as int) == score_enc(ns@),
        forall|m: NodeScoreModel|
            #[trigger] score_at(bytes@, pos as int, m) ==> (r matches Some((rns, rend)) && rns@ == m
                && rend == pos + score_enc(m).len()),
{
    match parse_ssf(bytes, pos) {
        None => {
            proof {
                assert forall|m: NodeScoreModel| #[trigger] score_at(
                    bytes@,
                    pos as int,
                    m,
                ) implies false by {
                    assert(ssf_at(bytes@, pos as int, m.node, m.ego, m.score_bits));
                };
            }
            None
        },
        Some((x, y, bits, end)) => {
            let ns = NodeScore { node: x, ego: y, score_bits: bits };
            proof {
                assert(bytes@.subrange(pos as int, end as int) == score_enc(ns@));
                assert forall|m: NodeScoreModel| #[trigger] score_at(
                    bytes@,
                    pos as int,
                    m,
                ) implies ns@ == m && end == pos + score_enc(m).len() by {
                    assert(ssf_at(bytes@, pos as int, m.node, m.ego, m.score_bits));
                };
            }
            Some((ns, end))
        },
    }
}

/// Parses one edge record at `pos`.
fn parse_edge(bytes: &Vec<u8>, pos: usize) -> (r: Option<(Edge, usize)>)
    requires
        pos <= bytes@.len(),
    ensures
        r matches Some((e, end)) ==> pos < end <= bytes@.len() && valid_edge(e@)
            && bytes@.subrange(pos as int, end as int) == edge_enc(e@),
        forall|m: EdgeModel|
            #[trigger] edge_at(bytes@, pos as int, m) ==> (r matches Some((re, rend)) && re@ == m
                && rend == pos + edge_enc(m).len()),
{
    match parse_ssf(bytes, pos) {
        None => {
            proof {
                assert forall|m: EdgeModel| #[trigger] edge_at(
                    bytes@,
                    pos as int,
                    m,
                ) implies false by {
                    assert(ssf_at(bytes@, pos as int, m.src, m.dest, m.weight_bits));
                };
            }
            None
        },
        Some((x, y, bits, end)) => {
            let e = Edge { src: x, dest: y, weight_bits: bits };
            proof {
                assert(bytes@.subrange(pos as int, end as int) == edge_enc(e@));
                assert forall|m: EdgeModel| #[trigger] edge_at(bytes@, pos as int, m) implies e@
                    == m && end == pos + edge_enc(m).len() by {
                    assert(ssf_at(bytes@, pos as int, m.src, m.dest, m.weight_bits));
                };
            }
            Some((e, end))
        },
    }
}

// ---------------------------------------------------------------------------
// Decoding a whole reply.
// ---------------------------------------------------------------------------

/// The element bytes of score sequence `s` occupy `b` from `pos` on.
pub open spec fn scores_body_at(b: Seq<u8>, pos: int, s: Seq<NodeScoreModel>) -> bool {
    &&& 0 <= pos
    &&& valid_scores(s)
    &&& pos + scores_body_enc(s).len() <= b.len()
    &&& b.subrange(pos, pos + scores_body_enc(s).len()) == scores_body_enc(s)
}

/// Locates element `i` inside the encoded elements of `s`.
proof fn lemma_scores_body_peel(b: Seq<u8>, pos: int, s: Seq<NodeScoreModel>, i: int)
    requires
        scores_body_at(b, pos, s),
        0 <= i < s.len(),
    ensures
        score_at(b, pos + scores_body_enc(s.take(i)).len(), s[i]),
        scores_body_enc(s.take(i + 1)).len() == scores_body_enc(s.take(i)).len() + score_enc(
            s[i],
        ).len(),
{
    assert(s =~= s.take(i) + s.skip(i));
    lemma_scores_body_concat(s.take(i), s.skip(i));
    assert(s.skip(i).len() > 0);
    assert(scores_body_enc(s.skip(i)) == score_enc(s.skip(i)[0]) + scores_body_enc(
        s.skip(i).skip(1),
    ));
    assert(s.skip(i)[0] == s[i]);
    assert(scores_body_enc(s) == scores_body_enc(s.take(i)) + (score_enc(s[i]) + scores_body_enc(
        s.skip(i).skip(1),
    )));
    lemma_split(
        b,
        pos,
        scores_body_enc(s.take(i)),
        score_enc(s[i]) + scores_body_enc(s.skip(i).skip(1)),
    );
    lemma_split(
        b,
        pos + scores_body_enc(s.take(i)).len(),
        score_enc(s[i]),
        scores_body_enc(s.skip(i).skip(1)),
    );
    assert(s.take(i + 1) =~= s.take(i).push(s[i]));
    lemma_scores_body_snoc(s.take(i), s[i]);
}

/// An entire buffer that is `scores_enc(s)` splits into header and elements.
proof fn lemma_scores_enc_split(b: Seq<u8>, s: Seq<NodeScoreModel>)
    requires
        valid_scores(s),
        b == scores_enc(s),
    ensures
        arr_at(b, 0, s.len() as int),
        scores_body_at(b, array_hdr(s.len() as int).len() as int, s),
        b.len() == array_hdr(s.len() as int).len() + scores_body_enc(s).len(),
{
    assert(b.subrange(0, b.len() as int) =~= b);
    lemma_split(b, 0, array_hdr(s.len() as int), scores_body_enc(s));
}

/// Attempts to read a reply as a sequence of scores, the expected success
/// shape. Returns the scores exactly when the whole buffer is their
/// canonical encoding.
pub fn decode_scores(bytes: &Vec<u8>) -> (r: Option<Vec<NodeScore>>)
    ensures
        r matches Some(v) ==> valid_scores(score_models(v@)) && bytes@ == scores_enc(
            score_models(v@),
        ),
        forall|s: Seq<NodeScoreModel>|
            valid_scores(s) && bytes@ == #[trigger] scores_enc(s) ==> (r matches Some(v)
                && score_models(v@) == s),
{
    let n_bytes = bytes.len();
    let (count, start) = match parse_array_hdr(bytes, 0) {
        None => {
            proof {
                assert forall|s: Seq<NodeScoreModel>|
                    valid_scores(s) && bytes@ == #[trigger] scores_enc(s) implies false by {
                    lemma_scores_enc_split(bytes@, s);
                };
            }
            return None;
        },
        Some((c, p)) => (c, p),
    };
    let ghost pos0 = start as int;
    let mut acc: Vec<NodeScore> = Vec::new();
    let mut cur: usize = start;
    let mut i: usize = 0;
    proof {
        assert(score_models(acc@) =~= Seq::<NodeScoreModel>::empty());
        assert(scores_body_enc(Seq::<NodeScoreModel>::empty()) == Seq::<u8>::empty());
        assert(bytes@.subrange(pos0, pos0) =~= Seq::<u8>::empty());
        assert forall|s: Seq<NodeScoreModel>|
            valid_scores(s) && bytes@ == #[trigger] scores_enc(s) implies s.len() == count as int
            && scores_body_at(bytes@, pos0, s) by {
            lemma_scores_enc_split(bytes@, s);
        };
    }
    while i < count
        invariant
            i <= count,
            valid_count(count as int),
            acc@.len() == i,
            pos0 <= cur as int <= bytes@.len(),
            bytes@.len() <= usize::MAX,
            pos0 == start as int,
            valid_scores(score_models(acc@)),
            score_models(acc@).len() == i,
            bytes@.subrange(pos0, cur as int) == scores_body_enc(score_models(acc@)),
            cur as int == pos0 + scores_body_enc(score_models(acc@)).len(),
            bytes@.subrange(0, pos0) == array_hdr(count as int),
            pos0 == array_hdr(count as int).len(),
            forall|s: Seq<NodeScoreModel>|
                valid_scores(s) && bytes@ == #[trigger] scores_enc(s) ==> s.len() == count as int
                    && scores_body_at(bytes@, pos0, s),
            forall|s: Seq<NodeScoreModel>|
                s.len() == count as int && #[trigger] scores_body_at(bytes@, pos0, s) ==> (
                score_models(acc@) == s.take(i as int) && cur as int == pos0 + scores_body_enc(
                    s.take(i as int),
                ).len()),
        decreases count - i,
    {
        match parse_score(bytes, cur) {
            None => {
                proof {
                    assert forall|s: Seq<NodeScoreModel>|
                        valid_scores(s) && bytes@ == #[trigger] scores_enc(s) implies false by {
                        assert(scores_body_at(bytes@, pos0, s));
                        assert(score_models(acc@) == s.take(i as int));
                        lemma_scores_body_peel(bytes@, pos0, s, i as int);
                        assert(score_at(bytes@, cur as int, s[i as int]));
                    };
                }
                return None;
            },
            Some((ns, end)) => {
                let ghost old_acc = acc@;
                let ghost old_cur = cur as int;
                acc.push(ns);
                cur = end;
                i = i + 1;
                proof {
                    assert(score_models(acc@) =~= score_models(old_acc).push(ns@));
                    lemma_scores_body_snoc(score_models(old_acc), ns@);
                    lemma_join(bytes@, pos0, old_cur, cur as int);
                    assert(bytes@.subrange(pos0, cur as int) == scores_body_enc(
                        score_models(acc@),
                    ));
                    assert forall|s: Seq<NodeScoreModel>|
                        s.len() == count as int && #[trigger] scores_body_at(
                            bytes@,
                            pos0,
                            s,
                        ) implies (score_models(acc@) == s.take(i as int) && cur as int == pos0
                        + scores_body_enc(s.take(i as int)).len()) by {
                        assert(score_models(old_acc) == s.take(i as int - 1));
                        lemma_scores_body_peel(bytes@, pos0, s, i as int - 1);
                        assert(score_at(bytes@, old_cur, s[i as int - 1]));
                        assert(ns@ == s[i as int - 1]);
                        assert(s.take(i as int) =~= s.take(i as int - 1).push(s[i as int - 1]));
                    };
                }
            },
        }
    }
    if cur == n_bytes {
        proof {
            lemma_join(bytes@, 0, pos0, cur as int);
            assert(bytes@.subrange(0, n_bytes as int) =~= bytes@);
            assert(bytes@ == scores_enc(score_models(acc@)));
            assert forall|s: Seq<NodeScoreModel>|
                valid_scores(s) && bytes@ == #[trigger] scores_enc(s) implies score_models(acc@)
                == s by {
                assert(scores_body_at(bytes@, pos0, s));
                assert(score_models(acc@) == s.take(count as int));
                assert(s.take(count as int) =~= s);
            };
        }
        Some(acc)
    } else {
        proof {
            assert forall|s: Seq<NodeScoreModel>|
                valid_scores(s) && bytes@ == #[trigger] scores_enc(s) implies false by {
                assert(scores_body_at(bytes@, pos0, s));
                assert(cur as int == pos0 + scores_body_enc(s.take(count as int)).len());
                assert(s.take(count as int) =~= s);
                lemma_scores_enc_split(bytes@, s);
            };
        }
        None
    }
}

/// Attempts to read a reply as a bare string, the backend's error shape.
/// Returns the string exactly when the whole buffer is its canonical
/// encoding.
pub fn decode_error_str(bytes: &Vec<u8>) -> (r: Option<Vec<u8>>)
    ensures
        r matches Some(m) ==> valid_str(m@) && bytes@ == str_enc(m@),
        forall|m: Seq<u8>|
            valid_str(m) && bytes@ == #[trigger] str_enc(m) ==> (r matches Some(rm) && rm@ == m),
{
    let n_bytes = bytes.len();
    match parse_str(bytes, 0) {
        None => {
            proof {
                assert forall|m: Seq<u8>|
                    valid_str(m) && bytes@ == #[trigger] str_enc(m) implies false by {
                    assert(bytes@.subrange(0, str_enc(m).len() as int) =~= str_enc(m));
                    assert(str_at(bytes@, 0, m));
                };
            }
            None
        },
        Some((s, end)) => {
            if end == n_bytes {
                proof {
                    assert(bytes@.subrange(0, n_bytes as int) =~= bytes@);
                    assert forall|m: Seq<u8>|
                        valid_str(m) && bytes@ == #[trigger] str_enc(m) implies s@ == m by {
                        assert(bytes@.subrange(0, str_enc(m).len() as int) =~= str_enc(m));
                        assert(str_at(bytes@, 0, m));
                    };
                }
                Some(s)
            } else {
                proof {
                    assert forall|m: Seq<u8>|
                        valid_str(m) && bytes@ == #[trigger] str_enc(m) implies false by {
                        assert(bytes@.subrange(0, str_enc(m).len() as int) =~= str_enc(m));
                        assert(str_at(bytes@, 0, m));
                    };
                }
                None
            }
        },
    }
}

/// A score sequence and a bare string never share an encoding: the first
/// byte of an array header and of a string header always differ. This is
/// what makes the reply channel's missing discriminator harmless.
pub proof fn lemma_reply_shapes_disjoint(v: Seq<NodeScoreModel>, m: Seq<u8>)
    requires
        valid_scores(v),
        valid_str(m),
    ensures
        scores_enc(v) != str_enc(m),
{
    let a = scores_enc(v);
    let s = str_enc(m);
    assert(a[0] == array_hdr(v.len() as int)[0]);
    assert(s[0] == str_hdr(m.len() as int)[0]);
    assert(a[0] != s[0]);
}

/// The model of a decoded reply.
pub open spec fn reply_view(r: Result<Vec<NodeScore>, GatewayError>) -> Result<
    Seq<NodeScoreModel>,
    GatewayErrorModel,
> {
    match r {
        Ok(v) => Ok(score_models(v@)),
        Err(e) => Err(e@),
    }
}

/// Everything `decode_reply` promises about reply bytes `b` and result `r`:
/// a buffer that encodes a score sequence yields exactly that sequence; a
/// buffer that encodes a bare string yields a backend error carrying exactly
/// that string; anything else yields the transport decode failure; and the
/// result never claims a shape the buffer does not have.
pub open spec fn reply_post(
    b: Seq<u8>,
    r: Result<Seq<NodeScoreModel>, GatewayErrorModel>,
) -> bool {
    &&& (r matches Ok(v) ==> valid_scores(v) && b == scores_enc(v))
    &&& (forall|v: Seq<NodeScoreModel>|
        valid_scores(v) && b == #[trigger] scores_enc(v) ==> r == Result::<
            Seq<NodeScoreModel>,
            GatewayErrorModel,
        >::Ok(v))
    &&& (r matches Err(e) ==> ((e matches GatewayErrorModel::BackendError(m) && valid_str(m) && b
        == str_enc(m)) || e is TransportDecodeFailure))
    &&& (forall|m: Seq<u8>|
        valid_str(m) && b == #[trigger] str_enc(m) ==> r == Result::<
            Seq<NodeScoreModel>,
            GatewayErrorModel,
        >::Err(GatewayErrorModel::BackendError(m)))
    &&& ((r matches Err(e) && e is TransportDecodeFailure) ==> (forall|v: Seq<NodeScoreModel>|
        valid_scores(v) ==> b != #[trigger] scores_enc(v)) && (forall|m: Seq<u8>|
        valid_str(m) ==> b != #[trigger] str_enc(m)))
}

/// Resolves one reply: try the expected success shape first, and only on
/// failure try the bare error string; if neither fits, the reply is a
/// protocol mismatch.
pub fn decode_reply(bytes: &Vec<u8>) -> (r: Result<Vec<NodeScore>, GatewayError>)
    ensures
        reply_post(bytes@, reply_view(r)),
{
    match decode_scores(bytes) {
        Some(v) => {
            proof {
                assert forall|m: Seq<u8>|
                    valid_str(m) && bytes@ == #[trigger] str_enc(m) implies false by {
                    lemma_reply_shapes_disjoint(score_models(v@), m);
                };
            }
            Ok(v)
        },
        None => match decode_error_str(bytes) {
            Some(m) => Err(GatewayError::BackendError(m)),
            None => Err(GatewayError::TransportDecodeFailure),
        },
    }
}

// ---------------------------------------------------------------------------
// Decoding a request back into the edge it carries.
// ---------------------------------------------------------------------------

/// The model of a decoded edge request.
pub open spec fn edge_opt_view(r: Option<Edge>) -> Option<EdgeModel> {
    match r {
        Some(e) => Some(e@),
        None => None,
    }
}

/// Everything `decode_edge_request` promises about bytes `b` and result `r`.
pub open spec fn edge_request_post(b: Seq<u8>, r: Option<EdgeModel>) -> bool {
    &&& (r matches Some(e) ==> valid_edge(e) && b == edge_request_enc(e))
    &&& (forall|e: EdgeModel|
        valid_edge(e) && b == #[trigger] edge_request_enc(e) ==> r == Some(e))
}

/// An entire buffer that is `edge_request_enc(e)` splits into its markers
/// and the edge record.
proof fn lemma_edge_request_split(b: Seq<u8>, e: EdgeModel)
    requires
        valid_edge(e),
        b == edge_request_enc(e),
    ensures
        edge_at(b, 2, e),
        b.len() == 3 + edge_enc(e).len(),
        b[0] == 0x92,
        b[1] == 0x91,
        b[b.len() - 1] == 0xc0,
{
    assert(array_hdr(2) =~= seq![0x92u8]);
    assert(array_hdr(1) =~= seq![0x91u8]);
    assert(edge_request_enc(e) =~= seq![0x92u8, 0x91u8] + (edge_enc(e) + seq![0xc0u8]));
    assert(b.subrange(0, b.len() as int) =~= b);
    lemma_split(b, 0, seq![0x92u8, 0x91u8], edge_enc(e) + seq![0xc0u8]);
    lemma_split(b, 2, edge_enc(e), seq![0xc0u8]);
    assert(b[0] == b.subrange(0, 2)[0]);
    assert(b[1] == b.subrange(0, 2)[1]);
    assert(b[b.len() - 1] == b.subrange(2 + edge_enc(e).len() as int, b.len() as int)[0]);
}

/// Decodes a request payload back into the edge it carries: the inverse of
/// encoding an edge request. Returns the edge exactly when the whole buffer
/// is the canonical encoding of `((edge,), ())`.
pub fn decode_edge_request(bytes: &Vec<u8>) -> (r: Option<Edge>)
    ensures
        edge_request_post(bytes@, edge_opt_view(r)),
{
    let n_bytes = bytes.len();
    if n_bytes < 2 {
        proof {
            assert forall|e: EdgeModel|
                valid_edge(e) && bytes@ == #[trigger] edge_request_enc(e) implies false by {
                lemma_edge_request_split(bytes@, e);
            };
        }
        return None;
    }
    if bytes[0] != 0x92 || bytes[1] != 0x91 {
        proof {
            assert forall|e: EdgeModel|
                valid_edge(e) && bytes@ == #[trigger] edge_request_enc(e) implies false by {
                lemma_edge_request_split(bytes@, e);
            };
        }
        return None;
    }
    match parse_edge(bytes, 2) {
        None => {
            proof {
                assert forall|e: EdgeModel|
                    valid_edge(e) && bytes@ == #[trigger] edge_request_enc(e) implies false by {
                    lemma_edge_request_split(bytes@, e);
                };
            }
            None
        },
        Some((ed, end)) => {
            if n_bytes - end == 1 && bytes[end] == 0xc0 {
                proof {
                    lemma_join(bytes@, 0, 2, end as int);
                    lemma_join(bytes@, 0, end as int, n_bytes as int);
                    assert(bytes@.subrange(0, 2) =~= seq![0x92u8, 0x91u8]);
                    assert(bytes@.subrange(end as int, n_bytes as int) =~= seq![0xc0u8]);
                    assert(bytes@.subrange(0, n_bytes as int) =~= bytes@);
                    assert(bytes@ =~= edge_request_enc(ed@));
                    assert forall|e: EdgeModel|
                        valid_edge(e) && bytes@ == #[trigger] edge_request_enc(e) implies ed@
                        == e by {
                        lemma_edge_request_split(bytes@, e);
                    };
                }
                Some(ed)
            } else {
                proof {
                    assert forall|e: EdgeModel|
                        valid_edge(e) && bytes@ == #[trigger] edge_request_enc(e) implies false by {
                        lemma_edge_request_split(bytes@, e);
                        assert(end == 2 + edge_enc(e).len());
                    };
                }
                None
            }
        },
    }
}

// ---------------------------------------------------------------------------
// The laws of the codec.
// ---------------------------------------------------------------------------

/// Law: round trip. Decoding the encoding of any edge request yields that
/// edge unchanged — the same name bytes and the exact weight bit pattern.
pub proof fn lemma_edge_request_round_trip(e: EdgeModel, r: Option<EdgeModel>)
    requires
        valid_edge(e),
        edge_request_post(edge_request_enc(e), r),
    ensures
        r == Some(e),
{
}

/// Law: the request encoding is lossless — two edges with the same request
/// bytes are the same edge.
pub proof fn lemma_edge_request_enc_injective(e1: EdgeModel, e2: EdgeModel)
    requires
        valid_edge(e1),
        valid_edge(e2),
        edge_request_enc(e1) == edge_request_enc(e2),
    ensures
        e1 == e2,
{
    lemma_edge_request_split(edge_request_enc(e1), e2);
    let b = edge_request_enc(e1);
    assert(array_hdr(2) =~= seq![0x92u8]);
    assert(array_hdr(1) =~= seq![0x91u8]);
    assert(edge_request_enc(e1) =~= seq![0x92u8, 0x91u8] + (edge_enc(e1) + seq![0xc0u8]));
    assert(b.subrange(0, b.len() as int) =~= b);
    lemma_split(b, 0, seq![0x92u8, 0x91u8], edge_enc(e1) + seq![0xc0u8]);
    lemma_split(b, 2, edge_enc(e1), seq![0xc0u8]);
    assert(edge_at(b, 2, e1));
    assert(edge_at(b, 2, e2));
    assert(edge_enc(e1).len() == b.len() - 3 && edge_enc(e2).len() == b.len() - 3);
    assert(edge_enc(e1) == edge_enc(e2));
    lemma_ssf_peel(b, 2, e1.src, e1.dest, e1.weight_bits);
    lemma_ssf_peel(b, 2, e2.src, e2.dest, e2.weight_bits);
    assert(str_at(b, 3, e1.src) && str_at(b, 3, e2.src));
    lemma_str_at_inj(b, 3, e1.src, e2.src);
    assert(e1.src == e2.src);
    assert(str_at(b, 3 + str_enc(e1.src).len() as int, e1.dest));
    assert(str_at(b, 3 + str_enc(e1.src).len() as int, e2.dest));
    lemma_str_at_inj(b, 3 + str_enc(e1.src).len() as int, e1.dest, e2.dest);
    assert(e1.dest == e2.dest);
    let fpos = 3 + str_enc(e1.src).len() as int + str_enc(e1.dest).len() as int;
    assert(float_at(b, fpos, e1.weight_bits));
    assert(float_at(b, fpos, e2.weight_bits));
    assert(float_enc(e1.weight_bits) == float_enc(e2.weight_bits));
    assert forall|i: int| 0 <= i < 8 implies be64(e1.weight_bits)[i] == be64(
        e2.weight_bits,
    )[i] by {
        assert(float_enc(e1.weight_bits)[i + 1] == be64(e1.weight_bits)[i]);
        assert(float_enc(e2.weight_bits)[i + 1] == be64(e2.weight_bits)[i]);
    };
    assert(be64(e1.weight_bits) =~= be64(e2.weight_bits));
    lemma_be64_inj(e1.weight_bits, e2.weight_bits);
}

/// Two strings encoded at the same spot of the same buffer are equal.
proof fn lemma_str_at_inj(b: Seq<u8>, pos: int, s1: Seq<u8>, s2: Seq<u8>)
    requires
        str_at(b, pos, s1),
        str_at(b, pos, s2),
    ensures
        s1 == s2,
{
    lemma_str_at_same_len(b, pos, s1, s2);
    lemma_split(b, pos, str_hdr(s1.len() as int), s1);
    lemma_split(b, pos, str_hdr(s2.len() as int), s2);
    assert(s1 =~= s2);
}

/// Two strings encoded at the same spot have the same length.
proof fn lemma_str_at_same_len(b: Seq<u8>, pos: int, s1: Seq<u8>, s2: Seq<u8>)
    requires
        str_at(b, pos, s1),
        str_at(b, pos, s2),
    ensures
        s1.len() == s2.len(),
{
    let l1 = str_enc(s1).len() as int;
    let l2 = str_enc(s2).len() as int;
    assert(b.subrange(pos, pos + l1)[0] == b[pos]);
    assert(b.subrange(pos, pos + l2)[0] == b[pos]);
    assert(str_enc(s1)[0] == str_hdr(s1.len() as int)[0]);
    assert(str_enc(s2)[0] == str_hdr(s2.len() as int)[0]);
    if s1.len() < 32 {
        assert(s2.len() < 32);
    } else if s1.len() < 256 {
        assert(32 <= s2.len() < 256);
        assert(b.subrange(pos, pos + l1)[1] == b[pos + 1]);
        assert(b.subrange(pos, pos + l2)[1] == b[pos + 1]);
        assert(str_enc(s1)[1] == (s1.len() as u8));
        assert(str_enc(s2)[1] == (s2.len() as u8));
    } else if s1.len() < 65536 {
        assert(256 <= s2.len() < 65536);
        assert(b.subrange(pos, pos + l1)[1] == b[pos + 1]);
        assert(b.subrange(pos, pos + l2)[1] == b[pos + 1]);
        assert(b.subrange(pos, pos + l1)[2] == b[pos + 2]);
        assert(b.subrange(pos, pos + l2)[2] == b[pos + 2]);
        assert(str_enc(s1)[1] == be16(s1.len() as u16)[0]);
        assert(str_enc(s2)[1] == be16(s2.len() as u16)[0]);
        assert(str_enc(s1)[2] == be16(s1.len() as u16)[1]);
        assert(str_enc(s2)[2] == be16(s2.len() as u16)[1]);
        assert(be16(s1.len() as u16) =~= be16(s2.len() as u16));
        lemma_be16_inj(s1.len() as u16, s2.len() as u16);
    } else {
        assert(65536 <= s2.len());
        assert(b.subrange(pos, pos + l1)[1] == b[pos + 1]);
        assert(b.subrange(pos, pos + l2)[1] == b[pos + 1]);
        assert(b.subrange(pos, pos + l1)[2] == b[pos + 2]);
        assert(b.subrange(pos, pos + l2)[2] == b[pos + 2]);
        assert(b.subrange(pos, pos + l1)[3] == b[pos + 3]);
        assert(b.subrange(pos, pos + l2)[3] == b[pos + 3]);
        assert(b.subrange(pos, pos + l1)[4] == b[pos + 4]);
        assert(b.subrange(pos, pos + l2)[4] == b[pos + 4]);
        assert(str_enc(s1)[1] == be32(s1.len() as u32)[0]);
        assert(str_enc(s2)[1] == be32(s2.len() as u32)[0]);
        assert(str_enc(s1)[2] == be32(s1.len() as u32)[1]);
        assert(str_enc(s2)[2] == be32(s2.len() as u32)[1]);
        assert(str_enc(s1)[3] == be32(s1.len() as u32)[2]);
        assert(str_enc(s2)[3] == be32(s2.len() as u32)[2]);
        assert(str_enc(s1)[4] == be32(s1.len() as u32)[3]);
        assert(str_enc(s2)[4] == be32(s2.len() as u32)[3]);
        assert(be32(s1.len() as u32) =~= be32(s2.len() as u32));
        lemma_be32_inj(s1.len() as u32, s2.len() as u32);
    }
}

/// Law: dual-decode, success half. A reply that validly encodes a score
/// sequence always resolves to exactly that sequence, never the error path.
pub proof fn lemma_dual_decode_scores(
    b: Seq<u8>,
    v: Seq<NodeScoreModel>,
    r: Result<Seq<NodeScoreModel>, GatewayErrorModel>,
)
    requires
        valid_scores(v),
        b == scores_enc(v),
        reply_post(b, r),
    ensures
        r == Result::<Seq<NodeScoreModel>, GatewayErrorModel>::Ok(v),
{
}

/// Law: dual-decode, error half. A reply that validly encodes a bare string
/// always resolves to a backend error carrying exactly that string.
pub proof fn lemma_dual_decode_error(
    b: Seq<u8>,
    m: Seq<u8>,
    r: Result<Seq<NodeScoreModel>, GatewayErrorModel>,
)
    requires
        valid_str(m),
        b == str_enc(m),
        reply_post(b, r),
    ensures
        r == Result::<Seq<NodeScoreModel>, GatewayErrorModel>::Err(
            GatewayErrorModel::BackendError(m),
        ),
{
}

/// Law: the reply resolution is a function of the reply bytes alone. Two
/// results drawn from the same reply are equal, so repeating a query whose
/// backend reply is unchanged repeats the outcome.
pub proof fn lemma_reply_decode_deterministic(
    b: Seq<u8>,
    r1: Result<Seq<NodeScoreModel>, GatewayErrorModel>,
    r2: Result<Seq<NodeScoreModel>, GatewayErrorModel>,
)
    requires
        reply_post(b, r1),
        reply_post(b, r2),
    ensures
        r1 == r2,
{
    match r1 {
        Ok(v) => {
            assert(b == scores_enc(v));
        },
        Err(e) => match e {
            GatewayErrorModel::BackendError(m) => {
                assert(b == str_enc(m));
            },
            _ => {
                match r2 {
                    Ok(v2) => {
                        assert(b == scores_enc(v2));
                        assert(false);
                    },
                    Err(e2) => match e2 {
                        GatewayErrorModel::BackendError(m2) => {
                            assert(b == str_enc(m2));
                            assert(false);
                        },
                        _ => {},
                    },
                }
            },
        },
    }
}

} // verus!
