//! The face records of the line-oriented mesh format.
use vstd::prelude::*;
use crate::mesh::Triangle;

verus! {

/// The pieces of `s` between the bytes equal to `sep`, in order: `k`
/// separators give `k + 1` pieces, empty ones included.
pub open spec fn split_bytes(s: Seq<u8>, sep: u8) -> Seq<Seq<u8>>
    decreases s.len(),
{
    if s.len() == 0 {
        seq![Seq::empty()]
    } else {
        let prev = split_bytes(s.drop_last(), sep);
        if s.last() == sep {
            prev.push(Seq::empty())
        } else {
            prev.update(prev.len() - 1, prev.last().push(s.last()))
        }
    }
}

pub open spec fn is_digit(c: u8) -> bool {
    48 <= c <= 57
}

/// The value of a string of decimal digits.
pub open spec fn digits_value(s: Seq<u8>) -> int
    decreases s.len(),
{
    if s.len() == 0 {
        0
    } else {
        digits_value(s.drop_last()) * 10 + (s.last() - 48)
    }
}

/// `s` without one leading `+`.
pub open spec fn unsigned_part(s: Seq<u8>) -> Seq<u8> {
    if s.len() > 0 && s[0] == 43 {
        s.skip(1)
    } else {
        s
    }
}

pub open spec fn all_digits(d: Seq<u8>) -> bool {
    forall|i: int| 0 <= i < d.len() ==> is_digit(#[trigger] d[i])
}

/// An unsigned 32-bit integer written in decimal: an optional `+`, then at
/// least one digit, with a value that fits in 32 bits.
pub open spec fn parse_u32_spec(s: Seq<u8>) -> Option<u32> {
    let d = unsigned_part(s);
    if d.len() > 0 && all_digits(d) && digits_value(d) <= u32::MAX {
        Some(digits_value(d) as u32)
    } else {
        None
    }
}

/// Index `param` (0 for the position, 1 for the texture coordinate, 2 for
/// the normal) of vertex `slot` of the face whose vertex fields are `tokens`;
/// zero where that field is missing or not a number.
pub open spec fn face_index(tokens: Seq<Seq<u8>>, slot: int, param: int) -> u32 {
    let parts = split_bytes(tokens[slot], 47);
    if slot < tokens.len() && param < parts.len() && parse_u32_spec(parts[param]) is Some {
        parse_u32_spec(parts[param])->Some_0
    } else {
        0
    }
}

/// The triangle that the text after the record tag `f` describes, or `None`
/// where it holds fewer than three space-separated fields. Each field is
/// `v`, `v/vt` or `v/vt/vn`, with empty or malformed parts read as zero;
/// texture coordinates and normals are present where the first vertex
/// names them. Fields after the third are ignored.
pub open spec fn parse_face_spec(fields: Seq<u8>) -> Option<Triangle> {
    let toks = split_bytes(fields, 32);
    if toks.len() < 3 {
        None
    } else {
        Some(
            Triangle {
                vertices: [face_index(toks, 0, 0), face_index(toks, 1, 0), face_index(toks, 2, 0)],
                texcoords: if face_index(toks, 0, 1) == 0 {
                    None
                } else {
                    Some([face_index(toks, 0, 1), face_index(toks, 1, 1), face_index(toks, 2, 1)])
                },
                normals: if face_index(toks, 0, 2) == 0 {
                    None
                } else {
                    Some([face_index(toks, 0, 2), face_index(toks, 1, 2), face_index(toks, 2, 2)])
                },
            },
        )
    }
}

/// Splits `s` at every byte equal to `sep`.
pub fn split_bytes_exec(s: &[u8], sep: u8) -> (r: Vec<Vec<u8>>)
    ensures
        r@.map_values(|v: Vec<u8>| v@) == split_bytes(s@, sep),
{
    let mut pieces: Vec<Vec<u8>> = Vec::new();
    let mut cur: Vec<u8> = Vec::new();
    let n = s.len();
    let mut i: usize = 0;
    while i < n
        invariant
            n == s@.len(),
            i <= n,
            pieces@.map_values(|v: Vec<u8>| v@).push(cur@) == split_bytes(s@.take(i as int), sep),
        decreases n - i,
    {
        let c = s[i];
        let ghost prev = split_bytes(s@.take(i as int), sep);
        assert(s@.take(i + 1).drop_last() =~= s@.take(i as int));
        if c == sep {
            let done = cur;
            pieces.push(done);
            cur = Vec::new();
            assert(pieces@.map_values(|v: Vec<u8>| v@).push(cur@) =~= prev.push(Seq::empty()));
        } else {
            cur.push(c);
            assert(pieces@.map_values(|v: Vec<u8>| v@).push(cur@) =~= prev.update(
                prev.len() - 1,
                prev.last().push(c),
            ));
        }
        i += 1;
    }
    assert(s@.take(n as int) =~= s@);
    pieces.push(cur);
    pieces
}

proof fn lemma_digits_value_grows(s: Seq<u8>, i: int)
    requires
        0 <= i <= s.len(),
        forall|k: int| 0 <= k < s.len() ==> is_digit(#[trigger] s[k]),
    ensures
        digits_value(s.take(i)) <= digits_value(s),
        0 <= digits_value(s.take(i)),
    decreases s.len() - i,
{
    if i < s.len() {
        lemma_digits_value_grows(s, i + 1);
        assert(s.take(i + 1).drop_last() =~= s.take(i));
    } else {
        assert(s.take(i) =~= s);
    }
    lemma_digits_value_nonneg(s.take(i));
}

proof fn lemma_digits_value_nonneg(s: Seq<u8>)
    requires
        forall|k: int| 0 <= k < s.len() ==> is_digit(#[trigger] s[k]),
    ensures
        0 <= digits_value(s),
    decreases s.len(),
{
    if s.len() > 0 {
        lemma_digits_value_nonneg(s.drop_last());
    }
}

/// Reads `s` as an unsigned 32-bit decimal integer, as `str::parse::<u32>` does.
pub fn parse_u32(s: &[u8]) -> (r: Option<u32>)
    ensures
        r == parse_u32_spec(s@),
{
    let n = s.len();
    let start: usize = if n > 0 && s[0] == 43 { 1 } else { 0 };
    let ghost d = unsigned_part(s@);
    assert(d =~= s@.skip(start as int));
    if start == n {
        return None;
    }
    let mut value: u64 = 0;
    let mut i: usize = start;
    while i < n
        invariant
            n == s@.len(),
            start <= i <= n,
            d == s@.skip(start as int),
            d == unsigned_part(s@),
            forall|k: int| 0 <= k < i - start ==> is_digit(#[trigger] d[k]),
            value == digits_value(d.take(i - start)),
            value <= u32::MAX,
        decreases n - i,
    {
        let c = s[i];
        if c < 48 || c > 57 {
            proof {
                assert(!is_digit(d[i - start]));
                assert(!all_digits(d));
            }
            return None;
        }
        assert(d.take(i - start + 1).drop_last() =~= d.take(i - start));
        value = value * 10 + (c - 48) as u64;
        if value > 0xffff_ffff {
            proof {
                let t = d.take(i - start + 1);
                assert(t.last() == c);
                assert(digits_value(t) == value);
                if all_digits(d) {
                    lemma_digits_value_grows(d, i - start + 1);
                    assert(digits_value(d) > u32::MAX);
                }
            }
            return None;
        }
        i += 1;
    }
    assert(d.take(n - start) =~= d);
    Some(value as u32)
}

/// Reads a face record; see `parse_face_spec`.
pub fn parse_face(fields: &[u8]) -> (r: Option<Triangle>)
    ensures
        r == parse_face_spec(fields@),
{
    let tokens = split_bytes_exec(fields, 32);
    let ghost toks = split_bytes(fields@, 32);
    assert(tokens@.len() == toks.len());
    if tokens.len() < 3 {
        return None;
    }
    let mut indices: [u32; 9] = [0; 9];
    let mut slot: usize = 0;
    while slot < 3
        invariant
            slot <= 3,
            tokens@.len() >= 3,
            tokens@.map_values(|v: Vec<u8>| v@) == toks,
            forall|k: int|
                0 <= k < 9 ==> #[trigger] indices@[k] == if k % 3 < slot {
                    face_index(toks, k % 3, k / 3)
                } else {
                    0
                },
        decreases 3 - slot,
    {
        assert(tokens@[slot as int]@ == toks[slot as int]);
        let parts = split_bytes_exec(tokens[slot].as_slice(), 47);
        let ghost ps = split_bytes(toks[slot as int], 47);
        assert(parts@.len() == ps.len());
        let mut param: usize = 0;
        while param < 3
            invariant
                slot < 3,
                param <= 3,
                tokens@.len() >= 3,
                tokens@.map_values(|v: Vec<u8>| v@) == toks,
                parts@.map_values(|v: Vec<u8>| v@) == ps,
                ps == split_bytes(toks[slot as int], 47),
                forall|k: int|
                    0 <= k < 9 ==> #[trigger] indices@[k] == if k % 3 < slot || (k % 3 == slot && k
                        / 3 < param) {
                        face_index(toks, k % 3, k / 3)
                    } else {
                        0
                    },
            decreases 3 - param,
        {
            let mut v: u32 = 0;
            if param < parts.len() {
                assert(parts@[param as int]@ == ps[param as int]);
                match parse_u32(parts[param].as_slice()) {
                    Some(x) => {
                        v = x;
                    },
                    None => {},
                }
            }
            assert(v == face_index(toks, slot as int, param as int));
            indices[param * 3 + slot] = v;
            param += 1;
        }
        slot += 1;
    }
    let tri = Triangle {
        vertices: [indices[0], indices[1], indices[2]],
        texcoords: if indices[3] == 0 {
            None
        } else {
            Some([indices[3], indices[4], indices[5]])
        },
        normals: if indices[6] == 0 {
            None
        } else {
            Some([indices[6], indices[7], indices[8]])
        },
    };
    assert(indices@[0] == face_index(toks, 0, 0));
    assert(indices@[3] == face_index(toks, 0, 1));
    assert(indices@[6] == face_index(toks, 0, 2));
    assert(indices@[1] == face_index(toks, 1, 0));
    assert(indices@[4] == face_index(toks, 1, 1));
    assert(indices@[7] == face_index(toks, 1, 2));
    assert(indices@[2] == face_index(toks, 2, 0));
    assert(indices@[5] == face_index(toks, 2, 1));
    assert(indices@[8] == face_index(toks, 2, 2));
    Some(tri)
}

} // verus!
