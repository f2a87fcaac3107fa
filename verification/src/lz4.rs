//! LZ4 block decompression (standard block format). A sequence is a token
//! `<literal-len:4><match-len:4>`; a nibble of 15 spills into following
//! bytes while they are 0xFF; the literals follow; then (unless the block
//! ends) a 2-byte LE offset, and the match copies `match-len + 4` bytes from
//! `offset` behind the output cursor, byte by byte (so it may overlap).

use vstd::prelude::*;


verus! {

/// A length continued over 0xFF bytes from `si`, starting at `acc`: the
/// total and the position after its last byte, or `None` when the input
/// ends first.
pub open spec fn ext_len(src: Seq<u8>, si: int, acc: nat) -> Option<(nat, int)>
    decreases src.len() - si,
{
    if si < 0 || si >= src.len() {
        None
    } else if src[si] == 255 {
        ext_len(src, si + 1, acc + 255)
    } else {
        Some(((acc + src[si]) as nat, si + 1))
    }
}

pub proof fn lemma_ext_len(src: Seq<u8>, si: int, acc: nat)
    ensures
        ext_len(src, si, acc) matches Some((n, e)) ==> si < e <= src.len() && n >= acc,
    decreases src.len() - si,
{
    if 0 <= si < src.len() && src[si] == 255 {
        lemma_ext_len(src, si + 1, acc + 255);
    }
}

/// `out` extended by copying `ml` bytes, one at a time, from `off` bytes
/// behind its end.
pub open spec fn copy_match(out: Seq<u8>, off: int, ml: nat) -> Seq<u8>
    decreases ml,
{
    if ml == 0 {
        out
    } else {
        copy_match(out.push(out[out.len() - off]), off, (ml - 1) as nat)
    }
}

/// Literal-run length of a token whose high nibble is `hi`, from `si`.
pub open spec fn lit_len(src: Seq<u8>, si: int, hi: nat) -> Option<(nat, int)> {
    if hi == 15 {
        ext_len(src, si, 15)
    } else {
        Some((hi, si))
    }
}

/// Match length of a token whose low nibble is `lo`, from `si`.
pub open spec fn match_len(src: Seq<u8>, si: int, lo: nat) -> Option<(nat, int)> {
    if lo == 15 {
        ext_len(src, si, 19)
    } else {
        Some((lo + 4, si))
    }
}

/// Decoding the sequences from `si` onto `out`, with room for `dst_len`
/// bytes in all: the decoded bytes, or the error text.
pub open spec fn lz4_from(src: Seq<u8>, si: int, out: Seq<u8>, dst_len: nat) -> Result<
    Seq<u8>,
    Seq<char>,
>
    decreases src.len() - si,
{
    if si < 0 || si >= src.len() {
        Ok(out)
    } else {
        proof {
            lemma_ext_len(src, si + 1, 15);
        }
        let tok = src[si] as nat;
        match lit_len(src, si + 1, tok / 16) {
            None => Err("lz4: truncated lit len"@),
            Some((ll, s2)) => {
                if out.len() + ll > dst_len || s2 + ll > src.len() {
                    Err("lz4: literal overflow"@)
                } else {
                    let out2 = out + src.subrange(s2, s2 + ll);
                    let s3 = s2 + ll;
                    if s3 >= src.len() {
                        Ok(out2)
                    } else if s3 + 2 > src.len() {
                        Err("lz4: truncated offset"@)
                    } else {
                        let off = src[s3] as int + 256 * (src[s3 + 1] as int);
                        if off == 0 || out2.len() < off {
                            Err("lz4: invalid offset"@)
                        } else {
                            match match_len(src, s3 + 2, tok % 16) {
                                None => Err("lz4: truncated match len"@),
                                Some((ml, s5)) => {
                                    if out2.len() + ml > dst_len {
                                        Err("lz4: match overflow"@)
                                    } else {
                                        proof {
                                            lemma_ext_len(src, s3 + 2, 19);
                                        }
                                        lz4_from(
                                            src,
                                            s5,
                                            copy_match(out2, off, ml),
                                            dst_len,
                                        )
                                    }
                                },
                            }
                        }
                    }
                }
            },
        }
    }
}

/// The decompression of block `src` into at most `dst_len` bytes.
pub open spec fn lz4_spec(src: Seq<u8>, dst_len: nat) -> Result<Seq<u8>, Seq<char>> {
    lz4_from(src, 0, Seq::empty(), dst_len)
}

/// A length continued over 0xFF bytes, as the executable reads it.
fn ext(src: &[u8], si: usize, start: u128) -> (r: Option<(u128, usize)>)
    requires
        si <= src@.len(),
        start <= 19,
    ensures
        match r {
            Some((n, e)) => ext_len(src@, si as int, start as nat) == Some::<(nat, int)>(
                (n as nat, e as int),
            ),
            None => ext_len(src@, si as int, start as nat) is None,
        },
{
    let len = src.len();
    let mut acc: u128 = start;
    let mut i: usize = si;
    while i < len
        invariant
            len == src@.len(),
            si <= i <= len,
            acc <= 19 + 255 * (i - si),
            ext_len(src@, si as int, start as nat) == ext_len(src@, i as int, acc as nat),
        decreases len - i,
    {
        let b = src[i];
        if b != 255 {
            return Some((acc + b as u128, i + 1));
        }
        acc = acc + 255;
        i = i + 1;
    }
    None
}

/// Minimal LZ4 block decompressor: `dst_len` bounds the output; a
/// truncated or corrupt block is an error, never an out-of-bounds read.
pub fn lz4(src: &[u8], dst_len: usize) -> (r: Result<Vec<u8>, String>)
    ensures
        match r {
            Ok(v) => lz4_spec(src@, dst_len as nat) == Ok::<Seq<u8>, Seq<char>>(v@),
            Err(m) => lz4_spec(src@, dst_len as nat) == Err::<Seq<u8>, Seq<char>>(m@),
        },
{
    let len = src.len();
    let mut dst: Vec<u8> = Vec::new();
    let mut si: usize = 0;
    while si < len
        invariant
            len == src@.len(),
            si <= len,
            dst@.len() <= dst_len,
            lz4_spec(src@, dst_len as nat) == lz4_from(src@, si as int, dst@, dst_len as nat),
        decreases len - si,
    {
        let tok = src[si];
        let hi = (tok / 16) as u128;
        proof {
            lemma_ext_len(src@, si + 1, 15);
        }
        let (ll, s2) = if hi == 15 {
            match ext(src, si + 1, 15) {
                Some(x) => x,
                None => return Err("lz4: truncated lit len".to_owned()),
            }
        } else {
            (hi, si + 1)
        };
        if ll > (dst_len - dst.len()) as u128 || ll > (len - s2) as u128 {
            return Err("lz4: literal overflow".to_owned());
        }
        let ll = ll as usize;
        let ghost out0 = dst@;
        let mut j: usize = 0;
        while j < ll
            invariant
                len == src@.len(),
                s2 + ll <= len,
                j <= ll,
                dst@ == out0 + src@.subrange(s2 as int, s2 + j),
            decreases ll - j,
        {
            dst.push(src[s2 + j]);
            assert(src@.subrange(s2 as int, s2 + j + 1) =~= src@.subrange(s2 as int, s2 + j).push(
                src@[s2 + j],
            ));
            j = j + 1;
        }
        let s3 = s2 + ll;
        if s3 >= len {
            si = s3;
        } else {
            if len - s3 < 2 {
                return Err("lz4: truncated offset".to_owned());
            }
            let off: usize = (src[s3] as usize) + 256 * (src[s3 + 1] as usize);
            if off == 0 || dst.len() < off {
                return Err("lz4: invalid offset".to_owned());
            }
            let lo = (tok % 16) as u128;
            let (ml, s5) = if lo == 15 {
                match ext(src, s3 + 2, 19) {
                    Some(x) => x,
                    None => return Err("lz4: truncated match len".to_owned()),
                }
            } else {
                (lo + 4, s3 + 2)
            };
            if ml > (dst_len - dst.len()) as u128 {
                return Err("lz4: match overflow".to_owned());
            }
            proof {
                lemma_ext_len(src@, s3 + 2, 19);
            }
            let ml = ml as usize;
            let ghost out2 = dst@;
            let mut k: usize = 0;
            while k < ml
                invariant
                    off >= 1,
                    out2.len() >= off,
                    k <= ml,
                    dst@.len() == out2.len() + k,
                    copy_match(out2, off as int, ml as nat) == copy_match(dst@, off as int, (ml - k) as nat),
                decreases ml - k,
            {
                let b = dst[dst.len() - off];
                dst.push(b);
                k = k + 1;
            }
            si = s5;
        }
    }
    Ok(dst)
}


/// The bytes that continue a length of `v` past a nibble of 15: a 0xFF
/// for every full 255, then the remainder.
pub open spec fn spill(v: nat) -> Seq<u8>
    decreases v,
{
    if v < 255 {
        seq![v as u8]
    } else {
        seq![255u8] + spill((v - 255) as nat)
    }
}

/// A block, as an LZ4 compressor writes it, that holds `lits` as one run
/// of literals: a token with the run length (15 and its spill past 14),
/// then the literals.
pub open spec fn literal_block(lits: Seq<u8>) -> Seq<u8> {
    if lits.len() < 15 {
        seq![(16 * lits.len()) as u8] + lits
    } else {
        seq![0xF0u8] + spill((lits.len() - 15) as nat) + lits
    }
}

/// A block, as an LZ4 compressor writes it, that holds `n + 6` copies of
/// `c`: one literal `c`, a match of `n + 4` bytes at offset 1 (nibble
/// `n`, or 15 and the spill of `n - 15`), then a last literal `c`.
pub open spec fn run_block(c: u8, n: nat) -> Seq<u8> {
    if n < 15 {
        seq![(16 + n) as u8, c, 1u8, 0u8, 16u8, c]
    } else {
        seq![0x1Fu8, c, 1u8, 0u8] + spill((n - 15) as nat) + seq![16u8, c]
    }
}

proof fn lemma_ext_spill(src: Seq<u8>, si: int, acc: nat, v: nat)
    requires
        0 <= si,
        si + spill(v).len() <= src.len(),
        src.subrange(si, si + spill(v).len()) == spill(v),
    ensures
        ext_len(src, si, acc) == Some(((acc + v) as nat, si + spill(v).len())),
        spill(v).len() >= 1,
    decreases v,
{
    if v < 255 {
        assert(src[si] == src.subrange(si, si + 1)[0]);
    } else {
        let rest = spill((v - 255) as nat);
        assert(spill(v) =~= seq![255u8] + rest);
        assert(src[si] == spill(v)[0]);
        assert(src.subrange(si + 1, si + 1 + rest.len()) =~= rest) by {
            assert forall|i: int| 0 <= i < rest.len() implies src.subrange(
                si + 1,
                si + 1 + rest.len(),
            )[i] == rest[i] by {
                assert(src.subrange(si, si + spill(v).len())[i + 1] == spill(v)[i + 1]);
            }
        }
        lemma_ext_spill(src, si + 1, acc + 255, (v - 255) as nat);
    }
}

proof fn lemma_copy_run(c: u8, m: nat, ml: nat)
    requires
        m >= 1,
    ensures
        copy_match(Seq::new(m, |i: int| c), 1, ml) =~= Seq::new(m + ml, |i: int| c),
    decreases ml,
{
    if ml > 0 {
        let out = Seq::new(m, |i: int| c);
        assert(out.push(out[out.len() - 1]) =~= Seq::new(m + 1, |i: int| c));
        lemma_copy_run(c, m + 1, (ml - 1) as nat);
    }
}

/// Law: a run of literals, written as an LZ4 compressor writes it
/// (length nibble 15 continued over spill bytes past 14), decompresses to
/// itself: the literal length is the nibble plus the spill bytes.
pub proof fn lemma_literal_block(lits: Seq<u8>)
    requires
        lits.len() > 0,
    ensures
        lz4_spec(literal_block(lits), lits.len()) == Ok::<Seq<u8>, Seq<char>>(lits),
{
    let src = literal_block(lits);
    let n: int = lits.len() as int;
    if n < 15 {
        assert(src[0] as nat / 16 == n);
        assert(src.subrange(1, 1 + n) =~= lits);
        assert(lz4_from(src, 1 + n, Seq::empty() + lits, n as nat) == Ok::<Seq<u8>, Seq<char>>(
            Seq::empty() + lits,
        ));
        assert(Seq::<u8>::empty() + lits =~= lits);
    } else {
        let sp = spill((n - 15) as nat);
        assert(src =~= seq![0xF0u8] + sp + lits);
        let sl: int = sp.len() as int;
        assert(src.subrange(1, 1 + sl) =~= sp);
        lemma_ext_spill(src, 1, 15, (n - 15) as nat);
        assert(src[0] as nat / 16 == 15);
        let s2: int = 1 + sl;
        assert(src.subrange(s2, s2 + n) =~= lits);
        assert(lz4_from(src, s2 + n, Seq::empty() + lits, n as nat) == Ok::<Seq<u8>, Seq<char>>(
            Seq::empty() + lits,
        ));
        assert(Seq::<u8>::empty() + lits =~= lits);
    }
}

/// Law: a run of `n + 6` copies of a byte, written as an LZ4 compressor
/// writes it (a literal, a match of length `n + 4` at offset 1 whose
/// nibble 15 is continued over spill bytes, a last literal), decompresses
/// to the run: a match copies its nibble plus 4 plus the spill bytes.
pub proof fn lemma_run_block(c: u8, n: nat)
    ensures
        lz4_spec(run_block(c, n), n + 6) == Ok::<Seq<u8>, Seq<char>>(Seq::new(n + 6, |i: int| c)),
{
    let src = run_block(c, n);
    let one = Seq::new(1, |i: int| c);
    assert(Seq::<u8>::empty() + src.subrange(1, 2) =~= one);
    let s5: int = if n < 15 {
        4
    } else {
        4 + spill((n - 15) as nat).len() as int
    };
    if n < 15 {
        assert(src[0] as nat / 16 == 1 && src[0] as nat % 16 == n);
    } else {
        let sp = spill((n - 15) as nat);
        assert(src =~= seq![0x1Fu8, c, 1u8, 0u8] + sp + seq![16u8, c]);
        assert(src.subrange(4, 4 + sp.len() as int) =~= sp);
        lemma_ext_spill(src, 4, 19, (n - 15) as nat);
        assert(src[0] as nat / 16 == 1 && src[0] as nat % 16 == 15);
    }
    assert(src.len() == s5 + 2);
    assert(src[2] == 1 && src[3] == 0);
    assert(src[s5] == 16 && src[s5 + 1] == c);
    lemma_copy_run(c, 1, n + 4);
    let mid = Seq::new(n + 5, |i: int| c);
    assert(mid + src.subrange(s5 + 1, s5 + 2) =~= Seq::new(n + 6, |i: int| c));
    assert(lz4_from(src, s5, mid, n + 6) == Ok::<Seq<u8>, Seq<char>>(
        Seq::new(n + 6, |i: int| c),
    ));
}

} // verus!
