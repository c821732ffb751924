//! Cryptographic commitments over exploration state: the canonical preimages
//! fed to SHA-256 when a player binds itself to a claimed exploration mask or
//! a solution path.

use vstd::prelude::*;

use crate::codec::{enc_u64, write_u64};
use crate::crypto::{sha256, sha256_of};
use crate::maze::{mask_view, Maze};
use crate::transactions::{enc_path, encode_path};

verus! {

/// The preimage contribution of the first j cells of row x of a mask: for
/// each revealed cell, its coordinates as two 8-byte integers.
pub open spec fn row_preimage(row: Seq<bool>, x: int, j: int) -> Seq<u8>
    decreases j,
{
    if j <= 0 {
        Seq::empty()
    } else {
        row_preimage(row, x, j - 1) + (if row[j - 1] {
            enc_u64(x as u64) + enc_u64((j - 1) as u64)
        } else {
            Seq::empty()
        })
    }
}

/// The commitment preimage of the first i rows of a mask.
pub open spec fn mask_preimage_to(mask: Seq<Seq<bool>>, i: int) -> Seq<u8>
    decreases i,
{
    if i <= 0 {
        Seq::empty()
    } else {
        mask_preimage_to(mask, i - 1) + row_preimage(mask[i - 1], i - 1, mask[i - 1].len() as int)
    }
}

/// The canonical commitment preimage of an exploration mask: the coordinates
/// of every revealed cell, in row-major order.
pub open spec fn mask_preimage(mask: Seq<Seq<bool>>) -> Seq<u8> {
    mask_preimage_to(mask, mask.len() as int)
}

/// Build the canonical commitment preimage of a mask.
pub fn build_mask_preimage(mask: &Vec<Vec<bool>>) -> (r: Vec<u8>)
    ensures
        r@ == mask_preimage(mask_view(mask@)),
{
    let ghost mv = mask_view(mask@);
    let mut out: Vec<u8> = Vec::new();
    let mut x: usize = 0;
    while x < mask.len()
        invariant
            x <= mask@.len(),
            mv == mask_view(mask@),
            out@ == mask_preimage_to(mv, x as int),
        decreases mask@.len() - x,
    {
        proof {
            assert(mv[x as int] == mask@[x as int]@);
        }
        let mut y: usize = 0;
        while y < mask[x].len()
            invariant
                x < mask@.len(),
                y <= mask@[x as int]@.len(),
                mv == mask_view(mask@),
                mv[x as int] == mask@[x as int]@,
                out@ == mask_preimage_to(mv, x as int) + row_preimage(
                    mv[x as int],
                    x as int,
                    y as int,
                ),
            decreases mask@[x as int]@.len() - y,
        {
            if mask[x][y] {
                write_u64(&mut out, x as u64);
                write_u64(&mut out, y as u64);
                proof {
                    assert(out@ =~= mask_preimage_to(mv, x as int) + row_preimage(
                        mv[x as int],
                        x as int,
                        y as int + 1,
                    ));
                }
            } else {
                proof {
                    assert(out@ =~= mask_preimage_to(mv, x as int) + row_preimage(
                        mv[x as int],
                        x as int,
                        y as int + 1,
                    ));
                }
            }
            y = y + 1;
        }
        proof {
            assert(out@ =~= mask_preimage_to(mv, x as int + 1));
        }
        x = x + 1;
    }
    out
}

/// SHA-256 of a mask's canonical commitment preimage: the 32-byte value a
/// player commits to.
pub fn commit_mask(mask: &Vec<Vec<bool>>) -> (r: Vec<u8>)
    ensures
        r@ == sha256_of(mask_preimage(mask_view(mask@))),
        r@.len() == 32,
{
    let preimage = build_mask_preimage(mask);
    sha256(preimage.as_slice())
}

impl Maze {
    /// Commit a solution path: SHA-256 over the canonical path encoding.
    pub fn commit_solution_path(&self, solution_path: &Vec<(usize, usize)>) -> (r: Vec<u8>)
        ensures
            r@ == sha256_of(enc_path(solution_path@)),
            r@.len() == 32,
    {
        let bytes = encode_path(solution_path);
        sha256(bytes.as_slice())
    }
}

} // verus!
