//! Bitmaps that follow a list: which bits stay when entries of the list go.

use vstd::prelude::*;

verus! {

/// The value of bit `k` (0 to 7) of a byte.
pub open spec fn place(k: int) -> int {
    if k == 0 {
        1
    } else if k == 1 {
        2
    } else if k == 2 {
        4
    } else if k == 3 {
        8
    } else if k == 4 {
        16
    } else if k == 5 {
        32
    } else if k == 6 {
        64
    } else {
        128
    }
}

/// Whether bit `i` of the map is set, low bits first; beyond the map no bit is.
pub open spec fn bit_at(map: Seq<u8>, i: int) -> bool {
    0 <= i < 8 * map.len() && (map[i / 8] as int / place(i % 8)) % 2 == 1
}

/// The bits of the entries that are kept, in order: `kept[i]` says whether entry `i` stays.
pub open spec fn kept_bits(map: Seq<u8>, kept: Seq<bool>) -> Seq<bool>
    decreases kept.len(),
{
    if kept.len() == 0 {
        Seq::empty()
    } else if kept.last() {
        kept_bits(map, kept.drop_last()).push(bit_at(map, kept.len() - 1))
    } else {
        kept_bits(map, kept.drop_last())
    }
}

/// What bit `p + k` adds to the byte that starts with bit `p`.
pub open spec fn weight(bits: Seq<bool>, p: int, k: int) -> int {
    if p + k < bits.len() && bits[p + k] {
        place(k)
    } else {
        0
    }
}

/// The byte made of the eight bits from `p` on.
pub open spec fn packed_byte(bits: Seq<bool>, p: int) -> int {
    weight(bits, p, 0) + weight(bits, p, 1) + weight(bits, p, 2) + weight(bits, p, 3) + weight(
        bits,
        p,
        4,
    ) + weight(bits, p, 5) + weight(bits, p, 6) + weight(bits, p, 7)
}

/// The map of `n` bytes whose bits are `bits`, the rest of it zero.
pub open spec fn packed(bits: Seq<bool>, n: nat) -> Seq<u8> {
    Seq::new(n, |q: int| packed_byte(bits, 8 * q) as u8)
}

/// The map, as long as before, with the bits of the entries that are kept.
pub open spec fn remapped(map: Seq<u8>, kept: Seq<bool>) -> Seq<u8> {
    packed(kept_bits(map, kept), map.len())
}

/// Bit `j` of a re-indexed map is the bit that the `j`-th kept entry had; no other bit is
/// set.
#[verifier::rlimit(30)]
pub proof fn law_remapped(map: Seq<u8>, kept: Seq<bool>, j: int)
    requires
        0 <= j < 8 * map.len(),
    ensures
        remapped(map, kept).len() == map.len(),
        bit_at(remapped(map, kept), j) == (j < kept_bits(map, kept).len() && kept_bits(
            map,
            kept,
        )[j]),
{
    let bits = kept_bits(map, kept);
    let q = j / 8;
    let p = 8 * q;
    assert(remapped(map, kept)[q] == packed_byte(bits, p) as u8);
    assert(j == p + j % 8);
    assert(0 <= packed_byte(bits, p) < 256);
    let b = packed_byte(bits, p);
    let k = j % 8;
    assert((b / place(k)) % 2 == 1 <==> weight(bits, p, k) == place(k)) by {
        if k == 0 {
        } else if k == 1 {
        } else if k == 2 {
        } else if k == 3 {
        } else if k == 4 {
        } else if k == 5 {
        } else if k == 6 {
        } else {
        }
    }
}

/// Nothing is lost: every bit of a kept entry lies within the map.
pub proof fn law_kept_bits_fit(map: Seq<u8>, kept: Seq<bool>, j: int)
    requires
        0 <= j < kept_bits(map, kept).len(),
        kept_bits(map, kept)[j],
    ensures
        j < 8 * map.len(),
    decreases kept.len(),
{
    lemma_kept_bits_len(map, kept.drop_last());
    if kept.last() {
        if j < kept_bits(map, kept.drop_last()).len() {
            law_kept_bits_fit(map, kept.drop_last(), j);
        }
    } else {
        law_kept_bits_fit(map, kept.drop_last(), j);
    }
}

proof fn lemma_kept_bits_len(map: Seq<u8>, kept: Seq<bool>)
    ensures
        kept_bits(map, kept).len() <= kept.len(),
    decreases kept.len(),
{
    if kept.len() > 0 {
        lemma_kept_bits_len(map, kept.drop_last());
    }
}

/// The value of bit `k` of a byte.
fn place_of(k: usize) -> (r: u8)
    requires
        k < 8,
    ensures
        r == place(k as int),
        r > 0,
{
    match k {
        0 => 1,
        1 => 2,
        2 => 4,
        3 => 8,
        4 => 16,
        5 => 32,
        6 => 64,
        _ => 128,
    }
}

/// What bit `p + k` adds to the byte that starts with bit `p`.
fn weight_of(bits: &Vec<bool>, p: usize, k: usize) -> (r: u8)
    requires
        k < 8,
    ensures
        r == weight(bits@, p as int, k as int),
{
    if p < bits.len() && k < bits.len() - p && bits[p + k] {
        place_of(k)
    } else {
        0
    }
}

/// The bits of the entries that are kept.
fn collect_kept(map: &[u8], kept: &Vec<bool>) -> (bits: Vec<bool>)
    ensures
        bits@ == kept_bits(map@, kept@),
{
    let mut bits: Vec<bool> = Vec::new();
    let mut i: usize = 0;
    while i < kept.len()
        invariant
            i <= kept.len(),
            bits@ == kept_bits(map@, kept@.take(i as int)),
        decreases kept.len() - i,
    {
        proof {
            assert(kept@.take(i + 1).drop_last() =~= kept@.take(i as int));
        }
        if kept[i] {
            let set: bool = i / 8 < map.len() && (map[i / 8] / place_of(i % 8)) % 2 == 1;
            assert(set == bit_at(map@, i as int));
            bits.push(set);
        }
        i += 1;
    }
    assert(kept@.take(i as int) =~= kept@);
    bits
}

/// Re-indexes a bitmap after entries of the list that it follows went.
pub fn remap(map: &[u8], kept: &Vec<bool>) -> (out: Vec<u8>)
    ensures
        out@ == remapped(map@, kept@),
{
    let bits = collect_kept(map, kept);
    let mut out: Vec<u8> = Vec::new();
    let mut q: usize = 0;
    while q < map.len()
        invariant
            q <= map.len(),
            out@ == packed(bits@, q as nat),
        decreases map.len() - q,
    {
        // Beyond the last bit there is nothing to pack.
        if q > bits.len() / 8 {
            proof {
                assert(packed_byte(bits@, 8 * q) == 0);
            }
            out.push(0);
        } else {
            let p: usize = 8 * q;
            let byte: u8 = weight_of(&bits, p, 0) + weight_of(&bits, p, 1) + weight_of(&bits, p, 2)
                + weight_of(&bits, p, 3) + weight_of(&bits, p, 4) + weight_of(&bits, p, 5)
                + weight_of(&bits, p, 6) + weight_of(&bits, p, 7);
            out.push(byte);
        }
        q += 1;
        assert(out@ =~= packed(bits@, q as nat));
    }
    out
}

} // verus!
