//! The framing of an EDID: blocks of 128 bytes, the header, and the checksums.

use vstd::prelude::*;

use crate::text::push_dec;
use crate::timing::Timing;

verus! {

/// Size of one EDID block.
pub const BLOCK: usize = 128;

/// Why an EDID is refused.
#[derive(Debug, Clone, Copy, PartialEq, Eq, Structural)]
pub enum EdidError {
    TooShort(usize),
    BadLength(usize),
    BadHeader,
    Checksum(usize),
    PreferredExceedsCap(Timing),
    BadCap,
}

impl EdidError {
    /// The error in words. `hertz` and `megahertz` show the refresh rate and the pixel
    /// clock of the timing that the error is about, if it is about one.
    pub open spec fn text(self, hertz: Seq<char>, megahertz: Seq<char>) -> Seq<char> {
        match self {
            EdidError::TooShort(n) => "EDID too short: "@ + crate::text::dec(n as nat)
                + " bytes (need at least 128)"@,
            EdidError::BadLength(n) => "EDID length "@ + crate::text::dec(n as nat)
                + " is not a multiple of 128"@,
            EdidError::BadHeader => "bad EDID header (not an EDID)"@,
            EdidError::Checksum(i) => "checksum mismatch in block "@ + crate::text::dec(i as nat),
            EdidError::PreferredExceedsCap(t) => "the preferred timing in the base block ("@
                + t.text(hertz, megahertz) + ") is above the cap; refusing to remove it"@,
            EdidError::BadCap => "max refresh must be positive"@,
        }
    }

    /// The error in words.
    pub fn to_text(&self, hertz: &str, megahertz: &str) -> (s: String)
        ensures
            s@ == self.text(hertz@, megahertz@),
    {
        let mut s = String::new();
        match self {
            EdidError::TooShort(n) => {
                s.append("EDID too short: ");
                push_dec(&mut s, *n as u128);
                s.append(" bytes (need at least 128)");
            },
            EdidError::BadLength(n) => {
                s.append("EDID length ");
                push_dec(&mut s, *n as u128);
                s.append(" is not a multiple of 128");
            },
            EdidError::BadHeader => {
                s.append("bad EDID header (not an EDID)");
            },
            EdidError::Checksum(i) => {
                s.append("checksum mismatch in block ");
                push_dec(&mut s, *i as u128);
            },
            EdidError::PreferredExceedsCap(t) => {
                s.append("the preferred timing in the base block (");
                let shown = t.to_text(hertz, megahertz);
                s.append(shown.as_str());
                s.append(") is above the cap; refusing to remove it");
            },
            EdidError::BadCap => {
                s.append("max refresh must be positive");
            },
        }
        assert(s@ =~= self.text(hertz@, megahertz@));
        s
    }
}

// ---------------------------------------------------------------------------
// Blocks.

/// The number of whole blocks in `bytes`.
pub open spec fn block_count(bytes: Seq<u8>) -> nat {
    bytes.len() / 128
}

/// The block with number `n`.
pub open spec fn block_at(bytes: Seq<u8>, n: int) -> Seq<u8> {
    bytes.subrange(128 * n, 128 * n + 128)
}

/// The sum of all bytes.
pub open spec fn sum(s: Seq<u8>) -> nat
    decreases s.len(),
{
    if s.len() == 0 {
        0
    } else {
        sum(s.drop_last()) + s.last() as nat
    }
}

/// What has to be added to the sum of `s` to make it a multiple of 256.
pub open spec fn complement(s: Seq<u8>) -> u8 {
    ((256 - sum(s) % 256) % 256) as u8
}

/// `block` with its last byte set so that the whole sums up to a multiple of 256.
pub open spec fn sealed(block: Seq<u8>) -> Seq<u8> {
    block.update(127, complement(block.take(127)))
}

/// The first eight bytes of every EDID.
pub open spec fn has_header(bytes: Seq<u8>) -> bool {
    &&& bytes[0] == 0
    &&& forall|i: int| 1 <= i < 7 ==> bytes[i] == 0xff
    &&& bytes[7] == 0
}

/// Whether the bytes of block `n` sum up to a multiple of 256.
pub open spec fn block_ok(bytes: Seq<u8>, n: int) -> bool {
    sum(block_at(bytes, n)) % 256 == 0
}

/// An EDID of whole blocks, with the header, each block with a correct checksum.
pub open spec fn valid(bytes: Seq<u8>) -> bool {
    &&& bytes.len() >= 128
    &&& bytes.len() % 128 == 0
    &&& has_header(bytes)
    &&& forall|n: int| 0 <= n < block_count(bytes) ==> block_ok(bytes, n)
}

/// What checking `bytes` finds: the first of these that holds, length before header before
/// checksums, and the lowest block whose checksum is wrong.
pub open spec fn verdict(bytes: Seq<u8>, r: Result<(), EdidError>) -> bool {
    match r {
        Ok(()) => valid(bytes),
        Err(EdidError::TooShort(n)) => bytes.len() < 128 && n == bytes.len(),
        Err(EdidError::BadLength(n)) => {
            &&& bytes.len() >= 128
            &&& bytes.len() % 128 != 0
            &&& n == bytes.len()
        },
        Err(EdidError::BadHeader) => {
            &&& bytes.len() >= 128
            &&& bytes.len() % 128 == 0
            &&& !has_header(bytes)
        },
        Err(EdidError::Checksum(i)) => {
            &&& bytes.len() >= 128
            &&& bytes.len() % 128 == 0
            &&& has_header(bytes)
            &&& i < block_count(bytes)
            &&& !block_ok(bytes, i as int)
            &&& forall|n: int| 0 <= n < i ==> block_ok(bytes, n)
        },
        Err(_) => false,
    }
}

/// A sealed block has a correct checksum and is unchanged before its last byte.
pub proof fn lemma_sealed(block: Seq<u8>)
    requires
        block.len() == 128,
    ensures
        sealed(block).len() == 128,
        sealed(block).take(127) == block.take(127),
        sum(sealed(block)) % 256 == 0,
        sum(block) % 256 == 0 ==> sealed(block) == block,
{
    let head = block.take(127);
    let s = sealed(block);
    assert(s.drop_last() =~= head);
    assert(s.take(127) =~= head);
    assert(block.drop_last() =~= head);
    if sum(block) % 256 == 0 {
        assert((sum(head) + block.last()) % 256 == 0);
        assert(s =~= block);
    }
}

/// The sum of the bytes, modulo 256.
pub fn block_sum(block: &[u8]) -> (r: u8)
    ensures
        r as nat == sum(block@) % 256,
{
    let mut acc: u8 = 0;
    let mut i: usize = 0;
    while i < block.len()
        invariant
            i <= block.len(),
            acc as nat == sum(block@.take(i as int)) % 256,
        decreases block.len() - i,
    {
        proof {
            assert(block@.take(i + 1).drop_last() =~= block@.take(i as int));
        }
        acc = acc.wrapping_add(block[i]);
        i += 1;
    }
    assert(block@.take(i as int) =~= block@);
    acc
}

/// Sets the checksum byte of the block that `block` begins with.
pub fn fix_checksum(block: &mut [u8])
    requires
        old(block).len() >= BLOCK,
    ensures
        final(block)@ == sealed(old(block)@),
{
    let s = block_sum(&block[0..BLOCK - 1]);
    assert(block@.subrange(0, 127) =~= block@.take(127));
    block[BLOCK - 1] = 0u8.wrapping_sub(s);
}

/// Whether `bytes` begins with the EDID header.
pub fn check_header(bytes: &[u8]) -> (r: bool)
    requires
        bytes.len() >= 8,
    ensures
        r == has_header(bytes@),
{
    bytes[0] == 0 && bytes[1] == 0xff && bytes[2] == 0xff && bytes[3] == 0xff && bytes[4] == 0xff
        && bytes[5] == 0xff && bytes[6] == 0xff && bytes[7] == 0
}

/// Validate header, length and every block checksum.
pub fn validate(bytes: &[u8]) -> (r: Result<(), EdidError>)
    ensures
        verdict(bytes@, r),
{
    if bytes.len() < BLOCK {
        return Err(EdidError::TooShort(bytes.len()));
    }
    if bytes.len() % BLOCK != 0 {
        return Err(EdidError::BadLength(bytes.len()));
    }
    if !check_header(bytes) {
        return Err(EdidError::BadHeader);
    }
    let count: usize = bytes.len() / BLOCK;
    let mut i: usize = 0;
    while i < count
        invariant
            i <= count,
            count == block_count(bytes@),
            bytes.len() >= 128,
            bytes.len() % 128 == 0,
            has_header(bytes@),
            forall|n: int| 0 <= n < i ==> block_ok(bytes@, n),
        decreases count - i,
    {
        if block_sum(&bytes[i * BLOCK..i * BLOCK + BLOCK]) != 0 {
            assert(!block_ok(bytes@, i as int));
            return Err(EdidError::Checksum(i));
        }
        assert(block_ok(bytes@, i as int));
        i += 1;
    }
    Ok(())
}

/// What `validate` answers is fixed by the bytes alone.
pub proof fn lemma_one_verdict(bytes: Seq<u8>, a: Result<(), EdidError>, b: Result<(), EdidError>)
    requires
        verdict(bytes, a),
        verdict(bytes, b),
    ensures
        a == b,
{
    match (a, b) {
        (Err(EdidError::Checksum(i)), Err(EdidError::Checksum(j))) => {
            if i < j {
                assert(block_ok(bytes, i as int));
            } else if j < i {
                assert(block_ok(bytes, j as int));
            }
        },
        (Ok(()), Err(EdidError::Checksum(j))) => {
            assert(block_ok(bytes, j as int));
        },
        (Err(EdidError::Checksum(i)), Ok(())) => {
            assert(block_ok(bytes, i as int));
        },
        (Ok(x), Ok(y)) => {
            assert(x == y);
        },
        _ => {},
    }
}

// ---------------------------------------------------------------------------
// What the checksums are good for.

/// The sum of bytes is that of their parts.
pub proof fn law_sum(a: Seq<u8>, b: Seq<u8>)
    ensures
        sum(a + b) == sum(a) + sum(b),
        sum(Seq::empty()) == 0,
        forall|x: u8| #[trigger] sum(seq![x]) == x,
    decreases b.len(),
{
    if b.len() == 0 {
        assert(a + b =~= a);
    } else {
        law_sum(a, b.drop_last());
        assert((a + b).drop_last() =~= a + b.drop_last());
    }
    assert forall|x: u8| #[trigger] sum(seq![x]) == x by {
        assert(seq![x].drop_last() =~= Seq::<u8>::empty());
        assert(sum(Seq::<u8>::empty()) == 0);
    }
}

proof fn lemma_sum_update(s: Seq<u8>, i: int, x: u8)
    requires
        0 <= i < s.len(),
    ensures
        sum(s.update(i, x)) == sum(s) - s[i] + x,
    decreases s.len(),
{
    let t = s.update(i, x);
    if i == s.len() - 1 {
        assert(t.drop_last() =~= s.drop_last());
    } else {
        lemma_sum_update(s.drop_last(), i, x);
        assert(t.drop_last() =~= s.drop_last().update(i, x));
    }
}

/// An EDID in which one byte is damaged is not valid.
pub proof fn law_damage_is_noticed(bytes: Seq<u8>, i: int, x: u8)
    requires
        valid(bytes),
        0 <= i < bytes.len(),
        x != bytes[i],
    ensures
        !valid(bytes.update(i, x)),
{
    let n = i / 128;
    let bad = bytes.update(i, x);
    let blk = block_at(bytes, n);
    assert(block_ok(bytes, n));
    assert(block_at(bad, n) =~= blk.update(i % 128, x));
    lemma_sum_update(blk, i % 128, x);
    assert(blk[i % 128] == bytes[i]);
    assert(!block_ok(bad, n));
}

/// An EDID begins with a zero, six times 255 and a zero; it is made of whole blocks of 128 bytes,
/// at least one, and the bytes of each add up to a multiple of 256.
pub proof fn law_valid(bytes: Seq<u8>)
    ensures
        bytes.len() >= 8 ==> (has_header(bytes) <==> bytes.take(8) == seq![
            0u8,
            0xff,
            0xff,
            0xff,
            0xff,
            0xff,
            0xff,
            0,
        ]),
        valid(bytes) <==> bytes.len() >= 128 && bytes.len() % 128 == 0 && has_header(bytes)
            && forall|n: int|
            0 <= n < bytes.len() / 128 ==> sum(
                #[trigger] bytes.subrange(128 * n, 128 * n + 128),
            ) % 256 == 0,
{
    let start = seq![0u8, 0xff, 0xff, 0xff, 0xff, 0xff, 0xff, 0];
    if bytes.len() >= 8 {
        if has_header(bytes) {
            assert(bytes.take(8) =~= start);
        }
        if bytes.take(8) == start {
            assert forall|i: int| 0 <= i < 8 implies #[trigger] bytes[i] == start[i] by {
                assert(bytes.take(8)[i] == bytes[i]);
            }
        }
    }
    if bytes.len() >= 128 && bytes.len() % 128 == 0 && has_header(bytes) {
        assert forall|n: int| 0 <= n < block_count(bytes) implies block_ok(bytes, n) == (sum(
            #[trigger] bytes.subrange(128 * n, 128 * n + 128),
        ) % 256 == 0) by {}
        if valid(bytes) {
            assert forall|n: int| 0 <= n < bytes.len() / 128 implies sum(
                #[trigger] bytes.subrange(128 * n, 128 * n + 128),
            ) % 256 == 0 by {
                assert(block_ok(bytes, n));
            }
        }
        if forall|n: int|
            0 <= n < bytes.len() / 128 ==> sum(
                #[trigger] bytes.subrange(128 * n, 128 * n + 128),
            ) % 256 == 0 {
            assert forall|n: int| 0 <= n < block_count(bytes) implies block_ok(bytes, n) by {
                assert(sum(bytes.subrange(128 * n, 128 * n + 128)) % 256 == 0);
            }
        }
    }
}

/// An EDID is refused for the checksum of its first block with a wrong one: the blocks before it
/// are a valid EDID of their own.
pub proof fn law_first_bad_block(bytes: Seq<u8>, i: usize)
    requires
        verdict(bytes, Err(EdidError::Checksum(i))),
    ensures
        128 * i + 128 <= bytes.len(),
        sum(bytes.subrange(128 * i, 128 * i + 128)) % 256 != 0,
        i > 0 ==> valid(bytes.take(128 * i as int)),
{
    let head = bytes.take(128 * i as int);
    if i > 0 {
        assert forall|n: int| 0 <= n < block_count(head) implies block_ok(head, n) by {
            assert(block_at(head, n) =~= block_at(bytes, n));
            assert(block_ok(bytes, n));
        }
        assert(has_header(head)) by {
            assert(head[0] == bytes[0] && head[7] == bytes[7]);
            assert forall|k: int| 1 <= k < 7 implies head[k] == 0xff by {
                assert(bytes[k] == 0xff);
            }
        }
    }
}

/// Of an EDID that is refused, the length is at fault before the header, and the header before
/// the checksums; a valid one is not refused.
pub proof fn law_verdict(bytes: Seq<u8>, r: Result<(), EdidError>)
    requires
        verdict(bytes, r),
    ensures
        r is Ok <==> valid(bytes),
        r == Err::<(), EdidError>(EdidError::TooShort(bytes.len() as usize)) <==> bytes.len() < 128,
        r matches Err(EdidError::BadLength(n)) ==> n == bytes.len(),
        bytes.len() >= 128 && bytes.len() % 128 != 0 ==> r == Err::<(), EdidError>(
            EdidError::BadLength(bytes.len() as usize),
        ),
        bytes.len() >= 128 && bytes.len() % 128 == 0 && bytes.take(8) != seq![
            0u8,
            0xff,
            0xff,
            0xff,
            0xff,
            0xff,
            0xff,
            0,
        ] ==> r == Err::<(), EdidError>(EdidError::BadHeader),
{
    law_valid(bytes);
    if valid(bytes) {
        if let Err(EdidError::Checksum(i)) = r {
            assert(block_ok(bytes, i as int));
        }
    }
}

} // verus!
