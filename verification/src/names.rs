//! Identifier hygiene for the emitted scaffold: the generator must mint
//! symbols for its internal statics and types that cannot collide with one
//! another. Any deterministic unique-naming scheme suffices; here the
//! `n`-th symbol spells out the eight hexadecimal nibbles of `n` as the
//! letters `a..=p` behind a fixed leading letter, which makes distinct
//! counters give distinct symbols by construction.

use vstd::prelude::*;

verus! {

/// ASCII `s`, the leading letter of every minted symbol.
pub const SYMBOL_LEAD: u8 = 115;

/// ASCII `a`, the letter that stands for a zero nibble.
pub const SYMBOL_BASE: u8 = 97;

/// The `i`-th hexadecimal nibble of `n`, lowest first.
pub open spec fn nibble(n: u32, i: int) -> u32 {
    (n >> ((4 * i) as u32)) & 0xf
}

/// Mints the `n`-th internal symbol: a fixed letter followed by one letter
/// per nibble of `n`.
#[verifier::loop_isolation(false)]
pub fn mint(n: u32) -> (r: Vec<u8>)
    ensures
        r@.len() == 9,
        r@[0] == SYMBOL_LEAD,
        forall|i: int| 0 <= i < 8 ==> r@[i + 1] == SYMBOL_BASE + nibble(n, i),
        forall|i: int| 0 <= i < r@.len() ==> 97 <= #[trigger] r@[i] <= 122,
{
    let mut out: Vec<u8> = Vec::new();
    out.push(SYMBOL_LEAD);
    let mut i: u32 = 0;
    while i < 8
        invariant
            i <= 8,
            out@.len() == i + 1,
            out@[0] == SYMBOL_LEAD,
            forall|k: int| 0 <= k < i ==> out@[k + 1] == SYMBOL_BASE + nibble(n, k),
            forall|k: int| 0 <= k < out@.len() ==> 97 <= #[trigger] out@[k] <= 122,
        decreases 8 - i,
    {
        let nib = (n >> (4 * i)) & 0xf;
        proof {
            assert(nib == nibble(n, i as int));
            assert(nib <= 0xf) by (bit_vector)
                requires
                    nib == (n >> (4 * i)) & 0xf,
            ;
        }
        out.push(SYMBOL_BASE + (nib as u8));
        i = i + 1;
    }
    out
}

/// Symbol hygiene: two symbols with the same letters came from the same
/// counter, so distinct counters never collide.
pub proof fn lemma_mint_injective(n: u32, m: u32)
    requires
        forall|i: int| 0 <= i < 8 ==> nibble(n, i) == nibble(m, i),
    ensures
        n == m,
{
    assert(nibble(n, 0) == nibble(m, 0));
    assert(nibble(n, 1) == nibble(m, 1));
    assert(nibble(n, 2) == nibble(m, 2));
    assert(nibble(n, 3) == nibble(m, 3));
    assert(nibble(n, 4) == nibble(m, 4));
    assert(nibble(n, 5) == nibble(m, 5));
    assert(nibble(n, 6) == nibble(m, 6));
    assert(nibble(n, 7) == nibble(m, 7));
    assert(n == m) by (bit_vector)
        requires
            (n >> 0u32) & 0xf == (m >> 0u32) & 0xf,
            (n >> 4u32) & 0xf == (m >> 4u32) & 0xf,
            (n >> 8u32) & 0xf == (m >> 8u32) & 0xf,
            (n >> 12u32) & 0xf == (m >> 12u32) & 0xf,
            (n >> 16u32) & 0xf == (m >> 16u32) & 0xf,
            (n >> 20u32) & 0xf == (m >> 20u32) & 0xf,
            (n >> 24u32) & 0xf == (m >> 24u32) & 0xf,
            (n >> 28u32) & 0xf == (m >> 28u32) & 0xf,
    ;
}

} // verus!
