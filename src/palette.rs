//! The eight candidate values that two endpoint bytes stand for.
use vstd::prelude::*;

verus! {

/// The options table of endpoints `v0`, `v1` under `flip`, as a sequence of
/// eight bytes: the two endpoints, the two thirds between them, the endpoints
/// again (swapped when `flip` is false), their mean and zero.
pub open spec fn palette(v0: u8, v1: u8, flip: bool) -> Seq<u8> {
    seq![
        v0,
        v1,
        ((2 * v0 + v1) / 3) as u8,
        ((v0 + 2 * v1) / 3) as u8,
        if flip { v0 } else { v1 },
        if flip { v1 } else { v0 },
        ((v0 + v1) / 2) as u8,
        0u8,
    ]
}

/// Builds the options table of endpoints `val0`, `val1` under `flip`.
pub fn get_options_table(val0: u8, val1: u8, flip: bool) -> (r: [u8; 8])
    ensures
        r@ == palette(val0, val1, flip),
{
    let v0 = val0 as u32;
    let v1 = val1 as u32;
    let r = [
        val0,
        val1,
        ((2 * v0 + v1) / 3) as u8,
        ((v0 + 2 * v1) / 3) as u8,
        if flip { val0 } else { val1 },
        if flip { val1 } else { val0 },
        ((v0 + v1) / 2) as u8,
        0,
    ];
    assert(r@ =~= palette(val0, val1, flip));
    r
}

/// Only entries 4 and 5 of the options table depend on the flip flag: the
/// first four entries and the last two are the same under both settings.
pub proof fn lemma_flip_changes_only_middle(a: u8, b: u8)
    ensures
        palette(a, b, false).subrange(0, 4) == palette(a, b, true).subrange(0, 4),
        palette(a, b, false).subrange(6, 8) == palette(a, b, true).subrange(6, 8),
        palette(a, b, false)[4] == palette(a, b, true)[5],
        palette(a, b, false)[5] == palette(a, b, true)[4],
{
    assert(palette(a, b, false).subrange(0, 4) =~= palette(a, b, true).subrange(0, 4));
    assert(palette(a, b, false).subrange(6, 8) =~= palette(a, b, true).subrange(6, 8));
}

} // verus!
