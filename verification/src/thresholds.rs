//! The bounds that a latency is judged by.
use crate::single::{self, Bits};
use vstd::prelude::*;

verus! {

/// Thirty milliseconds: above this the product is not to be shipped.
pub const LATENCY_NO_GO_MS: Bits = 0x41F0_0000;

/// Twenty-five milliseconds, the aim.
pub const LATENCY_TARGET_MS: Bits = 0x41C8_0000;

/// Twenty milliseconds: up to this a voice is heard as one's own.
pub const LATENCY_NATURAL_MS: Bits = 0x41A0_0000;

/// Fifty milliseconds: from here on hearing oneself makes speaking hard.
pub const LATENCY_DAF_MS: Bits = 0x4248_0000;

/// Five milliseconds: the drift of the ring that ten minutes may bring.
pub const DRIFT_NO_GO_MS: Bits = 0x40A0_0000;

/// How a latency in milliseconds is judged.
pub open spec fn judged(ms: Bits) -> Seq<char> {
    if single::at_most(ms, LATENCY_NATURAL_MS) {
        "自然（感知为自己的声音）"@
    } else if single::at_most(ms, LATENCY_TARGET_MS) {
        "达标"@
    } else if single::at_most(ms, LATENCY_NO_GO_MS) {
        "勉强可用（已触及预算上限）"@
    } else if single::less(ms, LATENCY_DAF_MS) {
        "超标（会察觉到声音发飘）"@
    } else {
        "失效（触发 DAF，比不开更糟）"@
    }
}

/// How a latency in milliseconds is judged.
pub fn verdict(ms: Bits) -> (s: &'static str)
    ensures
        s@ == judged(ms),
{
    if single::le(ms, LATENCY_NATURAL_MS) {
        "自然（感知为自己的声音）"
    } else if single::le(ms, LATENCY_TARGET_MS) {
        "达标"
    } else if single::le(ms, LATENCY_NO_GO_MS) {
        "勉强可用（已触及预算上限）"
    } else if single::lt(ms, LATENCY_DAF_MS) {
        "超标（会察觉到声音发飘）"
    } else {
        "失效（触发 DAF，比不开更糟）"
    }
}

/// The bounds lie in order.
pub proof fn bounds_lie_in_order()
    ensures
        single::less(LATENCY_NATURAL_MS, LATENCY_TARGET_MS),
        single::less(LATENCY_TARGET_MS, LATENCY_NO_GO_MS),
        single::less(LATENCY_NO_GO_MS, LATENCY_DAF_MS),
{
    single::non_negative_patterns_order_as_integers(LATENCY_NATURAL_MS, LATENCY_TARGET_MS);
    single::non_negative_patterns_order_as_integers(LATENCY_TARGET_MS, LATENCY_NO_GO_MS);
    single::non_negative_patterns_order_as_integers(LATENCY_NO_GO_MS, LATENCY_DAF_MS);
}

/// Two latencies are judged alike just where none of the bounds lies between them: twenty,
/// twenty-five and thirty milliseconds still count as below, fifty does not.
pub proof fn a_judgement_changes_only_at_the_bounds(a: Bits, b: Bits)
    requires
        !single::nan(a),
        !single::nan(b),
        single::value(a) <= single::value(b),
    ensures
        judged(a) == judged(b) <==> !(single::value(a) <= single::value(LATENCY_NATURAL_MS)
            < single::value(b)) && !(single::value(a) <= single::value(LATENCY_TARGET_MS)
            < single::value(b)) && !(single::value(a) <= single::value(LATENCY_NO_GO_MS)
            < single::value(b)) && !(single::value(a) < single::value(LATENCY_DAF_MS)
            <= single::value(b)),
{
    bounds_lie_in_order();
    reveal_strlit("自然（感知为自己的声音）");
    reveal_strlit("达标");
    reveal_strlit("勉强可用（已触及预算上限）");
    reveal_strlit("超标（会察觉到声音发飘）");
    reveal_strlit("失效（触发 DAF，比不开更糟）");
    assert("自然（感知为自己的声音）"@[0] == '自');
    assert("达标"@[0] == '达');
    assert("勉强可用（已触及预算上限）"@[0] == '勉');
    assert("超标（会察觉到声音发飘）"@[0] == '超');
    assert("失效（触发 DAF，比不开更糟）"@[0] == '失');
}

} // verus!
