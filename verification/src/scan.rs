//! Byte scans: where a run of bytes stops, and whether every byte of a run is
//! allowed. Short runs are scanned byte by byte; long runs go through the
//! vector routines of `swift_check`.

use vstd::prelude::*;

verus! {

/// `b` is one of the three stop bytes `x`, `y`, `z` (which may repeat).
pub open spec fn hits(b: u8, x: u8, y: u8, z: u8) -> bool {
    b == x || b == y || b == z
}

/// Index of the first byte of `s` that is one of `x`, `y`, `z`; `s.len()` when
/// there is none.
pub open spec fn stop_index(s: Seq<u8>, x: u8, y: u8, z: u8) -> int
    decreases s.len(),
{
    if s.len() == 0 || hits(s[0], x, y, z) {
        0
    } else {
        1 + stop_index(s.skip(1), x, y, z)
    }
}

/// `b` lies in one of four inclusive ranges or equals `e`.
pub open spec fn in_ranges(
    b: u8,
    a0: u8,
    a1: u8,
    b0: u8,
    b1: u8,
    c0: u8,
    c1: u8,
    d0: u8,
    d1: u8,
    e: u8,
) -> bool {
    (a0 <= b <= a1) || (b0 <= b <= b1) || (c0 <= b <= c1) || (d0 <= b <= d1) || b == e
}

/// `stop_index` is the least index that holds a stop byte: nothing before it
/// is one, and it is within the run exactly when the run has one.
pub proof fn lemma_stop_index(s: Seq<u8>, x: u8, y: u8, z: u8)
    ensures
        0 <= stop_index(s, x, y, z) <= s.len(),
        stop_index(s, x, y, z) < s.len() ==> hits(s[stop_index(s, x, y, z)], x, y, z),
        forall|j: int| 0 <= j < stop_index(s, x, y, z) ==> !hits(#[trigger] s[j], x, y, z),
    decreases s.len(),
{
    if s.len() == 0 || hits(s[0], x, y, z) {
    } else {
        let t = s.skip(1);
        lemma_stop_index(t, x, y, z);
        assert forall|j: int| 0 <= j < stop_index(s, x, y, z) implies !hits(
            #[trigger] s[j],
            x,
            y,
            z,
        ) by {
            if j > 0 {
                assert(s[j] == t[j - 1]);
            }
        }
        assert(stop_index(t, x, y, z) < t.len() ==> s[stop_index(s, x, y, z)] == t[stop_index(
            t,
            x,
            y,
            z,
        )]);
    }
}

/// Any index that meets what `lemma_stop_index` states is `stop_index`.
pub proof fn lemma_stop_index_unique(s: Seq<u8>, i: int, x: u8, y: u8, z: u8)
    requires
        0 <= i <= s.len(),
        i < s.len() ==> hits(s[i], x, y, z),
        forall|j: int| 0 <= j < i ==> !hits(#[trigger] s[j], x, y, z),
    ensures
        stop_index(s, x, y, z) == i,
    decreases s.len(),
{
    if s.len() == 0 || hits(s[0], x, y, z) {
        if i > 0 {
            assert(!hits(s[0], x, y, z));
        }
    } else {
        let t = s.skip(1);
        assert forall|j: int| 0 <= j < i - 1 implies !hits(#[trigger] t[j], x, y, z) by {
            assert(t[j] == s[j + 1]);
        }
        if i - 1 < t.len() {
            assert(t[i - 1] == s[i]);
        }
        lemma_stop_index_unique(t, i - 1, x, y, z);
    }
}

/// A stop index found in the tail `s.skip(k)` is the stop index of `s` when
/// the first `k` bytes hold no stop byte.
pub proof fn lemma_stop_index_after(s: Seq<u8>, k: int, x: u8, y: u8, z: u8)
    requires
        0 <= k <= s.len(),
        forall|j: int| 0 <= j < k ==> !hits(#[trigger] s[j], x, y, z),
    ensures
        stop_index(s, x, y, z) == k + stop_index(s.skip(k), x, y, z),
{
    let t = s.skip(k);
    let n = stop_index(t, x, y, z);
    lemma_stop_index(t, x, y, z);
    assert forall|j: int| 0 <= j < k + n implies !hits(#[trigger] s[j], x, y, z) by {
        if j >= k {
            assert(s[j] == t[j - k]);
        }
    }
    if n < t.len() {
        assert(s[k + n] == t[n]);
    }
    lemma_stop_index_unique(s, k + n, x, y, z);
}

/// The stop index of a prefix that holds a stop byte is that of the whole.
pub proof fn lemma_stop_index_take(s: Seq<u8>, k: int, x: u8, y: u8, z: u8)
    requires
        0 <= k <= s.len(),
    ensures
        stop_index(s.take(k), x, y, z) < k ==> stop_index(s, x, y, z) == stop_index(
            s.take(k),
            x,
            y,
            z,
        ),
        stop_index(s.take(k), x, y, z) == k ==> stop_index(s, x, y, z) >= k,
{
    let t = s.take(k);
    let n = stop_index(t, x, y, z);
    lemma_stop_index(t, x, y, z);
    lemma_stop_index(s, x, y, z);
    assert forall|j: int| 0 <= j < n implies !hits(#[trigger] s[j], x, y, z) by {
        assert(s[j] == t[j]);
    }
    if n < k {
        assert(s[n] == t[n]);
        lemma_stop_index_unique(s, n, x, y, z);
    } else {
        let m = stop_index(s, x, y, z);
        if m < k {
            assert(t[m] == s[m]);
        }
    }
}

/// Number of bytes in one vector register as `swift_check` scans it: the
/// constant `swift_check::arch::WIDTH`, which is 16 on every target.
#[verifier::external_body]
pub(crate) fn vector_width() -> (w: usize)
    ensures
        w == 16,
{
    swift_check::arch::WIDTH
}

/// `swift_check::search` with the condition "equal to `x`, `y` or `z`": the
/// position of the first byte of `data` that meets it, `None` when no byte
/// does. Only called on runs of at least one vector register.
#[verifier::external_body]
pub(crate) fn search_any_of(data: &[u8], x: u8, y: u8, z: u8) -> (r: Option<usize>)
    requires
        data@.len() >= 16,
    ensures
        match r {
            Some(i) => i < data@.len() && i == stop_index(data@, x, y, z),
            None => stop_index(data@, x, y, z) == data@.len(),
        },
{
    let any = swift_check::or(swift_check::or(swift_check::eq(x), swift_check::eq(y)), swift_check::eq(z));
    swift_check::search(data, any)
}

/// `swift_check::for_all_ensure` with the condition "within one of four
/// inclusive ranges, or equal to `E`": whether every byte of `data` meets it.
/// The bounds stay below 128, where the crate compares bytes as written on
/// every target. Only called on runs of at least one vector register.
#[verifier::external_body]
pub(crate) fn all_in_ranges<
    const A0: u8,
    const A1: u8,
    const B0: u8,
    const B1: u8,
    const C0: u8,
    const C1: u8,
    const D0: u8,
    const D1: u8,
    const E: u8,
>(data: &[u8]) -> (r: bool)
    requires
        data@.len() >= 16,
        A0 <= A1 < 128,
        B0 <= B1 < 128,
        C0 <= C1 < 128,
        D0 <= D1 < 128,
    ensures
        r == (forall|j: int|
            0 <= j < data@.len() ==> in_ranges(
                #[trigger] data@[j],
                A0,
                A1,
                B0,
                B1,
                C0,
                C1,
                D0,
                D1,
                E,
            )),
{
    let first = swift_check::or(swift_check::arch::range::<A0, A1>(), swift_check::arch::range::<B0, B1>());
    let second = swift_check::or(swift_check::arch::range::<C0, C1>(), swift_check::arch::range::<D0, D1>());
    swift_check::for_all_ensure(data, swift_check::or(swift_check::or(first, second), swift_check::eq(E)))
}

/// Position of the first stop byte within `data[from..to]`, counted from the
/// start of `data`, found one byte at a time.
pub fn position_of(data: &[u8], from: usize, to: usize, x: u8, y: u8, z: u8) -> (r: Option<usize>)
    requires
        from <= to <= data@.len(),
    ensures
        match r {
            Some(i) => from <= i < to && i == from + stop_index(
                data@.subrange(from as int, to as int),
                x,
                y,
                z,
            ),
            None => stop_index(data@.subrange(from as int, to as int), x, y, z) == to - from,
        },
{
    let ghost run = data@.subrange(from as int, to as int);
    let mut i: usize = from;
    while i < to
        invariant
            from <= i <= to <= data@.len(),
            run == data@.subrange(from as int, to as int),
            forall|j: int| 0 <= j < i - from ==> !hits(#[trigger] run[j], x, y, z),
        decreases to - i,
    {
        let b = data[i];
        if b == x || b == y || b == z {
            proof {
                assert(run[i - from] == data@[i as int]);
                lemma_stop_index_unique(run, i - from, x, y, z);
            }
            return Some(i);
        }
        proof {
            assert(run[i - from] == data@[i as int]);
        }
        i = i + 1;
    }
    proof {
        lemma_stop_index_unique(run, to - from, x, y, z);
    }
    None
}

} // verus!
