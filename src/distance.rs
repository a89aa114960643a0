use vstd::prelude::*;

verus! {

/// The bit pattern of a positive zero component.
pub const POSITIVE_ZERO_BITS: u32 = 0;

/// The bit pattern of a negative zero component.
pub const NEGATIVE_ZERO_BITS: u32 = 0x8000_0000;

/// Supported distance metrics for edges and queries.
#[derive(Clone, Copy, Debug, PartialEq, Eq, Structural)]
pub enum DistanceMetric {
    Cosine,
    Euclidean,
}

/// Why two vectors could not be compared.
#[derive(Clone, Copy, Debug, PartialEq, Eq, Structural)]
pub enum DistanceError {
    DimensionMismatch { len1: usize, len2: usize },
    ZeroMagnitude,
}

/// A component is zero when its bit pattern is that of `+0.0` or `-0.0`.
pub open spec fn is_zero_component(c: u32) -> bool {
    c == POSITIVE_ZERO_BITS || c == NEGATIVE_ZERO_BITS
}

/// A vector whose Euclidean norm is exactly zero: every component is zero.
pub open spec fn is_zero_vector(v: Seq<u32>) -> bool {
    forall|i: int| 0 <= i < v.len() ==> #[trigger] is_zero_component(v[i])
}

/// The outcome that comparing `a` with `b` under `metric` must have, before
/// any arithmetic: a length mismatch first, then a zero vector under cosine.
pub open spec fn pair_outcome(metric: DistanceMetric, a: Seq<u32>, b: Seq<u32>) -> Result<
    (),
    DistanceError,
> {
    if a.len() != b.len() {
        Err(DistanceError::DimensionMismatch { len1: a.len() as usize, len2: b.len() as usize })
    } else if metric == DistanceMetric::Cosine && (is_zero_vector(a) || is_zero_vector(b)) {
        Err(DistanceError::ZeroMagnitude)
    } else {
        Ok(())
    }
}

/// The sign bit of a single-precision value.
pub const SIGN_BIT: u32 = 0x8000_0000;

/// The order key of the single-precision value with bit pattern `bits`:
/// negative values have every bit flipped, others get the sign bit set, so
/// that keys compare as the (non-NaN) values do.
pub open spec fn key_of(bits: u32) -> u32 {
    if bits & SIGN_BIT != 0 {
        !bits
    } else {
        bits | SIGN_BIT
    }
}

/// The bit pattern whose order key is `key`.
pub open spec fn bits_of(key: u32) -> u32 {
    if key & SIGN_BIT != 0 {
        key & !SIGN_BIT
    } else {
        !key
    }
}

/// The order key of the single-precision value with bit pattern `bits`.
pub fn order_key(bits: u32) -> (r: u32)
    ensures
        r == key_of(bits),
{
    if bits & SIGN_BIT != 0 {
        !bits
    } else {
        bits | SIGN_BIT
    }
}

/// The bit pattern of the single-precision value whose order key is `key`.
pub fn key_bits(key: u32) -> (r: u32)
    ensures
        r == bits_of(key),
        key_of(r) == key,
{
    proof {
        lemma_key_inverse(key);
    }
    if key & SIGN_BIT != 0 {
        key & !SIGN_BIT
    } else {
        !key
    }
}

/// Turning bits into a key and back gives the bits again.
pub proof fn lemma_key_round_trip(bits: u32)
    ensures
        bits_of(key_of(bits)) == bits,
{
    assert(bits & 0x8000_0000u32 != 0 ==> (!bits) & 0x8000_0000u32 == 0 && !(!bits) == bits) by (bit_vector);
    assert(bits & 0x8000_0000u32 == 0 ==> (bits | 0x8000_0000u32) & 0x8000_0000u32 != 0 && (bits
        | 0x8000_0000u32) & !0x8000_0000u32 == bits) by (bit_vector);
}

/// Turning a key into bits and back gives the key again.
pub proof fn lemma_key_inverse(key: u32)
    ensures
        key_of(bits_of(key)) == key,
{
    assert(key & 0x8000_0000u32 != 0 ==> (key & !0x8000_0000u32) & 0x8000_0000u32 == 0 && ((key
        & !0x8000_0000u32) | 0x8000_0000u32) == key) by (bit_vector);
    assert(key & 0x8000_0000u32 == 0 ==> (!key) & 0x8000_0000u32 != 0 && !(!key) == key) by (bit_vector);
}

/// The arithmetic of a metric on single-precision vectors.
///
/// `distance` returns the order key ([`order_key`]) of the distance, computed
/// in double precision and narrowed to single precision: a smaller key is a
/// smaller distance. Under cosine the distance is one minus the cosine
/// similarity. It is only asked for pairs that [`check_pair`] accepts.
pub trait VectorSpace {
    fn distance(&self, metric: DistanceMetric, a: &Vec<u32>, b: &Vec<u32>) -> (r: u32)
        requires
            pair_outcome(metric, a@, b@) is Ok,
    ;
}

/// Decides whether `v` is the zero vector.
pub fn is_zero(v: &Vec<u32>) -> (r: bool)
    ensures
        r == is_zero_vector(v@),
{
    let mut i: usize = 0;
    while i < v.len()
        invariant
            i <= v.len(),
            forall|j: int| 0 <= j < i ==> #[trigger] is_zero_component(v@[j]),
        decreases v.len() - i,
    {
        if v[i] != POSITIVE_ZERO_BITS && v[i] != NEGATIVE_ZERO_BITS {
            assert(!is_zero_component(v@[i as int]));
            return false;
        }
        i += 1;
    }
    true
}

/// Checks that `a` and `b` can be compared under `metric`: the lengths must
/// agree, and under cosine neither vector may have zero magnitude.
pub fn check_pair(metric: DistanceMetric, a: &Vec<u32>, b: &Vec<u32>) -> (r: Result<
    (),
    DistanceError,
>)
    ensures
        r == pair_outcome(metric, a@, b@),
{
    if a.len() != b.len() {
        return Err(DistanceError::DimensionMismatch { len1: a.len(), len2: b.len() });
    }
    match metric {
        DistanceMetric::Cosine => {
            if is_zero(a) || is_zero(b) {
                Err(DistanceError::ZeroMagnitude)
            } else {
                Ok(())
            }
        },
        DistanceMetric::Euclidean => Ok(()),
    }
}

/// Compares `a` with `b`: the distance key from `space` when the pair can be
/// compared, and otherwise the error that [`check_pair`] gives.
pub fn distance_between<S: VectorSpace>(
    space: &S,
    metric: DistanceMetric,
    a: &Vec<u32>,
    b: &Vec<u32>,
) -> (r: Result<u32, DistanceError>)
    ensures
        match pair_outcome(metric, a@, b@) {
            Ok(_) => r is Ok,
            Err(e) => r == Err::<u32, DistanceError>(e),
        },
{
    match check_pair(metric, a, b) {
        Ok(_) => Ok(space.distance(metric, a, b)),
        Err(e) => Err(e),
    }
}

} // verus!
