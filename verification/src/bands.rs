//! Selections of bands, counted from one.
use vstd::prelude::*;

verus! {

/// The selected bands as a sequence.
pub open spec fn band_seq(bands: Option<&[usize]>) -> Option<Seq<usize>> {
    match bands {
        Some(selected) => Some(selected@),
        None => None,
    }
}

/// Whether every band of a selection exists among `available` bands.
pub open spec fn bands_exist(bands: Seq<usize>, available: nat) -> bool {
    forall|i: int| 0 <= i < bands.len() ==> (#[trigger] bands[i]) <= available
}

/// Whether every band of a selection is counted from one.
pub open spec fn bands_positive(bands: Seq<usize>) -> bool {
    forall|i: int| 0 <= i < bands.len() ==> (#[trigger] bands[i]) >= 1
}

/// Whether `band` is the first of a selection that does not exist.
pub open spec fn first_missing(bands: Seq<usize>, available: nat, band: usize) -> bool {
    exists|i: int|
        0 <= i < bands.len() && band == #[trigger] bands[i] && band > available && bands_exist(
            bands.take(i),
            available,
        )
}

/// Whether a selection takes all bands in their order.
pub open spec fn identity_bands(bands: Seq<usize>, band_count: nat) -> bool {
    &&& bands.len() == band_count
    &&& forall|i: int| 0 <= i < bands.len() ==> #[trigger] bands[i] == i + 1
}

/// Whether a selection takes all bands in their order.
pub fn is_identity_bands(bands: &[usize], band_count: usize) -> (identity: bool)
    ensures
        identity == identity_bands(bands@, band_count as nat),
{
    if bands.len() != band_count {
        return false;
    }
    let mut i: usize = 0;
    while i < bands.len()
        invariant
            i <= bands@.len(),
            bands@.len() == band_count,
            forall|j: int| 0 <= j < i ==> #[trigger] bands@[j] == j + 1,
        decreases bands@.len() - i,
    {
        if bands[i] != i + 1 {
            return false;
        }
        i = i + 1;
    }
    true
}

/// One band more is known to exist.
pub proof fn lemma_bands_exist_extend(bands: Seq<usize>, available: nat, next: int)
    requires
        0 <= next < bands.len(),
        bands_exist(bands.take(next), available),
        bands[next] <= available,
    ensures
        bands_exist(bands.take(next + 1), available),
{
    assert forall|j: int| 0 <= j < next + 1 implies (#[trigger] bands.take(next + 1)[j])
        <= available by {
        if j < next {
            assert(bands.take(next)[j] == bands[j]);
        }
    }
}

/// The band that is reported is the first one of a selection that does not exist, and one is
/// reported wherever there is such a band.
pub proof fn law_first_missing_band_is_reported(bands: Seq<usize>, available: nat, i: int)
    requires
        0 <= i < bands.len(),
        bands[i] > available,
        forall|j: int| 0 <= j < i ==> #[trigger] bands[j] <= available,
    ensures
        first_missing(bands, available, bands[i]),
        forall|band: usize| #[trigger] first_missing(bands, available, band) ==> band == bands[i],
        !bands_exist(bands, available),
{
    assert(bands_exist(bands.take(i), available));
    assert forall|band: usize| #[trigger] first_missing(bands, available, band) implies band
        == bands[i] by {
        let k = choose|k: int|
            0 <= k < bands.len() && band == #[trigger] bands[k] && band > available && bands_exist(
                bands.take(k),
                available,
            );
        if i < k {
            assert(bands.take(k)[i] == bands[i]);
        }
    }
}

/// Bands count from one: all bands in their order are the selection that changes nothing.
pub proof fn law_all_bands_in_order_change_nothing(bands: Seq<usize>, band_count: nat, i: int)
    requires
        identity_bands(bands, band_count),
        0 <= i < band_count,
    ensures
        bands[i] == i + 1,
        bands_positive(bands),
        bands_exist(bands, band_count),
        !bands_exist(bands, (band_count - 1) as nat),
{
    assert(bands[band_count - 1] == band_count);
}

} // verus!
