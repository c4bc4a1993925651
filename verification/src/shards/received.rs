//! The record of messages already seen, kept in a cuckoo filter so that a
//! message relayed twice is dispatched once.
use std::collections::hash_map::DefaultHasher;

use cuckoofilter::{CuckooError, CuckooFilter};
use vstd::prelude::*;

use crate::shards::protocol::{MessageModel, ShardsMessage};

verus! {

#[verifier::external_type_specification]
#[verifier::external_body]
#[verifier::reject_recursive_types(H)]
pub struct ExCuckooFilter<H>(CuckooFilter<H>);

/// What the filter answered when a message was offered to it.
#[derive(Debug, Clone, Copy, PartialEq, Eq, Structural)]
pub enum FilterOutcome {
    /// The message was not seen before and is now recorded.
    Added,
    /// The filter reports the message as seen before (possibly a false
    /// positive).
    AlreadySeen,
    /// The message is now recorded, but some other record was dropped to
    /// make room.
    AddedDroppingAnother,
}

/// The messages a filter reports as seen: those for which
/// `CuckooFilter::contains` answers true. It may hold messages that were
/// never added (false positives).
pub uninterp spec fn filter_reports(filter: CuckooFilter<DefaultHasher>) -> Set<MessageModel>;

/// How many fingerprints the filter holds: what `CuckooFilter::len` answers.
/// Adding a message that finds room raises it by one; adding one that makes
/// the filter drop another record leaves it as it was.
pub uninterp spec fn filter_len(filter: CuckooFilter<DefaultHasher>) -> nat;

/// `CuckooFilter::<DefaultHasher>::new`: an empty filter of the default
/// capacity, which reports no message as seen (every bucket slot holds the
/// empty fingerprint, which no message hashes to).
#[verifier::external_body]
pub(crate) fn new_received_filter() -> (r: CuckooFilter<DefaultHasher>)
    ensures
        filter_reports(r) == Set::<MessageModel>::empty(),
        filter_len(r) == 0,
{
    CuckooFilter::new()
}

/// `CuckooFilter::test_and_add`: a message the filter reports as seen is
/// answered `Ok(false)` and the filter is left as it was. Otherwise it is
/// added: with `Ok(true)` every fingerprint stays (relocated ones stay in
/// their pair of buckets), so what was reported still is, and now the message
/// too, and the count of fingerprints goes up by one; with `NotEnoughSpace`
/// some fingerprint was dropped in exchange for the new one, so the count
/// stays, and nothing is stated of what the filter reports afterwards.
/// `NotEnoughSpace` needs both buckets of the message full; a bucket holds
/// four fingerprints and the count is the number of fingerprints held, so
/// while the filter holds fewer than four it never comes.
#[verifier::external_body]
pub(crate) fn filter_test_and_add(filter: &mut CuckooFilter<DefaultHasher>, message: &ShardsMessage) -> (r: FilterOutcome)
    ensures
        (r == FilterOutcome::AlreadySeen) == filter_reports(*old(filter)).contains(message@),
        r == FilterOutcome::AlreadySeen ==> *final(filter) == *old(filter),
        r == FilterOutcome::Added ==> filter_reports(*old(filter)).subset_of(filter_reports(*final(filter)))
            && filter_reports(*final(filter)).contains(message@)
            && filter_len(*final(filter)) == filter_len(*old(filter)) + 1,
        r == FilterOutcome::AddedDroppingAnother ==> filter_len(*final(filter)) == filter_len(*old(filter)),
        filter_len(*old(filter)) < 4 ==> r != FilterOutcome::AddedDroppingAnother,
{
    match filter.test_and_add(message) {
        Ok(true) => FilterOutcome::Added,
        Ok(false) => FilterOutcome::AlreadySeen,
        Err(CuckooError::NotEnoughSpace) => FilterOutcome::AddedDroppingAnother,
    }
}

/// `CuckooFilter::add`: adds the message. With `Ok(())` every fingerprint
/// stays, so what was reported still is, and now the message too, and the
/// count of fingerprints goes up by one; with `NotEnoughSpace` some
/// fingerprint was dropped in exchange, so the count stays, and nothing is
/// stated of what the filter reports afterwards. It never answers that the message was
/// seen already. As for `test_and_add`, while the filter holds fewer than
/// four fingerprints the message always finds room.
#[verifier::external_body]
pub(crate) fn filter_add(filter: &mut CuckooFilter<DefaultHasher>, message: &ShardsMessage) -> (r: FilterOutcome)
    ensures
        r != FilterOutcome::AlreadySeen,
        r == FilterOutcome::Added ==> filter_reports(*old(filter)).subset_of(filter_reports(*final(filter)))
            && filter_reports(*final(filter)).contains(message@)
            && filter_len(*final(filter)) == filter_len(*old(filter)) + 1,
        r == FilterOutcome::AddedDroppingAnother ==> filter_len(*final(filter)) == filter_len(*old(filter)),
        filter_len(*old(filter)) < 4 ==> r == FilterOutcome::Added,
{
    match filter.add(message) {
        Ok(()) => FilterOutcome::Added,
        Err(CuckooError::NotEnoughSpace) => FilterOutcome::AddedDroppingAnother,
    }
}

} // verus!
