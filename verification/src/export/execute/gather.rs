//! What an export's parts come to: its streams' headers, and its outcome.
use crate::export::execute::route::Announcement;
use crate::export::execute::{ErrorModel, ExportError};
use crate::export::nut::{tags, StreamHeader, Tag};
use crate::orchestrator::JobError;
use vstd::prelude::*;

verus! {

/// The metadata of the first announcement at `i` or behind that has any.
pub open spec fn first_metadata(list: Seq<Announcement>, i: int) -> Seq<Tag>
    decreases list.len() - i,
{
    if i >= list.len() {
        Seq::empty()
    } else if list[i].metadata@.len() > 0 {
        tags(list[i].metadata@)
    } else {
        first_metadata(list, i + 1)
    }
}

/// Every route's stream header, in route order, and the file metadata of the
/// first that has any.
pub fn collect_headers(list: Vec<Announcement>) -> (both: (Vec<StreamHeader>, Vec<(String, String)>))
    ensures
        both.0@.len() == list@.len(),
        forall|i: int| 0 <= i < list@.len() ==> #[trigger] both.0@[i] == list@[i].stream,
        tags(both.1@) == first_metadata(list@, 0),
{
    let ghost all = list@;
    let mut rest = list;
    let mut streams: Vec<StreamHeader> = Vec::new();
    let mut metadata: Vec<(String, String)> = Vec::new();
    proof {
        assert(tags(metadata@) =~= Seq::empty());
        assert(all.skip(0) =~= all);
    }
    while rest.len() > 0
        invariant
            streams@.len() + rest@.len() == all.len(),
            rest@ == all.skip(streams@.len() as int),
            forall|i: int| 0 <= i < streams@.len() ==> #[trigger] streams@[i] == all[i].stream,
            if metadata@.len() > 0 {
                tags(metadata@) == first_metadata(all, 0)
            } else {
                first_metadata(all, 0) == first_metadata(all, streams@.len() as int) && tags(
                    metadata@,
                ) == Seq::<Tag>::empty()
            },
        decreases rest@.len(),
    {
        let ghost n = streams@.len() as int;
        let announcement = rest.remove(0);
        proof {
            assert(announcement == all[n]);
            assert(rest@ =~= all.skip(n + 1));
        }
        if metadata.len() == 0 {
            metadata = announcement.metadata;
            proof {
                if metadata@.len() == 0 {
                    assert(tags(metadata@) =~= Seq::empty());
                }
            }
        }
        streams.push(announcement.stream);
    }
    (streams, metadata)
}

/// The first route at `i` or behind that failed.
pub open spec fn first_failed(routed: Seq<Result<u64, ExportError>>, i: int) -> int
    decreases routed.len() - i,
{
    if i >= routed.len() || routed[i] is Err {
        i
    } else {
        first_failed(routed, i + 1)
    }
}

/// Settle an export once every process has finished: a cancel comes first,
/// then the first route that failed, then what writing met, then the muxer.
/// Only without any of these is the output complete, with the packets written
/// per stream.
pub fn conclude(
    cancelled: bool,
    routed: Vec<Result<u64, ExportError>>,
    written: Result<Vec<u64>, ExportError>,
    muxed: Result<(), JobError>,
) -> (result: Result<Vec<u64>, ExportError>)
    ensures
        ({
            let failed = first_failed(routed@, 0);
            if cancelled {
                result == Err::<Vec<u64>, ExportError>(ExportError::Cancelled)
            } else if failed < routed@.len() {
                result == Err::<Vec<u64>, ExportError>(routed@[failed]->Err_0)
            } else {
                match (written, muxed) {
                    (Err(error), _) => result == Err::<Vec<u64>, ExportError>(error),
                    (Ok(_), Err(JobError::Cancelled)) => result == Err::<Vec<u64>, ExportError>(
                        ExportError::Cancelled,
                    ),
                    (Ok(_), Err(error)) => result == Err::<Vec<u64>, ExportError>(
                        ExportError::Engine(error),
                    ),
                    (Ok(packets), Ok(_)) => result == Ok::<Vec<u64>, ExportError>(packets),
                }
            }
        }),
{
    if cancelled {
        return Err(ExportError::Cancelled);
    }
    let mut list = routed;
    let ghost all = list@;
    let mut i: usize = 0;
    while i < list.len()
        invariant
            i <= list@.len(),
            list@ == all,
            all == routed@,
            !cancelled,
            first_failed(all, 0) == first_failed(all, i as int),
        decreases list@.len() - i,
    {
        if list[i].is_err() {
            if let Err(error) = list.swap_remove(i) {
                return Err(error);
            }
            return Err(ExportError::Cancelled);
        }
        i += 1;
    }
    let packets = match written {
        Ok(packets) => packets,
        Err(error) => {
            return Err(error);
        },
    };
    match muxed {
        Ok(()) => Ok(packets),
        Err(JobError::Cancelled) => Err(ExportError::Cancelled),
        Err(error) => Err(ExportError::Engine(error)),
    }
}

/// The first error among the routes that failed before their headers, or that
/// a stream produced none.
pub fn first_error(routed: Vec<Result<u64, ExportError>>) -> (error: ExportError)
    ensures
        ({
            let failed = first_failed(routed@, 0);
            if failed < routed@.len() {
                error == routed@[failed]->Err_0
            } else {
                error@ == ErrorModel::Mismatch("a stream produced no header"@)
            }
        }),
{
    let mut list = routed;
    let ghost all = list@;
    let mut i: usize = 0;
    while i < list.len()
        invariant
            i <= list@.len(),
            list@ == all,
            all == routed@,
            first_failed(all, 0) == first_failed(all, i as int),
        decreases list@.len() - i,
    {
        if list[i].is_err() {
            if let Err(error) = list.swap_remove(i) {
                return error;
            }
            return ExportError::Cancelled;
        }
        i += 1;
    }
    ExportError::Mismatch("a stream produced no header".to_owned())
}

} // verus!
