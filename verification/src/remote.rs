//! Remote sources: a URL list with cached extracted text and an inclusion
//! flag. Fetching happens elsewhere; results come back as updates that
//! are merged here, one at a time, on the owner's poll cycle.

use vstd::prelude::*;

verus! {

/// A fetch result delivered asynchronously.
pub enum RemoteUpdate {
    Fetched { index: usize, content: String },
}

/// One remote source.
#[derive(Clone)]
pub struct RemoteUrl {
    pub url: String,
    /// Extracted text; absent until a fetch succeeds.
    pub content: Option<String>,
    /// Whether the source is included in the assembled document's
    /// estimate.
    pub included: bool,
}

/// The remote-source state.
pub struct Remote {
    pub remote_urls: Vec<RemoteUrl>,
    pub new_url: String,
}

impl Default for Remote {
    /// No sources, an empty entry field.
    fn default() -> (r: Remote)
        ensures
            r.remote_urls@.len() == 0,
            r.new_url@ == Seq::<char>::empty(),
    {
        Remote { remote_urls: Vec::new(), new_url: String::new() }
    }
}

/// Submits the pending URL: a new source is appended with no content and
/// not included, the entry field is cleared, and its index is returned
/// so a fetch can be started. An empty entry field is refused.
pub fn add_url(remote: &mut Remote) -> (r: Option<usize>)
    ensures
        old(remote).new_url@.len() == 0 ==> r is None && *final(remote) == *old(remote),
        old(remote).new_url@.len() > 0 ==> {
            &&& r == Some(old(remote).remote_urls@.len() as usize)
            &&& final(remote).remote_urls@.len() == old(remote).remote_urls@.len() + 1
            &&& (forall|i: int|
                0 <= i < old(remote).remote_urls@.len() ==> final(remote).remote_urls@[i] == old(
                    remote,
                ).remote_urls@[i])
            &&& final(remote).remote_urls@.last().url@ == old(remote).new_url@
            &&& final(remote).remote_urls@.last().content is None
            &&& !final(remote).remote_urls@.last().included
            &&& final(remote).new_url@ == Seq::<char>::empty()
        },
{
    if remote.new_url.as_str().is_empty() {
        return None;
    }
    let index = remote.remote_urls.len();
    let url = remote.new_url.clone();
    remote.remote_urls.push(RemoteUrl { url, content: None, included: false });
    remote.new_url = String::new();
    Some(index)
}

/// Merges one fetch result: the source's content is filled in; a result
/// for a source that was removed meanwhile is dropped.
pub fn apply_update(remote: &mut Remote, update: RemoteUpdate)
    ensures
        final(remote).new_url == old(remote).new_url,
        final(remote).remote_urls@.len() == old(remote).remote_urls@.len(),
        match update {
            RemoteUpdate::Fetched { index, content } => forall|i: int|
                0 <= i < final(remote).remote_urls@.len() ==> if i == index as int {
                    (#[trigger] final(remote).remote_urls@[i]).url == old(
                        remote,
                    ).remote_urls@[i].url && final(remote).remote_urls@[i].content == Some(content)
                        && final(remote).remote_urls@[i].included == old(
                        remote,
                    ).remote_urls@[i].included
                } else {
                    final(remote).remote_urls@[i] == old(remote).remote_urls@[i]
                },
        },
{
    let RemoteUpdate::Fetched { index, content } = update;
    if index < remote.remote_urls.len() {
        let ghost pre = remote.remote_urls@;
        let e = &mut remote.remote_urls[index];
        e.content = Some(content);
        proof {
            assert(remote.remote_urls@ =~= pre.update(index as int, remote.remote_urls@[
                index as int]));
        }
    }
}

/// Removes a source; an out-of-range index is refused.
pub fn remove_url(remote: &mut Remote, index: usize) -> (r: bool)
    ensures
        r == (index < old(remote).remote_urls@.len()),
        r ==> final(remote).remote_urls@ == old(remote).remote_urls@.remove(index as int),
        !r ==> *final(remote) == *old(remote),
        final(remote).new_url == old(remote).new_url,
{
    if index < remote.remote_urls.len() {
        remote.remote_urls.remove(index);
        true
    } else {
        false
    }
}

} // verus!
