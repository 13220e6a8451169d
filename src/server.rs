//! The stream registry's own logic: which streams the directory tree holds, and the
//! values the registry hands out.
use vstd::prelude::*;
use vstd::string::StringSliceAdditionalSpecFns;
use vstd::utf8::encode_utf8_decode_utf8;
use crate::db::bytes_equal;
use crate::layout::{stream_id_from_dir_name, stream_of_dir};

verus! {

/// The ways a registry lookup fails.
#[derive(Clone, Copy, Debug, PartialEq, Eq, Structural)]
pub enum Error {
    /// No stream of that user has that id.
    StreamNotFound,
}

/// An authenticated user.
#[derive(Clone, Debug)]
pub struct User {
    pub id: String,
}

/// A summary of one stream.
#[derive(Clone, Debug)]
pub struct Stream {
    pub id: String,
    /// How many events it holds.
    pub revision: u64,
    /// When its record file last changed, in seconds since the Unix epoch.
    pub last_modified: u64,
    /// The size of its record file in bytes.
    pub usage: u64,
}

/// The health of the service.
#[derive(Clone, Copy, Debug, PartialEq, Eq, Structural)]
pub enum HealthStatus {
    Pass,
}

/// The health report of the service.
#[derive(Clone, Copy, Debug, PartialEq, Eq, Structural)]
pub struct ApiHealth {
    pub status: HealthStatus,
}

/// The health report: the service answers, so it passes.
pub fn check_health() -> (r: ApiHealth)
    ensures
        r.status == HealthStatus::Pass,
{
    ApiHealth { status: HealthStatus::Pass }
}

/// The registry key of a user's stream.
pub fn user_stream_id(user_id: &String, stream_id: &String) -> (r: (String, String))
    ensures
        r.0@ == user_id@,
        r.1@ == stream_id@,
{
    (user_id.clone(), stream_id.clone())
}

/// The name of a directory at the user level that is never a user.
pub open spec fn reserved_dir() -> Seq<char> {
    "lost+found"@
}

/// Whether a directory at the user level is the reserved `lost+found`.
pub fn is_reserved_dir(name: &str) -> (r: bool)
    ensures
        r == (name@ == reserved_dir()),
{
    let reserved = "lost+found";
    let r = bytes_equal(name.as_bytes(), reserved.as_bytes());
    proof {
        encode_utf8_decode_utf8(name@);
        encode_utf8_decode_utf8(reserved@);
    }
    r
}

/// The texts of a run of strings.
pub open spec fn views(s: Seq<String>) -> Seq<Seq<char>> {
    s.map_values(|x: String| x@)
}

/// The streams that a run of directory names stand for, in order; names that stand
/// for none are passed over.
pub open spec fn stream_ids_of(names: Seq<Seq<char>>) -> Seq<Seq<char>>
    decreases names.len(),
{
    if names.len() == 0 {
        Seq::empty()
    } else {
        let init = stream_ids_of(names.drop_last());
        match stream_of_dir(names.last()) {
            Some(id) => init.push(id),
            None => init,
        }
    }
}

/// The streams that the directories of one user stand for, in order; a name that is
/// not the base32 of a UTF-8 string is passed over.
pub fn stream_ids(names: &Vec<String>) -> (r: Vec<String>)
    ensures
        views(r@) == stream_ids_of(views(names@)),
{
    let mut out: Vec<String> = Vec::new();
    let mut i: usize = 0;
    while i < names.len()
        invariant
            i <= names@.len(),
            views(out@) == stream_ids_of(views(names@.take(i as int))),
        decreases names@.len() - i,
    {
        let ghost before = out@;
        assert(views(names@.take(i + 1)).drop_last() =~= views(names@.take(i as int)));
        match stream_id_from_dir_name(names[i].as_str()) {
            Some(id) => {
                out.push(id);
                assert(views(out@) =~= views(before).push(out@.last()@));
            },
            None => {},
        }
        i += 1;
    }
    assert(names@.take(i as int) =~= names@);
    out
}

/// One user directory of the tree: the user's name and the names of the directories in it.
pub open spec fn entry_view(e: (String, Vec<String>)) -> (Seq<char>, Seq<Seq<char>>) {
    (e.0@, views(e.1@))
}

/// The streams that a directory tree holds, as (user, stream) pairs in the order of the
/// listing; the reserved directory is no user.
pub open spec fn discovered(listing: Seq<(Seq<char>, Seq<Seq<char>>)>) -> Seq<(Seq<char>, Seq<char>)>
    decreases listing.len(),
{
    if listing.len() == 0 {
        Seq::empty()
    } else {
        let init = discovered(listing.drop_last());
        let (user, names) = listing.last();
        if user == reserved_dir() {
            init
        } else {
            init + stream_ids_of(names).map_values(|id: Seq<char>| (user, id))
        }
    }
}

/// The texts of a run of (user, stream) pairs.
pub open spec fn pair_views(s: Seq<(String, String)>) -> Seq<(Seq<char>, Seq<char>)> {
    s.map_values(|p: (String, String)| (p.0@, p.1@))
}

/// The streams found at startup in a directory tree, given for each user directory the
/// names of the stream directories in it: `lost+found` and malformed names are passed
/// over.
pub fn discover_streams(listing: &Vec<(String, Vec<String>)>) -> (r: Vec<(String, String)>)
    ensures
        pair_views(r@) == discovered(listing@.map_values(|e: (String, Vec<String>)| entry_view(e))),
{
    let ghost lv = listing@.map_values(|e: (String, Vec<String>)| entry_view(e));
    let mut out: Vec<(String, String)> = Vec::new();
    let mut i: usize = 0;
    while i < listing.len()
        invariant
            i <= listing@.len(),
            lv == listing@.map_values(|e: (String, Vec<String>)| entry_view(e)),
            pair_views(out@) == discovered(lv.take(i as int)),
        decreases listing@.len() - i,
    {
        assert(lv.take(i + 1).drop_last() =~= lv.take(i as int));
        assert(lv.take(i + 1).last() == entry_view(listing@[i as int]));
        let user = &listing[i].0;
        if !is_reserved_dir(user.as_str()) {
            let ids = stream_ids(&listing[i].1);
            let ghost before = out@;
            let ghost added = stream_ids_of(views(listing@[i as int].1@)).map_values(
                |id: Seq<char>| (user@, id),
            );
            let mut k: usize = 0;
            while k < ids.len()
                invariant
                    k <= ids@.len(),
                    views(ids@) == stream_ids_of(views(listing@[i as int].1@)),
                    added == views(ids@).map_values(|id: Seq<char>| (user@, id)),
                    pair_views(out@) == pair_views(before) + added.take(k as int),
                decreases ids@.len() - k,
            {
                let ghost prev = out@;
                out.push((user.clone(), ids[k].clone()));
                assert(views(ids@)[k as int] == ids@[k as int]@);
                assert(added[k as int] == (user@, ids@[k as int]@));
                assert(pair_views(out@) =~= pair_views(prev).push((user@, ids@[k as int]@)));
                assert(added.take(k + 1) =~= added.take(k as int).push(added[k as int]));
                assert(pair_views(out@) =~= pair_views(before) + added.take(k + 1));
                k += 1;
            }
            assert(added.take(k as int) =~= added);
        }
        i += 1;
    }
    assert(lv.take(i as int) =~= lv);
    out
}

} // verus!
