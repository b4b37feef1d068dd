//! Getting audio to a device.

pub mod encoding;
pub mod hal;
pub mod queue;
pub mod setup;
pub mod stream;
pub mod usb;

use crate::text;
use vstd::prelude::*;

verus! {

/// What an output device calls itself.
#[derive(Debug, PartialEq, Eq)]
pub struct DeviceName {
    pub name: String,
    pub uid: String,
}

/// A query names a device by a fragment of its name, in letters of either case, or by its
/// whole UID.
pub open spec fn names(query: Seq<char>, name: Seq<char>, uid: Seq<char>) -> bool {
    text::holds(text::lowercase(name), text::lowercase(query)) || uid == query
}

/// Why no device was found: the query, and the names there are.
#[derive(Debug, PartialEq, Eq)]
pub struct NoDevice {
    pub query: String,
    pub available: Vec<String>,
}

/// The names of devices, in order.
pub open spec fn device_names(devices: Seq<DeviceName>) -> Seq<Seq<char>> {
    devices.map_values(|device: DeviceName| device.name@)
}

impl NoDevice {
    /// What went wrong, in a line.
    pub fn message(&self) -> (line: String)
        ensures
            line@ == "no output device matches "@ + text::quoted(self.query@) + "; available: "@
                + text::listing(text::views(self.available@)),
    {
        let mut line: String = text::owned("no output device matches ");
        line.append(text::in_quotes(self.query.as_str()).as_str());
        line.append("; available: ");
        line.append(text::listed(&self.available).as_str());
        line
    }
}

/// The first device that a query names, by a fragment of its name or by its UID.
pub fn find_device(query: &str, devices: &Vec<DeviceName>) -> (out: Result<usize, NoDevice>)
    ensures
        match out {
            Ok(index) => {
                &&& index < devices@.len()
                &&& names(query@, devices@[index as int].name@, devices@[index as int].uid@)
                &&& forall|k: int|
                    0 <= k < index ==> !names(
                        query@,
                        (#[trigger] devices@[k]).name@,
                        devices@[k].uid@,
                    )
            },
            Err(error) => {
                &&& forall|k: int|
                    0 <= k < devices@.len() ==> !names(
                        query@,
                        (#[trigger] devices@[k]).name@,
                        devices@[k].uid@,
                    )
                &&& error.query@ == query@
                &&& text::views(error.available@) == device_names(devices@)
            },
        },
{
    let needle: String = text::to_lowercase(query);
    let wanted: String = text::owned(query);
    let mut available: Vec<String> = Vec::new();
    let mut i: usize = 0;
    while i < devices.len()
        invariant
            i <= devices@.len(),
            needle@ == text::lowercase(query@),
            wanted@ == query@,
            available@.len() == i,
            forall|k: int| 0 <= k < i ==> (#[trigger] available@[k])@ == devices@[k].name@,
            forall|k: int|
                0 <= k < i ==> !names(query@, (#[trigger] devices@[k]).name@, devices@[k].uid@),
        decreases devices@.len() - i,
    {
        let lower: String = text::to_lowercase(devices[i].name.as_str());
        if text::contains(lower.as_str(), needle.as_str()) || devices[i].uid == wanted {
            return Ok(i);
        }
        available.push(text::owned(devices[i].name.as_str()));
        i += 1;
    }
    assert(text::views(available@) =~= device_names(devices@));
    Err(NoDevice { query: wanted, available })
}

/// A device is named by its whole UID and by no part of it, or by a part of its name in letters of
/// either case.
pub proof fn a_part_of_a_name_names_a_device_and_a_part_of_a_uid_does_not(
    query: Seq<char>,
    name: Seq<char>,
    uid: Seq<char>,
    before: Seq<char>,
    after: Seq<char>,
)
    ensures
        names(uid, name, uid),
        text::lowercase(name) == before + text::lowercase(query) + after ==> names(
            query,
            name,
            uid,
        ),
        uid != query && !text::holds(text::lowercase(name), text::lowercase(query)) ==> !names(
            query,
            name,
            uid,
        ),
{
    let part = text::lowercase(query);
    let whole = before + part + after;
    assert(text::stands_at(whole, part, before.len() as int)) by {
        assert(whole.subrange(before.len() as int, before.len() as int + part.len()) =~= part);
    }
}

} // verus!
