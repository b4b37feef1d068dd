//! The file pane: what a folder, a disc image or a file a cue sheet splits lists as, and the
//! cursor over it.

use crate::path;
use crate::reader::cue;
use crate::reader::cue::{CueTrack, Sheet};
use crate::reader::open;
use crate::reader::open::{Named, TrackRef};
use crate::reader::sacd;
use crate::reader::sacd::toc;
use crate::reader::sacd::toc::TocError;
use crate::reader::sacd::Disc;
use crate::reader::tags::{Tags, TrackTags};
use crate::text;
use vstd::prelude::*;

verus! {

/// What one row of the file pane stands for.
#[derive(Debug, PartialEq, Eq)]
pub enum Kind {
    Folder,
    /// A disc image, or a file a cue sheet splits. It opens like a folder, because it holds
    /// a list of tracks rather than one recording.
    Disc,
    Track(TrackRef),
}

/// The same with its track as characters.
#[verifier::ext_equal]
pub enum Meaning {
    Folder,
    Disc,
    Track(Named),
}

impl View for Kind {
    type V = Meaning;

    open spec fn view(&self) -> Meaning {
        match self {
            Kind::Folder => Meaning::Folder,
            Kind::Disc => Meaning::Disc,
            Kind::Track(track) => Meaning::Track(track@),
        }
    }
}

impl Kind {
    /// True for a row the pane descends into rather than plays.
    pub fn opens(&self) -> (yes: bool)
        ensures
            yes == (self@ !is Track),
    {
        match self {
            Kind::Folder | Kind::Disc => true,
            Kind::Track(_) => false,
        }
    }

    pub fn track(&self) -> (track: Option<&TrackRef>)
        ensures
            match self@ {
                Meaning::Track(named) => track matches Some(found) && found@ == named,
                _ => track is None,
            },
    {
        match self {
            Kind::Track(track) => Some(track),
            Kind::Folder | Kind::Disc => None,
        }
    }
}

/// One row of the file pane.
#[derive(Debug, PartialEq, Eq)]
pub struct Entry {
    pub name: String,
    /// What the recording's tags call it, when it carries any.
    pub title: Option<String>,
    pub path: String,
    pub kind: Kind,
}

/// The same as characters.
#[verifier::ext_equal]
pub struct Row {
    pub name: Seq<char>,
    pub title: Option<Seq<char>>,
    pub path: Seq<char>,
    pub kind: Meaning,
}

impl View for Entry {
    type V = Row;

    open spec fn view(&self) -> Row {
        Row {
            name: self.name@,
            title: text::option_view(self.title),
            path: self.path@,
            kind: self.kind@,
        }
    }
}

/// Rows as characters.
pub open spec fn rows_of(entries: Seq<Entry>) -> Seq<Row> {
    entries.map_values(|entry: Entry| entry@)
}

/// One thing found in a folder.
#[derive(Debug, PartialEq, Eq)]
pub struct Found {
    pub name: String,
    pub path: String,
    pub is_dir: bool,
    /// What the recording says it is, where it is one and opens.
    pub tags: Option<TrackTags>,
}

/// A recording of a kind this player opens, by its name.
pub open spec fn is_playable(path: Seq<char>) -> bool {
    match path::extension(path) {
        Some(found) => {
            ||| text::same_letters(found, "dsf"@)
            ||| text::same_letters(found, "dff"@)
            ||| text::same_letters(found, "flac"@)
        },
        None => false,
    }
}

/// What a path is worth listing as, or nothing when this player cannot open it.
pub open spec fn meaning_of(path: Seq<char>, is_dir: bool, sheets: Seq<cue::Listing>) -> Option<
    Meaning,
> {
    if is_dir {
        Some(Meaning::Folder)
    } else if cue::is_cue_path(path) {
        None
    } else if sacd::is_image_path(path) {
        Some(Meaning::Disc)
    } else if !is_playable(path) {
        None
    } else if cue::covering(sheets, path, 0) is Some {
        Some(Meaning::Disc)
    } else {
        Some(Meaning::Track(Named { path, number: None }))
    }
}

/// What a path is worth listing as, or nothing when this player cannot open it.
///
/// A sheet is not listed itself: the file it splits stands for it, and listing both would
/// put the same music in the folder's playlist twice.
pub fn kind_of(path: &str, is_dir: bool, sheets: &Vec<Sheet>) -> (out: Option<Kind>)
    ensures
        match meaning_of(path@, is_dir, cue::sheets_view(sheets@)) {
            Some(meaning) => out matches Some(kind) && kind@ == meaning,
            None => out is None,
        },
{
    if is_dir {
        return Some(Kind::Folder);
    }
    if cue::is_cue(path) {
        return None;
    }
    if sacd::is_image(path) {
        return Some(Kind::Disc);
    }
    let playable: bool = path::has_extension(path, "dsf") || path::has_extension(path, "dff")
        || path::has_extension(path, "flac");
    if !playable {
        return None;
    }
    if cue::sheet_for(path, sheets).is_some() {
        return Some(Kind::Disc);
    }
    Some(Kind::Track(TrackRef::file(text::owned(path))))
}

/// The row that leads back out.
pub open spec fn parent_row(path: Seq<char>) -> Row {
    Row {
        name: ".."@,
        title: None,
        path: match path::parent(path) {
            Some(parent) => parent,
            None => path,
        },
        kind: Meaning::Folder,
    }
}

fn parent_entry(path: &str) -> (entry: Entry)
    ensures
        entry@ == parent_row(path@),
{
    let parent: String = match path::parent_of(path) {
        Some(parent) => parent,
        None => text::owned(path),
    };
    Entry { name: text::owned(".."), title: None, path: parent, kind: Kind::Folder }
}

/// The row a thing found in a folder gets, if it gets one. What starts with a dot is hidden.
pub open spec fn row_for(found: Found, sheets: Seq<cue::Listing>) -> Option<Row> {
    if found.name@.len() > 0 && found.name@[0] == '.' {
        None
    } else {
        match meaning_of(found.path@, found.is_dir, sheets) {
            Some(kind) => Some(
                Row {
                    name: found.name@,
                    title: match (kind, found.tags) {
                        (Meaning::Track(_), Some(tags)) => tags@.label(),
                        _ => None,
                    },
                    path: found.path@,
                    kind,
                },
            ),
            None => None,
        }
    }
}

fn entry_for(found: &Found, sheets: &Vec<Sheet>) -> (out: Option<Entry>)
    ensures
        match row_for(*found, cue::sheets_view(sheets@)) {
            Some(row) => out matches Some(entry) && entry@ == row,
            None => out is None,
        },
{
    let letters: Vec<char> = text::chars_of(found.name.as_str());
    if letters.len() > 0 && letters[0] == '.' {
        return None;
    }
    let kind: Kind = match kind_of(found.path.as_str(), found.is_dir, sheets) {
        Some(kind) => kind,
        None => {
            return None;
        },
    };
    // A recording that will not open, or carries no tags, still lists under its own name.
    let title: Option<String> = match (&kind, &found.tags) {
        (Kind::Track(_), Some(tags)) => tags.label(),
        _ => None,
    };
    Some(
        Entry {
            name: text::owned(found.name.as_str()),
            title,
            path: text::owned(found.path.as_str()),
            kind,
        },
    )
}

/// Whether a row stands above another: what opens stands above what plays, and within either
/// the names go by their letters, whatever their case.
pub open spec fn above(a: Row, b: Row) -> bool {
    if (a.kind is Track) != (b.kind is Track) {
        b.kind is Track
    } else {
        text::before(text::lowercase(a.name), text::lowercase(b.name), 0)
    }
}

fn is_above(a: &Entry, b: &Entry) -> (yes: bool)
    ensures
        yes == above(a@, b@),
{
    if a.kind.opens() != b.kind.opens() {
        a.kind.opens()
    } else {
        let first: String = text::to_lowercase(a.name.as_str());
        let second: String = text::to_lowercase(b.name.as_str());
        text::comes_before(first.as_str(), second.as_str())
    }
}

/// Rows with one more put where it belongs: under every row it does not stand above.
pub open spec fn placed(rows: Seq<Row>, row: Row) -> Seq<Row>
    decreases rows.len(),
{
    if rows.len() == 0 || !above(row, rows.last()) {
        rows.push(row)
    } else {
        placed(rows.drop_last(), row).push(rows.last())
    }
}

/// The rows of what was found in a folder, in pane order. Rows that neither stands above the
/// other keep the order they were found in.
pub open spec fn in_pane_order(found: Seq<Found>, sheets: Seq<cue::Listing>) -> Seq<Row>
    decreases found.len(),
{
    if found.len() == 0 {
        Seq::empty()
    } else {
        let rows = in_pane_order(found.drop_last(), sheets);
        match row_for(found.last(), sheets) {
            Some(row) => placed(rows, row),
            None => rows,
        }
    }
}

fn place(entries: &mut Vec<Entry>, entry: Entry)
    ensures
        rows_of(final(entries)@) == placed(rows_of(old(entries)@), entry@),
{
    let ghost rows = rows_of(entries@);
    let ghost row = entry@;
    let mut at: usize = entries.len();
    assert(rows.take(rows.len() as int) =~= rows);
    assert(placed(rows, row) =~= placed(rows.take(at as int), row) + rows.skip(at as int));
    while at > 0 && is_above(&entry, &entries[at - 1])
        invariant
            at <= entries@.len(),
            rows == rows_of(entries@),
            row == entry@,
            placed(rows, row) == placed(rows.take(at as int), row) + rows.skip(at as int),
        decreases at,
    {
        let ghost head = rows.take(at as int);
        assert(head.last() == entries@[at - 1]@);
        assert(head.drop_last() =~= rows.take(at - 1));
        at -= 1;
        assert(placed(rows, row) =~= placed(rows.take(at as int), row) + rows.skip(at as int));
    }
    proof {
        let head = rows.take(at as int);
        if at > 0 {
            assert(head.last() == entries@[at - 1]@);
        }
        assert(placed(head, row) == head.push(row));
    }
    entries.insert(at, entry);
    assert(rows_of(entries@) =~= placed(rows, row));
}

proof fn lemma_above(a: Row, b: Row, c: Row)
    ensures
        !above(a, a),
        above(a, b) ==> !above(b, a),
        !above(b, a) && !above(c, b) ==> !above(c, a),
{
    let (first, second, third) = (
        text::lowercase(a.name),
        text::lowercase(b.name),
        text::lowercase(c.name),
    );
    text::lemma_order(first, first, 0);
    text::lemma_order(first, second, 0);
    text::lemma_order(second, third, 0);
    text::lemma_order(first, third, 0);
    if text::before(first, second, 0) && text::before(second, third, 0) {
        text::lemma_order_chain(first, second, third, 0);
    }
}

proof fn lemma_placed(rows: Seq<Row>, row: Row)
    requires
        forall|i: int, j: int| 0 <= i < j < rows.len() ==> !above(#[trigger] rows[j], #[trigger] rows[i]),
    ensures
        forall|i: int, j: int|
            0 <= i < j < placed(rows, row).len() ==> !above(
                #[trigger] placed(rows, row)[j],
                #[trigger] placed(rows, row)[i],
            ),
        placed(rows, row).to_multiset() == rows.to_multiset().insert(row),
    decreases rows.len(),
{
    broadcast use vstd::seq_lib::group_to_multiset_ensures;

    let out = placed(rows, row);
    if rows.len() > 0 && above(row, rows.last()) {
        let head = rows.drop_last();
        let rest = placed(head, row);
        lemma_placed(head, row);
        lemma_above(row, rows.last(), row);
        assert(rows =~= head.push(rows.last()));
        assert(rest.to_multiset() == head.to_multiset().insert(row));
        assert(out.to_multiset() =~= rows.to_multiset().insert(row));
        assert forall|i: int, j: int| 0 <= i < j < out.len() implies !above(
            #[trigger] out[j],
            #[trigger] out[i],
        ) by {
            if j == rest.len() {
                assert(out[i] == rest[i]);
                assert(rest.to_multiset().contains(rest[i]));
                if rest[i] != row {
                    assert(head.to_multiset().contains(rest[i]));
                    let k = choose|k: int| 0 <= k < head.len() && head[k] == rest[i];
                    assert(head.contains(rest[i]));
                    assert(rows[k] == rest[i]);
                    assert(!above(rows[rows.len() - 1], rows[k]));
                }
            } else {
                assert(out[i] == rest[i] && out[j] == rest[j]);
            }
        }
    } else {
        assert forall|i: int, j: int| 0 <= i < j < out.len() implies !above(
            #[trigger] out[j],
            #[trigger] out[i],
        ) by {
            if j == rows.len() {
                assert(out[i] == rows[i]);
                if i < rows.len() - 1 {
                    assert(!above(rows[rows.len() - 1], rows[i]));
                    lemma_above(rows[i], rows.last(), row);
                }
            } else {
                assert(out[i] == rows[i] && out[j] == rows[j]);
            }
        }
    }
}

/// The rows that what was found in a folder gets, in the order it was found in.
pub open spec fn listed(found: Seq<Found>, sheets: Seq<cue::Listing>) -> Seq<Row>
    decreases found.len(),
{
    if found.len() == 0 {
        Seq::empty()
    } else {
        let rows = listed(found.drop_last(), sheets);
        match row_for(found.last(), sheets) {
            Some(row) => rows.push(row),
            None => rows,
        }
    }
}

/// No row of a folder stands above one that is listed before it, and every row of what was
/// found is listed as often as it was found.
pub proof fn a_folder_lists_in_pane_order(found: Seq<Found>, sheets: Seq<cue::Listing>)
    ensures
        forall|i: int, j: int|
            0 <= i < j < in_pane_order(found, sheets).len() ==> !above(
                #[trigger] in_pane_order(found, sheets)[j],
                #[trigger] in_pane_order(found, sheets)[i],
            ),
        in_pane_order(found, sheets).to_multiset() == listed(found, sheets).to_multiset(),
    decreases found.len(),
{
    broadcast use vstd::seq_lib::group_to_multiset_ensures;

    if found.len() > 0 {
        a_folder_lists_in_pane_order(found.drop_last(), sheets);
        if let Some(row) = row_for(found.last(), sheets) {
            lemma_placed(in_pane_order(found.drop_last(), sheets), row);
        }
    }
}

/// What a folder lists: the way out, where there is one, and then what is in it.
pub open spec fn folder_rows(dir: Seq<char>, found: Seq<Found>, sheets: Seq<cue::Listing>) -> Seq<
    Row,
> {
    if path::parent(dir) is Some {
        seq![parent_row(dir)] + in_pane_order(found, sheets)
    } else {
        in_pane_order(found, sheets)
    }
}

/// List a folder from what was found in it and the cue sheets that are there.
pub fn list_dir(dir: &str, found: &Vec<Found>, sheets: &Vec<Sheet>) -> (entries: Vec<Entry>)
    ensures
        rows_of(entries@) == folder_rows(dir@, found@, cue::sheets_view(sheets@)),
{
    let mut entries: Vec<Entry> = Vec::new();
    let ghost named = cue::sheets_view(sheets@);
    let mut i: usize = 0;
    assert(found@.take(0) =~= Seq::empty());
    assert(rows_of(entries@) =~= Seq::empty());
    while i < found.len()
        invariant
            i <= found@.len(),
            named == cue::sheets_view(sheets@),
            rows_of(entries@) == in_pane_order(found@.take(i as int), named),
        decreases found@.len() - i,
    {
        assert(found@.take(i + 1).drop_last() =~= found@.take(i as int));
        match entry_for(&found[i], sheets) {
            Some(entry) => {
                place(&mut entries, entry);
            },
            None => {},
        }
        i += 1;
    }
    assert(found@.take(found@.len() as int) =~= found@);
    if path::parent_of(dir).is_some() {
        let ghost rows = rows_of(entries@);
        entries.insert(0, parent_entry(dir));
        assert(rows_of(entries@) =~= seq![parent_row(dir@)] + rows);
    }
    entries
}

/// A row for one track of a disc or of a sheet.
pub open spec fn track_row(path: Seq<char>, named: Named, number: u32, names: Tags) -> Row {
    Row {
        name: "track "@ + text::decimal(number as nat),
        title: names.label(),
        path,
        kind: Meaning::Track(named),
    }
}

fn track_entry(path: &str, track: TrackRef, number: u32, tags: &TrackTags) -> (entry: Entry)
    ensures
        entry@ == track_row(path@, track@, number, tags@),
{
    Entry {
        name: text::with_number("track ", number as u64),
        title: tags.label(),
        path: text::owned(path),
        kind: Kind::Track(track),
    }
}

/// What a file a sheet splits lists: the way out, and the tracks the sheet names in it.
pub open spec fn sheet_rows(sheet: cue::Listing, path: Seq<char>) -> Seq<Row> {
    seq![parent_row(path)] + cue::tracks_of(sheet.tracks, path).map_values(
        |track: cue::Track|
            track_row(
                path,
                Named { path: sheet.path, number: Some(track.number) },
                track.number,
                track.tags,
            ),
    )
}

/// The tracks a cue sheet splits a file into, in the order it numbers them.
pub fn list_sheet(sheet: &Sheet, path: &str) -> (entries: Vec<Entry>)
    ensures
        rows_of(entries@) == sheet_rows(sheet@, path@),
{
    let mut entries: Vec<Entry> = Vec::new();
    entries.push(parent_entry(path));
    let tracks: Vec<&CueTrack> = sheet.tracks_in(path);
    let ghost named = cue::tracks_of(sheet@.tracks, path@);
    let ghost whole = sheet_rows(sheet@, path@);
    let mut i: usize = 0;
    while i < tracks.len()
        invariant
            i <= tracks@.len(),
            named == cue::borrowed_view(tracks@),
            named == cue::tracks_of(sheet@.tracks, path@),
            whole == sheet_rows(sheet@, path@),
            entries@.len() == i + 1,
            forall|k: int| 0 <= k <= i ==> (#[trigger] entries@[k])@ == whole[k],
        decreases tracks@.len() - i,
    {
        let track: &CueTrack = tracks[i];
        assert(named[i as int] == track@);
        let reference: TrackRef = TrackRef::of_disc(text::owned(sheet.path.as_str()), track.number);
        entries.push(track_entry(path, reference, track.number, &track.tags));
        i += 1;
        assert(whole[i as int] == entries@[i as int]@);
    }
    assert(rows_of(entries@) =~= whole);
    entries
}

/// The row of one track of a disc, under the names the disc gives it.
#[verifier::opaque]
pub open spec fn disc_row(disc: toc::Contents, path: Seq<char>, number: u32) -> Row {
    track_row(
        path,
        Named { path, number: Some(number) },
        number,
        sacd::disc_tags(disc, number),
    )
}

fn disc_entry(disc: &Disc, path: &str, number: u32) -> (entry: Entry)
    ensures
        entry@ == disc_row(disc.toc@, path@, number),
{
    reveal(disc_row);
    let reference: TrackRef = TrackRef::of_disc(text::owned(path), number);
    track_entry(path, reference, number, &disc.tags(number))
}

/// What a disc image lists: the way out, and its tracks.
pub open spec fn disc_rows(disc: toc::Contents, path: Seq<char>) -> Seq<Row> {
    seq![parent_row(path)] + disc.area.tracks.map_values(
        |track: toc::Entry| disc_row(disc, path, track.number),
    )
}

/// The tracks of a disc image, in the order the disc numbers them.
pub fn list_disc(path: &str, image: &[u8]) -> (out: Result<Vec<Entry>, TocError>)
    ensures
        match toc::contents(image@) {
            Ok(disc) => out matches Ok(entries) && rows_of(entries@) == disc_rows(disc, path@),
            Err(error) => out matches Err(e) && e == error,
        },
{
    let disc: Disc = match Disc::open(path, image) {
        Ok(disc) => disc,
        Err(error) => {
            return Err(error);
        },
    };
    let ghost contents = disc.toc@;
    let tracks: &[toc::Track] = disc.tracks();
    let mut entries: Vec<Entry> = Vec::new();
    entries.push(parent_entry(path));
    let mut i: usize = 0;
    while i < tracks.len()
        invariant
            i <= tracks@.len(),
            contents == disc.toc@,
            contents.area.tracks == toc::tracks_view(tracks@),
            entries@.len() == i + 1,
            entries@[0]@ == parent_row(path@),
            forall|k: int|
                0 <= k < i ==> (#[trigger] entries@[k + 1])@ == disc_row(
                    contents,
                    path@,
                    contents.area.tracks[k].number,
                ),
        decreases tracks@.len() - i,
    {
        let number: u32 = tracks[i].number;
        assert(contents.area.tracks[i as int].number == number);
        entries.push(disc_entry(&disc, path, number));
        i += 1;
    }
    proof {
        let rows = rows_of(entries@);
        let whole = disc_rows(contents, path@);
        assert forall|k: int| 0 <= k < rows.len() implies rows[k] == whole[k] by {
            if k > 0 {
                assert(entries@[(k - 1) + 1]@ == disc_row(
                    contents,
                    path@,
                    contents.area.tracks[k - 1].number,
                ));
            }
        }
        assert(rows =~= whole);
    }
    Ok(entries)
}

/// What has to be read to list a path.
#[derive(Debug, Clone, Copy, PartialEq, Eq, Structural)]
pub enum Shape {
    /// A disc image: its bytes.
    Image,
    /// A file: the cue sheets beside it.
    File,
    /// A folder: what is in it.
    Folder,
}

/// What a path is listed as.
pub fn shape_of(path: &str, is_file: bool) -> (shape: Shape)
    ensures
        shape == if sacd::is_image_path(path@) {
            Shape::Image
        } else if is_file {
            Shape::File
        } else {
            Shape::Folder
        },
{
    if sacd::is_image(path) {
        Shape::Image
    } else if is_file {
        Shape::File
    } else {
        Shape::Folder
    }
}

/// List a file by the first of the sheets beside it that splits it. A file no sheet splits
/// cannot be opened like a folder.
pub fn list_file(path: &str, sheets: &Vec<Sheet>) -> (out: Result<Vec<Entry>, String>)
    ensures
        match cue::covering(cue::sheets_view(sheets@), path@, 0) {
            Some(sheet) => out matches Ok(entries) && rows_of(entries@) == sheet_rows(sheet, path@),
            None => out matches Err(line) && line@
                == "holds one recording rather than a list of them"@,
        },
{
    match cue::sheet_for(path, sheets) {
        Some(sheet) => Ok(list_sheet(sheet, path)),
        None => Err(text::owned("holds one recording rather than a list of them")),
    }
}

/// A cursor over one folder, or over one disc image, showing only what this player can open.
#[derive(Debug, PartialEq, Eq)]
pub struct Browser {
    pub dir: String,
    pub entries: Vec<Entry>,
    pub selected: usize,
    pub error: Option<String>,
}

/// The same as characters.
#[verifier::ext_equal]
pub struct Pane {
    pub dir: Seq<char>,
    pub rows: Seq<Row>,
    pub selected: int,
    pub error: Option<Seq<char>>,
}

impl View for Browser {
    type V = Pane;

    open spec fn view(&self) -> Pane {
        Pane {
            dir: self.dir@,
            rows: rows_of(self.entries@),
            selected: self.selected as int,
            error: text::option_view(self.error),
        }
    }
}

/// A listing, or the line that says why there is none, as characters.
pub open spec fn listing_view(listing: Result<Vec<Entry>, String>) -> Result<Seq<Row>, Seq<char>> {
    match listing {
        Ok(entries) => Ok(rows_of(entries@)),
        Err(line) => Err(line@),
    }
}

/// The last of `count` rows at most, or the first of none.
pub open spec fn held_to(index: int, count: int) -> int {
    if count == 0 {
        0
    } else if index < 0 {
        0
    } else if index < count {
        index
    } else {
        count - 1
    }
}

/// Where the rows from `index` on first have a path.
pub open spec fn row_at(rows: Seq<Row>, path: Seq<char>, index: int) -> Option<int>
    decreases rows.len() - index,
{
    if index < 0 || index >= rows.len() {
        None
    } else if path::same(rows[index].path, path) {
        Some(index)
    } else {
        row_at(rows, path, index + 1)
    }
}

/// The tracks of the rows from `index` on.
pub open spec fn tracks_from(rows: Seq<Row>, index: int) -> Seq<Named>
    decreases rows.len() - index,
{
    if index < 0 || index >= rows.len() {
        Seq::empty()
    } else {
        match rows[index].kind {
            Meaning::Track(named) => seq![named] + tracks_from(rows, index + 1),
            _ => tracks_from(rows, index + 1),
        }
    }
}

impl Pane {
    /// The cursor is on a row, or on the first of none.
    pub open spec fn steady(self) -> bool {
        if self.rows.len() == 0 {
            self.selected == 0
        } else {
            0 <= self.selected < self.rows.len()
        }
    }

    /// The pane over what a new listing holds.
    pub open spec fn refreshed(self, listing: Result<Seq<Row>, Seq<char>>) -> Pane {
        match listing {
            Ok(rows) => Pane {
                rows,
                error: None,
                selected: held_to(self.selected, rows.len() as int),
                ..self
            },
            Err(line) => Pane {
                rows: Seq::empty(),
                error: Some(self.dir + ": "@ + line),
                selected: 0,
                ..self
            },
        }
    }

    /// The pane over somewhere else, with the cursor on the row that leads back.
    pub open spec fn entered(self, dir: Seq<char>, listing: Result<Seq<Row>, Seq<char>>) -> Pane {
        let there = Pane { dir, selected: 0, ..self }.refreshed(listing);
        match row_at(there.rows, self.dir, 0) {
            Some(index) => Pane { selected: index, ..there },
            None => there,
        }
    }
}

proof fn lemma_row_at(rows: Seq<Row>, path: Seq<char>, index: int)
    requires
        0 <= index <= rows.len(),
    ensures
        match row_at(rows, path, index) {
            Some(found) => {
                &&& index <= found < rows.len()
                &&& path::same(rows[found].path, path)
                &&& forall|k: int| index <= k < found ==> !path::same((#[trigger] rows[k]).path, path)
            },
            None => forall|k: int| index <= k < rows.len() ==> !path::same((#[trigger] rows[k]).path, path),
        },
    decreases rows.len() - index,
{
    if index < rows.len() && !path::same(rows[index].path, path) {
        lemma_row_at(rows, path, index + 1);
    }
}

/// Going somewhere that lists the place just left puts the cursor on its row, the first of them
/// where there are several.
pub proof fn going_back_finds_what_was_left(pane: Pane, dir: Seq<char>, rows: Seq<Row>)
    requires
        exists|k: int| 0 <= k < rows.len() && path::same((#[trigger] rows[k]).path, pane.dir),
    ensures
        ({
            let there = pane.entered(dir, Ok(rows));
            &&& there.dir == dir
            &&& there.rows == rows
            &&& 0 <= there.selected < rows.len()
            &&& path::same(rows[there.selected].path, pane.dir)
            &&& forall|k: int| 0 <= k < there.selected ==> !path::same((#[trigger] rows[k]).path, pane.dir)
        }),
{
    lemma_row_at(rows, pane.dir, 0);
}

/// Wherever the listing of a place is shown anew or entered, the cursor is on a row of it, or on
/// the first of none.
pub proof fn the_cursor_stays_on_a_row(
    pane: Pane,
    dir: Seq<char>,
    listing: Result<Seq<Row>, Seq<char>>,
)
    ensures
        pane.refreshed(listing).steady(),
        pane.entered(dir, listing).steady(),
{
    let there = Pane { dir, selected: 0, ..pane }.refreshed(listing);
    lemma_row_at(there.rows, pane.dir, 0);
}

impl Browser {
    pub fn open(dir: String, listing: Result<Vec<Entry>, String>) -> (browser: Self)
        ensures
            browser@ == (Pane {
                dir: dir@,
                rows: Seq::empty(),
                selected: 0,
                error: None,
            }).refreshed(listing_view(listing)),
    {
        let mut browser: Browser = Browser { dir, entries: Vec::new(), selected: 0, error: None };
        assert(rows_of(browser.entries@) =~= Seq::empty());
        browser.refresh(listing);
        browser
    }

    /// Show what a new listing of the same place holds.
    pub fn refresh(&mut self, listing: Result<Vec<Entry>, String>)
        ensures
            final(self)@ == old(self)@.refreshed(listing_view(listing)),
    {
        match listing {
            Ok(entries) => {
                self.entries = entries;
                self.error = None;
            },
            Err(line) => {
                let mut error: String = text::owned(self.dir.as_str());
                error.append(": ");
                error.append(line.as_str());
                self.error = Some(error);
                self.entries = Vec::new();
                assert(rows_of(self.entries@) =~= Seq::empty());
            },
        }
        self.move_to(self.selected);
    }

    pub fn selection(&self) -> (entry: Option<&Entry>)
        ensures
            if self@.selected < self@.rows.len() {
                entry matches Some(found) && found@ == self@.rows[self@.selected]
            } else {
                entry is None
            },
    {
        if self.selected < self.entries.len() {
            Some(&self.entries[self.selected])
        } else {
            None
        }
    }

    /// Move the cursor, as far as the ends of the list.
    pub fn move_by(&mut self, delta: i32)
        ensures
            final(self)@ == (Pane {
                selected: if old(self)@.rows.len() == 0 {
                    old(self)@.selected
                } else {
                    held_to(old(self)@.selected + delta, old(self)@.rows.len() as int)
                },
                ..old(self)@
            }),
            old(self)@.steady() ==> final(self)@.steady(),
    {
        if self.entries.len() == 0 {
            return;
        }
        let last: usize = self.entries.len() - 1;
        let target: i128 = self.selected as i128 + delta as i128;
        self.selected = if target < 0 {
            0
        } else if target > last as i128 {
            last
        } else {
            target as usize
        };
    }

    pub fn move_to(&mut self, index: usize)
        ensures
            final(self)@ == (Pane {
                selected: held_to(index as int, old(self)@.rows.len() as int),
                ..old(self)@
            }),
            final(self)@.steady(),
    {
        self.selected = if self.entries.len() == 0 {
            0
        } else if index < self.entries.len() {
            index
        } else {
            self.entries.len() - 1
        };
    }

    /// Descend into a folder or a disc image, keeping the cursor on whatever was just left.
    pub fn enter(&mut self, dir: String, listing: Result<Vec<Entry>, String>)
        ensures
            final(self)@ == old(self)@.entered(dir@, listing_view(listing)),
    {
        let leaving: String = text::owned(self.dir.as_str());
        self.dir = dir;
        self.selected = 0;
        self.refresh(listing);
        let ghost there = self@;
        let mut i: usize = 0;
        while i < self.entries.len()
            invariant
                i <= self.entries@.len(),
                self@ == there,
                leaving@ == old(self)@.dir,
                there == (Pane { dir: dir@, selected: 0, ..old(self)@ }).refreshed(
                    listing_view(listing),
                ),
                row_at(there.rows, leaving@, 0) == row_at(there.rows, leaving@, i as int),
            decreases self.entries@.len() - i,
        {
            assert(there.rows[i as int] == self.entries@[i as int]@);
            if path::same_path(self.entries[i].path.as_str(), leaving.as_str()) {
                self.selected = i;
                return;
            }
            i += 1;
        }
    }

    /// Every recording listed here, in the order the pane shows them.
    pub fn playable(&self) -> (tracks: Vec<TrackRef>)
        ensures
            open::named_view(tracks@) == tracks_from(self@.rows, 0),
    {
        let mut tracks: Vec<TrackRef> = Vec::new();
        let ghost rows = self@.rows;
        let mut i: usize = 0;
        assert(open::named_view(tracks@) + tracks_from(rows, 0) =~= tracks_from(rows, 0));
        while i < self.entries.len()
            invariant
                i <= self.entries@.len(),
                rows == self@.rows,
                open::named_view(tracks@) + tracks_from(rows, i as int) == tracks_from(rows, 0),
            decreases self.entries@.len() - i,
        {
            let ghost before = open::named_view(tracks@);
            assert(rows[i as int] == self.entries@[i as int]@);
            if let Some(track) = self.entries[i].kind.track() {
                tracks.push(track.copy());
                assert(open::named_view(tracks@) =~= before.push(track@));
            }
            i += 1;
            assert(open::named_view(tracks@) + tracks_from(rows, i as int) =~= tracks_from(
                rows,
                0,
            ));
        }
        assert(tracks_from(rows, i as int) =~= Seq::empty());
        assert(open::named_view(tracks@) =~= tracks_from(rows, 0));
        tracks
    }
}

/// What a file's name ends in, in letters of either case, settles how it is listed: a recording
/// as a track, or as a disc where a sheet splits it; an image as a disc; and a sheet, like
/// anything that cannot be played, not at all.
pub proof fn a_file_is_listed_by_what_its_name_ends_in(
    dir: Seq<char>,
    front: Seq<char>,
    ending: Seq<char>,
    sheets: Seq<cue::Listing>,
)
    requires
        path::is_bare(dir) || dir == seq!['/'] || dir.len() == 0,
        front.len() > 0,
        !front.contains('/'),
        !ending.contains('/'),
        !ending.contains('.'),
        path::can_be_named(front.push('.') + ending),
    ensures
        ({
            let path = path::joined(dir, front.push('.') + ending);
            let listed = meaning_of(path, false, sheets);
            let recording = text::in_either_case(ending, seq!['d', 's', 'f'])
                || text::in_either_case(ending, seq!['d', 'f', 'f']) || text::in_either_case(
                ending,
                seq!['f', 'l', 'a', 'c'],
            );
            if text::in_either_case(ending, seq!['i', 's', 'o']) {
                listed == Some(Meaning::Disc)
            } else if recording {
                if cue::covering(sheets, path, 0) is Some {
                    listed == Some(Meaning::Disc)
                } else {
                    listed == Some(Meaning::Track(Named { path, number: None }))
                }
            } else {
                listed is None
            }
        }),
{
    path::a_name_is_its_stem_and_its_extension(dir, front, ending, ending);
    reveal_strlit("dsf");
    reveal_strlit("dff");
    reveal_strlit("flac");
    reveal_strlit("iso");
    reveal_strlit("cue");
    assert("dsf"@ =~= seq!['d', 's', 'f']);
    assert("dff"@ =~= seq!['d', 'f', 'f']);
    assert("flac"@ =~= seq!['f', 'l', 'a', 'c']);
    assert("iso"@ =~= seq!['i', 's', 'o']);
    assert("cue"@ =~= seq!['c', 'u', 'e']);
    text::the_same_letters_are_those_of_either_case(ending, seq!['d', 's', 'f']);
    text::the_same_letters_are_those_of_either_case(ending, seq!['d', 'f', 'f']);
    text::the_same_letters_are_those_of_either_case(ending, seq!['f', 'l', 'a', 'c']);
    text::the_same_letters_are_those_of_either_case(ending, seq!['i', 's', 'o']);
    text::the_same_letters_are_those_of_either_case(ending, seq!['c', 'u', 'e']);
    if text::in_either_case(ending, seq!['c', 'u', 'e']) {
        assert(ending[0] == 'c' || ending[0] as int + 32 == 'c' as int);
        if text::in_either_case(ending, seq!['d', 's', 'f']) || text::in_either_case(
            ending,
            seq!['d', 'f', 'f'],
        ) {
            assert(ending[0] == 'd' || ending[0] as int + 32 == 'd' as int);
        }
        if text::in_either_case(ending, seq!['i', 's', 'o']) {
            assert(ending[0] == 'i' || ending[0] as int + 32 == 'i' as int);
        }
    }
}

/// The cursor goes to the row it was aimed at, or to the nearest there is.
pub proof fn the_cursor_goes_as_near_as_it_can(index: int, count: int, other: int)
    requires
        0 <= other < count,
    ensures
        0 <= held_to(index, count) < count,
        index <= other ==> held_to(index, count) - index <= other - index,
        other <= index ==> index - held_to(index, count) <= index - other,
        index == other ==> held_to(index, count) == other,
{
}

/// The tracks of a listing are those of its rows that are tracks, in the order they stand in; a
/// folder or a disc among them adds none.
pub proof fn the_tracks_of_rows_come_in_their_order(rows: Seq<Row>, row: Row)
    ensures
        tracks_from(rows.push(row), 0) == (match row.kind {
            Meaning::Track(named) => tracks_from(rows, 0).push(named),
            _ => tracks_from(rows, 0),
        }),
{
    lemma_tracks_pushed(rows, row, 0);
}

proof fn lemma_tracks_pushed(rows: Seq<Row>, row: Row, index: int)
    requires
        0 <= index <= rows.len(),
    ensures
        tracks_from(rows.push(row), index) == (match row.kind {
            Meaning::Track(named) => tracks_from(rows, index).push(named),
            _ => tracks_from(rows, index),
        }),
    decreases rows.len() - index,
{
    let more = rows.push(row);
    if index < rows.len() {
        lemma_tracks_pushed(rows, row, index + 1);
        assert(more[index] == rows[index]);
        let rest = tracks_from(rows, index + 1);
        match (rows[index].kind, row.kind) {
            (Meaning::Track(first), Meaning::Track(last)) => {
                assert(seq![first] + rest.push(last) =~= (seq![first] + rest).push(last));
            },
            _ => {},
        }
    } else {
        assert(more[index] == row);
        assert(tracks_from(more, index + 1) =~= Seq::empty());
        assert(tracks_from(rows, index) =~= Seq::empty());
        match row.kind {
            Meaning::Track(named) => {
                assert(seq![named] + Seq::<Named>::empty() =~= Seq::<Named>::empty().push(named));
            },
            _ => {},
        }
    }
}

/// What starts with a dot is hidden, whatever it is; anything else is listed under its own name
/// and path where it is worth listing, and as what it is.
pub proof fn what_starts_with_a_dot_is_hidden(found: Found, sheets: Seq<cue::Listing>)
    requires
        found.name@.len() > 0,
    ensures
        found.name@[0] == '.' ==> row_for(found, sheets) is None,
        found.name@[0] != '.' ==> match meaning_of(found.path@, found.is_dir, sheets) {
            Some(meaning) => row_for(found, sheets) matches Some(row) && row.name == found.name@
                && row.path == found.path@ && row.kind == meaning,
            None => row_for(found, sheets) is None,
        },
{
}

/// What opens stands above what plays. Within either, a name stands above another that starts with
/// it and goes on.
pub proof fn what_opens_stands_above_what_plays(opens: Row, plays: Row)
    requires
        !(opens.kind is Track),
        plays.kind is Track,
    ensures
        above(opens, plays),
        !above(plays, opens),
{
}

} // verus!
