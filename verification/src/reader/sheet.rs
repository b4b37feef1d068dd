//! Cue sheets as they are written, and what reading one gives back.

use crate::path;
use crate::reader::cue;
use crate::reader::cue::{CueFault, CueTime, Open, Reading, Track};
use crate::reader::tags::Tags;
use crate::text;
use vstd::prelude::*;

verus! {

/// A word of a line, as it is or between quotes.
pub enum Word {
    Plain(Seq<char>),
    Quoted(Seq<char>),
}

impl Word {
    /// What the word says.
    pub open spec fn says(self) -> Seq<char> {
        match self {
            Word::Plain(text) => text,
            Word::Quoted(text) => text,
        }
    }

    /// A word that can be written so: a plain one has no white space in it and does not start
    /// with a quote, and one between quotes has no quote and no line ending in it.
    pub open spec fn wf(self) -> bool {
        match self {
            Word::Plain(text) => {
                &&& text.len() > 0
                &&& text[0] != '"'
                &&& forall|i: int| 0 <= i < text.len() ==> !is_gap(#[trigger] text[i])
            },
            Word::Quoted(text) => forall|i: int|
                0 <= i < text.len() ==> #[trigger] text[i] != '"' && text[i] != '\n',
        }
    }

    /// The word as it stands in a line.
    pub open spec fn spelled(self) -> Seq<char> {
        match self {
            Word::Plain(text) => text,
            Word::Quoted(text) => seq!['"'] + text + seq!['"'],
        }
    }
}

/// ASCII white space: a tab, a line feed, a form feed, a carriage return or a blank.
pub open spec fn is_gap(letter: char) -> bool {
    let code = letter as int;
    code == 9 || code == 10 || code == 12 || code == 13 || code == 32
}

/// A line of words, each with a blank ahead of it.
pub open spec fn spelled(line: Seq<Word>) -> Seq<char>
    decreases line.len(),
{
    if line.len() == 0 {
        Seq::empty()
    } else {
        seq![' '] + line[0].spelled() + spelled(line.skip(1))
    }
}

/// What the words of a line say.
pub open spec fn said(line: Seq<Word>) -> Seq<Seq<char>> {
    line.map_values(|word: Word| word.says())
}

/// Lines one below the other.
pub open spec fn page(lines: Seq<Seq<Word>>) -> Seq<char>
    decreases lines.len(),
{
    if lines.len() == 0 {
        Seq::empty()
    } else {
        spelled(lines[0]) + seq!['\n'] + page(lines.skip(1))
    }
}

/// Every word can be written as it is meant to be.
pub open spec fn writable(line: Seq<Word>) -> bool {
    forall|i: int| 0 <= i < line.len() ==> (#[trigger] line[i]).wf()
}

proof fn lemma_letter_shift(head: Seq<char>, tail: Seq<char>, letter: char, from: int)
    requires
        0 <= from,
    ensures
        text::letter_at(head + tail, letter, head.len() + from) == head.len() + text::letter_at(
            tail,
            letter,
            from,
        ),
    decreases tail.len() - from,
{
    if from < tail.len() {
        assert((head + tail)[head.len() + from] == tail[from]);
        if tail[from] != letter {
            lemma_letter_shift(head, tail, letter, from + 1);
        }
    }
}

/// The first place at or after `from` that a letter stands at is where it is found.
proof fn lemma_letter_found(text: Seq<char>, letter: char, from: int, at: int)
    requires
        0 <= from <= at <= text.len(),
        at < text.len() ==> text[at] == letter,
        forall|i: int| from <= i < at ==> #[trigger] text[i] != letter,
    ensures
        text::letter_at(text, letter, from) == at,
    decreases at - from,
{
    if from < at {
        lemma_letter_found(text, letter, from + 1, at);
    }
}

/// What stands where a letter was found, and before it.
proof fn lemma_letter_there(text: Seq<char>, letter: char, from: int)
    requires
        0 <= from <= text.len(),
    ensures
        ({
            let at = text::letter_at(text, letter, from);
            &&& from <= at <= text.len()
            &&& at < text.len() ==> text[at] == letter
            &&& forall|i: int| from <= i < at ==> #[trigger] text[i] != letter
        }),
    decreases text.len() - from,
{
    if from < text.len() && text[from] != letter {
        lemma_letter_there(text, letter, from + 1);
    }
}

proof fn lemma_word_end_shift(head: Seq<char>, tail: Seq<char>, at: int)
    requires
        0 <= at,
    ensures
        cue::word_end(head + tail, head.len() + at) == head.len() + cue::word_end(tail, at),
    decreases tail.len() - at,
{
    if at < tail.len() {
        assert((head + tail)[head.len() + at] == tail[at]);
        if !cue::is_blank(tail[at]) {
            lemma_word_end_shift(head, tail, at + 1);
        }
    }
}

proof fn lemma_word_end_at(line: Seq<char>, from: int, end: int)
    requires
        0 <= from <= end <= line.len(),
        end < line.len() ==> cue::is_blank(line[end]),
        forall|i: int| from <= i < end ==> !cue::is_blank(#[trigger] line[i]),
    ensures
        cue::word_end(line, from) == end,
    decreases end - from,
{
    if from < end {
        lemma_word_end_at(line, from + 1, end);
    }
}

proof fn lemma_word_end_bounds(line: Seq<char>, at: int)
    requires
        0 <= at <= line.len(),
    ensures
        at <= cue::word_end(line, at) <= line.len(),
        at < line.len() && !cue::is_blank(line[at]) ==> at < cue::word_end(line, at),
    decreases line.len() - at,
{
    if at < line.len() && !cue::is_blank(line[at]) {
        lemma_word_end_bounds(line, at + 1);
    }
}

proof fn lemma_words_shift(head: Seq<char>, tail: Seq<char>, at: int)
    requires
        0 <= at,
    ensures
        cue::words(head + tail, head.len() + at) == cue::words(tail, at),
    decreases tail.len() - at,
{
    let line = head + tail;
    if at < tail.len() {
        assert(line[head.len() + at] == tail[at]);
        if cue::is_blank(tail[at]) {
            lemma_words_shift(head, tail, at + 1);
        } else if tail[at] == '"' {
            let end = text::letter_at(tail, '"', at + 1);
            lemma_letter_shift(head, tail, '"', at + 1);
            lemma_letter_there(tail, '"', at + 1);
            assert(line.subrange(head.len() + at + 1, head.len() + end) =~= tail.subrange(
                at + 1,
                end,
            ));
            lemma_words_shift(
                head,
                tail,
                if end < tail.len() {
                    end + 1
                } else {
                    end
                },
            );
        } else {
            let end = cue::word_end(tail, at);
            lemma_word_end_shift(head, tail, at);
            lemma_word_end_bounds(tail, at);
            assert(line.subrange(head.len() + at, head.len() + end) =~= tail.subrange(at, end));
            lemma_words_shift(head, tail, end);
        }
    }
}

/// A line of words reads as those words, a quoted one whole and without its quotes, however many
/// blanks are in it.
pub proof fn a_line_reads_as_its_words(line: Seq<Word>)
    requires
        writable(line),
    ensures
        cue::words(spelled(line), 0) == said(line),
    decreases line.len(),
{
    if line.len() == 0 {
        assert(said(line) =~= Seq::<Seq<char>>::empty());
    } else {
        let rest = line.skip(1);
        let tail = spelled(rest);
        let own = line[0].spelled();
        let whole = spelled(line);
        assert forall|i: int| 0 <= i < rest.len() implies (#[trigger] rest[i]).wf() by {
            assert(rest[i] == line[i + 1]);
        }
        a_line_reads_as_its_words(rest);
        assert(line[0].wf());
        assert(whole[0] == ' ');
        assert(cue::words(whole, 0) == cue::words(whole, 1));
        let head = seq![' '] + own;
        assert(whole == head + tail);
        lemma_words_shift(head, tail, 0);
        match line[0] {
            Word::Plain(text) => {
                let end = 1 + text.len();
                assert forall|i: int| 1 <= i < end implies !cue::is_blank(#[trigger] whole[i]) by {
                    assert(whole[i] == text[i - 1]);
                    assert(!is_gap(text[i - 1]));
                }
                if rest.len() > 0 {
                    assert(tail[0] == ' ');
                    assert(whole[end as int] == tail[0]);
                }
                lemma_word_end_at(whole, 1, end as int);
                assert(whole[1] == text[0]);
                assert(whole.subrange(1, end as int) =~= text);
                assert(cue::words(whole, 1) == seq![text] + cue::words(whole, end as int));
            },
            Word::Quoted(text) => {
                let close = 2 + text.len();
                assert forall|i: int| 2 <= i < close implies #[trigger] whole[i] != '"' by {
                    assert(whole[i] == text[i - 2]);
                }
                assert(whole[1] == '"');
                assert(whole[close as int] == '"');
                lemma_letter_found(whole, '"', 2, close as int);
                assert(whole.subrange(2, close as int) =~= text);
                assert(cue::words(whole, 1) == seq![text] + cue::words(
                    whole,
                    (close + 1) as int,
                ));
            },
        }
        assert(said(line) =~= seq![line[0].says()] + said(rest));
    }
}

proof fn lemma_reading_shift(
    head: Seq<char>,
    tail: Seq<char>,
    from: int,
    reading: Reading,
    dir: Seq<char>,
    present: Seq<Seq<char>>,
)
    requires
        0 <= from,
    ensures
        cue::sheet_reading(head + tail, head.len() + from, reading, dir, present)
            == cue::sheet_reading(tail, from, reading, dir, present),
    decreases tail.len() + 1 - from,
{
    let text = head + tail;
    if from < tail.len() {
        let end = text::letter_at(tail, '\n', from);
        lemma_letter_shift(head, tail, '\n', from);
        lemma_letter_there(tail, '\n', from);
        assert(cue::line_at(text, head.len() + from) =~= cue::line_at(tail, from));
        let next = reading.line(cue::words(cue::line_at(tail, from), 0), dir, present);
        if next is Ok {
            lemma_reading_shift(head, tail, end + 1, next->Ok_0, dir, present);
        }
    }
}

/// Whole lines are read before what stands below them.
proof fn lemma_reading_head(
    head: Seq<char>,
    tail: Seq<char>,
    from: int,
    reading: Reading,
    dir: Seq<char>,
    present: Seq<Seq<char>>,
)
    requires
        0 <= from <= head.len(),
        head.len() > 0 ==> head.last() == '\n',
    ensures
        cue::sheet_reading(head + tail, from, reading, dir, present) == (match cue::sheet_reading(
            head,
            from,
            reading,
            dir,
            present,
        ) {
            Err(fault) => Err::<Reading, CueFault>(fault),
            Ok(next) => cue::sheet_reading(tail, 0, next, dir, present),
        }),
    decreases head.len() - from,
{
    let text = head + tail;
    if from == head.len() {
        lemma_reading_shift(head, tail, 0, reading, dir, present);
    } else {
        let end = text::letter_at(head, '\n', from);
        lemma_letter_there(head, '\n', from);
        if end == head.len() {
            assert(head[head.len() - 1] != '\n');
        }
        assert forall|i: int| from <= i < end implies #[trigger] text[i] != '\n' by {
            assert(text[i] == head[i]);
        }
        lemma_letter_found(text, '\n', from, end);
        assert(cue::line_at(text, from) =~= cue::line_at(head, from));
        let next = reading.line(cue::words(cue::line_at(head, from), 0), dir, present);
        if next is Ok {
            lemma_reading_head(head, tail, end + 1, next->Ok_0, dir, present);
        }
    }
}

/// A word that is a command, in letters of either case.
pub open spec fn is_command(word: Seq<char>, command: Seq<char>) -> bool {
    &&& word.len() == command.len()
    &&& forall|i: int|
        0 <= i < word.len() ==> #[trigger] word[i] == command[i] || word[i] as int == command[i] as int
            + 32
}

/// None of the commands that a sheet is read for.
pub open spec fn means_nothing(word: Seq<char>) -> bool {
    &&& !is_command(word, seq!['F', 'I', 'L', 'E'])
    &&& !is_command(word, seq!['T', 'R', 'A', 'C', 'K'])
    &&& !is_command(word, seq!['T', 'I', 'T', 'L', 'E'])
    &&& !is_command(word, seq!['P', 'E', 'R', 'F', 'O', 'R', 'M', 'E', 'R'])
    &&& !is_command(word, seq!['I', 'N', 'D', 'E', 'X'])
}

proof fn lemma_commands()
    ensures
        "FILE"@ == seq!['F', 'I', 'L', 'E'],
        "TRACK"@ == seq!['T', 'R', 'A', 'C', 'K'],
        "TITLE"@ == seq!['T', 'I', 'T', 'L', 'E'],
        "PERFORMER"@ == seq!['P', 'E', 'R', 'F', 'O', 'R', 'M', 'E', 'R'],
        "INDEX"@ == seq!['I', 'N', 'D', 'E', 'X'],
        "AUDIO"@ == seq!['A', 'U', 'D', 'I', 'O'],
        "WAVE"@ == seq!['W', 'A', 'V', 'E'],
        "01"@ == seq!['0', '1'],
        "00"@ == seq!['0', '0'],
{
    reveal_strlit("FILE");
    reveal_strlit("TRACK");
    reveal_strlit("TITLE");
    reveal_strlit("PERFORMER");
    reveal_strlit("INDEX");
    reveal_strlit("AUDIO");
    reveal_strlit("WAVE");
    reveal_strlit("01");
    reveal_strlit("00");
    assert("FILE"@ =~= seq!['F', 'I', 'L', 'E']);
    assert("TRACK"@ =~= seq!['T', 'R', 'A', 'C', 'K']);
    assert("TITLE"@ =~= seq!['T', 'I', 'T', 'L', 'E']);
    assert("PERFORMER"@ =~= seq!['P', 'E', 'R', 'F', 'O', 'R', 'M', 'E', 'R']);
    assert("INDEX"@ =~= seq!['I', 'N', 'D', 'E', 'X']);
    assert("AUDIO"@ =~= seq!['A', 'U', 'D', 'I', 'O']);
    assert("WAVE"@ =~= seq!['W', 'A', 'V', 'E']);
    assert("01"@ =~= seq!['0', '1']);
    assert("00"@ =~= seq!['0', '0']);
}

/// Only a word of the same letters is taken for a command.
proof fn lemma_same_letters(word: Seq<char>, command: Seq<char>)
    requires
        forall|i: int| 0 <= i < command.len() ==> 'A' <= #[trigger] command[i] && command[i] <= 'Z',
    ensures
        text::same_letters(word, command) == is_command(word, command),
{
    if text::same_letters(word, command) {
        assert forall|i: int| 0 <= i < word.len() implies #[trigger] word[i] == command[i]
            || word[i] as int == command[i] as int + 32 by {
            assert('A' <= command[i] && command[i] <= 'Z');
            assert(text::ascii_lower(word[i]) == text::ascii_lower(command[i]));
        }
    }
    if is_command(word, command) {
        assert forall|i: int| 0 <= i < word.len() implies text::ascii_lower(#[trigger] word[i])
            == text::ascii_lower(command[i]) by {
            assert('A' <= command[i] && command[i] <= 'Z');
        }
    }
}

/// A line that is none of the commands leaves what was read before it as it was.
proof fn lemma_nothing(
    reading: Reading,
    tokens: Seq<Seq<char>>,
    dir: Seq<char>,
    present: Seq<Seq<char>>,
)
    requires
        tokens.len() > 0 ==> means_nothing(tokens[0]),
    ensures
        reading.line(tokens, dir, present) == Ok::<Reading, CueFault>(reading),
{
    if tokens.len() > 0 {
        lemma_commands();
        lemma_same_letters(tokens[0], "FILE"@);
        lemma_same_letters(tokens[0], "TRACK"@);
        lemma_same_letters(tokens[0], "TITLE"@);
        lemma_same_letters(tokens[0], "PERFORMER"@);
        lemma_same_letters(tokens[0], "INDEX"@);
    }
}

/// A line of a sheet that is no `FILE`, `TRACK`, `TITLE`, `PERFORMER` or `INDEX` changes nothing,
/// wherever it stands: the sheet reads to the same tracks, or is refused for the same reason, as
/// it does without the line.
pub proof fn a_line_that_is_no_command_changes_nothing(
    above: Seq<char>,
    line: Seq<char>,
    ending: Seq<char>,
    below: Seq<char>,
    dir: Seq<char>,
    present: Seq<Seq<char>>,
)
    requires
        above.len() > 0 ==> above.last() == '\n',
        forall|i: int| 0 <= i < line.len() ==> #[trigger] line[i] != '\n',
        line.len() > 0 ==> line.last() != '\r',
        ending == seq!['\n'] || ending == seq!['\r', '\n'],
        cue::words(line, 0).len() > 0 ==> means_nothing(cue::words(line, 0)[0]),
    ensures
        cue::sheet_tracks(above + (line + ending + below), dir, present) == cue::sheet_tracks(
            above + below,
            dir,
            present,
        ),
{
    let start = cue::reading_start();
    let rest = line + ending + below;
    lemma_reading_head(above, rest, 0, start, dir, present);
    lemma_reading_head(above, below, 0, start, dir, present);
    match cue::sheet_reading(above, 0, start, dir, present) {
        Err(_) => {},
        Ok(reading) => {
            lemma_line_passed(line, ending, below, reading, dir, present);
        },
    }
}

proof fn lemma_line_passed(
    line: Seq<char>,
    ending: Seq<char>,
    below: Seq<char>,
    reading: Reading,
    dir: Seq<char>,
    present: Seq<Seq<char>>,
)
    requires
        forall|i: int| 0 <= i < line.len() ==> #[trigger] line[i] != '\n',
        line.len() > 0 ==> line.last() != '\r',
        ending == seq!['\n'] || ending == seq!['\r', '\n'],
        cue::words(line, 0).len() > 0 ==> means_nothing(cue::words(line, 0)[0]),
    ensures
        cue::sheet_reading(line + ending + below, 0, reading, dir, present) == cue::sheet_reading(
            below,
            0,
            reading,
            dir,
            present,
        ),
{
    let rest = line + ending + below;
    lemma_line(line, ending, below);
    lemma_nothing(reading, cue::words(line, 0), dir, present);
    assert(rest.len() > 0);
    assert(rest == (line + ending) + below);
    lemma_reading_shift(line + ending, below, 0, reading, dir, present);
}

/// Where a line with a line ending stops, and what it is without it.
proof fn lemma_line(line: Seq<char>, ending: Seq<char>, below: Seq<char>)
    requires
        forall|i: int| 0 <= i < line.len() ==> #[trigger] line[i] != '\n',
        line.len() > 0 ==> line.last() != '\r',
        ending == seq!['\n'] || ending == seq!['\r', '\n'],
    ensures
        text::letter_at(line + ending + below, '\n', 0) + 1 == line.len() + ending.len(),
        cue::line_at(line + ending + below, 0) == line,
{
    let rest = line + ending + below;
    let end = line.len() + ending.len() - 1;
    assert forall|i: int| 0 <= i < end implies #[trigger] rest[i] != '\n' by {
        if i < line.len() {
            assert(rest[i] == line[i]);
        } else {
            assert(rest[i] == ending[i - line.len()]);
        }
    }
    assert(rest[end] == ending[ending.len() - 1]);
    lemma_letter_found(rest, '\n', 0, end);
    if end > 0 {
        if ending.len() == 1 {
            assert(rest[end - 1] == line.last());
        } else {
            assert(rest[end - 1] == ending[0]);
        }
    }
    assert(cue::line_at(rest, 0) =~= line);
}

/// A time as a sheet writes it.
pub struct Time {
    pub minutes: nat,
    pub seconds: nat,
    pub frames: nat,
}

impl Time {
    /// Minutes, seconds and frames between colons.
    pub open spec fn spelled(self) -> Seq<char> {
        text::decimal(self.minutes) + seq![':'] + text::decimal(self.seconds) + seq![':']
            + text::decimal(self.frames)
    }

    /// How many seventy-fifths of a second that is.
    pub open spec fn value(self) -> nat {
        (self.minutes * 60 + self.seconds) * 75 + self.frames
    }
}

/// A track as a sheet describes it.
pub struct Song {
    pub number: u32,
    pub title: Seq<char>,
    /// Who plays it, where that is not who plays the album.
    pub artist: Option<Seq<char>>,
    /// Where the gap ahead of it starts, where there is one.
    pub gap: Option<Time>,
    pub start: Time,
}

/// An album in one file, as a sheet describes it.
pub struct Album {
    pub title: Seq<char>,
    pub artist: Seq<char>,
    pub file: Seq<char>,
    pub songs: Seq<Song>,
}

/// A name that can stand between quotes and has no white space around it.
pub open spec fn is_name(name: Seq<char>) -> bool {
    &&& name.len() > 0
    &&& !text::is_space(name[0])
    &&& !text::is_space(name.last())
    &&& forall|i: int| 0 <= i < name.len() ==> #[trigger] name[i] != '"' && name[i] != '\n'
}

/// The lines that a track takes.
pub open spec fn song_lines(song: Song) -> Seq<Seq<Word>> {
    seq![
        seq![
            Word::Plain("TRACK"@),
            Word::Plain(text::decimal(song.number as nat)),
            Word::Plain("AUDIO"@),
        ],
        seq![Word::Plain("TITLE"@), Word::Quoted(song.title)],
    ] + (match song.artist {
        Some(artist) => seq![seq![Word::Plain("PERFORMER"@), Word::Quoted(artist)]],
        None => Seq::empty(),
    }) + (match song.gap {
        Some(gap) => seq![
            seq![Word::Plain("INDEX"@), Word::Plain("00"@), Word::Plain(gap.spelled())],
        ],
        None => Seq::empty(),
    }) + seq![
        seq![Word::Plain("INDEX"@), Word::Plain("01"@), Word::Plain(song.start.spelled())],
    ]
}

/// The lines that the tracks take, one after the other.
pub open spec fn songs_lines(songs: Seq<Song>) -> Seq<Seq<Word>>
    decreases songs.len(),
{
    if songs.len() == 0 {
        Seq::empty()
    } else {
        song_lines(songs[0]) + songs_lines(songs.skip(1))
    }
}

/// The lines ahead of the tracks: who plays, the album's name, and the file.
pub open spec fn head_lines(album: Album) -> Seq<Seq<Word>> {
    seq![
        seq![Word::Plain("PERFORMER"@), Word::Quoted(album.artist)],
        seq![Word::Plain("TITLE"@), Word::Quoted(album.title)],
        seq![Word::Plain("FILE"@), Word::Quoted(album.file), Word::Plain("WAVE"@)],
    ]
}

/// The sheet of an album.
pub open spec fn sheet_of(album: Album) -> Seq<char> {
    page(head_lines(album) + songs_lines(album.songs))
}

/// An album that a sheet can describe.
pub open spec fn describable(album: Album) -> bool {
    &&& is_name(album.title)
    &&& is_name(album.artist)
    &&& is_name(album.file)
    &&& forall|i: int| 0 <= i < album.songs.len() ==> describable_song(#[trigger] album.songs[i])
}

/// A track that a sheet can describe.
pub open spec fn describable_song(song: Song) -> bool {
    &&& is_name(song.title)
    &&& song.artist matches Some(artist) ==> is_name(artist)
    &&& song.start.value() <= u64::MAX
    &&& song.gap matches Some(gap) ==> gap.value() <= u64::MAX
}

/// What is read once the words of one more line have been taken in.
#[verifier::opaque]
spec fn taken(
    line: Seq<Word>,
    reading: Reading,
    dir: Seq<char>,
    present: Seq<Seq<char>>,
) -> Result<Reading, CueFault> {
    reading.line(said(line), dir, present)
}

/// What is read once the words of each line in turn have been taken in.
spec fn folded(
    lines: Seq<Seq<Word>>,
    reading: Reading,
    dir: Seq<char>,
    present: Seq<Seq<char>>,
) -> Result<Reading, CueFault>
    decreases lines.len(),
{
    if lines.len() == 0 {
        Ok(reading)
    } else {
        match taken(lines[0], reading, dir, present) {
            Err(fault) => Err(fault),
            Ok(next) => folded(lines.skip(1), next, dir, present),
        }
    }
}

proof fn lemma_folded_on(
    first: Seq<Seq<Word>>,
    second: Seq<Seq<Word>>,
    reading: Reading,
    dir: Seq<char>,
    present: Seq<Seq<char>>,
)
    ensures
        folded(first + second, reading, dir, present) == (match folded(
            first,
            reading,
            dir,
            present,
        ) {
            Err(fault) => Err::<Reading, CueFault>(fault),
            Ok(next) => folded(second, next, dir, present),
        }),
    decreases first.len(),
{
    if first.len() == 0 {
        assert(first + second =~= second);
    } else {
        assert((first + second)[0] == first[0]);
        assert((first + second).skip(1) =~= first.skip(1) + second);
        match taken(first[0], reading, dir, present) {
            Err(_) => {},
            Ok(next) => {
                lemma_folded_on(first.skip(1), second, next, dir, present);
            },
        }
    }
}

proof fn lemma_spelled_line(line: Seq<Word>)
    requires
        writable(line),
    ensures
        forall|i: int| 0 <= i < spelled(line).len() ==> #[trigger] spelled(line)[i] != '\n',
        spelled(line).len() > 0 ==> spelled(line).last() != '\r',
    decreases line.len(),
{
    if line.len() > 0 {
        let rest = line.skip(1);
        let own = line[0].spelled();
        let whole = spelled(line);
        assert forall|i: int| 0 <= i < rest.len() implies (#[trigger] rest[i]).wf() by {
            assert(rest[i] == line[i + 1]);
        }
        lemma_spelled_line(rest);
        assert(line[0].wf());
        assert(own.len() > 0);
        assert forall|i: int| 0 <= i < own.len() implies #[trigger] own[i] != '\n' by {
            match line[0] {
                Word::Plain(text) => {
                    assert(!is_gap(text[i]));
                },
                Word::Quoted(text) => {
                    if 0 < i < own.len() - 1 {
                        assert(own[i] == text[i - 1]);
                    }
                },
            }
        }
        match line[0] {
            Word::Plain(text) => {
                assert(!is_gap(text[text.len() - 1]));
            },
            Word::Quoted(_) => {},
        }
        assert forall|i: int| 0 <= i < whole.len() implies #[trigger] whole[i] != '\n' by {
            if i == 0 {
            } else if i < 1 + own.len() {
                assert(whole[i] == own[i - 1]);
            } else {
                assert(whole[i] == spelled(rest)[i - 1 - own.len()]);
            }
        }
        if spelled(rest).len() == 0 {
            assert(whole.last() == own.last());
        } else {
            assert(whole.last() == spelled(rest).last());
        }
    }
}

proof fn lemma_page(
    lines: Seq<Seq<Word>>,
    reading: Reading,
    dir: Seq<char>,
    present: Seq<Seq<char>>,
)
    requires
        forall|i: int| 0 <= i < lines.len() ==> writable(#[trigger] lines[i]),
    ensures
        cue::sheet_reading(page(lines), 0, reading, dir, present) == folded(
            lines,
            reading,
            dir,
            present,
        ),
    decreases lines.len(),
{
    if lines.len() > 0 {
        let line = spelled(lines[0]);
        let below = page(lines.skip(1));
        let ending = seq!['\n'];
        assert(writable(lines[0]));
        lemma_spelled_line(lines[0]);
        lemma_line(line, ending, below);
        a_line_reads_as_its_words(lines[0]);
        assert(page(lines) == line + ending + below);
        assert forall|i: int| 0 <= i < lines.skip(1).len() implies writable(
            #[trigger] lines.skip(1)[i],
        ) by {
            assert(lines.skip(1)[i] == lines[i + 1]);
        }
        reveal(taken);
        match taken(lines[0], reading, dir, present) {
            Err(_) => {},
            Ok(next) => {
                lemma_page(lines.skip(1), next, dir, present);
                lemma_reading_shift(line + ending, below, 0, next, dir, present);
            },
        }
    }
}

proof fn lemma_digits(value: nat)
    ensures
        Word::Plain(text::decimal(value)).wf(),
        forall|i: int|
            0 <= i < text::decimal(value).len() ==> {
                let letter = #[trigger] text::decimal(value)[i];
                '0' <= letter && letter <= '9'
            },
{
    text::decimal_reads_back(value);
    let digits = text::decimal(value);
    assert forall|i: int| 0 <= i < digits.len() implies '0' <= #[trigger] digits[i] && digits[i]
        <= '9' by {
        assert(text::is_digit(digits[i]));
    }
}

/// A run of digits is the number it spells, up to any bound that the number keeps.
proof fn lemma_number(value: nat, max: int)
    requires
        value <= max,
    ensures
        text::parsed(text::decimal(value), max) == Some(value),
        text::parsed(text::trimmed(text::decimal(value)), max) == Some(value),
{
    let digits = text::decimal(value);
    text::decimal_reads_back(value);
    lemma_digits(value);
    assert('0' <= digits[0] && digits[0] <= '9');
    assert('0' <= digits[digits.len() - 1] && digits[digits.len() - 1] <= '9');
}

/// A time that a sheet spells out is read as so many seventy-fifths of a second.
pub proof fn a_time_reads_as_its_value(time: Time)
    requires
        time.value() <= u64::MAX,
    ensures
        cue::time_of(time.spelled()) == Some(time.value() as u64),
        Word::Plain(time.spelled()).wf(),
{
    let m = text::decimal(time.minutes);
    let s = text::decimal(time.seconds);
    let f = text::decimal(time.frames);
    let text = time.spelled();
    let first = m.len() as int;
    let second = first + 1 + s.len();
    lemma_digits(time.minutes);
    lemma_digits(time.seconds);
    lemma_digits(time.frames);
    text::decimal_reads_back(time.minutes);
    text::decimal_reads_back(time.seconds);
    text::decimal_reads_back(time.frames);
    assert forall|i: int| 0 <= i < text.len() implies #[trigger] text[i] == (if i < first {
        m[i]
    } else if i == first {
        ':'
    } else if i < second {
        s[i - first - 1]
    } else if i == second {
        ':'
    } else {
        f[i - second - 1]
    }) by {}
    lemma_letter_found(text, ':', 0, first);
    lemma_letter_found(text, ':', first + 1, second);
    lemma_letter_found(text, ':', second + 1, text.len() as int);
    assert(text.subrange(0, first) =~= m);
    assert(text.subrange(first + 1, second) =~= s);
    assert(text.subrange(second + 1, text.len() as int) =~= f);
    lemma_number(time.minutes, u64::MAX as int);
    lemma_number(time.seconds, u64::MAX as int);
    lemma_number(time.frames, u64::MAX as int);
    assert(text[0] == m[0]);
}

/// What a track has come to once all its lines are read.
spec fn opened(song: Song, file: Seq<char>, file_index: int) -> Open {
    Open {
        number: song.number,
        file,
        file_index,
        index0: match song.gap {
            Some(gap) => Some(CueTime(gap.value() as u64)),
            None => None,
        },
        index1: Some(CueTime(song.start.value() as u64)),
        tags: Tags { title: Some(song.title), artist: song.artist, album: None, track: None },
    }
}

/// One line is read by the command it starts with.
proof fn lemma_command(
    reading: Reading,
    tokens: Seq<Seq<char>>,
    dir: Seq<char>,
    present: Seq<Seq<char>>,
)
    requires
        tokens.len() > 0,
    ensures
        tokens[0] == "TRACK"@ ==> reading.line(tokens, dir, present) == reading.track(
            tokens.skip(1),
        ),
        tokens[0] == "TITLE"@ ==> reading.line(tokens, dir, present) == Ok::<Reading, CueFault>(
            reading.named(tokens.skip(1), true),
        ),
        tokens[0] == "PERFORMER"@ ==> reading.line(tokens, dir, present) == Ok::<
            Reading,
            CueFault,
        >(reading.named(tokens.skip(1), false)),
        tokens[0] == "INDEX"@ ==> reading.line(tokens, dir, present) == reading.index(
            tokens.skip(1),
        ),
        tokens[0] == "FILE"@ && tokens.len() > 1 ==> reading.line(tokens, dir, present) == Ok::<
            Reading,
            CueFault,
        >(
            Reading {
                file: Some(cue::resolved(dir, tokens[1], present)),
                file_index: reading.file_index + 1,
                ..reading
            },
        ),
{
    lemma_commands();
    let word = tokens[0];
    lemma_same_letters(word, "FILE"@);
    lemma_same_letters(word, "TRACK"@);
    lemma_same_letters(word, "TITLE"@);
    lemma_same_letters(word, "PERFORMER"@);
    lemma_same_letters(word, "INDEX"@);
    if word == "TITLE"@ {
        assert(word[1] == 'I');
        assert(!is_command(word, "TRACK"@));
    }
    if word == "INDEX"@ {
        assert(word[0] == 'I');
        assert(!is_command(word, "TRACK"@));
        assert(!is_command(word, "TITLE"@));
    }
}

proof fn lemma_name(name: Seq<char>)
    requires
        is_name(name),
    ensures
        text::trimmed(name) == name,
        Word::Quoted(name).wf(),
{
}

spec fn track_line(song: Song) -> Seq<Word> {
    seq![
        Word::Plain("TRACK"@),
        Word::Plain(text::decimal(song.number as nat)),
        Word::Plain("AUDIO"@),
    ]
}

spec fn name_line(command: Seq<char>, name: Seq<char>) -> Seq<Word> {
    seq![Word::Plain(command), Word::Quoted(name)]
}

spec fn time_line(index: Seq<char>, time: Time) -> Seq<Word> {
    seq![Word::Plain("INDEX"@), Word::Plain(index), Word::Plain(time.spelled())]
}

proof fn lemma_track_line(
    song: Song,
    reading: Reading,
    dir: Seq<char>,
    present: Seq<Seq<char>>,
    file: Seq<char>,
)
    requires
        reading.file == Some(file),
        !reading.data_track,
    ensures
        writable(track_line(song)),
        taken(track_line(song), reading, dir, present) == Ok::<Reading, CueFault>(
            Reading {
                pending: reading.pending.push(
                    Open {
                        number: song.number,
                        file,
                        file_index: reading.file_index,
                        index0: None,
                        index1: None,
                        tags: Tags { title: None, artist: None, album: None, track: None },
                    },
                ),
                ..reading
            },
        ),
{
    reveal(taken);
    let line = track_line(song);
    lemma_commands();
    lemma_digits(song.number as nat);
    lemma_number(song.number as nat, u32::MAX as int);
    lemma_same_letters("AUDIO"@, "AUDIO"@);
    assert(is_command("AUDIO"@, "AUDIO"@));
    lemma_command(reading, said(line), dir, present);
    assert(said(line)[0] == "TRACK"@);
    assert(said(line).skip(1) =~= seq![text::decimal(song.number as nat), "AUDIO"@]);
}

proof fn lemma_name_line(
    reading: Reading,
    name: Seq<char>,
    dir: Seq<char>,
    present: Seq<Seq<char>>,
    before: Seq<Open>,
    last: Open,
)
    requires
        is_name(name),
        !reading.data_track,
        reading.pending == before.push(last),
    ensures
        writable(name_line("TITLE"@, name)),
        writable(name_line("PERFORMER"@, name)),
        taken(name_line("TITLE"@, name), reading, dir, present) == Ok::<Reading, CueFault>(
            Reading {
                pending: before.push(Open { tags: Tags { title: Some(name), ..last.tags }, ..last }),
                ..reading
            },
        ),
        taken(name_line("PERFORMER"@, name), reading, dir, present) == Ok::<Reading, CueFault>(
            Reading {
                pending: before.push(
                    Open { tags: Tags { artist: Some(name), ..last.tags }, ..last },
                ),
                ..reading
            },
        ),
{
    reveal(taken);
    lemma_commands();
    lemma_name(name);
    let title = name_line("TITLE"@, name);
    let player = name_line("PERFORMER"@, name);
    lemma_command(reading, said(title), dir, present);
    lemma_command(reading, said(player), dir, present);
    assert(said(title)[0] == "TITLE"@ && said(player)[0] == "PERFORMER"@);
    assert(said(title).skip(1) =~= seq![name]);
    assert(said(player).skip(1) =~= seq![name]);
    assert(reading.named(seq![name], true).pending =~= before.push(
        Open { tags: Tags { title: Some(name), ..last.tags }, ..last },
    ));
    assert(reading.named(seq![name], false).pending =~= before.push(
        Open { tags: Tags { artist: Some(name), ..last.tags }, ..last },
    ));
}

proof fn lemma_time_line(
    reading: Reading,
    time: Time,
    dir: Seq<char>,
    present: Seq<Seq<char>>,
    before: Seq<Open>,
    last: Open,
)
    requires
        time.value() <= u64::MAX,
        !reading.data_track,
        reading.pending == before.push(last),
    ensures
        writable(time_line("00"@, time)),
        writable(time_line("01"@, time)),
        taken(time_line("00"@, time), reading, dir, present) == Ok::<Reading, CueFault>(
            Reading {
                pending: before.push(
                    Open { index0: Some(CueTime(time.value() as u64)), ..last },
                ),
                ..reading
            },
        ),
        taken(time_line("01"@, time), reading, dir, present) == Ok::<Reading, CueFault>(
            Reading {
                pending: before.push(
                    Open { index1: Some(CueTime(time.value() as u64)), ..last },
                ),
                ..reading
            },
        ),
{
    reveal(taken);
    lemma_commands();
    lemma_indices();
    a_time_reads_as_its_value(time);
    let gap = time_line("00"@, time);
    let start = time_line("01"@, time);
    lemma_command(reading, said(gap), dir, present);
    lemma_command(reading, said(start), dir, present);
    assert(said(gap)[0] == "INDEX"@ && said(start)[0] == "INDEX"@);
    assert(said(gap).skip(1) =~= seq!["00"@, time.spelled()]);
    assert(said(start).skip(1) =~= seq!["01"@, time.spelled()]);
    assert(reading.pending.update(
        before.len() as int,
        Open { index0: Some(CueTime(time.value() as u64)), ..last },
    ) =~= before.push(Open { index0: Some(CueTime(time.value() as u64)), ..last }));
    assert(reading.pending.update(
        before.len() as int,
        Open { index1: Some(CueTime(time.value() as u64)), ..last },
    ) =~= before.push(Open { index1: Some(CueTime(time.value() as u64)), ..last }));
}

proof fn lemma_one_line(
    line: Seq<Word>,
    reading: Reading,
    dir: Seq<char>,
    present: Seq<Seq<char>>,
)
    ensures
        folded(seq![line], reading, dir, present) == taken(line, reading, dir, present),
{
    reveal_with_fuel(folded, 2);
    assert(seq![line].skip(1) =~= Seq::empty());
}

proof fn lemma_song(
    song: Song,
    reading: Reading,
    dir: Seq<char>,
    present: Seq<Seq<char>>,
    file: Seq<char>,
)
    requires
        describable_song(song),
        reading.file == Some(file),
        !reading.data_track,
    ensures
        folded(song_lines(song), reading, dir, present) == Ok::<Reading, CueFault>(
            Reading {
                pending: reading.pending.push(opened(song, file, reading.file_index)),
                ..reading
            },
        ),
        forall|i: int| 0 <= i < song_lines(song).len() ==> writable(#[trigger] song_lines(song)[i]),
{
    let before = reading.pending;
    let done = opened(song, file, reading.file_index);
    let blank = Open {
        index0: None,
        index1: None,
        tags: Tags { title: None, artist: None, album: None, track: None },
        ..done
    };
    let titled = Open { tags: Tags { title: Some(song.title), ..blank.tags }, ..blank };
    let sung = Open { tags: done.tags, ..titled };
    let gapped = Open { index0: done.index0, ..sung };
    let r1 = Reading { pending: before.push(blank), ..reading };
    let r2 = Reading { pending: before.push(titled), ..reading };
    let r3 = Reading { pending: before.push(sung), ..reading };
    let r4 = Reading { pending: before.push(gapped), ..reading };
    let one = seq![track_line(song)];
    let two = seq![name_line("TITLE"@, song.title)];
    let three: Seq<Seq<Word>> = match song.artist {
        Some(artist) => seq![name_line("PERFORMER"@, artist)],
        None => Seq::empty(),
    };
    let four: Seq<Seq<Word>> = match song.gap {
        Some(gap) => seq![time_line("00"@, gap)],
        None => Seq::empty(),
    };
    let five = seq![time_line("01"@, song.start)];
    lemma_track_line(song, reading, dir, present, file);
    lemma_one_line(one[0], reading, dir, present);
    lemma_name_line(r1, song.title, dir, present, before, blank);
    lemma_one_line(two[0], r1, dir, present);
    match song.artist {
        Some(artist) => {
            lemma_name_line(r2, artist, dir, present, before, titled);
            lemma_one_line(three[0], r2, dir, present);
        },
        None => {},
    }
    match song.gap {
        Some(gap) => {
            lemma_time_line(r3, gap, dir, present, before, sung);
            lemma_one_line(four[0], r3, dir, present);
        },
        None => {},
    }
    lemma_time_line(r4, song.start, dir, present, before, gapped);
    lemma_one_line(five[0], r4, dir, present);
    let lines = song_lines(song);
    assert(lines =~= one + two + three + four + five);
    lemma_folded_on(one + two + three + four, five, reading, dir, present);
    lemma_folded_on(one + two + three, four, reading, dir, present);
    lemma_folded_on(one + two, three, reading, dir, present);
    lemma_folded_on(one, two, reading, dir, present);
    assert forall|i: int| 0 <= i < lines.len() implies writable(#[trigger] lines[i]) by {
        let place = (one + two + three + four + five)[i];
        assert(lines[i] == place);
        if i >= 2 + three.len() + four.len() {
            assert(place == five[0]);
        } else if i >= 2 + three.len() {
            assert(place == four[0]);
        } else if i >= 2 {
            assert(place == three[0]);
        }
    }
}

proof fn lemma_indices()
    ensures
        text::parsed("00"@, u32::MAX as int) == Some(0nat),
        text::parsed("01"@, u32::MAX as int) == Some(1nat),
{
    lemma_commands();
    reveal_with_fuel(text::number, 3);
    assert("00"@.take(1).take(0) =~= Seq::empty());
    assert("01"@.take(1).take(0) =~= Seq::empty());
    assert("00"@.take("00"@.len() - 1) =~= seq!['0']);
    assert("01"@.take("01"@.len() - 1) =~= seq!['0']);
    assert(seq!['0'].take(0) =~= Seq::<char>::empty());
}

proof fn lemma_songs(
    songs: Seq<Song>,
    reading: Reading,
    dir: Seq<char>,
    present: Seq<Seq<char>>,
    file: Seq<char>,
)
    requires
        forall|i: int| 0 <= i < songs.len() ==> describable_song(#[trigger] songs[i]),
        reading.file == Some(file),
        !reading.data_track,
    ensures
        folded(songs_lines(songs), reading, dir, present) == Ok::<Reading, CueFault>(
            Reading {
                pending: reading.pending + Seq::new(
                    songs.len(),
                    |i: int| opened(songs[i], file, reading.file_index),
                ),
                ..reading
            },
        ),
        forall|i: int|
            0 <= i < songs_lines(songs).len() ==> writable(#[trigger] songs_lines(songs)[i]),
    decreases songs.len(),
{
    let all = Seq::new(songs.len(), |i: int| opened(songs[i], file, reading.file_index));
    if songs.len() == 0 {
        assert(reading.pending + all =~= reading.pending);
    } else {
        let rest = songs.skip(1);
        let next = Reading {
            pending: reading.pending.push(opened(songs[0], file, reading.file_index)),
            ..reading
        };
        assert(describable_song(songs[0]));
        assert forall|i: int| 0 <= i < rest.len() implies describable_song(#[trigger] rest[i]) by {
            assert(rest[i] == songs[i + 1]);
        }
        lemma_song(songs[0], reading, dir, present, file);
        lemma_songs(rest, next, dir, present, file);
        lemma_folded_on(song_lines(songs[0]), songs_lines(rest), reading, dir, present);
        let later = Seq::new(rest.len(), |i: int| opened(rest[i], file, reading.file_index));
        assert(next.pending + later =~= reading.pending + all);
        assert forall|i: int| 0 <= i < songs_lines(songs).len() implies writable(
            #[trigger] songs_lines(songs)[i],
        ) by {
            let own = song_lines(songs[0]);
            if i < own.len() {
                assert(songs_lines(songs)[i] == own[i]);
            } else {
                assert(songs_lines(songs)[i] == songs_lines(rest)[i - own.len()]);
            }
        }
    }
}

/// The track that a song of an album comes out as: its own number and title, its own player or
/// the album's, and from its start to the start of the next song, or to the end of the file.
pub open spec fn track_of(album: Album, index: int, place: Seq<char>) -> Track {
    let song = album.songs[index];
    Track {
        number: song.number,
        file: place,
        start: CueTime(song.start.value() as u64),
        end: if index + 1 < album.songs.len() {
            Some(CueTime(album.songs[index + 1].start.value() as u64))
        } else {
            None
        },
        tags: Tags {
            title: Some(song.title),
            artist: Some(
                match song.artist {
                    Some(artist) => artist,
                    None => album.artist,
                },
            ),
            album: Some(album.title),
            track: Some(song.number),
        },
    }
}

/// A sheet spelled out from an album reads back as the album: a track for every song, in order,
/// each under its own names and with its own stretch of the file, which lies beside the sheet.
pub proof fn a_sheet_reads_back_as_its_album(
    album: Album,
    dir: Seq<char>,
    present: Seq<Seq<char>>,
)
    requires
        describable(album),
        dir.len() > 0,
        dir.last() != '/',
        album.file[0] != '/',
        forall|i: int| 0 <= i < album.file.len() ==> #[trigger] album.file[i] != '\\',
        present.contains(dir + seq!['/'] + album.file),
    ensures
        cue::sheet_tracks(sheet_of(album), dir, present) == Ok::<Seq<Track>, CueFault>(
            Seq::new(
                album.songs.len(),
                |i: int| track_of(album, i, dir + seq!['/'] + album.file),
            ),
        ),
{
    let place = dir + seq!['/'] + album.file;
    let start = cue::reading_start();
    let head = head_lines(album);
    let lines = head + songs_lines(album.songs);
    let sung = Tags { title: None, artist: Some(album.artist), album: None, track: None };
    let named = Tags { title: Some(album.title), ..sung };
    let r1 = Reading { album: sung, ..start };
    let r2 = Reading { album: named, ..start };
    let r3 = Reading { file: Some(place), file_index: 1, ..r2 };
    lemma_commands();
    lemma_name(album.artist);
    lemma_name(album.title);
    lemma_name(album.file);
    assert(folded(head, start, dir, present) == Ok::<Reading, CueFault>(r3)) by {
        reveal(taken);
        lemma_command(start, said(head[0]), dir, present);
        assert(said(head[0]).skip(1) =~= seq![album.artist]);
        assert(start.named(seq![album.artist], false) == r1);
        lemma_command(r1, said(head[1]), dir, present);
        assert(said(head[1]).skip(1) =~= seq![album.title]);
        assert(r1.named(seq![album.title], true) == r2);
        lemma_command(r2, said(head[2]), dir, present);
        assert(cue::slashed(album.file) =~= album.file);
        assert(path::joined(dir, album.file) =~= place);
        assert(said(head[2])[1] == album.file);
        assert(head.skip(1)[0] == head[1]);
        assert(head.skip(1).skip(1)[0] == head[2]);
        reveal_with_fuel(folded, 4);
    }
    lemma_songs(album.songs, r3, dir, present, place);
    lemma_folded_on(head, songs_lines(album.songs), start, dir, present);
    assert forall|i: int| 0 <= i < lines.len() implies writable(#[trigger] lines[i]) by {
        if i < head.len() {
            assert(lines[i] == head[i]);
            assert(writable(head[0]) && writable(head[1]) && writable(head[2]));
        } else {
            assert(lines[i] == songs_lines(album.songs)[i - head.len()]);
        }
    }
    lemma_page(lines, start, dir, present);
    let pending = Seq::new(album.songs.len(), |i: int| opened(album.songs[i], place, 1));
    assert(r3.pending + pending =~= pending);
    let known = Tags { album: named.title, title: None, ..named };
    lemma_linked(album, pending, known, place, 0);
    assert(cue::linked(pending, known, 0) =~= Seq::new(
        album.songs.len(),
        |i: int| track_of(album, i, place),
    ));
}

proof fn lemma_linked(album: Album, pending: Seq<Open>, known: Tags, place: Seq<char>, from: int)
    requires
        0 <= from <= pending.len(),
        pending == Seq::new(album.songs.len(), |i: int| opened(album.songs[i], place, 1)),
        known == (Tags {
            album: Some(album.title),
            artist: Some(album.artist),
            title: None,
            track: None,
        }),
    ensures
        cue::linked(pending, known, from).len() == pending.len() - from,
        forall|i: int|
            0 <= i < pending.len() - from ==> #[trigger] cue::linked(pending, known, from)[i]
                == track_of(album, from + i, place),
    decreases pending.len() - from,
{
    if from < pending.len() {
        lemma_linked(album, pending, known, place, from + 1);
        let later = cue::linked(pending, known, from + 1);
        if from + 1 < pending.len() {
            assert(pending[from + 1].start() is Some);
        }
        assert(cue::end_of(pending, from) == track_of(album, from, place).end);
        assert(pending[from].finished(cue::end_of(pending, from), known) == Some(
            track_of(album, from, place),
        ));
        let all = cue::linked(pending, known, from);
        assert(all == seq![track_of(album, from, place)] + later);
        assert forall|i: int| 0 <= i < pending.len() - from implies #[trigger] all[i] == track_of(
            album,
            from + i,
            place,
        ) by {
            if i > 0 {
                assert(all[i] == later[i - 1]);
            }
        }
    }
}

} // verus!
