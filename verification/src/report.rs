//! What the command line prints of devices and files.

use crate::dsd::DsdRate;
use crate::reader::tags::{Tags, TrackTags};
use crate::text;
use vstd::prelude::*;

verus! {

/// The tag lines there are, as labels and values.
pub open spec fn tag_lines(tags: Tags) -> Seq<(Seq<char>, Seq<char>)> {
    let line = |label: Seq<char>, value: Option<Seq<char>>| match value {
        Some(value) => seq![(label, value)],
        None => Seq::empty(),
    };
    line("title"@, tags.title) + line("artist"@, tags.artist) + line("album"@, tags.album) + line(
        "track"@,
        match tags.track {
            Some(number) => Some(text::decimal(number as nat)),
            None => None,
        },
    )
}

/// Lines as characters.
pub open spec fn lines_view(lines: Seq<(&'static str, String)>) -> Seq<(Seq<char>, Seq<char>)> {
    lines.map_values(|line: (&'static str, String)| (line.0@, line.1@))
}

fn push_line(lines: &mut Vec<(&'static str, String)>, label: &'static str, value: &Option<String>)
    ensures
        lines_view(final(lines)@) == lines_view(old(lines)@) + (match text::option_view(*value) {
            Some(value) => seq![(label@, value)],
            None => Seq::empty(),
        }),
{
    let ghost before = lines_view(lines@);
    match value {
        Some(value) => {
            lines.push((label, text::owned(value.as_str())));
            assert(lines_view(lines@) =~= before + seq![(label@, value@)]);
        },
        None => {
            assert(before =~= before + Seq::empty());
        },
    }
}

/// The tag lines a file has something to say on, in the order a listener reads them.
pub fn tag_rows(tags: &TrackTags) -> (lines: Vec<(&'static str, String)>)
    ensures
        lines_view(lines@) == tag_lines(tags@),
{
    let mut lines: Vec<(&'static str, String)> = Vec::new();
    let number: Option<String> = match tags.track {
        Some(number) => Some(text::decimal_of(number as u64)),
        None => None,
    };
    assert(lines_view(lines@) =~= Seq::empty());
    push_line(&mut lines, "title", &tags.title);
    push_line(&mut lines, "artist", &tags.artist);
    push_line(&mut lines, "album", &tags.album);
    push_line(&mut lines, "track", &number);
    assert(lines_view(lines@) =~= tag_lines(tags@));
    lines
}

/// Texts with a blank between each and the next.
pub open spec fn spaced(texts: Seq<Seq<char>>) -> Seq<char>
    decreases texts.len(),
{
    if texts.len() == 0 {
        Seq::empty()
    } else if texts.len() == 1 {
        texts[0]
    } else {
        spaced(texts.drop_last()) + " "@ + texts.last()
    }
}

/// A PCM rate and the DSD tier it carries as DoP.
pub open spec fn dop_text(rate: u32) -> Seq<char> {
    text::decimal(rate as nat) + "/DSD"@ + text::decimal((rate * 16 / 44_100) as nat)
}

/// The DoP rates of a device, or that there are none.
pub open spec fn dop_line(rates: Seq<u32>) -> Seq<char> {
    if rates.len() == 0 {
        "none"@
    } else {
        spaced(rates.map_values(|rate: u32| dop_text(rate)))
    }
}

/// The DoP rates of a device, or that there are none: each carrier rate, and the DSD tier it
/// carries.
pub fn dop_rates(rates: &Vec<u32>) -> (line: String)
    ensures
        line@ == dop_line(rates@),
{
    if rates.len() == 0 {
        return text::owned("none");
    }
    let ghost texts = rates@.map_values(|rate: u32| dop_text(rate));
    let mut line: String = String::new();
    let mut i: usize = 0;
    assert(texts.take(0) =~= Seq::empty());
    while i < rates.len()
        invariant
            i <= rates@.len(),
            texts == rates@.map_values(|rate: u32| dop_text(rate)),
            line@ == spaced(texts.take(i as int)),
        decreases rates@.len() - i,
    {
        let rate: u32 = rates[i];
        let mut part: String = text::decimal_of(rate as u64);
        part.append("/DSD");
        part.append(text::decimal_of(rate as u64 * 16 / 44_100).as_str());
        if i > 0 {
            line.append(" ");
        }
        line.append(part.as_str());
        i += 1;
        proof {
            let head = texts.take(i as int);
            assert(head.drop_last() =~= texts.take(i - 1));
            assert(head.last() == dop_text(rate));
            assert(line@ =~= spaced(head));
        }
    }
    assert(texts.take(texts.len() as int) =~= texts);
    line
}

/// The frame rates a DAC's clock runs at and the DSD tiers they carry natively, as far as a
/// rate has a tier.
pub open spec fn native_texts(rates: Seq<u32>) -> Seq<Seq<char>>
    decreases rates.len(),
{
    if rates.len() == 0 {
        Seq::empty()
    } else {
        let texts = native_texts(rates.drop_last());
        match DsdRate(rates.last()).tier() {
            Some(tier) => texts.push(
                text::decimal((rates.last() / 32) as nat) + "/DSD"@ + text::decimal(tier as nat),
            ),
            None => texts,
        }
    }
}

/// The native DSD rates of a DAC: the frame rate the clock runs at, then the DSD rate it
/// carries. Both the 44.1 and 48 kHz families reach a given multiplier, so the rate is what
/// tells them apart.
pub fn native_rates(rates: &Vec<u32>) -> (line: String)
    ensures
        line@ == spaced(native_texts(rates@)),
{
    let mut line: String = String::new();
    let mut any: bool = false;
    let mut i: usize = 0;
    assert(rates@.take(0) =~= Seq::empty());
    while i < rates.len()
        invariant
            i <= rates@.len(),
            any == (native_texts(rates@.take(i as int)).len() > 0),
            line@ == spaced(native_texts(rates@.take(i as int))),
        decreases rates@.len() - i,
    {
        let hz: u32 = rates[i];
        let ghost before = native_texts(rates@.take(i as int));
        assert(rates@.take(i + 1).drop_last() =~= rates@.take(i as int));
        if let Some(tier) = DsdRate::new(hz).multiplier() {
            let mut part: String = text::decimal_of((hz / 32) as u64);
            part.append("/DSD");
            part.append(text::decimal_of(tier as u64).as_str());
            if any {
                line.append(" ");
            }
            line.append(part.as_str());
            any = true;
            proof {
                let after = native_texts(rates@.take(i + 1));
                assert(after == before.push(part@));
                assert(after.drop_last() =~= before);
                assert(line@ =~= spaced(after));
            }
        }
        i += 1;
    }
    assert(rates@.take(rates@.len() as int) =~= rates@);
    line
}

/// Each rate is shown with the DSD tier it carries: sixteen bits to a frame, counted in 44,100ths.
pub proof fn a_rate_shows_the_tier_it_carries(rate: u32, tier: nat)
    requires
        rate * 16 == tier * 44_100,
    ensures
        dop_text(rate) == text::decimal(rate as nat) + "/DSD"@ + text::decimal(tier),
{
}

/// Texts stand one after the other with one blank between each and the next.
pub proof fn texts_have_one_blank_between_them(texts: Seq<Seq<char>>, one: Seq<char>)
    ensures
        spaced(texts.push(one)) == (if texts.len() == 0 {
            one
        } else {
            spaced(texts) + seq![' '] + one
        }),
{
    let more = texts.push(one);
    reveal_strlit(" ");
    assert(" "@ =~= seq![' ']);
    assert(more.drop_last() =~= texts);
    assert(more.last() == one);
}

/// A tag is shown where there is one, under its own label, and the labels come in one order.
pub proof fn a_tag_is_shown_where_there_is_one(tags: Tags)
    ensures
        ({
            let lines = tag_lines(tags);
            &&& tags.title matches Some(title) ==> lines.len() > 0 && lines[0] == ("title"@, title)
            &&& tags.title is None && tags.artist is Some ==> lines.len() > 0 && lines[0] == (
                "artist"@,
                tags.artist->0,
            )
            &&& tags.track matches Some(number) ==> lines.len() > 0 && lines.last() == (
                "track"@,
                text::decimal(number as nat),
            )
            &&& tags.track is None && tags.album is Some ==> lines.len() > 0 && lines.last() == (
                "album"@,
                tags.album->0,
            )
            &&& lines.len() == (if tags.title is Some {
                1int
            } else {
                0
            }) + (if tags.artist is Some {
                1int
            } else {
                0
            }) + (if tags.album is Some {
                1int
            } else {
                0
            }) + (if tags.track is Some {
                1int
            } else {
                0
            })
        }),
{
}

} // verus!
