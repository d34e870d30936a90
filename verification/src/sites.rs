//! The sites that a trace probes, and the ring that their samples go through.

use vstd::prelude::*;
use crate::command::{Location, Place, ProbeSet, ProcessTrap};
use crate::fault::{self, tell, tell_owned, Fault, Kind, Outcome};
use crate::maps;
use crate::numbers::{self, div_ceil, next_power_of_two};
use crate::perf::HW_BREAKPOINT_SLOTS;
use crate::text::{self, chars_of, decimal, find, lines, string_of, words};

verus! {

/// Where a site stands: as selected, or by a name that is still to be read.
#[derive(Debug, PartialEq, Eq)]
pub enum SiteLocation {
    Selected(Location),
    Named(String),
}

#[derive(Debug, PartialEq, Eq)]
pub struct Site {
    pub library: String,
    pub location: SiteLocation,
    pub label: Option<String>,
}

pub enum SitePlace {
    Selected(Place),
    Named(Seq<char>),
}

pub struct SiteView {
    pub library: Seq<char>,
    pub location: SitePlace,
    pub label: Option<Seq<char>>,
}

impl View for SiteLocation {
    type V = SitePlace;

    open spec fn view(&self) -> SitePlace {
        match self {
            SiteLocation::Selected(location) => SitePlace::Selected(location@),
            SiteLocation::Named(site) => SitePlace::Named(site@),
        }
    }
}

impl View for Site {
    type V = SiteView;

    open spec fn view(&self) -> SiteView {
        SiteView {
            library: self.library@,
            location: self.location@,
            label: maps::name_view(self.label),
        }
    }
}

/// The views of sites.
pub open spec fn views(sites: Seq<Site>) -> Seq<SiteView> {
    Seq::new(sites.len(), |i: int| sites[i]@)
}

/// The words of a line up to its comment.
pub open spec fn fields_of(line: Seq<char>) -> Seq<Seq<char>> {
    text::words_of(line.take(text::first_at(line, '#')))
}

/// The site that two fields name.
pub open spec fn named_site(fields: Seq<Seq<char>>) -> SiteView {
    SiteView {
        library: fields[0],
        location: SitePlace::Named(fields[1]),
        label: Some(fields[0] + seq!['!'] + fields[1]),
    }
}

/// The sites of the first `n` lines. A line holds nothing, or a library and a
/// site.
pub open spec fn sites_in(lines: Seq<Seq<char>>, n: int) -> Outcome<Seq<SiteView>>
    decreases n,
{
    if n <= 0 {
        Outcome::Got(Seq::empty())
    } else {
        match sites_in(lines, n - 1) {
            Outcome::Got(before) => {
                let fields = fields_of(lines[n - 1]);
                if fields.len() == 0 {
                    Outcome::Got(before)
                } else if fields.len() == 1 {
                    Outcome::Told(
                        Kind::InvalidData,
                        "probe line "@ + text::decimal_digits(n as nat)
                            + " needs a library and site"@,
                    )
                } else if fields.len() > 2 {
                    Outcome::Told(
                        Kind::InvalidData,
                        "probe line "@ + text::decimal_digits(n as nat) + " has unexpected fields"@,
                    )
                } else {
                    Outcome::Got(before.push(named_site(fields)))
                }
            },
            outcome => outcome,
        }
    }
}

/// The sites of a probe file.
pub open spec fn sites_of(text: Seq<char>) -> Outcome<Seq<SiteView>> {
    sites_in(text::lines_of(text), text::lines_of(text).len() as int)
}

proof fn lemma_refusal_stays(lines: Seq<Seq<char>>, n: int, m: int)
    requires
        n <= m,
        !(sites_in(lines, n) is Got),
    ensures
        sites_in(lines, m) == sites_in(lines, n),
    decreases m - n,
{
    if n < m {
        lemma_refusal_stays(lines, n, m - 1);
    }
}

fn line_refusal(number: usize, why: &str) -> (r: Fault)
    ensures
        fault::told(
            r,
            Kind::InvalidData,
            "probe line "@ + text::decimal_digits(number as nat) + why@,
        ),
{
    let mut message = "probe line ".to_owned();
    message.append(decimal(number as u64).as_str());
    message.append(why);
    tell_owned(Kind::InvalidData, message)
}

/// Reads the sites of a probe file, one per line.
pub fn parse(text: &str) -> (r: Result<Vec<Site>, Fault>)
    ensures
        match r {
            Ok(sites) => sites_of(text@) == Outcome::Got(views(sites@)),
            Err(f) => fault::fails(sites_of(text@), f),
        },
{
    let chars = chars_of(text);
    let all = lines(&chars);
    let ghost held = text::contents(all@);
    let mut sites: Vec<Site> = Vec::new();
    let mut n: usize = 0;
    assert(views(sites@) =~= Seq::empty());
    while n < all.len()
        invariant
            n <= all@.len(),
            held == text::contents(all@),
            held == text::lines_of(text@),
            sites_in(held, n as int) == Outcome::Got(views(sites@)),
        decreases all@.len() - n,
    {
        let line = all[n];
        assert(held[n as int] == line@);
        let end: usize = find(line, '#');
        let part = vstd::slice::slice_subrange(line, 0, end);
        assert(part@ =~= line@.take(end as int));
        let fields = words(part);
        let ghost shown = fields_of(line@);
        assert(shown.len() == fields@.len());
        assert forall|i: int| 0 <= i < shown.len() implies shown[i] == (#[trigger] fields@[i])@ by {
            assert(shown[i] == text::contents(fields@)[i]);
        }
        proof {
            if !(sites_in(held, n + 1) is Got) {
                lemma_refusal_stays(held, n + 1, held.len() as int);
            }
        }
        n += 1;
        if fields.len() == 1 {
            return Err(line_refusal(n, " needs a library and site"));
        }
        if fields.len() > 2 {
            return Err(line_refusal(n, " has unexpected fields"));
        }
        if fields.len() == 2 {
            let library = string_of(fields[0]);
            let at = string_of(fields[1]);
            let mut label = library.as_str().to_owned();
            label.push('!');
            label.append(at.as_str());
            assert(label@ =~= shown[0] + seq!['!'] + shown[1]);
            let ghost before = sites@;
            let site = Site { library, location: SiteLocation::Named(at), label: Some(label) };
            let ghost seen = site@;
            sites.push(site);
            assert(seen == named_site(shown));
            assert(views(sites@) =~= views(before).push(seen));
        }
    }
    Ok(sites)
}

/// The site of a single probe. A symbol labels itself.
pub open spec fn single_site(library: Seq<char>, location: Place) -> SiteView {
    SiteView {
        library,
        location: SitePlace::Selected(location),
        label: match location {
            Place::Symbol(symbol) => Some(symbol),
            _ => None,
        },
    }
}

/// The sites of a probe set, where `text` is what its file holds.
pub open spec fn selected(probes: ProbeSet, text: Seq<char>) -> Outcome<Seq<SiteView>> {
    match probes {
        ProbeSet::File(_) => sites_of(text),
        ProbeSet::Single { library, location } => Outcome::Got(
            seq![single_site(library@, location@)],
        ),
    }
}

/// The sites to trap, which must be at least one, and for debug registers no
/// more than there are of those.
pub open spec fn loaded(probes: ProbeSet, trap: ProcessTrap, text: Seq<char>) -> Outcome<
    Seq<SiteView>,
> {
    match selected(probes, text) {
        Outcome::Got(sites) => if sites.len() == 0 {
            Outcome::Told(Kind::InvalidInput, "the probe set has no usable lines"@)
        } else if trap == ProcessTrap::Breakpoint && sites.len() > HW_BREAKPOINT_SLOTS {
            Outcome::Told(
                Kind::InvalidInput,
                "--hw allows at most "@ + text::decimal_digits(HW_BREAKPOINT_SLOTS as nat)
                    + " sites, and "@ + text::decimal_digits(sites.len()) + " were given"@,
            )
        } else {
            Outcome::Got(sites)
        },
        outcome => outcome,
    }
}

/// The sites to trap, where `text` is what the file of the probe set holds.
pub fn load(probes: &ProbeSet, trap: ProcessTrap, text: &str) -> (r: Result<Vec<Site>, Fault>)
    ensures
        match r {
            Ok(sites) => loaded(*probes, trap, text@) == Outcome::Got(views(sites@)),
            Err(f) => fault::fails(loaded(*probes, trap, text@), f),
        },
{
    let sites: Vec<Site> = match probes {
        ProbeSet::File(_) => match parse(text) {
            Ok(sites) => sites,
            Err(f) => return Err(f),
        },
        ProbeSet::Single { library, location } => {
            let site = Site {
                library: library.as_str().to_owned(),
                location: SiteLocation::Selected(location.duplicate()),
                label: match location {
                    Location::Symbol(symbol) => Some(symbol.as_str().to_owned()),
                    _ => None,
                },
            };
            let ghost seen = site@;
            assert(seen == single_site(library@, location@));
            let mut only: Vec<Site> = Vec::new();
            only.push(site);
            assert(views(only@) =~= seq![seen]);
            only
        },
    };
    if sites.len() == 0 {
        return Err(tell(Kind::InvalidInput, "the probe set has no usable lines"));
    }
    if trap == ProcessTrap::Breakpoint && sites.len() > HW_BREAKPOINT_SLOTS {
        let mut message = "--hw allows at most ".to_owned();
        message.append(decimal(HW_BREAKPOINT_SLOTS as u64).as_str());
        message.append(" sites, and ");
        message.append(decimal(sites.len() as u64).as_str());
        message.append(" were given");
        return Err(tell_owned(Kind::InvalidInput, message));
    }
    Ok(sites)
}

/// The page size that ring sizes are counted in.
pub const PAGE: usize = 4096;

/// Samples that a ring should hold.
pub const WANT: usize = 8;

/// Pages that a ring may take, by how many events there are.
pub open spec fn page_budget(events: int) -> int {
    if events <= 64 {
        8
    } else if events <= 512 {
        2
    } else {
        1
    }
}

/// Pages that the wanted samples fill, at least one.
pub open spec fn pages_filled(sample: int) -> int {
    let bytes = if sample * WANT > usize::MAX {
        usize::MAX as int
    } else {
        sample * WANT
    };
    if bytes == 0 {
        1
    } else {
        numbers::rounded_up(bytes, PAGE as int)
    }
}

/// Pages for the ring of one event: the budget, or the least power of two that
/// holds the wanted samples, whichever is more. A ring too small for one
/// sample arms cleanly, reports success and delivers nothing.
pub fn ring_pages(events: usize, sample: usize) -> (r: usize)
    ensures
        numbers::power_of_two(r as int),
        r >= page_budget(events as int),
        r >= pages_filled(sample as int),
        r == page_budget(events as int) || forall|p: int|
            numbers::power_of_two(p) && pages_filled(sample as int) <= p ==> r <= p,
        r * PAGE >= sample,
{
    let budget: usize = if events <= 64 {
        8
    } else if events <= 512 {
        2
    } else {
        1
    };
    let bytes: usize = match sample.checked_mul(WANT) {
        Some(bytes) => bytes,
        None => usize::MAX,
    };
    let filled: usize = div_ceil(bytes, PAGE);
    let filled: usize = if filled < 1 {
        1
    } else {
        filled
    };
    assert(filled == pages_filled(sample as int));
    assert(filled <= usize::MAX / 2) by {
        assert(usize::MAX >= 0xFFFF_FFFF);
    }
    let needed: usize = next_power_of_two(filled);
    proof {
        reveal_with_fuel(numbers::power_of_two, 5);
        assert(numbers::power_of_two(1));
        assert(numbers::power_of_two(2));
        assert(numbers::power_of_two(4));
        assert(numbers::power_of_two(8));
    }
    if budget < needed {
        needed
    } else {
        budget
    }
}

/// A line of a probe file is read up to the first number sign, and all of it
/// where there is none.
pub proof fn lemma_comments_are_left_out(line: Seq<char>, comment: Seq<char>)
    requires
        !line.contains('#'),
    ensures
        fields_of(line.push('#') + comment) == text::words_of(line),
        fields_of(line) == text::words_of(line),
{
    let whole = line.push('#') + comment;
    assert forall|i: int| 0 <= i < line.len() implies whole[i] != '#' && line[i] != '#' by {
        assert(line.contains(line[i]));
    }
    text::lemma_first_at(whole, '#', line.len() as int);
    text::lemma_first_at(line, '#', line.len() as int);
    assert(whole.take(line.len() as int) =~= line);
    assert(line.take(line.len() as int) =~= line);
}

/// Every line of a probe file that names a library and a site adds a probe
/// there, under both names, behind those of the lines before it. A line without
/// a word adds none, and any other line is refused, and with it the file.
pub proof fn lemma_every_probe_line_is_read(lines: Seq<Seq<char>>, n: int, before: Seq<SiteView>)
    requires
        0 < n <= lines.len(),
        sites_in(lines, n - 1) == Outcome::Got(before),
    ensures
        ({
            let fields = fields_of(lines[n - 1]);
            &&& fields.len() == 2 ==> sites_in(lines, n) == Outcome::Got(
                before.push(
                    SiteView {
                        library: fields[0],
                        location: SitePlace::Named(fields[1]),
                        label: Some(fields[0] + "!"@ + fields[1]),
                    },
                ),
            )
            &&& fields.len() == 0 ==> sites_in(lines, n) == Outcome::Got(before)
            &&& fields.len() == 1 || fields.len() > 2 ==> sites_in(lines, n) is Told
        }),
{
    reveal_strlit("!");
    assert("!"@ =~= seq!['!']);
}

/// A probe file with a line that is refused is refused whole.
pub proof fn lemma_bad_probe_line_refuses_the_file(lines: Seq<Seq<char>>, n: int, i: int)
    requires
        0 <= i < n <= lines.len(),
        fields_of(lines[i]).len() == 1 || fields_of(lines[i]).len() > 2,
    ensures
        sites_in(lines, n) is Told,
    decreases n,
{
    if i < n - 1 {
        lemma_bad_probe_line_refuses_the_file(lines, n - 1, i);
    } else {
        lemma_no_file_is_refused_by_the_reader(lines, n - 1);
    }
}

proof fn lemma_no_file_is_refused_by_the_reader(lines: Seq<Seq<char>>, n: int)
    ensures
        !(sites_in(lines, n) is Refused),
    decreases n,
{
    if n > 0 {
        lemma_no_file_is_refused_by_the_reader(lines, n - 1);
    }
}

/// The sites of a probe file are traced as they are, as long as there are any
/// and, for breakpoints, no more than there are registers for them. A single
/// site is traced as it was given, under its symbol where it has one.
pub proof fn lemma_what_is_traced(
    probes: ProbeSet,
    trap: ProcessTrap,
    text: Seq<char>,
    sites: Seq<SiteView>,
)
    ensures
        probes is File && sites_of(text) == Outcome::Got(sites) && 0 < sites.len() <= 4 ==> loaded(
            probes,
            trap,
            text,
        ) == Outcome::Got(sites),
        probes is File && sites_of(text) == Outcome::Got(sites) && sites.len() > 4 && trap
            != ProcessTrap::Breakpoint ==> loaded(probes, trap, text) == Outcome::Got(sites),
        probes is File && sites_of(text) == Outcome::Got(sites) && sites.len() > 4 && trap
            == ProcessTrap::Breakpoint ==> loaded(probes, trap, text) is Told,
        probes is File && sites_of(text) == Outcome::Got(sites) && sites.len() == 0 ==> loaded(
            probes,
            trap,
            text,
        ) is Told,
        probes matches ProbeSet::Single { library, location } ==> loaded(probes, trap, text)
            == Outcome::Got(
            seq![
                SiteView {
                    library: library@,
                    location: SitePlace::Selected(location@),
                    label: match location@ {
                        Place::Symbol(symbol) => Some(symbol),
                        _ => None,
                    },
                },
            ],
        ),
{
}

/// A ring has the fewest pages in which the wanted samples fit, and one at
/// the least.
pub proof fn lemma_pages_hold_the_samples(sample: int)
    requires
        0 <= sample,
        sample * WANT <= usize::MAX,
    ensures
        pages_filled(sample) >= 1,
        pages_filled(sample) * PAGE >= sample * WANT,
        pages_filled(sample) > 1 ==> (pages_filled(sample) - 1) * PAGE < sample * WANT,
{
    numbers::lemma_rounded_up_is_least(sample * WANT, PAGE as int);
}

/// The rings of a trace share what a user may lock. Up to 64 events get
/// eight pages each, up to 512 get two, and more get one.
pub proof fn lemma_pages_are_shared(events: int)
    ensures
        events <= 64 <==> page_budget(events) == 8,
        events > 512 <==> page_budget(events) == 1,
        events <= 512 <==> page_budget(events) >= 2,
        page_budget(events) == 8 || page_budget(events) <= 2,
{
}

/// A site that is picked by its symbol goes by that symbol, and one that is
/// picked by a number by no label. A site of a file goes by its library and
/// its name.
pub proof fn lemma_labels_of_sites(library: Seq<char>, symbol: Seq<char>, address: u64)
    ensures
        single_site(library, Place::Symbol(symbol)).label == Some(symbol),
        single_site(library, Place::VirtualAddress(address)).label is None,
        single_site(library, Place::FileOffset(address)).label is None,
        single_site(library, Place::Symbol(symbol)).library == library,
        single_site(library, Place::FileOffset(address)).location == SitePlace::Selected(
            Place::FileOffset(address),
        ),
        named_site(seq![library, symbol]).library == library,
        named_site(seq![library, symbol]).location == SitePlace::Named(symbol),
        named_site(seq![library, symbol]).label == Some(library + seq!['!'] + symbol),
{
}

} // verus!
