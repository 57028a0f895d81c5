//! What the command-line tool says about a fleet's segments.
use vstd::prelude::*;
use vstd::string::*;

use crate::decimal::{digits, push_number};
use crate::selection::ascending;
use crate::shm::{ring_segment_name_for_uid, segment_name};

verus! {

/// A segment that was found.
#[derive(Debug, PartialEq, Eq)]
pub struct Segment {
    pub kind: u8,
    pub name: String,
    pub size: u64,
}

/// What a segment says.
#[verifier::ext_equal]
pub struct SegmentView {
    pub kind: u8,
    pub name: Seq<char>,
    pub size: u64,
}

impl View for Segment {
    type V = SegmentView;

    open spec fn view(&self) -> SegmentView {
        SegmentView { kind: self.kind, name: self.name@, size: self.size }
    }
}

/// Why a fleet cannot be inspected.
#[derive(Debug, PartialEq, Eq)]
pub enum InspectError {
    /// The fleet has no name.
    EmptyFleet,
    /// The fleet's name holds a slash or a NUL.
    InvalidFleet,
    /// A segment of this name reported a negative size.
    NegativeSize(String),
}

impl InspectError {
    /// What an error says.
    pub open spec fn text(self) -> Seq<char> {
        match self {
            InspectError::EmptyFleet => "fleet name must not be empty"@,
            InspectError::InvalidFleet => "fleet name must not contain '/' or a NUL byte"@,
            InspectError::NegativeSize(name) => "SHM object "@ + name@
                + " reported a negative size"@,
        }
    }

    /// The error, in words.
    pub fn to_string(&self) -> (text: String)
        ensures
            text@ == self.text(),
    {
        match self {
            InspectError::EmptyFleet => "fleet name must not be empty".to_owned(),
            InspectError::InvalidFleet => {
                "fleet name must not contain '/' or a NUL byte".to_owned()
            },
            InspectError::NegativeSize(name) => {
                let mut text: String = "SHM object ".to_owned();
                text.append(name.as_str());
                text.append(" reported a negative size");
                text
            },
        }
    }
}

/// Why a fleet's name is refused.
pub open spec fn fleet_fault(fleet: Seq<char>) -> Option<InspectError> {
    if fleet.len() == 0 {
        Some(InspectError::EmptyFleet)
    } else if exists|i: int| 0 <= i < fleet.len() && (#[trigger] fleet[i] == '/' || fleet[i] == '\0') {
        Some(InspectError::InvalidFleet)
    } else {
        None
    }
}

/// Checks a fleet's name.
pub fn validate_fleet(fleet: &str) -> (valid: Result<(), InspectError>)
    ensures
        match fleet_fault(fleet@) {
            Some(error) => valid == Err::<(), InspectError>(error),
            None => valid is Ok,
        },
{
    let len: usize = fleet.unicode_len();
    if len == 0 {
        return Err(InspectError::EmptyFleet);
    }
    let mut index: usize = 0;
    while index < len
        invariant
            index <= len,
            len == fleet@.len(),
            len > 0,
            forall|i: int| 0 <= i < index ==> (#[trigger] fleet@[i] != '/' && fleet@[i] != '\0'),
        decreases len - index,
    {
        let c: char = fleet.get_char(index);
        if c == '/' || c == '\0' {
            assert(fleet@[index as int] == '/' || fleet@[index as int] == '\0');
            return Err(InspectError::InvalidFleet);
        }
        index = index + 1;
    }
    Ok(())
}

/// The kinds that are probed: the one that was asked for, or all.
pub open spec fn probed(kind: Option<u8>) -> Seq<u8> {
    match kind {
        Some(kind) => seq![kind],
        None => Seq::new(256, |i: int| i as u8),
    }
}

/// The kinds that are probed: the one that was asked for, or all.
pub fn probed_kinds(kind: Option<u8>) -> (kinds: Vec<u8>)
    ensures
        kinds@ == probed(kind),
{
    let mut kinds: Vec<u8> = Vec::new();
    match kind {
        Some(kind) => {
            kinds.push(kind);
            assert(kinds@ =~= seq![kind]);
        },
        None => {
            while kinds.len() < 256
                invariant
                    kinds@.len() <= 256,
                    forall|i: int| 0 <= i < kinds@.len() ==> #[trigger] kinds@[i] == i,
                decreases 256 - kinds@.len(),
            {
                kinds.push(kinds.len() as u8);
            }
            assert(kinds@ =~= probed(None));
        },
    }
    kinds
}

/// What the segments of some kinds say, of which the sizes are known: a kind
/// without a size has no segment.
pub open spec fn found(
    fleet: Seq<char>,
    uid: u32,
    kinds: Seq<u8>,
    sizes: Seq<Option<i64>>,
) -> Seq<SegmentView>
    decreases kinds.len(),
{
    if kinds.len() == 0 {
        Seq::empty()
    } else {
        let before = found(fleet, uid, kinds.drop_last(), sizes.drop_last());
        match sizes.last() {
            Some(size) => before.push(
                SegmentView {
                    kind: kinds.last(),
                    name: segment_name(fleet, kinds.last(), uid),
                    size: size as u64,
                },
            ),
            None => before,
        }
    }
}

/// The first kind of which a negative size was reported.
pub open spec fn negative_from(kinds: Seq<u8>, sizes: Seq<Option<i64>>, i: int) -> Option<u8>
    decreases kinds.len() - i,
{
    if i >= kinds.len() {
        None
    } else if sizes[i] is Some && sizes[i]->0 < 0 {
        Some(kinds[i])
    } else {
        negative_from(kinds, sizes, i + 1)
    }
}

/// What segments say.
pub open spec fn segment_views(segments: Seq<Segment>) -> Seq<SegmentView> {
    segments.map_values(|segment: Segment| segment@)
}

/// The segments of a fleet that a user owns, of one kind or of all. `sizes` holds
/// what was reported for each of the probed kinds, in their order.
pub fn discover(
    fleet: &str,
    uid: u32,
    kind: Option<u8>,
    sizes: &Vec<Option<i64>>,
) -> (segments: Result<Vec<Segment>, InspectError>)
    requires
        sizes@.len() == probed(kind).len(),
    ensures
        match fleet_fault(fleet@) {
            Some(error) => segments == Err::<Vec<Segment>, InspectError>(error),
            None => match negative_from(probed(kind), sizes@, 0) {
                Some(kind) => {
                    &&& segments is Err
                    &&& segments->Err_0 is NegativeSize
                    &&& segments->Err_0->NegativeSize_0@ == segment_name(fleet@, kind, uid)
                },
                None => {
                    &&& segments is Ok
                    &&& segment_views(segments->Ok_0@) == found(fleet@, uid, probed(kind), sizes@)
                },
            },
        },
{
    match validate_fleet(fleet) {
        Ok(_) => {},
        Err(error) => {
            return Err(error);
        },
    }
    let kinds: Vec<u8> = probed_kinds(kind);
    let mut segments: Vec<Segment> = Vec::new();
    let mut index: usize = 0;
    assert(segment_views(segments@) =~= Seq::<SegmentView>::empty());
    assert(kinds@.subrange(0, 0) =~= Seq::<u8>::empty());
    while index < kinds.len()
        invariant
            index <= kinds@.len(),
            kinds@ == probed(kind),
            sizes@.len() == kinds@.len(),
            fleet_fault(fleet@) is None,
            negative_from(kinds@, sizes@, 0) == negative_from(kinds@, sizes@, index as int),
            segment_views(segments@) == found(
                fleet@,
                uid,
                kinds@.subrange(0, index as int),
                sizes@.subrange(0, index as int),
            ),
        decreases kinds@.len() - index,
    {
        let ghost some_kinds = kinds@.subrange(0, index + 1);
        let ghost some_sizes = sizes@.subrange(0, index + 1);
        assert(some_kinds.drop_last() =~= kinds@.subrange(0, index as int));
        assert(some_sizes.drop_last() =~= sizes@.subrange(0, index as int));
        match sizes[index] {
            Some(size) => {
                let name: String = ring_segment_name_for_uid(fleet, kinds[index], uid);
                if size < 0 {
                    return Err(InspectError::NegativeSize(name));
                }
                let ghost before = segments@;
                let segment = Segment { kind: kinds[index], name, size: size as u64 };
                let ghost last = segment@;
                segments.push(segment);
                assert(segment_views(segments@) =~= segment_views(before).push(last));
            },
            None => {},
        }
        index = index + 1;
    }
    assert(kinds@.subrange(0, kinds@.len() as int) =~= kinds@);
    assert(sizes@.subrange(0, sizes@.len() as int) =~= sizes@);
    Ok(segments)
}

/// A quotient rounded to the nearest whole number; a half goes to the even one.
pub open spec fn nearest(value: int, unit: int) -> int {
    let whole = value / unit;
    let rest = value % unit;
    if 2 * rest > unit || (2 * rest == unit && whole % 2 == 1) {
        whole + 1
    } else {
        whole
    }
}

/// The spacing of the numbers of 53 significant bits around a value.
pub open spec fn spacing(value: int, step: int) -> int
    decreases value - step,
{
    if step <= 0 || value < 0x20_0000_0000_0000 * step {
        step
    } else {
        spacing(value, 2 * step)
    }
}

/// The number of 53 significant bits that is nearest to a value.
pub open spec fn significant(value: u64) -> int {
    let step = spacing(value as int, 1);
    nearest(value as int, step) * step
}

/// The hundredths of a unit that a size amounts to, and the name of the unit.
pub open spec fn scaled(bytes: u64) -> Option<(int, Seq<char>)> {
    let value = significant(bytes);
    if value >= 0x4000_0000 {
        Some((nearest(value * 100, 0x4000_0000), " GiB"@))
    } else if value >= 0x10_0000 {
        Some((nearest(value * 100, 0x10_0000), " MiB"@))
    } else if value >= 0x400 {
        Some((nearest(value * 100, 0x400), " KiB"@))
    } else {
        None
    }
}

/// The text of a size: in bytes, or in a binary unit with two decimals.
pub open spec fn size_text(bytes: u64) -> Seq<char> {
    match scaled(bytes) {
        Some((hundredths, unit)) => digits((hundredths / 100) as nat) + "."@ + digits(
            (hundredths % 100 / 10) as nat,
        ) + digits((hundredths % 10) as nat) + unit,
        None => digits(bytes as nat) + " B"@,
    }
}

fn nearest_of(value: u128, unit: u128) -> (rounded: u128)
    requires
        0 < unit <= 0x1_0000_0000_0000_0000,
        value <= 0x1_0000_0000_0000_0000_0000,
    ensures
        rounded == nearest(value as int, unit as int),
{
    let whole: u128 = value / unit;
    let rest: u128 = value % unit;
    assert(whole <= value) by (nonlinear_arith)
        requires
            whole == value / unit,
            unit > 0,
    ;
    if 2 * rest > unit || (2 * rest == unit && whole % 2 == 1) {
        whole + 1
    } else {
        whole
    }
}

fn significant_of(value: u64) -> (rounded: u128)
    ensures
        rounded == significant(value),
        rounded <= 0x1_0000_0000_0000_0000,
{
    let mut step: u128 = 1;
    while value as u128 >= 0x20_0000_0000_0000 * step
        invariant
            1 <= step <= 0x800,
            spacing(value as int, 1) == spacing(value as int, step as int),
            step == 1 || value >= 0x10_0000_0000_0000 * step,
            step == 1 || step == 2 || step == 4 || step == 8 || step == 16 || step == 32 || step
                == 64 || step == 128 || step == 256 || step == 512 || step == 1024 || step == 2048,
        decreases 0x1000 - step,
    {
        assert(step < 0x800);
        step = 2 * step;
    }
    let rounded: u128 = nearest_of(value as u128, step);
    assert(rounded * step <= 0x1_0000_0000_0000_0000) by (nonlinear_arith)
        requires
            rounded == nearest(value as int, step as int),
            value < 0x20_0000_0000_0000 * step,
            1 <= step <= 0x800,
    {
        assert(value as int / step as int <= 0x1F_FFFF_FFFF_FFFF);
        assert(rounded <= 0x20_0000_0000_0000);
    }
    rounded * step
}

/// The text of a size: in bytes, or in a binary unit with two decimals.
pub fn human_size(bytes: u64) -> (text: String)
    ensures
        text@ == size_text(bytes),
{
    let value: u128 = significant_of(bytes);
    let mut text: String = String::new();
    let (unit, name): (u128, &'static str) = if value >= 0x4000_0000 {
        (0x4000_0000, " GiB")
    } else if value >= 0x10_0000 {
        (0x10_0000, " MiB")
    } else if value >= 0x400 {
        (0x400, " KiB")
    } else {
        push_number(&mut text, bytes);
        text.append(" B");
        assert(text@ =~= size_text(bytes));
        return text;
    };
    let hundredths: u128 = nearest_of(value * 100, unit);
    assert(hundredths <= 0x1_0000_0000_0000_0000) by (nonlinear_arith)
        requires
            hundredths == nearest(value * 100, unit as int),
            value <= 0x1_0000_0000_0000_0000,
            unit >= 0x400,
    {
        assert((value * 100) / (unit as int) <= (value * 100) / 0x400);
    }
    push_number(&mut text, (hundredths / 100) as u64);
    text.append(".");
    push_number(&mut text, (hundredths % 100 / 10) as u64);
    push_number(&mut text, (hundredths % 10) as u64);
    text.append(name);
    assert(text@ =~= size_text(bytes));
    text
}

/// A text of spaces.
pub open spec fn spaces(len: nat) -> Seq<char> {
    Seq::new(len, |i: int| ' ')
}

/// A text that is pushed to the right edge of a column.
pub open spec fn aligned(text: Seq<char>, width: nat) -> Seq<char> {
    if text.len() < width {
        spaces((width - text.len()) as nat) + text
    } else {
        text
    }
}

/// Writes a text at the right edge of a column behind another text.
fn push_aligned(line: &mut String, text: &str, width: usize)
    ensures
        final(line)@ == old(line)@ + aligned(text@, width as nat),
{
    let len: usize = text.unicode_len();
    proof {
        reveal_strlit(" ");
    }
    if len < width {
        let mut done: usize = 0;
        assert(line@ =~= old(line)@ + spaces(0));
        while done < width - len
            invariant
                done <= width - len,
                len < width,
                " "@ == seq![' '],
                line@ == old(line)@ + spaces(done as nat),
            decreases width - len - done,
        {
            line.append(" ");
            done = done + 1;
            assert(line@ =~= old(line)@ + spaces(done as nat));
        }
    } else {
        assert(line@ =~= old(line)@ + Seq::<char>::empty());
    }
    line.append(text);
    assert(line@ =~= old(line)@ + aligned(text@, width as nat));
}

/// What is said where a fleet has no segments.
pub open spec fn absent_text(fleet: Seq<char>, uid: u32) -> Seq<char> {
    "No Orbit SHM objects found for fleet="@ + fleet + " uid="@ + digits(uid as nat) + "."@
}

/// What is said where a fleet has no segments.
pub fn absent_line(fleet: &str, uid: u32) -> (line: String)
    ensures
        line@ == absent_text(fleet@, uid),
{
    let mut line: String = "No Orbit SHM objects found for fleet=".to_owned();
    line.append(fleet);
    line.append(" uid=");
    push_number(&mut line, uid as u64);
    line.append(".");
    line
}

/// The line of a segment in a listing.
pub open spec fn segment_line(segment: SegmentView) -> Seq<char> {
    aligned(digits(segment.kind as nat), 4) + "  "@ + aligned(size_text(segment.size), 12) + "  "@
        + segment.name
}

/// The lines of a listing: a heading, and one line for each segment.
pub open spec fn listing_text(segments: Seq<SegmentView>) -> Seq<Seq<char>> {
    seq!["KIND          SIZE  NAME"@] + segments.map_values(
        |segment: SegmentView| segment_line(segment),
    )
}

/// What lines say.
pub open spec fn line_views(lines: Seq<String>) -> Seq<Seq<char>> {
    lines.map_values(|line: String| line@)
}

/// The lines of a listing.
pub fn listing(segments: &Vec<Segment>) -> (lines: Vec<String>)
    ensures
        line_views(lines@) == listing_text(segment_views(segments@)),
{
    let mut lines: Vec<String> = Vec::new();
    lines.push("KIND          SIZE  NAME".to_owned());
    let ghost all = segment_views(segments@);
    let mut index: usize = 0;
    assert(line_views(lines@) =~= listing_text(all).subrange(0, 1));
    while index < segments.len()
        invariant
            index <= segments@.len(),
            all == segment_views(segments@),
            line_views(lines@) == listing_text(all).subrange(0, index + 1),
        decreases segments@.len() - index,
    {
        let segment: &Segment = &segments[index];
        let mut kind: String = String::new();
        push_number(&mut kind, segment.kind as u64);
        assert(kind@ =~= digits(segment.kind as nat));
        let mut line: String = String::new();
        push_aligned(&mut line, kind.as_str(), 4);
        line.append("  ");
        push_aligned(&mut line, human_size(segment.size).as_str(), 12);
        line.append("  ");
        line.append(segment.name.as_str());
        let ghost before = lines@;
        let ghost said = line@;
        assert(said =~= segment_line(all[index as int]));
        lines.push(line);
        proof {
            assert(line_views(lines@) =~= line_views(before).push(said));
            assert(listing_text(all).subrange(0, index + 2) =~= listing_text(all).subrange(
                0,
                index + 1,
            ).push(listing_text(all)[index + 1]));
        }
        index = index + 1;
    }
    assert(listing_text(all).subrange(0, all.len() as int + 1) =~= listing_text(all));
    lines
}

/// What a clear says: the lines that it prints, and why it failed.
#[derive(Debug, PartialEq, Eq)]
pub struct ClearReport {
    pub lines: Vec<String>,
    pub failure: Option<String>,
}

/// What a clear of some segments says, of which the first ones went like this:
/// a text is why one could not be removed.
pub open spec fn cleared_lines(names: Seq<Seq<char>>, faults: Seq<Option<Seq<char>>>) -> Seq<
    Seq<char>,
>
    decreases names.len(),
{
    if names.len() == 0 {
        Seq::empty()
    } else {
        let before = cleared_lines(names.drop_last(), faults.drop_last());
        match faults.last() {
            Some(_) => before,
            None => before.push("removed "@ + names.last()),
        }
    }
}

/// Why segments could not be removed, one after the other.
pub open spec fn failures_text(names: Seq<Seq<char>>, faults: Seq<Option<Seq<char>>>) -> Seq<char>
    decreases names.len(),
{
    if names.len() == 0 {
        Seq::empty()
    } else {
        let before = failures_text(names.drop_last(), faults.drop_last());
        match faults.last() {
            Some(fault) => {
                let told = names.last() + ": "@ + fault;
                if failed(names.drop_last(), faults.drop_last()) == 0 {
                    told
                } else {
                    before + "; "@ + told
                }
            },
            None => before,
        }
    }
}

/// How many segments could not be removed.
pub open spec fn failed(names: Seq<Seq<char>>, faults: Seq<Option<Seq<char>>>) -> nat
    decreases names.len(),
{
    if names.len() == 0 {
        0
    } else {
        failed(names.drop_last(), faults.drop_last()) + if faults.last() is Some {
            1nat
        } else {
            0nat
        }
    }
}

/// The names of segments.
pub open spec fn names_of(segments: Seq<SegmentView>) -> Seq<Seq<char>> {
    segments.map_values(|segment: SegmentView| segment.name)
}

/// What faults say.
pub open spec fn fault_views(faults: Seq<Option<String>>) -> Seq<Option<Seq<char>>> {
    faults.map_values(
        |fault: Option<String>|
            match fault {
                Some(fault) => Some(fault@),
                None => None,
            },
    )
}

/// What a clear says in the end.
pub open spec fn clear_total(removed: nat, failed: nat) -> Seq<char> {
    "removed="@ + digits(removed) + " failed="@ + digits(failed)
}

/// What a clear of segments says, of which each went as `faults` tells: a text is
/// why one could not be removed.
pub fn clear_report(segments: &Vec<Segment>, faults: &Vec<Option<String>>) -> (report: ClearReport)
    requires
        faults@.len() == segments@.len(),
    ensures
        ({
            let names = names_of(segment_views(segments@));
            let told = fault_views(faults@);
            let bad = failed(names, told);
            &&& line_views(report.lines@) == cleared_lines(names, told).push(
                clear_total((names.len() - bad) as nat, bad),
            )
            &&& match report.failure {
                Some(text) => bad > 0 && text@ == failures_text(names, told),
                None => bad == 0,
            }
        }),
{
    let ghost names = names_of(segment_views(segments@));
    let ghost told = fault_views(faults@);
    let mut lines: Vec<String> = Vec::new();
    let mut failures: String = String::new();
    let mut bad: usize = 0;
    let mut index: usize = 0;
    assert(names.subrange(0, 0) =~= Seq::<Seq<char>>::empty());
    assert(line_views(lines@) =~= Seq::<Seq<char>>::empty());
    while index < segments.len()
        invariant
            index <= segments@.len(),
            bad <= index,
            faults@.len() == segments@.len(),
            names == names_of(segment_views(segments@)),
            told == fault_views(faults@),
            line_views(lines@) == cleared_lines(
                names.subrange(0, index as int),
                told.subrange(0, index as int),
            ),
            failures@ == failures_text(
                names.subrange(0, index as int),
                told.subrange(0, index as int),
            ),
            bad == failed(names.subrange(0, index as int), told.subrange(0, index as int)),
            bad == 0 ==> failures@.len() == 0,
        decreases segments@.len() - index,
    {
        proof {
            assert(names.subrange(0, index + 1).drop_last() =~= names.subrange(0, index as int));
            assert(told.subrange(0, index + 1).drop_last() =~= told.subrange(0, index as int));
            assert(names[index as int] == segments@[index as int].name@);
        }
        match &faults[index] {
            Some(fault) => {
                if bad > 0 {
                    failures.append("; ");
                }
                failures.append(segments[index].name.as_str());
                failures.append(": ");
                failures.append(fault.as_str());
                bad = bad + 1;
                proof {
                    assert(told[index as int] == Some(fault@));
                    assert(failures@ =~= failures_text(
                        names.subrange(0, index + 1),
                        told.subrange(0, index + 1),
                    ));
                }
            },
            None => {
                let mut line: String = "removed ".to_owned();
                line.append(segments[index].name.as_str());
                let ghost before = lines@;
                let ghost said = line@;
                lines.push(line);
                assert(line_views(lines@) =~= line_views(before).push(said));
                assert(told[index as int] is None);
            },
        }
        index = index + 1;
    }
    assert(names.subrange(0, names.len() as int) =~= names);
    assert(told.subrange(0, told.len() as int) =~= told);
    let mut total: String = "removed=".to_owned();
    push_number(&mut total, (segments.len() - bad) as u64);
    total.append(" failed=");
    push_number(&mut total, bad as u64);
    let ghost before = lines@;
    let ghost said = total@;
    lines.push(total);
    assert(line_views(lines@) =~= line_views(before).push(said));
    let failure: Option<String> = if bad > 0 {
        Some(failures)
    } else {
        None
    };
    ClearReport { lines, failure }
}

/// Which fleets can be named: those whose name is not empty and has neither a slash nor a
/// NUL in it.
pub proof fn law_fleets_are_named_without_slashes(fleet: Seq<char>, i: int)
    ensures
        fleet.len() == 0 ==> fleet_fault(fleet) == Some(InspectError::EmptyFleet),
        0 <= i < fleet.len() && (fleet[i] == '/' || fleet[i] == '\0') ==> fleet_fault(fleet)
            == Some(InspectError::InvalidFleet),
        fleet.len() > 0 && (forall|k: int|
            0 <= k < fleet.len() ==> #[trigger] fleet[k] != '/' && fleet[k] != '\0')
            ==> fleet_fault(fleet) is None,
{
}

/// Which kinds are looked for: the one that was asked for, or every one, once, in order.
pub proof fn law_every_kind_is_looked_for(kind: u8, i: int)
    ensures
        probed(Some(kind)).len() == 1,
        probed(Some(kind))[0] == kind,
        probed(None).len() == 256,
        0 <= i < 256 ==> probed(None)[i] == i,
{
}

/// What is listed: a segment for each kind that has one, in order, with the name of its
/// kind and the size that was told, and nothing for the others.
pub proof fn law_segments_are_listed_where_there_are_some(
    fleet: Seq<char>,
    uid: u32,
    kinds: Seq<u8>,
    sizes: Seq<Option<i64>>,
) -> (places: Seq<int>)
    requires
        kinds.len() == sizes.len(),
    ensures
        ascending(places, kinds.len() as int),
        found(fleet, uid, kinds, sizes).len() == places.len(),
        forall|k: int|
            0 <= k < places.len() ==> {
                &&& sizes[#[trigger] places[k]] is Some
                &&& found(fleet, uid, kinds, sizes)[k].kind == kinds[places[k]]
                &&& found(fleet, uid, kinds, sizes)[k].name == segment_name(
                    fleet,
                    kinds[places[k]],
                    uid,
                )
                &&& sizes[places[k]]->0 >= 0 ==> found(fleet, uid, kinds, sizes)[k].size
                    == sizes[places[k]]->0
            },
        forall|p: int|
            0 <= p < kinds.len() && (#[trigger] sizes[p]) is Some ==> places.contains(p),
    decreases kinds.len(),
{
    if kinds.len() == 0 {
        Seq::empty()
    } else {
        let before = law_segments_are_listed_where_there_are_some(
            fleet,
            uid,
            kinds.drop_last(),
            sizes.drop_last(),
        );
        let last = kinds.len() - 1;
        let shorter = found(fleet, uid, kinds.drop_last(), sizes.drop_last());
        let places = if sizes.last() is Some {
            before.push(last)
        } else {
            before
        };
        let all = found(fleet, uid, kinds, sizes);
        assert forall|k: int| 0 <= k < places.len() implies {
            &&& sizes[#[trigger] places[k]] is Some
            &&& all[k].kind == kinds[places[k]]
            &&& all[k].name == segment_name(fleet, kinds[places[k]], uid)
            &&& sizes[places[k]]->0 >= 0 ==> all[k].size == sizes[places[k]]->0
        } by {
            if k < before.len() {
                assert(all[k] == shorter[k]);
                assert(0 <= before[k] < last);
                assert(sizes.drop_last()[before[k]] == sizes[before[k]]);
            }
        }
        assert forall|p: int| 0 <= p < kinds.len() && (#[trigger] sizes[p]) is Some implies
            places.contains(p) by {
            if p < last {
                assert(sizes.drop_last()[p] is Some);
                let k = choose|k: int| 0 <= k < before.len() && before[k] == p;
                assert(places[k] == p);
            } else {
                assert(places[places.len() - 1] == p);
            }
        }
        places
    }
}

/// A number of units is the nearest one: at most half a unit away, and even where two are
/// as near.
pub proof fn law_nearest_is_at_most_half_a_unit_away(value: int, unit: int)
    requires
        0 <= value,
        0 < unit,
    ensures
        -unit <= 2 * (nearest(value, unit) * unit - value) <= unit,
        2 * (nearest(value, unit) * unit - value) == unit || 2 * (nearest(value, unit) * unit
            - value) == -unit ==> nearest(value, unit) % 2 == 0,
{
    let whole = value / unit;
    let rest = value % unit;
    vstd::arithmetic::div_mod::lemma_fundamental_div_mod(value, unit);
    vstd::arithmetic::div_mod::lemma_mod_bound(value, unit);
    assert((whole + 1) * unit == whole * unit + unit) by (nonlinear_arith);
    assert(unit * whole == whole * unit) by (nonlinear_arith);
}

/// In which unit a size is told: in bytes below a kibibyte, else in the largest unit that
/// it reaches, with two places behind the point.
pub proof fn law_sizes_are_told_in_the_largest_unit(bytes: u64)
    requires
        bytes < 0x20_0000_0000_0000,
    ensures
        bytes < 1_024 ==> scaled(bytes) is None && size_text(bytes) == digits(bytes as nat)
            + " B"@,
        1_024 <= bytes < 1_048_576 ==> scaled(bytes) == Some(
            (nearest(bytes * 100, 1_024), " KiB"@),
        ),
        1_048_576 <= bytes < 1_073_741_824 ==> scaled(bytes) == Some(
            (nearest(bytes * 100, 1_048_576), " MiB"@),
        ),
        1_073_741_824 <= bytes ==> scaled(bytes) == Some(
            (nearest(bytes * 100, 1_073_741_824), " GiB"@),
        ),
{
    assert(spacing(bytes as int, 1) == 1);
    assert(nearest(bytes as int, 1) == bytes) by {
        law_nearest_is_at_most_half_a_unit_away(bytes as int, 1);
    }
}

/// An aligned text ends with the text, has blanks before it and nothing else, and is as
/// wide as was asked for, or as the text where that is wider.
pub proof fn law_texts_are_aligned_to_the_right(text: Seq<char>, width: nat, i: int)
    ensures
        text.len() <= width ==> aligned(text, width).len() == width,
        text.len() > width ==> aligned(text, width) == text,
        text.is_suffix_of(aligned(text, width)),
        0 <= i < aligned(text, width).len() - text.len() ==> aligned(text, width)[i] == ' ',
{
    let all = aligned(text, width);
    assert(all.subrange(all.len() - text.len(), all.len() as int) =~= text);
}

/// A listing has a line of titles and one line for each segment, in order.
pub proof fn law_listing_has_a_line_for_each_segment(segments: Seq<SegmentView>, i: int)
    requires
        0 <= i < segments.len(),
    ensures
        listing_text(segments).len() == segments.len() + 1,
        listing_text(segments)[0] == "KIND          SIZE  NAME"@,
        listing_text(segments)[i + 1] == segment_line(segments[i]),
        segments[i].name.is_suffix_of(segment_line(segments[i])),
{
    let line = segment_line(segments[i]);
    let name = segments[i].name;
    assert(line.subrange(line.len() - name.len(), line.len() as int) =~= name);
}

/// Every segment that was to be cleared is told of once: as removed, or as failed.
pub proof fn law_every_removal_is_told(names: Seq<Seq<char>>, faults: Seq<Option<Seq<char>>>)
    requires
        names.len() == faults.len(),
    ensures
        cleared_lines(names, faults).len() + failed(names, faults) == names.len(),
        failed(names, faults) == 0 <==> forall|i: int|
            0 <= i < faults.len() ==> (#[trigger] faults[i]) is None,
        failed(names, faults) == 0 ==> forall|i: int|
            0 <= i < names.len() ==> #[trigger] cleared_lines(names, faults)[i] == "removed "@
                + names[i],
        failed(names, faults) == 0 ==> failures_text(names, faults) == Seq::<char>::empty(),
    decreases names.len(),
{
    if names.len() > 0 {
        let shorter = names.drop_last();
        let fewer = faults.drop_last();
        law_every_removal_is_told(shorter, fewer);
        assert forall|i: int| 0 <= i < fewer.len() implies fewer[i] == #[trigger] faults[i] by {}
        if failed(names, faults) == 0 {
            assert(failed(shorter, fewer) == 0);
            assert forall|i: int| 0 <= i < names.len() implies #[trigger] cleared_lines(
                names,
                faults,
            )[i] == "removed "@ + names[i] by {
                if i < shorter.len() {
                    assert(cleared_lines(shorter, fewer)[i] == "removed "@ + shorter[i]);
                }
            }
        }
    }
}

/// A segment whose size is negative is found, the first one first.
pub proof fn law_negative_sizes_are_found(kinds: Seq<u8>, sizes: Seq<Option<i64>>, from: int)
    requires
        kinds.len() == sizes.len(),
        0 <= from <= kinds.len(),
    ensures
        match negative_from(kinds, sizes, from) {
            Some(kind) => exists|i: int|
                from <= i < kinds.len() && kinds[i] == kind && (#[trigger] sizes[i]) is Some
                    && sizes[i]->0 < 0 && forall|j: int|
                    from <= j < i && (#[trigger] sizes[j]) is Some ==> sizes[j]->0 >= 0,
            None => forall|i: int|
                from <= i < kinds.len() && (#[trigger] sizes[i]) is Some ==> sizes[i]->0 >= 0,
        },
    decreases kinds.len() - from,
{
    if from < kinds.len() && !(sizes[from] is Some && sizes[from]->0 < 0) {
        law_negative_sizes_are_found(kinds, sizes, from + 1);
        if let Some(kind) = negative_from(kinds, sizes, from) {
            let i = choose|i: int|
                from + 1 <= i < kinds.len() && kinds[i] == kind && (#[trigger] sizes[i]) is Some
                    && sizes[i]->0 < 0 && forall|j: int|
                    from + 1 <= j < i && (#[trigger] sizes[j]) is Some ==> sizes[j]->0 >= 0;
            assert(sizes[i] is Some);
        }
    } else if from < kinds.len() {
        assert(sizes[from] is Some);
    }
}

/// A size that is too large to be told exactly is told to the nearest of the numbers that
/// have fifty-three binary digits.
pub proof fn law_large_sizes_are_told_to_the_nearest(value: u64)
    ensures
        ({
            let step = spacing(value as int, 1);
            &&& 1 <= step
            &&& value < 0x20_0000_0000_0000 * step
            &&& -step <= 2 * (significant(value) - value) <= step
            &&& value < 0x20_0000_0000_0000 ==> significant(value) == value
        }),
{
    lemma_spacing(value as int, 1);
    law_nearest_is_at_most_half_a_unit_away(value as int, spacing(value as int, 1));
}

proof fn lemma_spacing(value: int, step: int)
    requires
        1 <= step,
    ensures
        step <= spacing(value, step),
        value < 0x20_0000_0000_0000 * spacing(value, step),
    decreases value - step,
{
    if value >= 0x20_0000_0000_0000 * step {
        lemma_spacing(value, 2 * step);
    }
}

} // verus!
