//! Which files of the hardware tree are of interest.

use vstd::prelude::*;
use vstd::slice::slice_subrange;
use crate::lossy;
use crate::lossy::push_lossy;
use crate::sample;
use crate::sample::REASON_LEN;
use crate::text;

verus! {

// ---- Throttle reasons ----

/// The reason that a file of the GPU's directory is named after. The overall status and the
/// power-limit levels are no reasons.
pub open spec fn reason_of(name: Seq<u8>) -> Option<Seq<u8>> {
    let prefix = text::ascii("throttle_reason_"@);
    if !text::occurs_at(name, prefix, 0) {
        None
    } else {
        let reason = name.skip(16);
        if reason == text::ascii("status"@) || text::occurs_at(reason, text::ascii("pl"@), 0) {
            None
        } else {
            Some(reason)
        }
    }
}

/// The throttle reason that a file is named after, as far as there is room for it.
pub fn throttle_reason(name: &[u8]) -> (r: Option<([u8; REASON_LEN], u8)>)
    ensures
        match r {
            Some(n) => {
                &&& reason_of(name@) is Some
                &&& n.1 <= REASON_LEN
                &&& n.0@.take(n.1 as int) == sample::up_to(reason_of(name@)->0, REASON_LEN as nat)
                &&& forall|i: int| n.1 <= i < REASON_LEN ==> n.0@[i] == 0
            },
            None => reason_of(name@) is None,
        },
{
    if !text::bytes_at(name, "throttle_reason_", 0) {
        return None;
    }
    proof {
        reveal_strlit("throttle_reason_");
    }
    let reason = slice_subrange(name, 16, name.len());
    proof {
        assert(reason@ =~= name@.skip(16));
    }
    if text::bytes_are(reason, "status") || text::bytes_at(reason, "pl", 0) {
        return None;
    }
    let mut out: [u8; REASON_LEN] = [0; REASON_LEN];
    let mut i: usize = 0;
    while i < reason.len() && i < REASON_LEN
        invariant
            i <= reason@.len(),
            i <= REASON_LEN,
            forall|k: int| 0 <= k < i ==> out@[k] == reason@[k],
            forall|k: int| i <= k < REASON_LEN ==> out@[k] == 0,
        decreases reason@.len() - i,
    {
        out[i] = reason[i];
        i += 1;
    }
    proof {
        assert(out@.take(i as int) =~= sample::up_to(reason@, REASON_LEN as nat));
    }
    Some((out, i as u8))
}

// ---- Names ----

/// The directory is that of a graphics card: `card` and a number.
pub open spec fn is_card(name: Seq<u8>) -> bool {
    text::occurs_at(name, text::ascii("card"@), 0) && forall|i: int|
        4 <= i < name.len() ==> text::is_digit(#[trigger] name[i])
}

/// Whether a directory is that of a graphics card.
pub fn is_card_name(name: &[u8]) -> (r: bool)
    ensures
        r == is_card(name@),
{
    text::bytes_at(name, "card", 0) && text::digits_from(name, 4)
}

/// Whether a directory is that of a thermal zone.
pub fn is_thermal_zone(name: &[u8]) -> (r: bool)
    ensures
        r == text::occurs_at(name@, text::ascii("thermal_zone"@), 0),
{
    text::bytes_at(name, "thermal_zone", 0)
}

/// The text, without white space around it and in lower case.
pub open spec fn plain(s: Seq<char>) -> Seq<char> {
    text::lowered(text::trimmed(s))
}

fn to_plain(s: &str) -> (r: Vec<char>)
    ensures
        r@ == plain(s@),
{
    let c = text::chars_of(s);
    text::lower(text::trim(&c))
}

/// A thermal zone of this type measures the processor.
pub open spec fn measures_cpu(kind: Seq<char>) -> bool {
    let k = plain(kind);
    text::holds(k, "cpu"@) || text::holds(k, "package"@) || text::holds(k, "x86_pkg"@)
}

/// Whether a thermal zone of this type measures the processor.
pub fn is_cpu_zone(kind: &str) -> (r: bool)
    ensures
        r == measures_cpu(kind@),
{
    let k = to_plain(kind);
    text::contains_text(&k, "cpu") || text::contains_text(&k, "package") || text::contains_text(&k, "x86_pkg")
}

/// The names of the drivers that measure a processor.
pub open spec fn is_driver(name: Seq<char>) -> bool {
    name == "coretemp"@ || name == "k10temp"@ || name == "zenpower"@ || name == "cpu_thermal"@
}

/// Whether a monitoring chip of this name measures the processor.
pub fn is_cpu_chip(name: &str) -> (r: bool)
    ensures
        r == is_driver(text::trimmed(name@)),
{
    let c = text::chars_of(name);
    let n = text::string_of(text::trim(&c));
    let s = n.as_str();
    text::same_text(s, "coretemp") || text::same_text(s, "k10temp") || text::same_text(s, "zenpower")
        || text::same_text(s, "cpu_thermal")
}

// ---- Sensors of a chip ----

/// What stands before `_input` in the name of a temperature input.
pub open spec fn stem_of(name: Seq<u8>) -> Option<Seq<u8>> {
    let n = name.len() - 6;
    if n < 0 || !text::occurs_at(name, text::ascii("_input"@), n) {
        None
    } else {
        let stem = name.take(n);
        if text::occurs_at(stem, text::ascii("temp"@), 0) && forall|i: int|
            4 <= i < stem.len() ==> text::is_digit(#[trigger] stem[i]) {
            Some(stem)
        } else {
            None
        }
    }
}

/// What stands before `_input` in the name of a temperature input; none for other files.
pub fn sensor_stem<'a>(name: &'a [u8]) -> (r: Option<&'a [u8]>)
    ensures
        match r {
            Some(s) => stem_of(name@) == Some(s@),
            None => stem_of(name@) is None,
        },
{
    let len: usize = name.len();
    if len < 6 || !text::bytes_at(name, "_input", len - 6) {
        return None;
    }
    let stem = slice_subrange(name, 0, len - 6);
    proof {
        assert(stem@ =~= name@.take(len - 6));
    }
    if text::bytes_at(stem, "temp", 0) && text::digits_from(stem, 4) {
        Some(stem)
    } else {
        None
    }
}

/// The file with the label of an input.
pub fn label_file(stem: &[u8]) -> (r: String)
    ensures
        r@ == lossy::lossy(stem@) + "_label"@,
{
    let mut r = String::new();
    push_lossy(&mut r, stem);
    r.append("_label");
    proof {
        assert(r@ =~= lossy::lossy(stem@) + "_label"@);
    }
    r
}

/// The label is that of the whole processor.
pub open spec fn is_preferred(label: Seq<char>) -> bool {
    let l = plain(label);
    text::holds(l, "package"@) || l == "tctl"@ || l == "tdie"@ || text::holds(l, "cpu"@)
}

/// Whether a label is that of the whole processor.
pub fn is_preferred_label(label: &str) -> (r: bool)
    ensures
        r == is_preferred(label@),
{
    let l = to_plain(label);
    let s = text::string_of(&l);
    text::contains_text(&l, "package") || text::same_text(s.as_str(), "tctl") || text::same_text(s.as_str(), "tdie")
        || text::contains_text(&l, "cpu")
}

/// A temperature input of a chip: the name of its file, and its label.
pub struct SensorInput {
    pub name: Vec<u8>,
    pub label: Option<String>,
}

/// The input has the label of the whole processor.
pub open spec fn preferred(input: SensorInput) -> bool {
    input.label matches Some(l) && is_preferred(l@)
}

/// The input is the chip's first.
pub open spec fn is_first_input(input: SensorInput) -> bool {
    input.name@ == text::ascii("temp1_input"@)
}

/// The input of a list that is read: the first that is labelled for the whole processor, else
/// the last that is a chip's first input.
pub open spec fn is_picked(inputs: Seq<SensorInput>, i: int) -> bool {
    &&& 0 <= i < inputs.len()
    &&& if preferred(inputs[i]) {
        forall|k: int| 0 <= k < i ==> !preferred(#[trigger] inputs[k])
    } else {
        &&& is_first_input(inputs[i])
        &&& forall|k: int| 0 <= k < inputs.len() ==> !preferred(#[trigger] inputs[k])
        &&& forall|k: int| i < k < inputs.len() ==> !is_first_input(#[trigger] inputs[k])
    }
}

/// The input that is read: the first that is labelled for the whole processor, else the chip's
/// first input, the last of that name.
pub fn pick_input(inputs: &[SensorInput]) -> (r: Option<usize>)
    ensures
        match r {
            Some(i) => is_picked(inputs@, i as int),
            None => forall|k: int|
                0 <= k < inputs@.len() ==> !preferred(#[trigger] inputs@[k]) && !is_first_input(inputs@[k]),
        },
{
    let mut fallback: Option<usize> = None;
    let mut i: usize = 0;
    while i < inputs.len()
        invariant
            i <= inputs@.len(),
            forall|k: int| 0 <= k < i ==> !preferred(#[trigger] inputs@[k]),
            match fallback {
                Some(f) => f < i && is_first_input(inputs@[f as int]) && forall|k: int|
                    f < k < i ==> !is_first_input(#[trigger] inputs@[k]),
                None => forall|k: int| 0 <= k < i ==> !is_first_input(#[trigger] inputs@[k]),
            },
        decreases inputs@.len() - i,
    {
        let input = &inputs[i];
        if let Some(l) = &input.label {
            if is_preferred_label(l.as_str()) {
                return Some(i);
            }
        }
        if text::bytes_are(&input.name, "temp1_input") {
            fallback = Some(i);
        }
        i += 1;
    }
    fallback
}

// ---- Where the temperature comes from ----

/// A thermal zone: its directory, its type where that can be read, and whether its temperature
/// can be opened.
pub struct Zone {
    pub name: Vec<u8>,
    pub kind: Option<String>,
    pub opens: bool,
}

/// A monitoring chip: its name where that can be read, and its temperature inputs that can be
/// opened.
pub struct Chip {
    pub name: Option<String>,
    pub inputs: Vec<SensorInput>,
}

/// A source of the processor's temperature.
#[derive(Clone, Copy, PartialEq, Eq, Structural, Debug)]
pub enum TempSource {
    /// The thermal zone with this index.
    Zone(usize),
    /// Of the chip with this index the input with this index.
    Input(usize, usize),
}

/// The zone gives the processor's temperature.
pub open spec fn zone_serves(z: Zone) -> bool {
    &&& text::occurs_at(z.name@, text::ascii("thermal_zone"@), 0)
    &&& z.kind matches Some(k) && measures_cpu(k@)
    &&& z.opens
}

/// The chip measures the processor and has an input to read.
pub open spec fn chip_serves(c: Chip) -> bool {
    &&& c.name matches Some(n) && is_driver(text::trimmed(n@))
    &&& exists|k: int|
        0 <= k < c.inputs@.len() && (preferred(#[trigger] c.inputs@[k]) || is_first_input(c.inputs@[k]))
}

/// The source of the processor's temperature: the first zone that gives it, else an input of the
/// first chip that does.
pub fn pick_temperature(zones: &[Zone], chips: &[Chip]) -> (r: Option<TempSource>)
    ensures
        match r {
            Some(TempSource::Zone(z)) => z < zones@.len() && zone_serves(zones@[z as int]) && forall|k: int|
                0 <= k < z ==> !zone_serves(#[trigger] zones@[k]),
            Some(TempSource::Input(c, i)) => {
                &&& forall|k: int| 0 <= k < zones@.len() ==> !zone_serves(#[trigger] zones@[k])
                &&& c < chips@.len() && chip_serves(chips@[c as int])
                &&& forall|k: int| 0 <= k < c ==> !chip_serves(#[trigger] chips@[k])
                &&& is_picked(chips@[c as int].inputs@, i as int)
            },
            None => {
                &&& forall|k: int| 0 <= k < zones@.len() ==> !zone_serves(#[trigger] zones@[k])
                &&& forall|k: int| 0 <= k < chips@.len() ==> !chip_serves(#[trigger] chips@[k])
            },
        },
{
    let mut z: usize = 0;
    while z < zones.len()
        invariant
            z <= zones@.len(),
            forall|k: int| 0 <= k < z ==> !zone_serves(#[trigger] zones@[k]),
        decreases zones@.len() - z,
    {
        let zone = &zones[z];
        if zone.opens && is_thermal_zone(&zone.name) {
            if let Some(kind) = &zone.kind {
                if is_cpu_zone(kind.as_str()) {
                    return Some(TempSource::Zone(z));
                }
            }
        }
        z += 1;
    }
    let mut c: usize = 0;
    while c < chips.len()
        invariant
            c <= chips@.len(),
            forall|k: int| 0 <= k < zones@.len() ==> !zone_serves(#[trigger] zones@[k]),
            forall|k: int| 0 <= k < c ==> !chip_serves(#[trigger] chips@[k]),
        decreases chips@.len() - c,
    {
        let chip = &chips[c];
        if let Some(name) = &chip.name {
            if is_cpu_chip(name.as_str()) {
                if let Some(i) = pick_input(&chip.inputs) {
                    proof {
                        assert(preferred(chip.inputs@[i as int]) || is_first_input(chip.inputs@[i as int]));
                    }
                    return Some(TempSource::Input(c, i));
                }
            }
        }
        c += 1;
    }
    None
}

// ---- Where the GPU is ----

/// A directory of the graphics class, and which of the GPU's files it has.
pub struct Card {
    pub name: Vec<u8>,
    pub has_rc6: bool,
    pub has_freq: bool,
    pub has_max: bool,
}

/// The directory is that of a card with one of the GPU's files.
pub open spec fn card_serves(c: Card) -> bool {
    is_card(c.name@) && (c.has_rc6 || c.has_freq || c.has_max)
}

/// The first card with one of the GPU's files.
pub fn pick_card(cards: &[Card]) -> (r: Option<usize>)
    ensures
        match r {
            Some(i) => i < cards@.len() && card_serves(cards@[i as int]) && forall|k: int|
                0 <= k < i ==> !card_serves(#[trigger] cards@[k]),
            None => forall|k: int| 0 <= k < cards@.len() ==> !card_serves(#[trigger] cards@[k]),
        },
{
    let mut i: usize = 0;
    while i < cards.len()
        invariant
            i <= cards@.len(),
            forall|k: int| 0 <= k < i ==> !card_serves(#[trigger] cards@[k]),
        decreases cards@.len() - i,
    {
        let c = &cards[i];
        if is_card_name(&c.name) && (c.has_rc6 || c.has_freq || c.has_max) {
            return Some(i);
        }
        i += 1;
    }
    None
}

// ---- What names mean ----

/// A throttle file is named after its reason, unless that is the overall status or a power-limit
/// level; other files have none.
pub proof fn a_throttle_file_names_its_reason(reason: Seq<u8>)
    ensures
        reason != text::ascii("status"@) && !(reason.len() >= 2 && reason[0] == 'p' as u8 && reason[1] == 'l' as u8)
            ==> reason_of(text::ascii("throttle_reason_"@) + reason) == Some(reason),
        reason == text::ascii("status"@) || (reason.len() >= 2 && reason[0] == 'p' as u8 && reason[1] == 'l' as u8)
            ==> reason_of(text::ascii("throttle_reason_"@) + reason) is None,
        !(reason.len() >= 16 && reason.take(16) == text::ascii("throttle_reason_"@)) ==> reason_of(reason) is None,
{
    reveal_strlit("throttle_reason_");
    reveal_strlit("status");
    reveal_strlit("pl");
    let prefix = text::ascii("throttle_reason_"@);
    let name = prefix + reason;
    assert(name.subrange(0, 16) =~= prefix);
    assert(name.skip(16) =~= reason);
    if reason.len() >= 2 {
        let two = reason.subrange(0, 2);
        assert(two[0] == reason[0] && two[1] == reason[1]);
        if two == text::ascii("pl"@) {
            assert(two[0] == text::ascii("pl"@)[0] && two[1] == text::ascii("pl"@)[1]);
        }
        if reason[0] == 'p' as u8 && reason[1] == 'l' as u8 {
            assert(two =~= text::ascii("pl"@));
        }
    }
    if reason.len() >= 16 {
        assert(reason.take(16) =~= reason.subrange(0, 16));
    }
}

/// The bytes are decimal digits.
pub open spec fn are_digits(b: Seq<u8>) -> bool {
    forall|i: int| 0 <= i < b.len() ==> 48 <= #[trigger] b[i] <= 57
}

/// A card's directory is `card` and digits, and a temperature input is `temp`, digits and
/// `_input`; anything else among them makes other names.
pub proof fn cards_and_inputs_are_numbered(number: Seq<u8>)
    ensures
        is_card(text::ascii("card"@) + number) <==> are_digits(number),
        are_digits(number) ==> stem_of(text::ascii("temp"@) + number + text::ascii("_input"@)) == Some(
            text::ascii("temp"@) + number,
        ),
        !are_digits(number) ==> stem_of(text::ascii("temp"@) + number + text::ascii("_input"@)) is None,
{
    reveal_strlit("card");
    reveal_strlit("temp");
    reveal_strlit("_input");
    let card = text::ascii("card"@) + number;
    assert(card.subrange(0, 4) =~= text::ascii("card"@));
    assert forall|i: int| 0 <= i < number.len() implies card[i + 4] == #[trigger] number[i] by {}
    if is_card(card) {
        assert forall|i: int| 0 <= i < number.len() implies 48 <= #[trigger] number[i] <= 57 by {
            assert(text::is_digit(card[i + 4]));
        }
    }
    if are_digits(number) {
        assert forall|i: int| 4 <= i < card.len() implies text::is_digit(#[trigger] card[i]) by {
            assert(48 <= number[i - 4] <= 57);
        }
    }
    let stem = text::ascii("temp"@) + number;
    let name = stem + text::ascii("_input"@);
    let n = name.len() - 6;
    assert(name.subrange(n, n + 6) =~= text::ascii("_input"@));
    assert(name.take(n) =~= stem);
    assert(stem.subrange(0, 4) =~= text::ascii("temp"@));
    if are_digits(number) {
        assert forall|i: int| 4 <= i < stem.len() implies text::is_digit(#[trigger] stem[i]) by {
            assert(48 <= number[i - 4] <= 57);
        }
    } else {
        let i = choose|i: int| 0 <= i < number.len() && !(48 <= #[trigger] number[i] <= 57);
        assert(stem[i + 4] == number[i]);
        assert(!text::is_digit(stem[i + 4]));
    }
}

/// `part` stands in the text in lower case, with nothing around it cut but white space.
pub open spec fn mentions(s: Seq<char>, part: Seq<char>) -> bool {
    exists|i: int|
        0 <= i && i + part.len() <= text::trimmed(s).len() && text::lowered(
            #[trigger] text::trimmed(s).subrange(i, i + part.len()),
        ) == part
}

proof fn lemma_mentions(s: Seq<char>, part: Seq<char>)
    ensures
        text::holds(plain(s), part) <==> mentions(s, part),
{
    let t = text::trimmed(s);
    text::text_is_found_where_it_stands(plain(s), part);
    assert forall|i: int| 0 <= i && i + part.len() <= t.len() implies text::lowered(
        #[trigger] t.subrange(i, i + part.len()),
    ) == plain(s).subrange(i, i + part.len()) by {
        assert(text::lowered(t.subrange(i, i + part.len())) =~= plain(s).subrange(i, i + part.len()));
    }
    if mentions(s, part) {
        let i = choose|i: int|
            0 <= i && i + part.len() <= t.len() && text::lowered(#[trigger] t.subrange(i, i + part.len())) == part;
        assert(plain(s).subrange(i, i + part.len()) == part);
    }
    if text::holds(plain(s), part) {
        let i = choose|i: int|
            0 <= i && i + part.len() <= plain(s).len() && #[trigger] plain(s).subrange(i, i + part.len()) == part;
        assert(text::lowered(t.subrange(i, i + part.len())) == part);
    }
}

/// A zone measures the processor where its type mentions it or its package, in capitals or not;
/// a chip does where its name is that of one of four drivers; and a label is that of the whole
/// processor where it mentions the package or the processor, or is `Tctl` or `Tdie`.
pub proof fn processors_are_known_by_name(s: Seq<char>)
    ensures
        measures_cpu(s) <==> mentions(s, "cpu"@) || mentions(s, "package"@) || mentions(s, "x86_pkg"@),
        is_driver(s) <==> s == "coretemp"@ || s == "k10temp"@ || s == "zenpower"@ || s == "cpu_thermal"@,
        is_preferred(s) <==> mentions(s, "cpu"@) || mentions(s, "package"@) || text::lowered(text::trimmed(s))
            == "tctl"@ || text::lowered(text::trimmed(s)) == "tdie"@,
{
    lemma_mentions(s, "cpu"@);
    lemma_mentions(s, "package"@);
    lemma_mentions(s, "x86_pkg"@);
}

/// A zone serves where its directory is a thermal zone's, its type measures the processor and its
/// temperature opens; a card serves where one of its three files is there.
pub proof fn what_opens_serves(z: Zone, c: Card)
    ensures
        zone_serves(z) <==> {
            &&& z.opens
            &&& z.name@.len() >= 12 && z.name@.take(12) == text::ascii("thermal_zone"@)
            &&& z.kind is Some && measures_cpu(z.kind->0@)
        },
        card_serves(c) <==> is_card(c.name@) && !(!c.has_rc6 && !c.has_freq && !c.has_max),
{
    reveal_strlit("thermal_zone");
    if z.name@.len() >= 12 {
        assert(z.name@.take(12) =~= z.name@.subrange(0, 12));
    }
}

/// Of a chip's inputs the first with the label of the whole processor is read; without one, the
/// last that is called `temp1_input`. A chip serves where it has such an input and the name of a
/// driver.
pub proof fn the_labelled_input_is_read(c: Chip, i: int)
    ensures
        is_picked(c.inputs@, i) && (exists|k: int|
            0 <= k < c.inputs@.len() && (#[trigger] c.inputs@[k]).label is Some && is_preferred(c.inputs@[k].label->0@))
            ==> {
            &&& c.inputs@[i].label is Some && is_preferred(c.inputs@[i].label->0@)
            &&& forall|k: int|
                0 <= k < i ==> !((#[trigger] c.inputs@[k]).label is Some && is_preferred(c.inputs@[k].label->0@))
        },
        is_picked(c.inputs@, i) && !(exists|k: int|
            0 <= k < c.inputs@.len() && (#[trigger] c.inputs@[k]).label is Some && is_preferred(c.inputs@[k].label->0@))
            ==> {
            &&& c.inputs@[i].name@ == text::ascii("temp1_input"@)
            &&& forall|k: int|
                i < k < c.inputs@.len() ==> (#[trigger] c.inputs@[k]).name@ != text::ascii("temp1_input"@)
        },
        is_picked(c.inputs@, i) ==> 0 <= i < c.inputs@.len(),
        chip_serves(c) <==> {
            &&& c.name is Some && is_driver(text::trimmed(c.name->0@))
            &&& exists|k: int| 0 <= k < c.inputs@.len() && can_be_read(#[trigger] c.inputs@[k])
        },
{
    if is_picked(c.inputs@, i) && exists|k: int|
        0 <= k < c.inputs@.len() && (#[trigger] c.inputs@[k]).label is Some && is_preferred(c.inputs@[k].label->0@) {
        let k = choose|k: int|
            0 <= k < c.inputs@.len() && (#[trigger] c.inputs@[k]).label is Some && is_preferred(c.inputs@[k].label->0@);
        assert(preferred(c.inputs@[k]));
        assert(preferred(c.inputs@[i]));
        assert forall|j: int| 0 <= j < i implies !((#[trigger] c.inputs@[j]).label is Some && is_preferred(
            c.inputs@[j].label->0@,
        )) by {
            assert(!preferred(c.inputs@[j]));
        }
    }
    if is_picked(c.inputs@, i) && !(exists|k: int|
        0 <= k < c.inputs@.len() && (#[trigger] c.inputs@[k]).label is Some && is_preferred(c.inputs@[k].label->0@)) {
        assert(!preferred(c.inputs@[i]));
        assert forall|k: int| i < k < c.inputs@.len() implies (#[trigger] c.inputs@[k]).name@ != text::ascii(
            "temp1_input"@,
        ) by {
            assert(!is_first_input(c.inputs@[k]));
        }
    }
    assert forall|k: int| 0 <= k < c.inputs@.len() implies (can_be_read(#[trigger] c.inputs@[k]) <==> preferred(
        c.inputs@[k],
    ) || is_first_input(c.inputs@[k])) by {}
}

/// The input has the label of the whole processor, or is called `temp1_input`.
pub open spec fn can_be_read(input: SensorInput) -> bool {
    ||| input.label is Some && is_preferred(input.label->0@)
    ||| input.name@ == text::ascii("temp1_input"@)
}

} // verus!
