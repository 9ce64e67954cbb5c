//! The bookkeeping of the Bluetooth link to a brain: which peripherals are brains, which one
//! is connected, and what is written to and read from it.
use vstd::prelude::*;
use colored::Colorize;

verus! {

broadcast use vstd::string::group_string_axioms;

/// A brain is a peripheral that offers a service with this UUID.
pub const SERVICE_UUID: u128 = 0x08590f7edb05467e875772f6faeb13d5;

/// Writing to this characteristic writes to stdin on the brain.
pub const WRITE_CHAR: u128 = 0x08590f7edb05467e875772f6faeb1306;

/// Reading from this characteristic reads stdout from the brain.
pub const READ_CHAR: u128 = 0x08590f7edb05467e875772f6faeb1316;

/// This characteristic serves to connect to and authenticate with the brain.
pub const SYSTEM_CHAR: u128 = 0x08590f7edb05467e875772f6faeb13e5;

/// The name and address of a brain, as shown to the user.
#[derive(Debug)]
pub struct BrainData {
    pub name: String,
    pub address: String,
}

impl Clone for BrainData {
    fn clone(&self) -> (r: Self)
        ensures
            r == *self,
    {
        BrainData { name: self.name.clone(), address: self.address.clone() }
    }
}

/// What a peripheral found by a scan tells of itself.
#[derive(Debug)]
pub struct PeripheralInfo {
    /// The UUIDs of the services that it offers.
    pub services: Vec<u128>,
    /// The name that it advertises, if any.
    pub local_name: Option<String>,
    /// Its Bluetooth address, as text.
    pub address: String,
}

/// A characteristic of a connected peripheral.
#[derive(Debug, Clone, Copy, PartialEq, Eq, Structural)]
pub struct CharacteristicInfo {
    pub uuid: u128,
    /// Whether it can notify its subscribers of new values.
    pub notify: bool,
}

/// Errors of the link to a brain.
#[derive(Debug, Clone, Copy, PartialEq, Eq, Structural)]
pub enum BrainControllerError {
    IncorrectCode,
    NoBrainConnected,
    CouldNotConnect,
}

impl BrainControllerError {
    /// The text that describes the error.
    pub fn message(&self) -> (r: String)
        ensures
            r@ == match self {
                BrainControllerError::IncorrectCode => "Incorrect code provided"@,
                BrainControllerError::NoBrainConnected => "No brain is currently connected"@,
                BrainControllerError::CouldNotConnect => "Could not connect to the brain"@,
            },
    {
        match self {
            BrainControllerError::IncorrectCode => "Incorrect code provided".to_string(),
            BrainControllerError::NoBrainConnected => "No brain is currently connected".to_string(),
            BrainControllerError::CouldNotConnect => "Could not connect to the brain".to_string(),
        }
    }
}

/// The escape sequence that turns the foreground blue on a terminal.
pub open spec fn blue_start() -> Seq<char> {
    seq!['\u{1b}', '[', '3', '4', 'm']
}

/// The escape sequence that resets the terminal's colours.
pub open spec fn colour_reset() -> Seq<char> {
    seq!['\u{1b}', '[', '0', 'm']
}

/// `Colorize::blue` of the `colored` crate, rendered with `to_string`.
///
/// The text comes back either as it was or between the escape sequences of a blue foreground
/// and of a reset; which of the two depends on the environment (`CLICOLOR_FORCE`, `NO_COLOR`,
/// `CLICOLOR`) and on whether stdout is a terminal, which is left unsaid. Text that holds an
/// escape character could have its own reset sequences rewritten, so it is not admitted.
#[verifier::external_body]
fn paint_blue(text: &str) -> (r: String)
    requires
        forall|i: int| 0 <= i < text@.len() ==> text@[i] != '\u{1b}',
    ensures
        r@ == text@ || r@ == blue_start() + text@ + colour_reset(),
{
    text.blue().to_string()
}

/// The line of `=` that heads the description of a brain.
pub open spec fn banner() -> Seq<char> {
    "==============="@
}

impl BrainData {
    /// The description of the brain under a heading `head`.
    pub open spec fn description(self, head: Seq<char>) -> Seq<char> {
        head + " \n Name: "@ + self.name@ + " \n Address: "@ + self.address@
    }

    /// Describes the brain for the user: its name and address under a line of `=`, which is
    /// blue where the terminal shows colours.
    pub fn describe(&self) -> (r: String)
        ensures
            r@ == self.description(banner()) || r@ == self.description(
                blue_start() + banner() + colour_reset(),
            ),
    {
        proof {
            reveal_strlit("===============");
        }
        let mut text = paint_blue("===============");
        text.append(" \n Name: ");
        text.append(self.name.as_str());
        text.append(" \n Address: ");
        text.append(self.address.as_str());
        text
    }
}

/// Whether `c` has the Unicode White_Space property.
pub open spec fn white_space(c: char) -> bool {
    ||| '\u{9}' <= c <= '\u{d}'
    ||| c == ' '
    ||| c == '\u{85}'
    ||| c == '\u{a0}'
    ||| c == '\u{1680}'
    ||| '\u{2000}' <= c <= '\u{200a}'
    ||| c == '\u{2028}'
    ||| c == '\u{2029}'
    ||| c == '\u{202f}'
    ||| c == '\u{205f}'
    ||| c == '\u{3000}'
}

/// How many white space characters `s` starts with.
pub open spec fn leading_white_space(s: Seq<char>) -> nat
    decreases s.len(),
{
    if s.len() > 0 && white_space(s[0]) {
        1 + leading_white_space(s.drop_first())
    } else {
        0
    }
}

/// How many white space characters `s` ends with.
pub open spec fn trailing_white_space(s: Seq<char>) -> nat
    decreases s.len(),
{
    if s.len() > 0 && white_space(s.last()) {
        1 + trailing_white_space(s.drop_last())
    } else {
        0
    }
}

/// `s` without its leading and trailing white space.
pub open spec fn trimmed(s: Seq<char>) -> Seq<char> {
    let rest = s.skip(leading_white_space(s) as int);
    rest.take(rest.len() - trailing_white_space(rest))
}

/// Whether `c` has the Unicode White_Space property.
fn is_white_space(c: char) -> (r: bool)
    ensures
        r == white_space(c),
{
    ('\u{9}' <= c && c <= '\u{d}') || c == ' ' || c == '\u{85}' || c == '\u{a0}' || c == '\u{1680}'
        || ('\u{2000}' <= c && c <= '\u{200a}') || c == '\u{2028}' || c == '\u{2029}' || c
        == '\u{202f}' || c == '\u{205f}' || c == '\u{3000}'
}

/// `s` without its leading and trailing white space, as `str::trim` of std returns it.
fn trim<'a>(s: &'a str) -> (r: &'a str)
    ensures
        r@ == trimmed(s@),
{
    let n = s.unicode_len();
    let mut start: usize = 0;
    while start < n && is_white_space(s.get_char(start))
        invariant
            n == s@.len(),
            start <= n,
            forall|k: int| 0 <= k < start ==> white_space(s@[k]),
        decreases n - start,
    {
        start += 1;
    }
    proof {
        lemma_leading_exact(s@, start as int);
    }
    let mut end: usize = n;
    while end > start && is_white_space(s.get_char(end - 1))
        invariant
            n == s@.len(),
            start <= end <= n,
            forall|k: int| end <= k < n ==> white_space(s@[k]),
        decreases end - start,
    {
        end -= 1;
    }
    proof {
        let rest = s@.skip(start as int);
        assert forall|j: int| rest.len() - (n - end) <= j < rest.len() implies white_space(rest[j]) by {
            assert(rest[j] == s@[start + j]);
        }
        if end > start {
            assert(rest[rest.len() - 1 - (n - end)] == s@[end - 1]);
        }
        lemma_trailing_exact(rest, (n - end) as int);
        assert(rest.take(rest.len() - (n - end)) =~= s@.subrange(start as int, end as int));
    }
    s.substring_char(start, end)
}

proof fn lemma_leading_exact(s: Seq<char>, k: int)
    requires
        0 <= k <= s.len(),
        forall|i: int| 0 <= i < k ==> white_space(s[i]),
        k < s.len() ==> !white_space(s[k]),
    ensures
        leading_white_space(s) == k,
    decreases k,
{
    if k > 0 {
        assert forall|i: int| 0 <= i < k - 1 implies white_space(s.drop_first()[i]) by {
            assert(s.drop_first()[i] == s[i + 1]);
        }
        if k < s.len() {
            assert(s.drop_first()[k - 1] == s[k]);
        }
        lemma_leading_exact(s.drop_first(), k - 1);
    }
}

proof fn lemma_trailing_exact(s: Seq<char>, k: int)
    requires
        0 <= k <= s.len(),
        forall|j: int| s.len() - k <= j < s.len() ==> white_space(s[j]),
        k < s.len() ==> !white_space(s[s.len() - 1 - k]),
    ensures
        trailing_white_space(s) == k,
    decreases k,
{
    if k > 0 {
        let t = s.drop_last();
        assert(white_space(s[s.len() - 1]));
        assert forall|j: int| t.len() - (k - 1) <= j < t.len() implies white_space(t[j]) by {
            assert(t[j] == s[j]);
        }
        if k < s.len() {
            assert(t[t.len() - 1 - (k - 1)] == s[s.len() - 1 - k]);
        }
        lemma_trailing_exact(t, k - 1);
    }
}

proof fn lemma_leading_white_space(s: Seq<char>)
    ensures
        leading_white_space(s) <= s.len(),
        leading_white_space(s) < s.len() ==> !white_space(s[leading_white_space(s) as int]),
        forall|k: int| 0 <= k < leading_white_space(s) ==> white_space(s[k]),
    decreases s.len(),
{
    if s.len() > 0 && white_space(s[0]) {
        lemma_leading_white_space(s.drop_first());
        assert forall|k: int| 0 <= k < leading_white_space(s) implies white_space(s[k]) by {
            if k > 0 {
                assert(s[k] == s.drop_first()[k - 1]);
            }
        }
    }
}

proof fn lemma_trailing_white_space(s: Seq<char>)
    ensures
        trailing_white_space(s) <= s.len(),
        trailing_white_space(s) < s.len() ==> !white_space(
            s[s.len() - 1 - trailing_white_space(s)],
        ),
        forall|k: int| s.len() - trailing_white_space(s) <= k < s.len() ==> white_space(s[k]),
    decreases s.len(),
{
    if s.len() > 0 && white_space(s.last()) {
        lemma_trailing_white_space(s.drop_last());
        assert forall|k: int| s.len() - trailing_white_space(s) <= k < s.len() implies white_space(
            s[k],
        ) by {
            if k < s.len() - 1 {
                assert(s[k] == s.drop_last()[k]);
            }
        }
    }
}

/// Trimming keeps the part of `s` between its leading and its trailing white space: what it
/// drops at either end is white space, and what it keeps neither starts nor ends with it.
pub proof fn lemma_trimmed_is_inner_part(s: Seq<char>)
    ensures
        exists|i: int, j: int|
            {
                &&& 0 <= i <= j <= s.len()
                &&& trimmed(s) == #[trigger] s.subrange(i, j)
                &&& forall|k: int| 0 <= k < i ==> white_space(s[k])
                &&& forall|k: int| j <= k < s.len() ==> white_space(s[k])
                &&& i < j ==> !white_space(s[i]) && !white_space(s[j - 1])
            },
{
    lemma_leading_white_space(s);
    let i = leading_white_space(s) as int;
    let rest = s.skip(i);
    lemma_trailing_white_space(rest);
    let j = s.len() - trailing_white_space(rest);
    assert(trimmed(s) =~= s.subrange(i, j));
    assert forall|k: int| j <= k < s.len() implies white_space(s[k]) by {
        assert(s[k] == rest[k - i]);
    }
    if i < j {
        assert(s[j - 1] == rest[rest.len() - 1 - trailing_white_space(rest)]);
    }
}

/// White space is the Unicode White_Space property: exactly these code points.
pub proof fn lemma_white_space_is_unicode_white_space(c: char)
    ensures
        white_space(c) <==> set![
            0x9u32, 0xA, 0xB, 0xC, 0xD, 0x20, 0x85, 0xA0, 0x1680,
            0x2000, 0x2001, 0x2002, 0x2003, 0x2004, 0x2005, 0x2006, 0x2007, 0x2008, 0x2009, 0x200A,
            0x2028, 0x2029, 0x202F, 0x205F, 0x3000,
        ].contains(c as u32),
{
}

/// What trimming leaves neither starts nor ends with white space.
pub proof fn lemma_trimmed_ends(s: Seq<char>)
    ensures
        trimmed(s).len() > 0 ==> !white_space(trimmed(s)[0]) && !white_space(trimmed(s).last()),
{
    lemma_leading_white_space(s);
    let rest = s.skip(leading_white_space(s) as int);
    lemma_trailing_white_space(rest);
}

/// The indices, in order, of the peripherals among `ps` that offer the brain service.
pub open spec fn brain_indices(ps: Seq<PeripheralInfo>) -> Seq<usize>
    decreases ps.len(),
{
    if ps.len() == 0 {
        Seq::empty()
    } else {
        let before = brain_indices(ps.drop_last());
        if ps.last().services@.contains(SERVICE_UUID) {
            before.push((ps.len() - 1) as usize)
        } else {
            before
        }
    }
}

proof fn lemma_brain_indices(ps: Seq<PeripheralInfo>)
    requires
        ps.len() <= usize::MAX,
    ensures
        forall|i: int|
            0 <= i < brain_indices(ps).len() ==> brain_indices(ps)[i] < ps.len()
                && ps[brain_indices(ps)[i] as int].services@.contains(SERVICE_UUID),
    decreases ps.len(),
{
    if ps.len() > 0 {
        lemma_brain_indices(ps.drop_last());
        assert forall|i: int| 0 <= i < brain_indices(ps).len() implies brain_indices(ps)[i] < ps.len()
            && ps[brain_indices(ps)[i] as int].services@.contains(SERVICE_UUID) by {
            let before = brain_indices(ps.drop_last());
            if i < before.len() {
                assert(brain_indices(ps)[i] == before[i]);
                assert(ps[before[i] as int] == ps.drop_last()[before[i] as int]);
            } else {
                assert(brain_indices(ps)[i] == ps.len() - 1);
            }
        }
    }
}

/// Whether `brains` describes, in order, the brains among `ps`.
pub open spec fn describes_brains(ps: Seq<PeripheralInfo>, brains: Seq<BrainData>) -> bool {
    let found = brain_indices(ps);
    &&& brains.len() == found.len()
    &&& forall|k: int|
        0 <= k < found.len() ==> {
            &&& brains[k].name@ == ps[found[k] as int].local_name->0@
            &&& brains[k].address@ == ps[found[k] as int].address@
        }
}

/// Whether the names before index `k`, as the brains advertise them now, are all there and,
/// without their surrounding white space, all differ from `name`.
pub open spec fn names_before_differ(local_names: Seq<Option<String>>, name: Seq<char>, k: int) -> bool {
    forall|j: int|
        0 <= j < k ==> local_names[j] is Some && trimmed(local_names[j]->0@) != name
}

/// Whether `i` is the index of the first name among `local_names` that, without its
/// surrounding white space, is `name`.
pub open spec fn first_named(local_names: Seq<Option<String>>, name: Seq<char>, i: int) -> bool {
    &&& 0 <= i < local_names.len()
    &&& local_names[i] is Some
    &&& trimmed(local_names[i]->0@) == name
    &&& names_before_differ(local_names, name, i)
}

/// Whether the names are read far enough to answer: each name that the search reaches, because
/// every name before it differs from `name`, is there.
pub open spec fn names_readable(local_names: Seq<Option<String>>, name: Seq<char>) -> bool {
    forall|k: int|
        0 <= k < local_names.len() && names_before_differ(local_names, name, k)
            ==> local_names[k] is Some
}

/// Whether index `i` holds the first characteristic in `chars` with UUID `uuid`.
pub open spec fn first_with_uuid(chars: Seq<CharacteristicInfo>, uuid: u128, i: int) -> bool {
    0 <= i < chars.len() && chars[i].uuid == uuid && forall|k: int| 0 <= k < i ==> chars[k].uuid != uuid
}

/// Whether some characteristic in `chars` has UUID `uuid`.
pub open spec fn has_uuid(chars: Seq<CharacteristicInfo>, uuid: u128) -> bool {
    exists|k: int| 0 <= k < chars.len() && chars[k].uuid == uuid
}

/// The indices, in order, of the characteristics that carry the brain's stdout and notify.
pub open spec fn output_indices(chars: Seq<CharacteristicInfo>) -> Seq<usize>
    decreases chars.len(),
{
    if chars.len() == 0 {
        Seq::empty()
    } else {
        let before = output_indices(chars.drop_last());
        if chars.last().uuid == READ_CHAR && chars.last().notify {
            before.push((chars.len() - 1) as usize)
        } else {
            before
        }
    }
}

/// Whether `s` holds only the decimal digits `0` to `9`.
pub open spec fn all_decimal(s: Seq<char>) -> bool {
    forall|i: int| 0 <= i < s.len() ==> '0' <= #[trigger] s[i] <= '9'
}

/// The values of the decimal digits in `s`.
pub open spec fn digit_values(s: Seq<char>) -> Seq<u8> {
    s.map_values(|c: char| (c as int - '0' as int) as u8)
}

/// The bytes that make a brain show its code on its screen.
pub open spec fn code_request() -> Seq<u8> {
    seq![0xffu8, 0xff, 0xff, 0xff]
}

/// Whether a peripheral offers the brain service.
pub fn is_brain(peripheral: &PeripheralInfo) -> (r: bool)
    ensures
        r == peripheral.services@.contains(SERVICE_UUID),
{
    let n = peripheral.services.len();
    let mut i: usize = 0;
    while i < n
        invariant
            n == peripheral.services@.len(),
            i <= n,
            forall|k: int| 0 <= k < i ==> peripheral.services@[k] != SERVICE_UUID,
        decreases n - i,
    {
        if peripheral.services[i] == SERVICE_UUID {
            assert(peripheral.services@[i as int] == SERVICE_UUID);
            return true;
        }
        i += 1;
    }
    false
}

/// The indices, in order, of the brains among `peripherals`.
pub fn select_brains(peripherals: &Vec<PeripheralInfo>) -> (r: Vec<usize>)
    ensures
        r@ == brain_indices(peripherals@),
        forall|i: int|
            0 <= i < peripherals@.len() ==> (r@.contains(i as usize)
                <==> peripherals@[i].services@.contains(SERVICE_UUID)),
        forall|a: int, b: int| 0 <= a < b < r@.len() ==> r@[a] < r@[b],
{
    let n = peripherals.len();
    proof {
        lemma_brain_indices_exact(peripherals@);
    }
    let mut r: Vec<usize> = Vec::new();
    let mut i: usize = 0;
    while i < n
        invariant
            n == peripherals@.len(),
            i <= n,
            r@ == brain_indices(peripherals@.subrange(0, i as int)),
        decreases n - i,
    {
        let ghost prefix = peripherals@.subrange(0, i + 1);
        assert(prefix.drop_last() =~= peripherals@.subrange(0, i as int));
        if is_brain(&peripherals[i]) {
            r.push(i);
        }
        i += 1;
    }
    assert(peripherals@.subrange(0, n as int) =~= peripherals@);
    r
}

/// The name and address of a brain.
pub fn brain_data(peripheral: &PeripheralInfo) -> (r: BrainData)
    requires
        peripheral.local_name is Some,
    ensures
        r.name@ == peripheral.local_name->0@,
        r.address@ == peripheral.address@,
{
    let name = match &peripheral.local_name {
        Some(name) => name.clone(),
        None => String::new(),
    };
    BrainData { name, address: peripheral.address.clone() }
}

/// The index of the first characteristic in `characteristics` with UUID `uuid`.
pub fn find_characteristic(characteristics: &Vec<CharacteristicInfo>, uuid: u128) -> (r: Option<
    usize,
>)
    ensures
        r matches Some(i) ==> first_with_uuid(characteristics@, uuid, i as int),
        r is None ==> !has_uuid(characteristics@, uuid),
{
    let n = characteristics.len();
    let mut i: usize = 0;
    while i < n
        invariant
            n == characteristics@.len(),
            i <= n,
            forall|k: int| 0 <= k < i ==> characteristics@[k].uuid != uuid,
        decreases n - i,
    {
        if characteristics[i].uuid == uuid {
            return Some(i);
        }
        i += 1;
    }
    None
}

/// The values of the decimal digits of `code` without its surrounding white space; `None`
/// where it holds anything else.
pub fn code_digits(code: &str) -> (r: Option<Vec<u8>>)
    ensures
        r is Some <==> all_decimal(trimmed(code@)),
        r matches Some(digits) ==> digits@ == digit_values(trimmed(code@)),
{
    let t = trim(code);
    let n = t.unicode_len();
    let mut digits: Vec<u8> = Vec::new();
    let mut i: usize = 0;
    while i < n
        invariant
            n == t@.len(),
            t@ == trimmed(code@),
            i <= n,
            digits@ == digit_values(t@.subrange(0, i as int)),
            all_decimal(t@.subrange(0, i as int)),
        decreases n - i,
    {
        let c = t.get_char(i);
        if c < '0' || c > '9' {
            assert(!('0' <= t@[i as int] <= '9'));
            return None;
        }
        digits.push((c as u32 - '0' as u32) as u8);
        i += 1;
        assert(digits@ =~= digit_values(t@.subrange(0, i as int)));
        assert(all_decimal(t@.subrange(0, i as int))) by {
            assert forall|k: int| 0 <= k < i implies '0' <= #[trigger] t@.subrange(0, i as int)[k] <= '9' by {
                if k < i - 1 {
                    assert(t@.subrange(0, i as int)[k] == t@.subrange(0, i - 1)[k]);
                }
            }
        }
    }
    assert(t@.subrange(0, n as int) =~= t@);
    Some(digits)
}

/// The controller's record of the link: the brains that the last search found and the brain
/// that is connected, if any.
pub struct BrainController {
    available_brains: Vec<BrainData>,
    connected_brain: Option<BrainData>,
}

impl BrainController {
    /// The brains that the last search found.
    pub closed spec fn brains(&self) -> Seq<BrainData> {
        self.available_brains@
    }

    /// The connected brain.
    pub closed spec fn connected(&self) -> Option<BrainData> {
        self.connected_brain
    }

    /// A controller that knows of no brain.
    pub fn new() -> (c: Self)
        ensures
            c.brains() == Seq::<BrainData>::empty(),
            c.connected() is None,
    {
        BrainController { available_brains: Vec::new(), connected_brain: None }
    }

    /// The brains that the last search found.
    pub fn available_brains(&self) -> (r: &Vec<BrainData>)
        ensures
            r@ == self.brains(),
    {
        &self.available_brains
    }

    /// Whether a brain is connected.
    pub fn is_connected(&self) -> (r: bool)
        ensures
            r == self.connected() is Some,
    {
        self.connected_brain.is_some()
    }

    /// Records the brains among the peripherals that a scan found, and returns them.
    pub fn search(&mut self, peripherals: &Vec<PeripheralInfo>) -> (r: Result<
        Vec<BrainData>,
        BrainControllerError,
    >)
        requires
            forall|i: int|
                0 <= i < peripherals@.len() && peripherals@[i].services@.contains(SERVICE_UUID)
                    ==> peripherals@[i].local_name is Some,
        ensures
            describes_brains(peripherals@, final(self).brains()),
            r matches Ok(found) && found@ == final(self).brains(),
            final(self).connected() == old(self).connected(),
    {
        let count = peripherals.len();
        let indices = select_brains(peripherals);
        proof {
            lemma_brain_indices(peripherals@);
        }
        let mut found: Vec<BrainData> = Vec::new();
        let mut kept: Vec<BrainData> = Vec::new();
        let mut k: usize = 0;
        while k < indices.len()
            invariant
                count == peripherals@.len(),
                indices@ == brain_indices(peripherals@),
                k <= indices@.len(),
                found@.len() == k,
                found@ == kept@,
                forall|i: int| 0 <= i < indices@.len() ==> indices@[i] < peripherals@.len()
                    && peripherals@[indices@[i] as int].services@.contains(SERVICE_UUID),
                forall|i: int| 0 <= i < peripherals@.len() && peripherals@[i].services@.contains(SERVICE_UUID)
                    ==> peripherals@[i].local_name is Some,
                forall|j: int|
                    0 <= j < k ==> {
                        &&& found@[j].name@ == peripherals@[indices@[j] as int].local_name->0@
                        &&& found@[j].address@ == peripherals@[indices@[j] as int].address@
                    },
            decreases indices.len() - k,
        {
            let data = brain_data(&peripherals[indices[k]]);
            kept.push(data.clone());
            found.push(data);
            k += 1;
        }
        self.available_brains = kept;
        Ok(found)
    }

    /// The index of the first brain whose name, as it advertises it now and without its
    /// surrounding white space, is `name`. `local_names` holds those names in the order of the
    /// found brains; `name` itself is taken as it is, so a name that starts or ends with white
    /// space matches no brain.
    pub fn find_brain_with_name(local_names: &Vec<Option<String>>, name: &String) -> (r: Option<
        usize,
    >)
        requires
            names_readable(local_names@, name@),
        ensures
            r matches Some(i) ==> first_named(local_names@, name@, i as int),
            r is None ==> names_before_differ(local_names@, name@, local_names@.len() as int),
    {
        let n = local_names.len();
        let mut i: usize = 0;
        while i < n
            invariant
                n == local_names@.len(),
                i <= n,
                names_readable(local_names@, name@),
                names_before_differ(local_names@, name@, i as int),
            decreases n - i,
        {
            let local = match &local_names[i] {
                Some(local) => trim(local.as_str()).to_string(),
                None => String::new(),
            };
            if local == *name {
                return Some(i);
            }
            i += 1;
        }
        None
    }

    /// Whether `local_names` can be searched for `name`: each name that the search reaches is
    /// there. The search reads the names in order and stops at the first match.
    pub fn can_search_names(local_names: &Vec<Option<String>>, name: &String) -> (r: bool)
        ensures
            r == names_readable(local_names@, name@),
    {
        let n = local_names.len();
        let mut i: usize = 0;
        while i < n
            invariant
                n == local_names@.len(),
                i <= n,
                names_before_differ(local_names@, name@, i as int),
            decreases n - i,
        {
            match &local_names[i] {
                Some(local) => {
                    let trimmed_local = trim(local.as_str()).to_string();
                    if trimmed_local == *name {
                        assert forall|k: int|
                            0 <= k < local_names@.len() && names_before_differ(
                                local_names@,
                                name@,
                                k,
                            ) implies local_names@[k] is Some by {
                            if k > i {
                                assert(!(local_names@[i as int] is Some && trimmed(
                                    local_names@[i as int]->0@,
                                ) != name@));
                            }
                        }
                        return true;
                    }
                },
                None => {
                    return false;
                },
            }
            i += 1;
        }
        true
    }

    /// Picks the brain to connect to among the found ones, whose names, as they advertise them
    /// now, are `local_names`: the first one named `name`; without one, the connection fails.
    pub fn connect(&self, local_names: &Vec<Option<String>>, name: &String) -> (r: Result<
        usize,
        BrainControllerError,
    >)
        requires
            local_names@.len() == self.brains().len(),
            names_readable(local_names@, name@),
        ensures
            r matches Ok(i) ==> first_named(local_names@, name@, i as int) && i < self.brains().len(),
            r is Err ==> names_before_differ(local_names@, name@, local_names@.len() as int)
                && r == Err::<usize, BrainControllerError>(BrainControllerError::CouldNotConnect),
    {
        match Self::find_brain_with_name(local_names, name) {
            Some(i) => Ok(i),
            None => Err(BrainControllerError::CouldNotConnect),
        }
    }

    /// Records how the attempt to connect to the brain at `index` ended: where the link was
    /// made, that brain is the connected one; where not, the connection fails.
    pub fn connect_finished(&mut self, index: usize, linked: bool) -> (r: Result<
        (),
        BrainControllerError,
    >)
        requires
            index < old(self).brains().len(),
        ensures
            final(self).brains() == old(self).brains(),
            linked ==> r is Ok && final(self).connected() == Some(old(self).brains()[index as int]),
            !linked ==> r == Err::<(), BrainControllerError>(BrainControllerError::CouldNotConnect)
                && final(self).connected() == old(self).connected(),
    {
        if linked {
            self.connected_brain = Some(self.available_brains[index].clone());
            Ok(())
        } else {
            Err(BrainControllerError::CouldNotConnect)
        }
    }

    /// What to write to make the connected brain show its code: the system characteristic
    /// among `characteristics`, those of the connected brain, and the request bytes.
    pub fn ping_brain_for_code(&self, characteristics: &Vec<CharacteristicInfo>) -> (r: Result<
        (usize, Vec<u8>),
        BrainControllerError,
    >)
        requires
            self.connected() is Some ==> has_uuid(characteristics@, SYSTEM_CHAR),
        ensures
            self.connected() is None ==> r == Err::<(usize, Vec<u8>), BrainControllerError>(
                BrainControllerError::NoBrainConnected,
            ),
            self.connected() is Some ==> (r matches Ok((i, request)) && first_with_uuid(
                characteristics@,
                SYSTEM_CHAR,
                i as int,
            ) && request@ == code_request()),
    {
        if self.connected_brain.is_none() {
            return Err(BrainControllerError::NoBrainConnected);
        }
        let i = match find_characteristic(characteristics, SYSTEM_CHAR) {
            Some(i) => i,
            None => 0,
        };
        let request = vec![0xffu8, 0xff, 0xff, 0xff];
        assert(request@ =~= code_request());
        Ok((i, request))
    }

    /// What to write to authenticate with the connected brain: the system characteristic among
    /// `characteristics`, those of the connected brain, and the values of the digits of `code`
    /// without its surrounding white space.
    pub fn authenticate(&self, code: &str, characteristics: &Vec<CharacteristicInfo>) -> (r: (
        usize,
        Vec<u8>,
    ))
        requires
            self.connected() is Some,
            all_decimal(trimmed(code@)),
            has_uuid(characteristics@, SYSTEM_CHAR),
        ensures
            first_with_uuid(characteristics@, SYSTEM_CHAR, r.0 as int),
            r.1@ == digit_values(trimmed(code@)),
    {
        let digits = match code_digits(code) {
            Some(digits) => digits,
            None => Vec::new(),
        };
        let i = match find_characteristic(characteristics, SYSTEM_CHAR) {
            Some(i) => i,
            None => 0,
        };
        (i, digits)
    }

    /// Whether the brain accepted the code: it echoes back what it was sent when it does.
    pub fn check_code_echo(sent: &Vec<u8>, response: &Vec<u8>) -> (r: Result<
        (),
        BrainControllerError,
    >)
        ensures
            r is Ok <==> sent@ == response@,
            r is Err ==> r == Err::<(), BrainControllerError>(BrainControllerError::IncorrectCode),
    {
        if sent.len() != response.len() {
            return Err(BrainControllerError::IncorrectCode);
        }
        let mut i: usize = 0;
        while i < sent.len()
            invariant
                sent@.len() == response@.len(),
                i <= sent@.len(),
                forall|k: int| 0 <= k < i ==> sent@[k] == response@[k],
            decreases sent.len() - i,
        {
            if sent[i] != response[i] {
                return Err(BrainControllerError::IncorrectCode);
            }
            i += 1;
        }
        assert(sent@ =~= response@);
        Ok(())
    }

    /// The characteristics of the connected brain to subscribe to: those that carry its stdout
    /// and notify, in order.
    pub fn poll(&self, characteristics: &Vec<CharacteristicInfo>) -> (r: Result<
        Vec<usize>,
        BrainControllerError,
    >)
        ensures
            self.connected() is None ==> r == Err::<Vec<usize>, BrainControllerError>(
                BrainControllerError::NoBrainConnected,
            ),
            self.connected() is Some ==> (r matches Ok(indices) && indices@ == output_indices(
                characteristics@,
            )),
            r matches Ok(indices) ==> (forall|i: int|
                0 <= i < characteristics@.len() ==> (indices@.contains(i as usize) <==> (
                characteristics@[i].uuid == READ_CHAR && characteristics@[i].notify))),
            r matches Ok(indices) ==> (forall|a: int, b: int|
                0 <= a < b < indices@.len() ==> indices@[a] < indices@[b]),
    {
        if self.connected_brain.is_none() {
            return Err(BrainControllerError::NoBrainConnected);
        }
        let n = characteristics.len();
        proof {
            lemma_output_indices_exact(characteristics@);
        }
        let mut r: Vec<usize> = Vec::new();
        let mut i: usize = 0;
        while i < n
            invariant
                n == characteristics@.len(),
                i <= n,
                r@ == output_indices(characteristics@.subrange(0, i as int)),
            decreases n - i,
        {
            let ghost prefix = characteristics@.subrange(0, i + 1);
            assert(prefix.drop_last() =~= characteristics@.subrange(0, i as int));
            let c = characteristics[i];
            if c.uuid == READ_CHAR && c.notify {
                r.push(i);
            }
            i += 1;
        }
        assert(characteristics@.subrange(0, n as int) =~= characteristics@);
        Ok(r)
    }
}

/// A name that starts or ends with white space is the trimmed name of no brain, so no brain
/// is found or connected to under it.
pub proof fn lemma_padded_name_matches_no_brain(local_names: Seq<Option<String>>, name: Seq<char>)
    requires
        name.len() > 0,
        white_space(name[0]) || white_space(name.last()),
    ensures
        forall|i: int| !first_named(local_names, name, i),
{
    assert forall|i: int| !first_named(local_names, name, i) by {
        if 0 <= i < local_names.len() && local_names[i] is Some {
            lemma_trimmed_ends(local_names[i]->0@);
        }
    }
}

/// A search lists, in increasing order, exactly the indices of the peripherals that offer the
/// brain service.
pub proof fn lemma_brain_indices_exact(xs: Seq<PeripheralInfo>)
    requires
        xs.len() <= usize::MAX,
    ensures
        forall|i: int| 0 <= i < xs.len() ==> (brain_indices(xs).contains(i as usize) <==> xs[i].services@.contains(SERVICE_UUID)),
        forall|k: int| 0 <= k < brain_indices(xs).len() ==> brain_indices(xs)[k] < xs.len(),
        forall|a: int, b: int| 0 <= a < b < brain_indices(xs).len() ==> brain_indices(xs)[a] < brain_indices(xs)[b],
    decreases xs.len(),
{
    if xs.len() > 0 {
        let t = xs.drop_last();
        lemma_brain_indices_exact(t);
        let before = brain_indices(t);
        let n = xs.len();
        assert forall|i: int| 0 <= i < n implies (brain_indices(xs).contains(i as usize) <==> xs[i].services@.contains(SERVICE_UUID)) by {
            if i < n - 1 {
                assert(xs[i] == t[i]);
                if brain_indices(xs).contains(i as usize) {
                    let k = choose|k: int| 0 <= k < brain_indices(xs).len() && brain_indices(xs)[k] == i as usize;
                    if k < before.len() {
                        assert(before[k] == i as usize);
                        assert(before.contains(i as usize));
                    }
                }
                if xs[i].services@.contains(SERVICE_UUID) {
                    assert(before.contains(i as usize));
                    let k = choose|k: int| 0 <= k < before.len() && before[k] == i as usize;
                    assert(brain_indices(xs)[k] == i as usize);
                }
            } else {
                if xs.last().services@.contains(SERVICE_UUID) {
                    assert(brain_indices(xs)[before.len() as int] == i as usize);
                } else {
                    if brain_indices(xs).contains(i as usize) {
                        let k = choose|k: int| 0 <= k < brain_indices(xs).len() && brain_indices(xs)[k] == i as usize;
                        assert(before[k] < n - 1);
                    }
                }
            }
        }
    }
}

/// The characteristics to subscribe to are, in increasing order, exactly those that carry the
/// brain's stdout and notify.
pub proof fn lemma_output_indices_exact(xs: Seq<CharacteristicInfo>)
    requires
        xs.len() <= usize::MAX,
    ensures
        forall|i: int| 0 <= i < xs.len() ==> (output_indices(xs).contains(i as usize) <==> (xs[i].uuid == READ_CHAR && xs[i].notify)),
        forall|k: int| 0 <= k < output_indices(xs).len() ==> output_indices(xs)[k] < xs.len(),
        forall|a: int, b: int| 0 <= a < b < output_indices(xs).len() ==> output_indices(xs)[a] < output_indices(xs)[b],
    decreases xs.len(),
{
    if xs.len() > 0 {
        let t = xs.drop_last();
        lemma_output_indices_exact(t);
        let before = output_indices(t);
        let n = xs.len();
        assert forall|i: int| 0 <= i < n implies (output_indices(xs).contains(i as usize) <==> (xs[i].uuid == READ_CHAR && xs[i].notify)) by {
            if i < n - 1 {
                assert(xs[i] == t[i]);
                if output_indices(xs).contains(i as usize) {
                    let k = choose|k: int| 0 <= k < output_indices(xs).len() && output_indices(xs)[k] == i as usize;
                    if k < before.len() {
                        assert(before[k] == i as usize);
                        assert(before.contains(i as usize));
                    }
                }
                if (xs[i].uuid == READ_CHAR && xs[i].notify) {
                    assert(before.contains(i as usize));
                    let k = choose|k: int| 0 <= k < before.len() && before[k] == i as usize;
                    assert(output_indices(xs)[k] == i as usize);
                }
            } else {
                if (xs.last().uuid == READ_CHAR && xs.last().notify) {
                    assert(output_indices(xs)[before.len() as int] == i as usize);
                } else {
                    if output_indices(xs).contains(i as usize) {
                        let k = choose|k: int| 0 <= k < output_indices(xs).len() && output_indices(xs)[k] == i as usize;
                        assert(before[k] < n - 1);
                    }
                }
            }
        }
    }
}

} // verus!
