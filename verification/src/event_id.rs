//! Event identifiers and their text form.
use std::cmp::Ordering;
use vstd::arithmetic::power::*;
use vstd::prelude::*;

use crate::clock::read_clock;
use crate::delay::Delay;
use crate::error::EventError;

verus! {

/// The identifier of an outbox event: a UUID of version 7, time-ordered so ids
/// sort roughly by creation time.
///
/// Time-ordered ids make the id a stable tiebreak for `next_attempt_at`
/// collisions. The view is the UUID as a 128-bit number; ids are ordered as
/// these numbers are.
#[derive(Debug, Clone, Copy, Eq, Hash, Ord)]
pub struct EventId {
    value: u128,
}

impl PartialEq for EventId {
    fn eq(&self, other: &EventId) -> (r: bool) {
        self.value == other.value
    }
}

impl vstd::std_specs::cmp::PartialEqSpecImpl for EventId {
    open spec fn obeys_eq_spec() -> bool {
        true
    }

    open spec fn eq_spec(&self, other: &EventId) -> bool {
        self@ == other@
    }
}

impl PartialOrd for EventId {
    fn partial_cmp(&self, other: &EventId) -> (r: Option<Ordering>) {
        if self.value < other.value {
            Some(Ordering::Less)
        } else if self.value == other.value {
            Some(Ordering::Equal)
        } else {
            Some(Ordering::Greater)
        }
    }
}

impl vstd::std_specs::cmp::PartialOrdSpecImpl for EventId {
    open spec fn obeys_partial_cmp_spec() -> bool {
        true
    }

    open spec fn partial_cmp_spec(&self, other: &EventId) -> Option<Ordering> {
        if self@ < other@ {
            Some(Ordering::Less)
        } else if self@ == other@ {
            Some(Ordering::Equal)
        } else {
            Some(Ordering::Greater)
        }
    }
}

impl View for EventId {
    type V = u128;

    closed spec fn view(&self) -> u128 {
        self.value
    }
}

/// The value of a hexadecimal digit of either case.
pub open spec fn digit_value(c: char) -> Option<nat> {
    if '0' <= c <= '9' {
        Some((c as int - 48) as nat)
    } else if 'a' <= c <= 'f' {
        Some((c as int - 87) as nat)
    } else if 'A' <= c <= 'F' {
        Some((c as int - 55) as nat)
    } else {
        None
    }
}

/// The value of a run of hexadecimal digits, most significant first.
pub open spec fn hex_value(text: Seq<char>) -> Option<nat>
    decreases text.len(),
{
    if text.len() == 0 {
        Some(0)
    } else {
        match (hex_value(text.drop_last()), digit_value(text.last())) {
            (Some(high), Some(low)) => Some(16 * high + low),
            _ => None,
        }
    }
}

/// The value of `8-4-4-4-12` hexadecimal digits.
pub open spec fn hyphenated_value(text: Seq<char>) -> Option<nat> {
    if text.len() == 36 && text[8] == '-' && text[13] == '-' && text[18] == '-' && text[23] == '-' {
        hex_value(
            text.subrange(0, 8) + text.subrange(9, 13) + text.subrange(14, 18) + text.subrange(
                19,
                23,
            ) + text.subrange(24, 36),
        )
    } else {
        None
    }
}

/// Whether the text is `urn:uuid:`, in any mix of cases.
pub open spec fn is_urn_prefix(text: Seq<char>) -> bool {
    &&& text.len() == 9
    &&& text[0] == 'u' || text[0] == 'U'
    &&& text[1] == 'r' || text[1] == 'R'
    &&& text[2] == 'n' || text[2] == 'N'
    &&& text[3] == ':'
    &&& text[4] == 'u' || text[4] == 'U'
    &&& text[5] == 'u' || text[5] == 'U'
    &&& text[6] == 'i' || text[6] == 'I'
    &&& text[7] == 'd' || text[7] == 'D'
    &&& text[8] == ':'
}

/// The UUID that a text stands for: 32 hexadecimal digits, the hyphenated
/// form, or the hyphenated form in braces or behind `urn:uuid:`.
pub open spec fn uuid_value(text: Seq<char>) -> Option<nat> {
    if text.len() == 32 {
        hex_value(text)
    } else if text.len() == 36 {
        hyphenated_value(text)
    } else if text.len() == 38 && text[0] == '{' && text[37] == '}' {
        hyphenated_value(text.subrange(1, 37))
    } else if text.len() == 45 && is_urn_prefix(text.subrange(0, 9)) {
        hyphenated_value(text.subrange(9, 45))
    } else {
        None
    }
}

/// A lower-case hexadecimal digit.
pub open spec fn hex_char(digit: nat) -> char {
    if digit < 10 {
        (48 + digit) as char
    } else {
        (87 + digit) as char
    }
}

/// The last `count` hexadecimal digits of a number.
pub open spec fn hex_text(value: nat, count: nat) -> Seq<char>
    decreases count,
{
    if count == 0 {
        Seq::empty()
    } else {
        hex_text(value / 16, (count - 1) as nat).push(hex_char(value % 16))
    }
}

/// The hyphenated lower-case form of a UUID.
pub open spec fn hyphenated_text(value: u128) -> Seq<char> {
    let digits = hex_text(value as nat, 32);
    digits.subrange(0, 8).push('-') + digits.subrange(8, 12).push('-') + digits.subrange(
        12,
        16,
    ).push('-') + digits.subrange(16, 20).push('-') + digits.subrange(20, 32)
}

/// Whether the number is a UUID of version 7, with the variant bits `10`.
pub open spec fn is_v7(value: u128) -> bool {
    &&& value as nat / 0x1000_0000_0000_0000_0000 % 16 == 7
    &&& value as nat / 0x4000_0000_0000_0000 % 4 == 2
}

/// Calls `uuid::Uuid::now_v7`: a fresh UUID of version 7. The rest of it comes
/// from the clock, a counter and random bits; that the ids of one process ascend
/// is a matter of all its calls and is not stated. The call panics on a host
/// whose clock is set before the unix epoch.
#[verifier::external_body]
pub(crate) fn mint_v7() -> (r: u128)
    ensures
        is_v7(r),
{
    uuid::Uuid::now_v7().as_u128()
}

/// Calls `uuid::Uuid::new_v7` with the time stamp that
/// `uuid::Timestamp::from_unix` makes of the unix epoch and no counter: a fresh
/// UUID of version 7 whose 48 leading bits, the time, are zero. The rest of it is
/// random.
#[verifier::external_body]
pub(crate) fn mint_v7_at_epoch() -> (r: u128)
    ensures
        is_v7(r),
        r < 0x1_0000_0000_0000_0000_0000,
{
    uuid::Uuid::new_v7(uuid::Timestamp::from_unix(uuid::NoContext, 0, 0)).as_u128()
}

/// Whether the number is one that `uuid::Uuid::now_v7` gave.
pub closed spec fn minted_now(value: u128) -> bool {
    call_ensures(mint_v7, (), value)
}

/// Whether the number is one that `uuid::Uuid::new_v7` gave for the unix epoch.
pub closed spec fn minted_at_epoch(value: u128) -> bool {
    call_ensures(mint_v7_at_epoch, (), value)
}

/// Whether the number is a freshly minted UUID: one of the current time, or of
/// the epoch where the clock is set before it.
pub open spec fn minted(value: u128) -> bool {
    minted_now(value) || (crate::clock::clock_reading(None) && minted_at_epoch(value))
}

/// Calls `uuid::Uuid::parse_str`: it accepts the texts that stand for a UUID
/// (see [`uuid_value`]) and returns that UUID's number.
#[verifier::external_body]
fn parse_uuid(text: &str) -> (r: Option<u128>)
    ensures
        match r {
            Some(value) => uuid_value(text@) == Some(value as nat),
            None => uuid_value(text@) is None,
        },
{
    match uuid::Uuid::parse_str(text) {
        Ok(id) => Some(id.as_u128()),
        Err(_) => None,
    }
}

/// Prints the result of `uuid::Uuid::hyphenated`: 32 lower-case hexadecimal
/// digits in five groups.
#[verifier::external_body]
fn print_hyphenated(value: u128) -> (r: String)
    ensures
        r@ == hyphenated_text(value),
{
    uuid::Uuid::from_u128(value).hyphenated().to_string()
}

impl EventId {
    /// Generate a fresh id from the wall clock (UUID version 7). A clock that is
    /// set before the unix epoch counts as one that stands at it.
    #[must_use]
    pub fn now_v7() -> (r: EventId)
        ensures
            minted(r@),
            is_v7(r@),
    {
        EventId::v7_at(read_clock())
    }

    /// Generate a fresh id (UUID version 7) of the current time, or of the unix
    /// epoch for a clock that was read to be set before it.
    ///
    /// A reading that is not `None` is one of the clock: it shows that the clock
    /// is not set before the epoch, where no id of the current time can be minted.
    #[must_use]
    pub fn v7_at(reading: Option<Delay>) -> (r: EventId)
        requires
            reading is Some ==> crate::clock::clock_reading(reading),
        ensures
            reading is Some ==> minted_now(r@),
            reading is None ==> minted_at_epoch(r@) && r@ < 0x1_0000_0000_0000_0000_0000,
            is_v7(r@),
    {
        let value: u128 = match reading {
            Some(_) => mint_v7(),
            None => mint_v7_at_epoch(),
        };
        EventId { value }
    }

    /// Wrap an existing UUID, given as a 128-bit number: import an id minted
    /// elsewhere.
    #[must_use]
    pub fn from_uuid(uuid: u128) -> (r: EventId)
        ensures
            r@ == uuid,
    {
        EventId { value: uuid }
    }

    /// The UUID as a 128-bit number.
    #[must_use]
    pub fn as_uuid(self) -> (r: u128)
        ensures
            r == self@,
    {
        self.value
    }

    /// Parse the hyphenated string form (as produced by
    /// [`to_string`](EventId::to_string) and by the stores), or one of the
    /// other forms of a UUID.
    ///
    /// [`EventError::InvalidId`] for any other text.
    pub fn parse(input: &str) -> (r: Result<EventId, EventError>)
        ensures
            match r {
                Ok(id) => uuid_value(input@) == Some(id@ as nat),
                Err(e) => uuid_value(input@) is None && (e matches EventError::InvalidId {
                    input: rejected,
                } && rejected@ == input@),
            },
    {
        match parse_uuid(input) {
            Some(value) => Ok(EventId { value }),
            None => Err(EventError::InvalidId { input: input.to_owned() }),
        }
    }

    /// The hyphenated lower-case form: the canonical transport and storage
    /// form.
    pub fn to_string(&self) -> (r: String)
        ensures
            r@ == hyphenated_text(self@),
    {
        print_hyphenated(self.value)
    }
}

/// The digits of a number, read back.
proof fn lemma_hex_round_trip(value: nat, count: nat)
    requires
        value < pow(16, count),
    ensures
        hex_text(value, count).len() == count,
        hex_value(hex_text(value, count)) == Some(value),
    decreases count,
{
    reveal(pow);
    if count > 0 {
        let below = (count - 1) as nat;
        lemma_pow_positive(16, below);
        assert(value / 16 < pow(16, below));
        lemma_hex_round_trip(value / 16, below);
        let text = hex_text(value, count);
        assert(text.drop_last() =~= hex_text(value / 16, below));
    }
}

/// Two numbers and their digits: the first digit in which they differ decides.
proof fn lemma_hex_order(small: nat, large: nat, count: nat) -> (at: int)
    requires
        small < large < pow(16, count),
    ensures
        0 <= at < count,
        hex_text(small, count).len() == count,
        hex_text(large, count).len() == count,
        hex_text(small, count).take(at) == hex_text(large, count).take(at),
        hex_text(small, count)[at] < hex_text(large, count)[at],
    decreases count,
{
    reveal(pow);
    lemma_hex_round_trip(small, count);
    lemma_hex_round_trip(large, count);
    let below = (count - 1) as nat;
    lemma_hex_round_trip(small / 16, below);
    lemma_hex_round_trip(large / 16, below);
    let left = hex_text(small, count);
    let right = hex_text(large, count);
    if small / 16 < large / 16 {
        let at = lemma_hex_order(small / 16, large / 16, below);
        assert(left.take(at) =~= hex_text(small / 16, below).take(at));
        assert(right.take(at) =~= hex_text(large / 16, below).take(at));
        at
    } else {
        assert(left.take(below as int) =~= right.take(below as int));
        below as int
    }
}

/// Every `u128` has 32 hexadecimal digits.
proof fn lemma_u128_digits(value: u128)
    ensures
        (value as nat) < pow(16, 32),
        hex_text(value as nat, 32).len() == 32,
{
    assert(pow(16, 32) == 0x1_0000_0000_0000_0000_0000_0000_0000_0000) by {
        reveal(pow);
        reveal_with_fuel(pow, 33);
    }
    lemma_hex_round_trip(value as nat, 32);
}

/// Printing and parsing are inverse: the text form of an id has 36 characters
/// and stands for that id.
pub proof fn text_round_trips(value: u128)
    ensures
        hyphenated_text(value).len() == 36,
        uuid_value(hyphenated_text(value)) == Some(value as nat),
{
    lemma_u128_digits(value);
    lemma_hex_round_trip(value as nat, 32);
    let digits = hex_text(value as nat, 32);
    let text = hyphenated_text(value);
    assert(text.subrange(0, 8) + text.subrange(9, 13) + text.subrange(14, 18) + text.subrange(
        19,
        23,
    ) + text.subrange(24, 36) =~= digits);
}

/// Whether `left` comes before `right` in the order of their characters, for
/// texts of one length.
pub open spec fn text_before(left: Seq<char>, right: Seq<char>) -> bool {
    exists|at: int|
        0 <= at < left.len() && at < right.len() && #[trigger] left[at] < right[at] && left.take(at)
            == right.take(at)
}

/// Text order is id order: sorting the text forms sorts the ids, so a store
/// that orders by the text and one that orders by the number agree.
pub proof fn text_order_is_id_order(left: u128, right: u128)
    ensures
        text_before(hyphenated_text(left), hyphenated_text(right)) <==> left < right,
{
    lemma_u128_digits(left);
    lemma_u128_digits(right);
    if left < right {
        lemma_text_before(left, right);
    } else if right < left {
        lemma_text_before(right, left);
        lemma_not_both(hyphenated_text(left), hyphenated_text(right));
    }
}

proof fn lemma_text_before(small: u128, large: u128)
    requires
        small < large,
    ensures
        text_before(hyphenated_text(small), hyphenated_text(large)),
{
    lemma_u128_digits(small);
    lemma_u128_digits(large);
    let left = hex_text(small as nat, 32);
    let right = hex_text(large as nat, 32);
    let at = lemma_hex_order(small as nat, large as nat, 32);
    assert(forall|i: int| 0 <= i < at ==> left[i] == right[i]) by {
        assert forall|i: int| 0 <= i < at implies left[i] == right[i] by {
            assert(left.take(at)[i] == right.take(at)[i]);
        }
    }
    let place = if at < 8 {
        at
    } else if at < 12 {
        at + 1
    } else if at < 16 {
        at + 2
    } else if at < 20 {
        at + 3
    } else {
        at + 4
    };
    let left_text = hyphenated_text(small);
    let right_text = hyphenated_text(large);
    assert(left_text[place] == left[at]);
    assert(right_text[place] == right[at]);
    assert(left_text.take(place) =~= right_text.take(place));
}

proof fn lemma_not_both(left: Seq<char>, right: Seq<char>)
    requires
        text_before(right, left),
    ensures
        !text_before(left, right),
{
    if text_before(left, right) {
        let i = choose|at: int|
            0 <= at < right.len() && at < left.len() && #[trigger] right[at] < left[at]
                && right.take(at) == left.take(at);
        let j = choose|at: int|
            0 <= at < left.len() && at < right.len() && #[trigger] left[at] < right[at]
                && left.take(at) == right.take(at);
        if i < j {
            assert(left.take(j)[i] == right.take(j)[i]);
        } else if j < i {
            assert(left.take(i)[j] == right.take(i)[j]);
        }
    }
}

/// Ids compare as their numbers do.
pub proof fn ids_compare_as_numbers(left: EventId, right: EventId)
    ensures
        vstd::std_specs::cmp::PartialEqSpec::eq_spec(&left, &right) <==> left@ == right@,
        vstd::std_specs::cmp::PartialOrdSpec::partial_cmp_spec(&left, &right) == Some(
            Ordering::Less,
        ) <==> left@ < right@,
        vstd::std_specs::cmp::PartialOrdSpec::partial_cmp_spec(&left, &right) == Some(
            Ordering::Equal,
        ) <==> left@ == right@,
        vstd::std_specs::cmp::PartialOrdSpec::partial_cmp_spec(&left, &right) == Some(
            Ordering::Greater,
        ) <==> left@ > right@,
{
}

/// One digit of a number.
proof fn lemma_hex_digit(value: nat, count: nat, i: int)
    requires
        0 <= i < count,
    ensures
        hex_text(value, count).len() == count,
        hex_text(value, count)[i] == hex_char(
            value / (pow(16, (count - 1 - i) as nat) as nat) % 16,
        ),
    decreases count,
{
    reveal(pow);
    let below = (count - 1) as nat;
    lemma_hex_length(value, count);
    lemma_hex_length(value / 16, below);
    if i < below {
        let places = (below - 1 - i) as nat;
        lemma_pow_positive(16, places);
        lemma_hex_digit(value / 16, below, i);
        vstd::arithmetic::div_mod::lemma_div_denominator(value as int, 16, pow(16, places));
        assert((count - 1 - i) as nat == places + 1);
        assert(pow(16, places + 1) == 16 * pow(16, places));
        assert(value / 16 / (pow(16, places) as nat) == value / (pow(16, places + 1) as nat));
        assert(hex_text(value, count)[i] == hex_text(value / 16, below)[i]);
    } else {
        assert((count - 1 - i) as nat == 0);
        assert(pow(16, 0) == 1);
        assert(value / 1 == value);
    }
}

proof fn lemma_hex_length(value: nat, count: nat)
    ensures
        hex_text(value, count).len() == count,
    decreases count,
{
    if count > 0 {
        lemma_hex_length(value / 16, (count - 1) as nat);
    }
}

/// The text form spells the number: its 32 hexadecimal digits, the most significant
/// first and in lower case, with hyphens after the eighth, the twelfth, the sixteenth
/// and the twentieth.
pub proof fn text_spells_the_digits(value: u128, i: int)
    requires
        0 <= i < 32,
    ensures
        ({
            let text = hyphenated_text(value);
            let digit = value as nat / (pow(16, (31 - i) as nat) as nat) % 16;
            let place = if i < 8 {
                i
            } else if i < 12 {
                i + 1
            } else if i < 16 {
                i + 2
            } else if i < 20 {
                i + 3
            } else {
                i + 4
            };
            &&& text.len() == 36
            &&& text[8] == '-' && text[13] == '-' && text[18] == '-' && text[23] == '-'
            &&& digit < 10 ==> text[place] == (48 + digit) as char
            &&& digit >= 10 ==> text[place] == (87 + digit) as char
        }),
{
    lemma_hex_digit(value as nat, 32, i);
}

/// The text of an id of version 7 says so: its fifteenth character is a `7`, and its
/// twentieth one of `8`, `9`, `a` and `b`.
pub proof fn text_shows_the_version(value: u128)
    requires
        is_v7(value),
    ensures
        hyphenated_text(value)[14] == '7',
        ({
            let c = hyphenated_text(value)[19];
            c == '8' || c == '9' || c == 'a' || c == 'b'
        }),
{
    assert(pow(16, 19) == 0x1000_0000_0000_0000_0000 && pow(16, 15) == 0x1000_0000_0000_0000) by {
        reveal(pow);
        reveal_with_fuel(pow, 20);
    }
    text_spells_the_digits(value, 12);
    text_spells_the_digits(value, 16);
    let upper = value as nat / 0x1000_0000_0000_0000;
    assert(value as nat / 0x4000_0000_0000_0000 == upper / 4);
    assert(8 <= upper % 16 < 12);
}

/// The forms of a UUID stand for the same one: its digits alone, hyphenated, in
/// braces, or behind `urn:uuid:`.
pub proof fn forms_stand_for_one_id(value: u128)
    ensures
        ({
            let text = hyphenated_text(value);
            let urn = seq!['u', 'r', 'n', ':', 'u', 'u', 'i', 'd', ':'];
            &&& uuid_value(text) == Some(value as nat)
            &&& uuid_value(hex_text(value as nat, 32)) == Some(value as nat)
            &&& uuid_value(seq!['{'] + text + seq!['}']) == Some(value as nat)
            &&& uuid_value(urn + text) == Some(value as nat)
        }),
{
    let text = hyphenated_text(value);
    let urn = seq!['u', 'r', 'n', ':', 'u', 'u', 'i', 'd', ':'];
    text_round_trips(value);
    lemma_u128_digits(value);
    lemma_hex_round_trip(value as nat, 32);
    assert((seq!['{'] + text + seq!['}']).subrange(1, 37) =~= text);
    assert((urn + text).subrange(0, 9) =~= urn);
    assert((urn + text).subrange(9, 45) =~= text);
}

/// Texts of other lengths than the forms have stand for no id, nor does one with a
/// character that is neither a digit nor part of its form.
pub proof fn other_texts_are_no_ids(text: Seq<char>, i: int)
    ensures
        text.len() != 32 && text.len() != 36 && text.len() != 38 && text.len() != 45
            ==> uuid_value(text) is None,
        text.len() == 32 && 0 <= i < 32 && digit_value(text[i]) is None ==> uuid_value(text)
            is None,
{
    if text.len() == 32 && 0 <= i < 32 && digit_value(text[i]) is None {
        lemma_no_digit(text, i);
    }
}

proof fn lemma_no_digit(text: Seq<char>, i: int)
    requires
        0 <= i < text.len(),
        digit_value(text[i]) is None,
    ensures
        hex_value(text) is None,
    decreases text.len(),
{
    if i < text.len() - 1 {
        lemma_no_digit(text.drop_last(), i);
    }
}

/// Minted ids are the outside generator's: of the current time, or of the epoch where
/// the clock was read to be set before it.
pub(crate) proof fn minted_ids_are_the_generators(value: u128)
    requires
        minted(value),
    ensures
        call_ensures(mint_v7, (), value) || (crate::clock::clock_reading(None) && call_ensures(
            mint_v7_at_epoch,
            (),
            value,
        )),
        minted_now(value) ==> call_ensures(mint_v7, (), value),
        minted_at_epoch(value) ==> call_ensures(mint_v7_at_epoch, (), value),
{
}

} // verus!
