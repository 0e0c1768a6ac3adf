//! Links to the places where events are held.
use crate::spaces::Space;
#[allow(unused_imports)]
use crate::spaces::{space_views, SpaceView};
use vstd::prelude::*;
#[allow(unused_imports)]
use vstd::utf8::{decode_utf8, encode_utf8, encode_utf8_decode_utf8};

verus! {

/// Whether a byte stands for itself in a percent-encoded text: a letter, a digit, `-`, `.`, `_` or `~`.
pub open spec fn is_unreserved(byte: u8) -> bool {
    ||| 0x30 <= byte <= 0x39
    ||| 0x41 <= byte <= 0x5a
    ||| 0x61 <= byte <= 0x7a
    ||| byte == 0x2d
    ||| byte == 0x2e
    ||| byte == 0x5f
    ||| byte == 0x7e
}

/// The upper case hexadecimal digit of a number below sixteen.
pub open spec fn hex_digit(value: int) -> char {
    (if value < 10 {
        0x30 + value
    } else {
        0x41 + value - 10
    }) as char
}

/// The percent-encoding of one byte.
pub open spec fn percent_encoded_byte(byte: u8) -> Seq<char> {
    if is_unreserved(byte) {
        seq![byte as char]
    } else {
        seq!['%', hex_digit(byte as int / 16), hex_digit(byte as int % 16)]
    }
}

/// The percent-encoding of a sequence of bytes.
pub open spec fn percent_encoded_bytes(bytes: Seq<u8>) -> Seq<char>
    decreases bytes.len(),
{
    if bytes.len() == 0 {
        Seq::empty()
    } else {
        percent_encoded_bytes(bytes.drop_last()) + percent_encoded_byte(bytes.last())
    }
}

/// The percent-encoding of a text: that of its UTF-8 bytes.
pub open spec fn percent_encoded(text: Seq<char>) -> Seq<char> {
    percent_encoded_bytes(encode_utf8(text))
}

/// Calls `urlencoding::encode`: every byte of the text's UTF-8 form other than letters, digits, `-`,
/// `.`, `_` and `~` becomes `%` and two upper case hexadecimal digits.
#[verifier::external_body]
fn percent_encode(text: &str) -> (r: String)
    ensures
        r@ == percent_encoded(text@),
{
    urlencoding::encode(text).into_owned()
}

/// Calls `str::starts_with` with a string as the pattern.
#[verifier::external_body]
fn starts_with(text: &str, prefix: &str) -> (r: bool)
    ensures
        r == prefix@.is_prefix_of(text@),
{
    text.starts_with(prefix)
}

/// The page of a space.
pub open spec fn space_url(space: SpaceView) -> Seq<char> {
    "https://navi.jyu.fi/space/"@ + percent_encoded(space.id)
}

/// The map search for a location.
pub open spec fn map_url(location: Seq<char>) -> Seq<char> {
    "https://www.google.com/maps/search/?api=1&query="@ + percent_encoded(location)
}

/// Whether a location begins with the label of a space, letter case included.
pub open spec fn names_space(location: Seq<char>, space: SpaceView) -> bool {
    space.space_label.is_prefix_of(location)
}

/// The link for a location: the page of the first space that it names, else a map search.
pub open spec fn location_url(location: Seq<char>, spaces: Seq<SpaceView>) -> Seq<char>
    decreases spaces.len(),
{
    if spaces.len() == 0 {
        map_url(location)
    } else if names_space(location, spaces[0]) {
        space_url(spaces[0])
    } else {
        location_url(location, spaces.drop_first())
    }
}

/// The link for a location: the page of the first space that it names, else a map search.
pub fn url_for_location(location: &str, spaces: &Vec<Space>) -> (r: String)
    ensures
        r@ == location_url(location@, space_views(spaces@)),
{
    let ghost views = space_views(spaces@);
    assert(views.skip(0) =~= views);
    for i in 0..spaces.len()
        invariant
            views == space_views(spaces@),
            location_url(location@, views) == location_url(location@, views.skip(i as int)),
    {
        assert(views.skip(i as int)[0] == spaces@[i as int]@);
        if starts_with(location, spaces[i].space_label.as_str()) {
            let mut url: String = "https://navi.jyu.fi/space/".to_owned();
            url.append(percent_encode(spaces[i].id.as_str()).as_str());
            return url;
        }
        assert(views.skip(i as int).drop_first() =~= views.skip(i + 1));
    }
    let mut url: String = "https://www.google.com/maps/search/?api=1&query=".to_owned();
    url.append(percent_encode(location).as_str());
    url
}

/// Of the spaces that a location names the first in the list gives the link.
pub proof fn law_first_named_space_wins(location: Seq<char>, spaces: Seq<SpaceView>, i: int)
    requires
        0 <= i < spaces.len(),
        names_space(location, spaces[i]),
        forall|j: int| 0 <= j < i ==> !names_space(location, #[trigger] spaces[j]),
    ensures
        location_url(location, spaces) == space_url(spaces[i]),
    decreases i,
{
    if i > 0 {
        assert(!names_space(location, spaces[0]));
        assert forall|j: int| 0 <= j < i - 1 implies !names_space(
            location,
            #[trigger] spaces.drop_first()[j],
        ) by {
            assert(spaces.drop_first()[j] == spaces[j + 1]);
        }
        law_first_named_space_wins(location, spaces.drop_first(), i - 1);
    }
}

/// A location that names no space is searched on the map.
pub proof fn law_other_locations_are_searched(location: Seq<char>, spaces: Seq<SpaceView>)
    requires
        forall|j: int| 0 <= j < spaces.len() ==> !names_space(location, #[trigger] spaces[j]),
    ensures
        location_url(location, spaces) == map_url(location),
    decreases spaces.len(),
{
    if spaces.len() > 0 {
        assert forall|j: int| 0 <= j < spaces.len() - 1 implies !names_space(
            location,
            #[trigger] spaces.drop_first()[j],
        ) by {
            assert(spaces.drop_first()[j] == spaces[j + 1]);
        }
        law_other_locations_are_searched(location, spaces.drop_first());
    }
}

/// Whether a character may stand in a percent-encoded text.
pub open spec fn is_encoded_char(c: char) -> bool {
    c == '%' || (c as u32 <= 0x7f && is_unreserved(c as u8))
}

/// Whatever the text, its percent-encoding holds nothing that could end or split a link: only
/// unreserved characters and `%`.
pub proof fn law_encoded_text_is_safe(text: Seq<char>, i: int)
    requires
        0 <= i < percent_encoded(text).len(),
    ensures
        is_encoded_char(percent_encoded(text)[i]),
{
    lemma_encoded_bytes_are_safe(encode_utf8(text));
}

proof fn lemma_encoded_bytes_are_safe(bytes: Seq<u8>)
    ensures
        forall|i: int|
            0 <= i < percent_encoded_bytes(bytes).len() ==> is_encoded_char(
                #[trigger] percent_encoded_bytes(bytes)[i],
            ),
    decreases bytes.len(),
{
    if bytes.len() > 0 {
        lemma_encoded_bytes_are_safe(bytes.drop_last());
        let byte = bytes.last();
        let high = byte as int / 16;
        let low = byte as int % 16;
        assert(0 <= high < 16 && 0 <= low < 16);
        assert forall|i: int| 0 <= i < percent_encoded_byte(byte).len() implies is_encoded_char(
            #[trigger] percent_encoded_byte(byte)[i],
        ) by {}
        let before = percent_encoded_bytes(bytes.drop_last());
        assert forall|i: int| 0 <= i < percent_encoded_bytes(bytes).len() implies is_encoded_char(
            #[trigger] percent_encoded_bytes(bytes)[i],
        ) by {
            if i < before.len() {
                assert(percent_encoded_bytes(bytes)[i] == before[i]);
            } else {
                assert(percent_encoded_bytes(bytes)[i] == percent_encoded_byte(byte)[i - before.len()]);
            }
        }
    }
}

/// The number that a hexadecimal digit in upper case stands for.
pub open spec fn hex_value(digit: char) -> int {
    if digit as u32 <= 0x39 {
        digit as u32 - 0x30
    } else {
        digit as u32 - 0x41 + 10
    }
}

/// The bytes that a percent-encoded text stands for: `%` and two digits for one byte, any other character
/// for itself.
pub open spec fn percent_decoded_bytes(text: Seq<char>) -> Seq<u8>
    decreases text.len(),
{
    if text.len() == 0 {
        Seq::empty()
    } else if text[0] == '%' && text.len() >= 3 {
        seq![(16 * hex_value(text[1]) + hex_value(text[2])) as u8] + percent_decoded_bytes(text.skip(3))
    } else {
        seq![text[0] as u8] + percent_decoded_bytes(text.skip(1))
    }
}

/// The text that a percent-encoded text stands for.
pub open spec fn percent_decoded(text: Seq<char>) -> Seq<char> {
    decode_utf8(percent_decoded_bytes(text))
}

proof fn lemma_encoded_bytes_from_the_front(bytes: Seq<u8>)
    requires
        bytes.len() > 0,
    ensures
        percent_encoded_bytes(bytes) == percent_encoded_byte(bytes[0]) + percent_encoded_bytes(
            bytes.skip(1),
        ),
    decreases bytes.len(),
{
    reveal_with_fuel(percent_encoded_bytes, 2);
    if bytes.len() == 1 {
        assert(bytes.drop_last() =~= Seq::empty());
        assert(bytes.skip(1) =~= Seq::empty());
        assert(percent_encoded_bytes(bytes) =~= percent_encoded_byte(bytes[0])
            + percent_encoded_bytes(bytes.skip(1)));
    } else {
        lemma_encoded_bytes_from_the_front(bytes.drop_last());
        assert(bytes.drop_last().skip(1) =~= bytes.skip(1).drop_last());
        assert(percent_encoded_bytes(bytes) =~= percent_encoded_byte(bytes[0])
            + percent_encoded_bytes(bytes.skip(1)));
    }
}

proof fn lemma_hex_value_undoes_hex_digit(value: int)
    requires
        0 <= value < 16,
    ensures
        hex_value(hex_digit(value)) == value,
{
}

proof fn lemma_decoding_undoes_encoding(bytes: Seq<u8>)
    ensures
        percent_decoded_bytes(percent_encoded_bytes(bytes)) == bytes,
    decreases bytes.len(),
{
    if bytes.len() > 0 {
        let byte = bytes[0];
        let rest = percent_encoded_bytes(bytes.skip(1));
        let text = percent_encoded_bytes(bytes);
        lemma_encoded_bytes_from_the_front(bytes);
        lemma_decoding_undoes_encoding(bytes.skip(1));
        let high = byte as int / 16;
        let low = byte as int % 16;
        lemma_hex_value_undoes_hex_digit(high);
        lemma_hex_value_undoes_hex_digit(low);
        if is_unreserved(byte) {
            assert(text[0] == byte as char);
            assert(text.skip(1) =~= rest);
        } else {
            assert(text[0] == '%' && text[1] == hex_digit(high) && text[2] == hex_digit(low));
            assert(text.skip(3) =~= rest);
        }
        assert(percent_decoded_bytes(text) =~= bytes);
    }
}

/// Decoding a percent-encoded text gives the text back.
pub proof fn law_decoding_gives_the_text_back(text: Seq<char>)
    ensures
        percent_decoded(percent_encoded(text)) == text,
{
    lemma_decoding_undoes_encoding(encode_utf8(text));
    encode_utf8_decode_utf8(text);
}

/// What follows `query=` in the link for a location that names no space is the location, once decoded.
pub proof fn law_map_link_holds_the_location(location: Seq<char>, spaces: Seq<SpaceView>)
    requires
        forall|j: int| 0 <= j < spaces.len() ==> !names_space(location, #[trigger] spaces[j]),
    ensures
        ({
            let before = "https://www.google.com/maps/search/?api=1&query="@;
            &&& before.is_prefix_of(location_url(location, spaces))
            &&& percent_decoded(location_url(location, spaces).skip(before.len() as int)) == location
        }),
{
    let before = "https://www.google.com/maps/search/?api=1&query="@;
    law_other_locations_are_searched(location, spaces);
    law_decoding_gives_the_text_back(location);
    assert(map_url(location).skip(before.len() as int) =~= percent_encoded(location));
}

/// Two locations that name no space have two links.
pub proof fn law_other_locations_have_their_own_links(
    a: Seq<char>,
    b: Seq<char>,
    spaces: Seq<SpaceView>,
)
    requires
        forall|j: int| 0 <= j < spaces.len() ==> !names_space(a, #[trigger] spaces[j]),
        forall|j: int| 0 <= j < spaces.len() ==> !names_space(b, #[trigger] spaces[j]),
        a != b,
    ensures
        location_url(a, spaces) != location_url(b, spaces),
{
    law_map_link_holds_the_location(a, spaces);
    law_map_link_holds_the_location(b, spaces);
}

/// A location links to the page of a space where it begins with the label of the space, character by
/// character, and with that of no space before it: the page is the one that the identifier names, and the
/// identifier is read back from the link.
pub proof fn law_space_link_holds_the_identifier(
    location: Seq<char>,
    spaces: Seq<SpaceView>,
    i: int,
)
    requires
        0 <= i < spaces.len(),
        spaces[i].space_label.len() <= location.len(),
        forall|k: int|
            0 <= k < spaces[i].space_label.len() ==> #[trigger] location[k] == spaces[i].space_label[k],
        forall|j: int|
            0 <= j < i ==> !((#[trigger] spaces[j]).space_label.len() <= location.len() && location.take(
                spaces[j].space_label.len() as int,
            ) == spaces[j].space_label),
    ensures
        ({
            let before = "https://navi.jyu.fi/space/"@;
            let url = location_url(location, spaces);
            &&& before.is_prefix_of(url)
            &&& percent_decoded(url.skip(before.len() as int)) == spaces[i].id
            &&& url.skip(before.len() as int) == percent_encoded(spaces[i].id)
        }),
{
    let before = "https://navi.jyu.fi/space/"@;
    assert(spaces[i].space_label.is_prefix_of(location)) by {
        assert(location.take(spaces[i].space_label.len() as int) =~= spaces[i].space_label);
    }
    assert forall|j: int| 0 <= j < i implies !names_space(location, #[trigger] spaces[j]) by {
        if names_space(location, spaces[j]) {
            assert(location.take(spaces[j].space_label.len() as int) =~= spaces[j].space_label);
        }
    }
    law_first_named_space_wins(location, spaces, i);
    law_decoding_gives_the_text_back(spaces[i].id);
    assert(location_url(location, spaces).skip(before.len() as int) =~= percent_encoded(
        spaces[i].id,
    ));
}

/// A location that begins with the label of no space, character by character, is searched on the map, and
/// is read back from the link.
pub proof fn law_location_without_a_space_is_searched(location: Seq<char>, spaces: Seq<SpaceView>)
    requires
        forall|j: int|
            0 <= j < spaces.len() ==> !((#[trigger] spaces[j]).space_label.len() <= location.len()
                && location.take(spaces[j].space_label.len() as int) == spaces[j].space_label),
    ensures
        ({
            let before = "https://www.google.com/maps/search/?api=1&query="@;
            let url = location_url(location, spaces);
            &&& before.is_prefix_of(url)
            &&& percent_decoded(url.skip(before.len() as int)) == location
            &&& url.skip(before.len() as int) == percent_encoded(location)
        }),
{
    let before = "https://www.google.com/maps/search/?api=1&query="@;
    assert forall|j: int| 0 <= j < spaces.len() implies !names_space(location, #[trigger] spaces[j]) by {
        if names_space(location, spaces[j]) {
            assert(location.take(spaces[j].space_label.len() as int) =~= spaces[j].space_label);
        }
    }
    law_map_link_holds_the_location(location, spaces);
    law_other_locations_are_searched(location, spaces);
    assert(map_url(location).skip(before.len() as int) =~= percent_encoded(location));
}

proof fn lemma_encoded_bytes_of_unreserved(bytes: Seq<u8>)
    requires
        forall|i: int|
            0 <= i < bytes.len() ==> {
                ||| 0x30 <= #[trigger] bytes[i] <= 0x39
                ||| 0x41 <= bytes[i] <= 0x5a
                ||| 0x61 <= bytes[i] <= 0x7a
            },
    ensures
        percent_encoded_bytes(bytes) == bytes.map_values(|byte: u8| byte as char),
    decreases bytes.len(),
{
    if bytes.len() > 0 {
        let shorter = bytes.drop_last();
        assert(forall|i: int| 0 <= i < shorter.len() ==> #[trigger] shorter[i] == bytes[i]);
        lemma_encoded_bytes_of_unreserved(shorter);
        let last = bytes[bytes.len() - 1];
        assert(is_unreserved(last));
        assert(percent_encoded_bytes(bytes) =~= bytes.map_values(|byte: u8| byte as char));
    } else {
        assert(percent_encoded_bytes(bytes) =~= bytes.map_values(|byte: u8| byte as char));
    }
}

/// Letters and digits of ASCII stand for themselves in a percent-encoded text.
pub proof fn law_letters_and_digits_are_not_encoded(text: Seq<char>)
    requires
        forall|i: int|
            0 <= i < text.len() ==> {
                ||| '0' <= #[trigger] text[i] && text[i] <= '9'
                ||| 'A' <= text[i] && text[i] <= 'Z'
                ||| 'a' <= text[i] && text[i] <= 'z'
            },
    ensures
        percent_encoded(text) == text,
{
    assert(vstd::utf8::is_ascii_chars(text));
    vstd::utf8::is_ascii_chars_encode_utf8(text);
    let bytes = encode_utf8(text);
    assert forall|i: int| 0 <= i < bytes.len() implies {
        ||| 0x30 <= #[trigger] bytes[i] <= 0x39
        ||| 0x41 <= bytes[i] <= 0x5a
        ||| 0x61 <= bytes[i] <= 0x7a
    } by {
        assert(bytes[i] == text[i] as u8);
    }
    lemma_encoded_bytes_of_unreserved(bytes);
    assert(percent_encoded(text) =~= text);
}

} // verus!
