//! The weekdays that recurrence rules list.
use vstd::prelude::*;

verus! {

/// The pieces of a text between the places where a character stands.
pub open spec fn pieces(text: Seq<char>, separator: char) -> Seq<Seq<char>>
    decreases text.len(),
{
    if text.len() == 0 {
        seq![Seq::empty()]
    } else {
        let before = pieces(text.drop_last(), separator);
        if text.last() == separator {
            before.push(Seq::empty())
        } else {
            before.drop_last().push(before.last().push(text.last()))
        }
    }
}

/// The pieces of a list of pieces as sequences.
pub open spec fn piece_views(list: Seq<Vec<char>>) -> Seq<Seq<char>> {
    list.map_values(|piece: Vec<char>| piece@)
}

/// The pieces of a text between the places where a character stands.
fn split(text: &Vec<char>, separator: char) -> (r: Vec<Vec<char>>)
    ensures
        piece_views(r@) == pieces(text@, separator),
{
    let mut done: Vec<Vec<char>> = Vec::new();
    let mut piece: Vec<char> = Vec::new();
    assert(text@.take(0) =~= Seq::empty());
    assert(piece_views(done@).push(piece@) =~= seq![Seq::<char>::empty()]);
    for i in 0..text.len()
        invariant
            pieces(text@.take(i as int), separator) == piece_views(done@).push(piece@),
    {
        let ghost before = piece_views(done@).push(piece@);
        assert(text@.take(i + 1).drop_last() =~= text@.take(i as int));
        if text[i] == separator {
            done.push(piece);
            piece = Vec::new();
            assert(piece_views(done@).push(piece@) =~= before.push(Seq::empty()));
        } else {
            let ghost started = piece@;
            piece.push(text[i]);
            assert(piece_views(done@).push(piece@) =~= before.drop_last().push(
                started.push(text@[i as int]),
            ));
        }
    }
    assert(text@.take(text@.len() as int) =~= text@);
    let ghost whole = piece_views(done@).push(piece@);
    done.push(piece);
    assert(piece_views(done@) =~= whole);
    done
}

/// What a line states: the part after its first colon, or all of it where it has none.
pub open spec fn line_value(line: Seq<char>) -> Seq<char> {
    match line.index_of_first(':') {
        Some(colon) => line.skip(colon + 1),
        None => line,
    }
}

/// A letter in upper case, other characters as they are, as far as ASCII goes.
pub open spec fn upper(c: char) -> char {
    if 'a' <= c && c <= 'z' {
        (c as u32 - 0x20) as char
    } else {
        c
    }
}

/// Whether a part of a rule has a name, in whatever case, before an equals sign.
pub open spec fn has_name(part: Seq<char>, name: Seq<char>) -> bool {
    &&& part.len() > name.len()
    &&& part[name.len() as int] == '='
    &&& forall|i: int| 0 <= i < name.len() ==> upper(#[trigger] part[i]) == name[i]
}

/// The weekdays that a part of a rule lists, as they are written.
pub open spec fn listed_weekdays(part: Seq<char>) -> Seq<Seq<char>> {
    if has_name(part, "BYDAY"@) {
        pieces(part.skip(6), ',')
    } else if has_name(part, "BYWEEKDAY"@) {
        pieces(part.skip(10), ',')
    } else {
        Seq::empty()
    }
}

/// A weekday as it is written, without the carriage return at the end of a line.
pub open spec fn trimmed(weekday: Seq<char>) -> Seq<char> {
    if weekday.len() > 0 && weekday.last() == '\r' {
        weekday.drop_last()
    } else {
        weekday
    }
}

/// Whether one of the last two characters of a weekday, where its two letters are expected, lies beyond
/// ASCII.
pub open spec fn is_misspelt(weekday: Seq<char>) -> bool {
    let letters = trimmed(weekday);
    exists|i: int|
        0 <= i < letters.len() && letters.len() - 2 <= i && (#[trigger] letters[i]) as u32 > 0x7f
}

/// Whether a part of a rule lists a weekday that is misspelt.
pub open spec fn part_misspells(part: Seq<char>) -> bool {
    exists|i: int|
        0 <= i < listed_weekdays(part).len() && is_misspelt(#[trigger] listed_weekdays(part)[i])
}

/// Whether a line states a property: it begins with the name and a colon or a semicolon.
pub open spec fn states_property(line: Seq<char>, name: Seq<char>) -> bool {
    &&& line.len() > name.len()
    &&& line[name.len() as int] == ':' || line[name.len() as int] == ';'
    &&& forall|i: int| 0 <= i < name.len() ==> #[trigger] line[i] == name[i]
}

/// Whether a line states dates, and so no rule that could list weekdays.
pub open spec fn states_dates(line: Seq<char>) -> bool {
    states_property(line, "DTSTART"@) || states_property(line, "RDATE"@) || states_property(
        line,
        "EXDATE"@,
    )
}

/// Whether a line is a rule that lists a weekday that is misspelt. The parts of a rule stand between
/// semicolons.
pub open spec fn line_misspells(line: Seq<char>) -> bool {
    !states_dates(line) && exists|i: int|
        0 <= i < pieces(line_value(line), ';').len() && part_misspells(
            #[trigger] pieces(line_value(line), ';')[i],
        )
}

/// Whether a text of rules lists a weekday that is misspelt.
pub open spec fn misspells_a_weekday(text: Seq<char>) -> bool {
    exists|i: int|
        0 <= i < pieces(text, '\n').len() && line_misspells(#[trigger] pieces(text, '\n')[i])
}

/// The characters of a text from a place on.
fn rest(text: &Vec<char>, from: usize) -> (r: Vec<char>)
    requires
        from <= text@.len(),
    ensures
        r@ == text@.skip(from as int),
{
    let mut r: Vec<char> = Vec::new();
    for i in from..text.len()
        invariant
            from <= text@.len(),
            r@ == text@.subrange(from as int, i as int),
    {
        r.push(text[i]);
        assert(r@ =~= text@.subrange(from as int, i + 1));
    }
    r
}

/// What a line states.
fn value_of(line: &Vec<char>) -> (r: Vec<char>)
    ensures
        r@ == line_value(line@),
{
    proof {
        line@.index_of_first_ensures(':');
    }
    for i in 0..line.len()
        invariant
            forall|j: int| 0 <= j < i ==> line@[j] != ':',
    {
        if line[i] == ':' {
            proof {
                line@.index_of_first_ensures(':');
                assert(line@.contains(line@[i as int]));
                let first = line@.index_of_first(':')->0;
                assert(line@[first] == ':');
            }
            return rest(line, i + 1);
        }
    }
    rest(line, 0)
}

/// A letter in upper case, other characters as they are, as far as ASCII goes.
fn to_upper(c: char) -> (r: char)
    ensures
        r == upper(c),
{
    if 'a' <= c && c <= 'z' {
        (c as u8 - 0x20) as char
    } else {
        c
    }
}

/// Whether a part of a rule has a name, in whatever case, before an equals sign.
fn is_named(part: &Vec<char>, name: &Vec<char>) -> (r: bool)
    ensures
        r == has_name(part@, name@),
{
    if part.len() <= name.len() || part[name.len()] != '=' {
        return false;
    }
    for i in 0..name.len()
        invariant
            name@.len() < part@.len(),
            forall|j: int| 0 <= j < i ==> upper(#[trigger] part@[j]) == name@[j],
    {
        if to_upper(part[i]) != name[i] {
            assert(upper(part@[i as int]) != name@[i as int]);
            return false;
        }
    }
    true
}

/// The characters of a text.
fn letters(text: &str) -> (r: Vec<char>)
    ensures
        r@ == text@,
{
    let mut r: Vec<char> = Vec::new();
    for c in it: text.chars()
        invariant
            it.seq() == text@,
            r@ == text@.take(it.index()),
    {
        r.push(c);
        assert(r@ =~= text@.take(it.index() + 1));
    }
    assert(text@.take(text@.len() as int) =~= text@);
    r
}

/// Whether a line states a property.
fn has_property(line: &Vec<char>, name: &Vec<char>) -> (r: bool)
    ensures
        r == states_property(line@, name@),
{
    if line.len() <= name.len() || (line[name.len()] != ':' && line[name.len()] != ';') {
        return false;
    }
    for i in 0..name.len()
        invariant
            name@.len() < line@.len(),
            forall|j: int| 0 <= j < i ==> #[trigger] line@[j] == name@[j],
    {
        if line[i] != name[i] {
            assert(line@[i as int] != name@[i as int]);
            return false;
        }
    }
    true
}

/// The weekdays that a part of a rule lists, as they are written.
fn weekdays_of(part: &Vec<char>) -> (r: Vec<Vec<char>>)
    ensures
        piece_views(r@) == listed_weekdays(part@),
{
    proof {
        reveal_strlit("BYDAY");
        reveal_strlit("BYWEEKDAY");
    }
    if is_named(part, &letters("BYDAY")) {
        return split(&rest(part, 6), ',');
    }
    if is_named(part, &letters("BYWEEKDAY")) {
        return split(&rest(part, 10), ',');
    }
    let none: Vec<Vec<char>> = Vec::new();
    assert(piece_views(none@) =~= Seq::empty());
    none
}

/// Whether one of the last two characters of a weekday lies beyond ASCII.
fn check_spelling(weekday: &Vec<char>) -> (r: bool)
    ensures
        r == is_misspelt(weekday@),
{
    let mut end: usize = weekday.len();
    if end > 0 && weekday[end - 1] == '\r' {
        end = end - 1;
    }
    let ghost letters = trimmed(weekday@);
    assert(letters =~= weekday@.take(end as int));
    if end > 0 && weekday[end - 1] as u32 > 0x7f {
        assert(letters[end - 1] as u32 > 0x7f);
        return true;
    }
    if end > 1 && weekday[end - 2] as u32 > 0x7f {
        assert(letters[end - 2] as u32 > 0x7f);
        return true;
    }
    false
}

/// Whether a part of a rule lists a weekday that is misspelt.
fn check_part(part: &Vec<char>) -> (r: bool)
    ensures
        r == part_misspells(part@),
{
    let days = weekdays_of(part);
    for i in 0..days.len()
        invariant
            piece_views(days@) == listed_weekdays(part@),
            forall|j: int| 0 <= j < i ==> !is_misspelt(#[trigger] listed_weekdays(part@)[j]),
    {
        assert(listed_weekdays(part@)[i as int] == days@[i as int]@);
        if check_spelling(&days[i]) {
            return true;
        }
    }
    assert(listed_weekdays(part@).len() == days@.len());
    false
}

/// Whether a line is a rule that lists a weekday that is misspelt.
fn check_line(line: &Vec<char>) -> (r: bool)
    ensures
        r == line_misspells(line@),
{
    if has_property(line, &letters("DTSTART")) || has_property(line, &letters("RDATE"))
        || has_property(line, &letters("EXDATE")) {
        return false;
    }
    let parts = split(&value_of(line), ';');
    for i in 0..parts.len()
        invariant
            !states_dates(line@),
            piece_views(parts@) == pieces(line_value(line@), ';'),
            forall|j: int| 0 <= j < i ==> !part_misspells(#[trigger] pieces(line_value(line@), ';')[j]),
    {
        assert(pieces(line_value(line@), ';')[i as int] == parts@[i as int]@);
        if check_part(&parts[i]) {
            return true;
        }
    }
    assert(pieces(line_value(line@), ';').len() == parts@.len());
    false
}

/// Whether a text of rules lists a weekday that is misspelt.
pub fn check_weekdays(text: &str) -> (r: bool)
    ensures
        r == misspells_a_weekday(text@),
{
    let lines = split(&letters(text), '\n');
    for i in 0..lines.len()
        invariant
            piece_views(lines@) == pieces(text@, '\n'),
            forall|j: int| 0 <= j < i ==> !line_misspells(#[trigger] pieces(text@, '\n')[j]),
    {
        assert(pieces(text@, '\n')[i as int] == lines@[i as int]@);
        if check_line(&lines[i]) {
            return true;
        }
    }
    assert(pieces(text@, '\n').len() == lines@.len());
    false
}

/// A text without the separator is its only piece.
pub proof fn law_text_without_separator_is_one_piece(text: Seq<char>, separator: char)
    requires
        !text.contains(separator),
    ensures
        pieces(text, separator) == seq![text],
    decreases text.len(),
{
    if text.len() > 0 {
        let shorter = text.drop_last();
        assert(text.contains(text.last()));
        assert forall|i: int| 0 <= i < shorter.len() implies shorter[i] != separator by {
            assert(text.contains(text[i]));
        }
        law_text_without_separator_is_one_piece(shorter, separator);
        assert(shorter.push(text.last()) =~= text);
        assert(seq![shorter].drop_last().push(text) =~= seq![text]);
    } else {
        assert(text =~= Seq::empty());
    }
}

proof fn lemma_some_piece(text: Seq<char>, separator: char)
    ensures
        pieces(text, separator).len() > 0,
    decreases text.len(),
{
    if text.len() > 0 {
        lemma_some_piece(text.drop_last(), separator);
    }
}

/// A separator parts the pieces of the text before it from those of the text after it.
pub proof fn law_separator_parts_the_pieces(a: Seq<char>, b: Seq<char>, separator: char)
    ensures
        pieces(a + seq![separator] + b, separator) == pieces(a, separator) + pieces(b, separator),
    decreases b.len(),
{
    let text = a + seq![separator] + b;
    let first = pieces(a, separator);
    if b.len() == 0 {
        assert(text.drop_last() =~= a);
        assert(first.push(Seq::empty()) =~= first + seq![Seq::<char>::empty()]);
    } else {
        law_separator_parts_the_pieces(a, b.drop_last(), separator);
        assert(text.drop_last() =~= a + seq![separator] + b.drop_last());
        lemma_some_piece(b.drop_last(), separator);
        let rest = pieces(b.drop_last(), separator);
        if b.last() == separator {
            assert((first + rest).push(Seq::empty()) =~= first + rest.push(Seq::empty()));
        } else {
            let last = rest.last().push(b.last());
            assert((first + rest).last() == rest.last());
            assert((first + rest).drop_last().push(last) =~= first + rest.drop_last().push(last));
        }
    }
}

proof fn lemma_pieces_hold_the_text(text: Seq<char>, separator: char, i: int, k: int)
    requires
        0 <= i < pieces(text, separator).len(),
        0 <= k < pieces(text, separator)[i].len(),
    ensures
        text.contains(pieces(text, separator)[i][k]),
    decreases text.len(),
{
    if text.len() > 0 {
        let shorter = text.drop_last();
        let before = pieces(shorter, separator);
        lemma_some_piece(shorter, separator);
        let c = pieces(text, separator)[i][k];
        if i < before.len() && k < before[i].len() {
            lemma_pieces_hold_the_text(shorter, separator, i, k);
            let j = choose|j: int| 0 <= j < shorter.len() && shorter[j] == c;
            assert(text[j] == c);
        } else {
            assert(text[text.len() - 1] == c);
        }
    }
}

/// No weekday is misspelt in a text of ASCII.
pub proof fn law_text_of_ascii_misspells_nothing(text: Seq<char>)
    requires
        forall|i: int| 0 <= i < text.len() ==> (#[trigger] text[i]) as u32 <= 0x7f,
    ensures
        !misspells_a_weekday(text),
{
    let lines = pieces(text, '\n');
    if misspells_a_weekday(text) {
        let i = choose|i: int| 0 <= i < lines.len() && line_misspells(#[trigger] lines[i]);
        let line = lines[i];
        let value = line_value(line);
        line.index_of_first_ensures(':');
        let parts = pieces(value, ';');
        let j = choose|j: int| 0 <= j < parts.len() && part_misspells(#[trigger] parts[j]);
        let part = parts[j];
        let days = listed_weekdays(part);
        let k = choose|k: int| 0 <= k < days.len() && is_misspelt(#[trigger] days[k]);
        let letters = trimmed(days[k]);
        let m = choose|m: int|
            0 <= m < letters.len() && letters.len() - 2 <= m && (#[trigger] letters[m]) as u32 > 0x7f;
        let c = letters[m];
        assert(days[k][m] == c);
        reveal_strlit("BYDAY");
        reveal_strlit("BYWEEKDAY");
        let from: int = if has_name(part, "BYDAY"@) {
            6
        } else {
            10
        };
        lemma_pieces_hold_the_text(part.skip(from), ',', k, m);
        let a = choose|a: int| 0 <= a < part.skip(from).len() && part.skip(from)[a] == c;
        assert(part[from + a] == c);
        lemma_pieces_hold_the_text(value, ';', j, from + a);
        let b = choose|b: int| 0 <= b < value.len() && value[b] == c;
        assert(exists|d: int| 0 <= d < line.len() && line[d] == c) by {
            if let Some(colon) = line.index_of_first(':') {
                assert(line[colon + 1 + b] == c);
            } else {
                assert(line[b] == c);
            }
        }
        let d = choose|d: int| 0 <= d < line.len() && line[d] == c;
        lemma_pieces_hold_the_text(text, '\n', i, d);
        let e = choose|e: int| 0 <= e < text.len() && text[e] == c;
        assert(text[e] as u32 <= 0x7f);
    }
}

/// A weekday is misspelt in two texts of lines exactly where it is in one of them.
pub proof fn law_each_line_misspells_on_its_own(a: Seq<char>, b: Seq<char>)
    ensures
        misspells_a_weekday(a + seq!['\n'] + b) <==> misspells_a_weekday(a) || misspells_a_weekday(b),
        !a.contains('\n') ==> (misspells_a_weekday(a) <==> line_misspells(a)),
{
    law_separator_parts_the_pieces(a, b, '\n');
    if !a.contains('\n') {
        law_text_without_separator_is_one_piece(a, '\n');
        assert(pieces(a, '\n')[0] == a);
    }
    let first = pieces(a, '\n');
    let rest = pieces(b, '\n');
    let both = pieces(a + seq!['\n'] + b, '\n');
    assert(both =~= first + rest);
    if misspells_a_weekday(a) {
        let i = choose|i: int| 0 <= i < first.len() && line_misspells(#[trigger] first[i]);
        assert(both[i] == first[i]);
    }
    if misspells_a_weekday(b) {
        let i = choose|i: int| 0 <= i < rest.len() && line_misspells(#[trigger] rest[i]);
        assert(both[first.len() + i] == rest[i]);
    }
    if misspells_a_weekday(a + seq!['\n'] + b) {
        let i = choose|i: int| 0 <= i < both.len() && line_misspells(#[trigger] both[i]);
        if i < first.len() {
            assert(first[i] == both[i]);
        } else {
            assert(rest[i - first.len()] == both[i]);
        }
    }
}

/// What a line states stands after its first colon.
pub proof fn law_value_follows_the_colon(name: Seq<char>, value: Seq<char>)
    requires
        !name.contains(':'),
    ensures
        line_value(name + seq![':'] + value) == value,
        line_value(name) == name,
{
    let line = name + seq![':'] + value;
    line.index_of_first_ensures(':');
    name.index_of_first_ensures(':');
    assert(line[name.len() as int] == ':');
    assert(line.contains(':'));
    let colon = line.index_of_first(':')->0;
    if colon < name.len() {
        assert(name.contains(name[colon]));
    }
    if colon > name.len() {
        assert(line[name.len() as int] != ':');
    }
    assert(line.skip(name.len() as int + 1) =~= value);
}

/// A line that states the start of an event, or dates, misspells no weekday.
pub proof fn law_lines_of_dates_misspell_nothing(rest: Seq<char>)
    ensures
        !line_misspells("DTSTART:"@ + rest),
        !line_misspells("DTSTART;"@ + rest),
        !line_misspells("RDATE:"@ + rest),
        !line_misspells("RDATE;"@ + rest),
        !line_misspells("EXDATE:"@ + rest),
        !line_misspells("EXDATE;"@ + rest),
{
    reveal_strlit("DTSTART");
    reveal_strlit("RDATE");
    reveal_strlit("EXDATE");
    reveal_strlit("DTSTART:");
    reveal_strlit("DTSTART;");
    reveal_strlit("RDATE:");
    reveal_strlit("RDATE;");
    reveal_strlit("EXDATE:");
    reveal_strlit("EXDATE;");
    assert(states_property("DTSTART:"@ + rest, "DTSTART"@));
    assert(states_property("DTSTART;"@ + rest, "DTSTART"@));
    assert(states_property("RDATE:"@ + rest, "RDATE"@));
    assert(states_property("RDATE;"@ + rest, "RDATE"@));
    assert(states_property("EXDATE:"@ + rest, "EXDATE"@));
    assert(states_property("EXDATE;"@ + rest, "EXDATE"@));
}

proof fn lemma_rule_lines_state_no_dates(value: Seq<char>)
    ensures
        !states_dates("RRULE"@ + seq![':'] + value),
        !states_dates("EXRULE"@ + seq![':'] + value),
        !"RRULE"@.contains(':'),
        !"EXRULE"@.contains(':'),
{
    reveal_strlit("RRULE");
    reveal_strlit("EXRULE");
    reveal_strlit("DTSTART");
    reveal_strlit("RDATE");
    reveal_strlit("EXDATE");
    let rule = "RRULE"@ + seq![':'] + value;
    let exception = "EXRULE"@ + seq![':'] + value;
    assert(rule[0] == 'R' && rule[1] == 'R' && exception[0] == 'E' && exception[2] == 'R');
    assert("DTSTART"@[0] == 'D' && "RDATE"@[0] == 'R' && "RDATE"@[1] == 'D');
    assert("EXDATE"@[0] == 'E' && "EXDATE"@[2] == 'D');
}

/// A rule misspells a weekday exactly where one of its parts does; the parts stand between semicolons.
pub proof fn law_each_part_of_a_rule_misspells_on_its_own(part: Seq<char>, rest: Seq<char>)
    requires
        !part.contains(';'),
    ensures
        line_misspells("RRULE"@ + seq![':'] + part) <==> part_misspells(part),
        line_misspells("EXRULE"@ + seq![':'] + part) <==> part_misspells(part),
        line_misspells("RRULE"@ + seq![':'] + (part + seq![';'] + rest)) <==> part_misspells(part)
            || line_misspells("RRULE"@ + seq![':'] + rest),
        line_misspells("EXRULE"@ + seq![':'] + (part + seq![';'] + rest)) <==> part_misspells(part)
            || line_misspells("EXRULE"@ + seq![':'] + rest),
{
    let both = part + seq![';'] + rest;
    lemma_rule_lines_state_no_dates(part);
    lemma_rule_lines_state_no_dates(rest);
    lemma_rule_lines_state_no_dates(both);
    law_value_follows_the_colon("RRULE"@, part);
    law_value_follows_the_colon("RRULE"@, rest);
    law_value_follows_the_colon("RRULE"@, both);
    law_value_follows_the_colon("EXRULE"@, part);
    law_value_follows_the_colon("EXRULE"@, rest);
    law_value_follows_the_colon("EXRULE"@, both);
    law_text_without_separator_is_one_piece(part, ';');
    law_separator_parts_the_pieces(part, rest, ';');
    let parts = pieces(rest, ';');
    let all = pieces(both, ';');
    assert(pieces(part, ';')[0] == part);
    assert(all =~= seq![part] + parts);
    assert(all[0] == part);
    assert(forall|i: int| 0 <= i < parts.len() ==> all[i + 1] == #[trigger] parts[i]);
    assert(forall|i: int| 0 < i < all.len() ==> #[trigger] all[i] == parts[i - 1]);
}

/// A part named `BYDAY` or `BYWEEKDAY`, in whatever case, lists weekdays between commas; any other part
/// lists none.
pub proof fn law_which_parts_list_weekdays(name: Seq<char>, list: Seq<char>, part: Seq<char>)
    ensures
        name.len() == 5 && (forall|i: int|
            0 <= i < 5 ==> #[trigger] name[i] == "BYDAY"@[i] || name[i] as u32 == "BYDAY"@[i] as u32
                + 32) ==> listed_weekdays(name + seq!['='] + list) == pieces(list, ','),
        name.len() == 9 && (forall|i: int|
            0 <= i < 9 ==> #[trigger] name[i] == "BYWEEKDAY"@[i] || name[i] as u32
                == "BYWEEKDAY"@[i] as u32 + 32) ==> listed_weekdays(name + seq!['='] + list) == pieces(
            list,
            ',',
        ),
        !(part.len() > 5 && part[5] == '=' && forall|i: int|
            0 <= i < 5 ==> #[trigger] part[i] == "BYDAY"@[i] || part[i] as u32 == "BYDAY"@[i] as u32
                + 32) && !(part.len() > 9 && part[9] == '=' && forall|i: int|
            0 <= i < 9 ==> #[trigger] part[i] == "BYWEEKDAY"@[i] || part[i] as u32
                == "BYWEEKDAY"@[i] as u32 + 32) ==> listed_weekdays(part).len() == 0,
{
    reveal_strlit("BYDAY");
    reveal_strlit("BYWEEKDAY");
    let whole = name + seq!['='] + list;
    if name.len() == 5 && (forall|i: int|
        0 <= i < 5 ==> #[trigger] name[i] == "BYDAY"@[i] || name[i] as u32 == "BYDAY"@[i] as u32 + 32) {
        assert forall|i: int| 0 <= i < 5 implies upper(#[trigger] whole[i]) == "BYDAY"@[i] by {
            assert(whole[i] == name[i]);
            assert('A' <= "BYDAY"@[i] <= 'Z');
        }
        assert(whole[5] == '=');
        assert(whole.skip(6) =~= list);
    }
    if name.len() == 9 && (forall|i: int|
        0 <= i < 9 ==> #[trigger] name[i] == "BYWEEKDAY"@[i] || name[i] as u32 == "BYWEEKDAY"@[i] as u32
            + 32) {
        assert forall|i: int| 0 <= i < 9 implies upper(#[trigger] whole[i]) == "BYWEEKDAY"@[i] by {
            assert(whole[i] == name[i]);
            assert('A' <= "BYWEEKDAY"@[i] <= 'Z');
        }
        assert(whole[9] == '=');
        assert(whole[5] == name[5]);
        assert(whole.skip(10) =~= list);
    }
    if has_name(part, "BYDAY"@) {
        assert forall|i: int| 0 <= i < 5 implies #[trigger] part[i] == "BYDAY"@[i] || part[i] as u32
            == "BYDAY"@[i] as u32 + 32 by {
            assert(upper(part[i]) == "BYDAY"@[i]);
        }
    }
    if has_name(part, "BYWEEKDAY"@) {
        assert forall|i: int| 0 <= i < 9 implies #[trigger] part[i] == "BYWEEKDAY"@[i] || part[i] as u32
            == "BYWEEKDAY"@[i] as u32 + 32 by {
            assert(upper(part[i]) == "BYWEEKDAY"@[i]);
        }
    }
}

/// A part that lists weekdays misspells one exactly where one of them is misspelt; one that lists none
/// misspells none.
pub proof fn law_each_weekday_is_misspelt_on_its_own(part: Seq<char>, weekday: Seq<char>, rest: Seq<char>)
    requires
        !weekday.contains(','),
    ensures
        listed_weekdays(part) == pieces(weekday, ',') ==> (part_misspells(part) <==> is_misspelt(weekday)),
        listed_weekdays(part) == pieces(weekday + seq![','] + rest, ',') ==> (part_misspells(part)
            <==> is_misspelt(weekday) || exists|i: int|
            0 <= i < pieces(rest, ',').len() && is_misspelt(#[trigger] pieces(rest, ',')[i])),
        listed_weekdays(part).len() == 0 ==> !part_misspells(part),
{
    law_text_without_separator_is_one_piece(weekday, ',');
    law_separator_parts_the_pieces(weekday, rest, ',');
    let others = pieces(rest, ',');
    let all = pieces(weekday + seq![','] + rest, ',');
    assert(pieces(weekday, ',')[0] == weekday);
    assert(all =~= seq![weekday] + others);
    assert(all[0] == weekday);
    assert(forall|i: int| 0 <= i < others.len() ==> all[i + 1] == #[trigger] others[i]);
    assert(forall|i: int| 0 < i < all.len() ==> #[trigger] all[i] == others[i - 1]);
}

/// A weekday is misspelt where one of its last two characters lies beyond ASCII. The carriage return at
/// the end of a line does not count.
pub proof fn law_which_weekdays_are_misspelt(before: Seq<char>, a: char, b: char)
    requires
        b != '\r',
    ensures
        is_misspelt(before + seq![a, b]) <==> a as u32 > 0x7f || b as u32 > 0x7f,
        is_misspelt(before + seq![a, b, '\r']) <==> a as u32 > 0x7f || b as u32 > 0x7f,
        is_misspelt(seq![b]) <==> b as u32 > 0x7f,
        is_misspelt(seq![b, '\r']) <==> b as u32 > 0x7f,
        !is_misspelt(Seq::empty()),
{
    let n = before.len() as int;
    let plain = before + seq![a, b];
    let ended = before + seq![a, b, '\r'];
    assert(trimmed(plain) =~= plain);
    assert(trimmed(ended) =~= plain);
    assert(plain[n] == a && plain[n + 1] == b);
    assert(trimmed(seq![b]) =~= seq![b]);
    assert(trimmed(seq![b, '\r']) =~= seq![b]);
    assert(seq![b][0] == b);
}

} // verus!
