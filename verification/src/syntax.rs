//! Requirements read from their normal form: `name[extra,extra]spec,spec`,
//! without blanks and without marker.

use crate::number::{is_ascii_digit, is_digit};
use crate::parse::{at, parse_version_chars, read_version};
use crate::requirement::Requirement;
use crate::specifier::{Operator, Specifier, SpecifierView};
use crate::text::string_of;
use vstd::prelude::*;

verus! {

/// Whether `c` may stand in the normal form of a name: a lower-case
/// letter, a digit or a hyphen.
pub open spec fn is_name_char(c: char) -> bool {
    ('a' <= c && c <= 'z') || is_digit(c) || c == '-'
}

/// Whether `c` is one of the characters that operators are made of.
pub open spec fn is_operator_char(c: char) -> bool {
    c == '<' || c == '>' || c == '=' || c == '!' || c == '~'
}

/// Where the characters of a name that start at `from` end.
pub open spec fn name_end(s: Seq<char>, from: int) -> int
    decreases s.len() - from,
{
    if from < 0 || from >= s.len() || !is_name_char(s[from]) {
        from
    } else {
        name_end(s, from + 1)
    }
}

/// Where the characters of an operator that start at `from` end.
pub open spec fn operator_end(s: Seq<char>, from: int) -> int
    decreases s.len() - from,
{
    if from < 0 || from >= s.len() || !is_operator_char(s[from]) {
        from
    } else {
        operator_end(s, from + 1)
    }
}

/// The place of the first comma from `from` on, or the end of the text.
pub open spec fn piece_end(s: Seq<char>, from: int) -> int
    decreases s.len() - from,
{
    if from < 0 || from >= s.len() || s[from] == ',' {
        from
    } else {
        piece_end(s, from + 1)
    }
}

/// The name that starts at `from`, with the place where it ends.
pub open spec fn read_name(s: Seq<char>, from: int) -> Option<(Seq<char>, int)> {
    let end = name_end(s, from);
    if 0 <= from < end <= s.len() {
        Some((s.subrange(from, end), end))
    } else {
        None
    }
}

/// The ends of runs lie within the text.
pub proof fn lemma_ends(s: Seq<char>, from: int)
    requires
        0 <= from <= s.len(),
    ensures
        from <= name_end(s, from) <= s.len(),
        from <= operator_end(s, from) <= s.len(),
        from <= piece_end(s, from) <= s.len(),
    decreases s.len() - from,
{
    if from < s.len() {
        lemma_ends(s, from + 1);
    }
}

/// The extras that start at `from`, separated by commas and closed by
/// `]`, with the place after the bracket.
pub open spec fn read_extra_list(s: Seq<char>, from: int) -> Option<(Seq<Seq<char>>, int)>
    decreases s.len() - from,
{
    match read_name(s, from) {
        None => None,
        Some((extra, end)) => if at(s, end, ']') {
            Some((seq![extra], end + 1))
        } else if at(s, end, ',') {
            match read_extra_list(s, end + 1) {
                Some((rest, stop)) => Some((seq![extra] + rest, stop)),
                None => None,
            }
        } else {
            None
        },
    }
}

/// The extras in brackets at `from`, none where no bracket stands there.
pub open spec fn read_extras(s: Seq<char>, from: int) -> Option<(Seq<Seq<char>>, int)> {
    if at(s, from, '[') {
        read_extra_list(s, from + 1)
    } else {
        Some((Seq::empty(), from))
    }
}

/// The operator that the word is, prefix matching left aside.
#[verifier::opaque]
pub open spec fn operator_of(word: Seq<char>) -> Option<Operator> {
    if word.len() == 3 {
        if word[0] == '=' && word[1] == '=' && word[2] == '=' {
            Some(Operator::ExactEqual)
        } else {
            None
        }
    } else if word.len() == 2 {
        if word[1] != '=' {
            None
        } else if word[0] == '=' {
            Some(Operator::Equal)
        } else if word[0] == '!' {
            Some(Operator::NotEqual)
        } else if word[0] == '~' {
            Some(Operator::TildeEqual)
        } else if word[0] == '<' {
            Some(Operator::LessThanEqual)
        } else if word[0] == '>' {
            Some(Operator::GreaterThanEqual)
        } else {
            None
        }
    } else if word.len() == 1 {
        if word[0] == '<' {
            Some(Operator::LessThan)
        } else if word[0] == '>' {
            Some(Operator::GreaterThan)
        } else {
            None
        }
    } else {
        None
    }
}

/// The operator with prefix matching, for the two that have it.
pub open spec fn with_star(operator: Operator) -> Option<Operator> {
    match operator {
        Operator::Equal => Some(Operator::EqualStar),
        Operator::NotEqual => Some(Operator::NotEqualStar),
        _ => None,
    }
}

/// Whether the text ends in `.*`.
pub open spec fn ends_in_star(body: Seq<char>) -> bool {
    body.len() >= 2 && body[body.len() - 2] == '.' && body[body.len() - 1] == '*'
}

/// The specifier of `operator` and of the version that `body` is the
/// normal form of; a body that ends in `.*` asks for prefix matching.
#[verifier::opaque]
pub open spec fn read_body(operator: Operator, body: Seq<char>) -> Option<SpecifierView> {
    if ends_in_star(body) {
        match with_star(operator) {
            Some(starred) => match read_version(body.take(body.len() - 2)) {
                Some(version) => Some(SpecifierView { operator: starred, version }),
                None => None,
            },
            None => None,
        }
    } else {
        match read_version(body) {
            Some(version) => Some(SpecifierView { operator, version }),
            None => None,
        }
    }
}

/// The specifier that `piece` is the normal form of.
pub open spec fn read_specifier(piece: Seq<char>) -> Option<SpecifierView> {
    let k = operator_end(piece, 0);
    match operator_of(piece.take(k)) {
        None => None,
        Some(operator) => read_body(operator, piece.skip(k)),
    }
}

/// The specifiers that start at `from`, separated by commas, to the end.
pub open spec fn read_specifier_list(s: Seq<char>, from: int) -> Option<Seq<SpecifierView>>
    decreases s.len() - from,
{
    let end = piece_end(s, from);
    if !(0 <= from <= end <= s.len()) {
        None
    } else {
        match read_specifier(s.subrange(from, end)) {
            None => None,
            Some(specifier) => if end >= s.len() {
                Some(seq![specifier])
            } else {
                match read_specifier_list(s, end + 1) {
                    Some(rest) => Some(seq![specifier] + rest),
                    None => None,
                }
            },
        }
    }
}

/// The specifiers from `from` to the end of the text, none at the end.
pub open spec fn read_specifiers(s: Seq<char>, from: int) -> Option<Seq<SpecifierView>> {
    if from == s.len() {
        Some(Seq::empty())
    } else {
        read_specifier_list(s, from)
    }
}

/// A requirement without marker, as a mathematical value.
pub struct PlainRequirement {
    pub name: Seq<char>,
    pub extras: Seq<Seq<char>>,
    pub specifiers: Seq<SpecifierView>,
}

/// The requirement that `s` is the normal form of.
pub open spec fn read_requirement(s: Seq<char>) -> Option<PlainRequirement> {
    match read_name(s, 0) {
        None => None,
        Some((name, at0)) => match read_extras(s, at0) {
            None => None,
            Some((extras, at1)) => match read_specifiers(s, at1) {
                None => None,
                Some(specifiers) => Some(PlainRequirement { name, extras, specifiers }),
            },
        },
    }
}

/// The values of a list of specifiers, in order.
pub open spec fn specifiers_view(specifiers: Seq<Specifier>) -> Seq<SpecifierView> {
    Seq::new(specifiers.len(), |i: int| specifiers[i]@)
}

/// What a requirement is, its marker left aside.
pub open spec fn plain(r: Requirement) -> PlainRequirement {
    PlainRequirement {
        name: r.name@,
        extras: crate::text::texts(r.extras@),
        specifiers: specifiers_view(r.specifiers@),
    }
}

fn copy_range(chars: &Vec<char>, from: usize, end: usize) -> (out: Vec<char>)
    requires
        from <= end <= chars.len(),
    ensures
        out@ == chars@.subrange(from as int, end as int),
{
    let mut out: Vec<char> = Vec::new();
    let mut i: usize = from;
    assert(out@ =~= chars@.subrange(from as int, i as int));
    while i < end
        invariant
            from <= i <= end <= chars.len(),
            out@ == chars@.subrange(from as int, i as int),
        decreases end - i,
    {
        out.push(chars[i]);
        assert(out@ =~= chars@.subrange(from as int, i + 1));
        i = i + 1;
    }
    out
}

fn find_name_end(chars: &Vec<char>, from: usize) -> (end: usize)
    requires
        from <= chars.len(),
    ensures
        end == name_end(chars@, from as int),
        from <= end <= chars.len(),
{
    let mut end: usize = from;
    while end < chars.len() && (('a' <= chars[end] && chars[end] <= 'z') || is_ascii_digit(
        chars[end],
    ) || chars[end] == '-')
        invariant
            from <= end <= chars.len(),
            name_end(chars@, from as int) == name_end(chars@, end as int),
        decreases chars.len() - end,
    {
        end = end + 1;
    }
    end
}

fn find_operator_end(chars: &Vec<char>, from: usize) -> (end: usize)
    requires
        from <= chars.len(),
    ensures
        end == operator_end(chars@, from as int),
        from <= end <= chars.len(),
{
    let mut end: usize = from;
    while end < chars.len() && (chars[end] == '<' || chars[end] == '>' || chars[end] == '='
        || chars[end] == '!' || chars[end] == '~')
        invariant
            from <= end <= chars.len(),
            operator_end(chars@, from as int) == operator_end(chars@, end as int),
        decreases chars.len() - end,
    {
        end = end + 1;
    }
    end
}

fn find_piece_end(chars: &Vec<char>, from: usize) -> (end: usize)
    requires
        from <= chars.len(),
    ensures
        end == piece_end(chars@, from as int),
        from <= end <= chars.len(),
{
    let mut end: usize = from;
    while end < chars.len() && chars[end] != ','
        invariant
            from <= end <= chars.len(),
            piece_end(chars@, from as int) == piece_end(chars@, end as int),
        decreases chars.len() - end,
    {
        end = end + 1;
    }
    end
}

fn stands(chars: &Vec<char>, i: usize, c: char) -> (b: bool)
    ensures
        b == at(chars@, i as int, c),
{
    i < chars.len() && chars[i] == c
}

/// A list of extras that was read, with the place as a mathematical integer.
pub open spec fn extras_read(r: Option<(Vec<String>, usize)>) -> Option<(Seq<Seq<char>>, int)> {
    match r {
        Some((extras, stop)) => Some((crate::text::texts(extras@), stop as int)),
        None => None,
    }
}

fn parse_extra_list(chars: &Vec<char>, from: usize) -> (r: Option<(Vec<String>, usize)>)
    requires
        from <= chars.len(),
    ensures
        extras_read(r) == read_extra_list(chars@, from as int),
        r matches Some((_, stop)) ==> stop <= chars.len(),
{
    let ghost s = chars@;
    let mut extras: Vec<String> = Vec::new();
    let mut place: usize = from;
    loop
        invariant
            from <= place <= chars.len(),
            s == chars@,
            read_extra_list(s, from as int) == (match read_extra_list(s, place as int) {
                Some((rest, stop)) => Some((crate::text::texts(extras@) + rest, stop)),
                None => None,
            }),
        decreases chars.len() - place,
    {
        let end = find_name_end(chars, place);
        if end == place {
            return None;
        }
        let ghost before = crate::text::texts(extras@);
        let extra = string_of(&copy_range(chars, place, end));
        let ghost text = extra@;
        extras.push(extra);
        assert(crate::text::texts(extras@) =~= before.push(text));
        if stands(chars, end, ']') {
            assert(before + seq![text] =~= crate::text::texts(extras@));
            return Some((extras, end + 1));
        } else if stands(chars, end, ',') {
            proof {
                match read_extra_list(s, end + 1) {
                    Some((rest, stop)) => {
                        assert(before + (seq![text] + rest) =~= crate::text::texts(extras@) + rest);
                    },
                    None => {},
                }
            }
            place = end + 1;
        } else {
            return None;
        }
    }
}

fn parse_operator(word: &Vec<char>) -> (r: Option<Operator>)
    ensures
        r == operator_of(word@),
{
    proof {
        reveal(operator_of);
    }
    if word.len() == 3 {
        if word[0] == '=' && word[1] == '=' && word[2] == '=' {
            Some(Operator::ExactEqual)
        } else {
            None
        }
    } else if word.len() == 2 {
        if word[1] != '=' {
            None
        } else if word[0] == '=' {
            Some(Operator::Equal)
        } else if word[0] == '!' {
            Some(Operator::NotEqual)
        } else if word[0] == '~' {
            Some(Operator::TildeEqual)
        } else if word[0] == '<' {
            Some(Operator::LessThanEqual)
        } else if word[0] == '>' {
            Some(Operator::GreaterThanEqual)
        } else {
            None
        }
    } else if word.len() == 1 {
        if word[0] == '<' {
            Some(Operator::LessThan)
        } else if word[0] == '>' {
            Some(Operator::GreaterThan)
        } else {
            None
        }
    } else {
        None
    }
}

/// The value of an optional specifier.
pub open spec fn specifier_read(r: Option<Specifier>) -> Option<SpecifierView> {
    match r {
        Some(s) => Some(s@),
        None => None,
    }
}

fn parse_body(operator: Operator, body: &Vec<char>) -> (r: Option<Specifier>)
    ensures
        specifier_read(r) == read_body(operator, body@),
{
    proof {
        reveal(read_body);
    }
    let n = body.len();
    if n >= 2 && body[n - 2] == '.' && body[n - 1] == '*' {
        let starred = match operator {
            Operator::Equal => Operator::EqualStar,
            Operator::NotEqual => Operator::NotEqualStar,
            _ => {
                return None;
            },
        };
        let front = copy_range(body, 0, n - 2);
        assert(front@ =~= body@.take(n - 2));
        match parse_version_chars(&front) {
            Some(version) => Some(Specifier { operator: starred, version }),
            None => None,
        }
    } else {
        match parse_version_chars(body) {
            Some(version) => Some(Specifier { operator, version }),
            None => None,
        }
    }
}

/// Reads a specifier from the characters of its normal form.
pub(crate) fn parse_specifier_chars(piece: &Vec<char>) -> (r: Option<Specifier>)
    ensures
        specifier_read(r) == read_specifier(piece@),
{
    let k = find_operator_end(piece, 0);
    let word = copy_range(piece, 0, k);
    assert(word@ =~= piece@.take(k as int));
    let body = copy_range(piece, k, piece.len());
    assert(body@ =~= piece@.skip(k as int));
    match parse_operator(&word) {
        Some(operator) => parse_body(operator, &body),
        None => None,
    }
}

/// The values of an optional list of specifiers.
pub open spec fn specifiers_read(r: Option<Vec<Specifier>>) -> Option<Seq<SpecifierView>> {
    match r {
        Some(list) => Some(specifiers_view(list@)),
        None => None,
    }
}

fn parse_specifier_list(chars: &Vec<char>, from: usize) -> (r: Option<Vec<Specifier>>)
    requires
        from <= chars.len(),
    ensures
        specifiers_read(r) == read_specifier_list(chars@, from as int),
{
    let ghost s = chars@;
    let mut list: Vec<Specifier> = Vec::new();
    let mut place: usize = from;
    loop
        invariant
            from <= place <= chars.len(),
            s == chars@,
            read_specifier_list(s, from as int) == (match read_specifier_list(s, place as int) {
                Some(rest) => Some(specifiers_view(list@) + rest),
                None => None,
            }),
        decreases chars.len() - place,
    {
        let end = find_piece_end(chars, place);
        let piece = copy_range(chars, place, end);
        match parse_specifier_chars(&piece) {
            None => {
                return None;
            },
            Some(specifier) => {
                let ghost before = specifiers_view(list@);
                let ghost value = specifier@;
                list.push(specifier);
                assert(specifiers_view(list@) =~= before.push(value));
                if end >= chars.len() {
                    assert(before + seq![value] =~= specifiers_view(list@));
                    return Some(list);
                }
                proof {
                    match read_specifier_list(s, end + 1) {
                        Some(rest) => {
                            assert(before + (seq![value] + rest) =~= specifiers_view(list@) + rest);
                        },
                        None => {},
                    }
                }
                place = end + 1;
            },
        }
    }
}

/// The value of an optional requirement, its marker left aside.
pub open spec fn requirement_read(r: Option<Requirement>) -> Option<PlainRequirement> {
    match r {
        Some(requirement) => Some(plain(requirement)),
        None => None,
    }
}

/// Reads a requirement from the characters of its normal form.
pub(crate) fn parse_requirement_chars(chars: &Vec<char>) -> (r: Option<Requirement>)
    ensures
        requirement_read(r) == read_requirement(chars@),
        r matches Some(requirement) ==> requirement.marker is None,
{
    let at0 = find_name_end(chars, 0);
    if at0 == 0 {
        return None;
    }
    let name = string_of(&copy_range(chars, 0, at0));
    let (extras, at1) = if stands(chars, at0, '[') {
        match parse_extra_list(chars, at0 + 1) {
            Some(x) => x,
            None => {
                return None;
            },
        }
    } else {
        let none: Vec<String> = Vec::new();
        assert(crate::text::texts(none@) =~= Seq::<Seq<char>>::empty());
        (none, at0)
    };
    let specifiers = if at1 == chars.len() {
        let none: Vec<Specifier> = Vec::new();
        assert(specifiers_view(none@) =~= Seq::<SpecifierView>::empty());
        none
    } else {
        match parse_specifier_list(chars, at1) {
            Some(list) => list,
            None => {
                return None;
            },
        }
    };
    Some(Requirement { name, extras, specifiers, marker: None })
}

} // verus!
