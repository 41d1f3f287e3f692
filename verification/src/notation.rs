//! The normal form of requirements, and that reading it gives back the
//! requirement.

use crate::grammar::{
    dev_part, epoch_part, lemma_read_version_complete, lemma_read_version_sound,
    lemma_release_left, lemma_split, lemma_version_text_parts, local_part, post_part, pre_part,
};
use crate::graph::{extras_text, node_text, NodeView};
use crate::requirement::Requirement;
use crate::specifier::Specifier;
use crate::syntax::{parse_requirement_chars, parse_specifier_chars, plain, specifiers_view};
use crate::text::{chars_of, push_str, string_of, texts};
use crate::version::push_version;
use crate::number::{is_digit, lemma_decimal_value};
use crate::parse::{at, canonical, is_local_char};
use crate::specifier::{Operator, SpecifierView};
use crate::syntax::{
    ends_in_star, is_name_char, is_operator_char, lemma_ends, name_end, operator_end,
    operator_of, piece_end, read_body, read_extra_list, read_extras, read_name,
    read_requirement, read_specifier, read_specifier_list, with_star, PlainRequirement,
};
use crate::text::decimal;
use crate::version::{kind_text, release_text, version_text, VersionView};
use vstd::prelude::*;

verus! {

/// The texts joined by commas.
pub open spec fn commas(items: Seq<Seq<char>>) -> Seq<char>
    decreases items.len(),
{
    if items.len() == 0 {
        Seq::empty()
    } else if items.len() == 1 {
        items[0]
    } else {
        items[0] + seq![','] + commas(items.skip(1))
    }
}

/// The sign of an operator.
pub open spec fn operator_text(operator: Operator) -> Seq<char> {
    match operator {
        Operator::Equal => seq!['=', '='],
        Operator::EqualStar => seq!['=', '='],
        Operator::ExactEqual => seq!['=', '=', '='],
        Operator::NotEqual => seq!['!', '='],
        Operator::NotEqualStar => seq!['!', '='],
        Operator::TildeEqual => seq!['~', '='],
        Operator::LessThan => seq!['<'],
        Operator::LessThanEqual => seq!['<', '='],
        Operator::GreaterThan => seq!['>'],
        Operator::GreaterThanEqual => seq!['>', '='],
    }
}

/// Whether the operator asks for prefix matching.
pub open spec fn starred(operator: Operator) -> bool {
    operator == Operator::EqualStar || operator == Operator::NotEqualStar
}

/// The normal form of a specifier, such as `>=1.2` or `==1.*`.
pub open spec fn specifier_text(s: SpecifierView) -> Seq<char> {
    operator_text(s.operator) + version_text(s.version) + (if starred(s.operator) {
        seq!['.', '*']
    } else {
        Seq::empty()
    })
}

/// The normal forms of the specifiers, in order.
pub open spec fn specifier_texts(specifiers: Seq<SpecifierView>) -> Seq<Seq<char>> {
    Seq::new(specifiers.len(), |i: int| specifier_text(specifiers[i]))
}

/// The extras in brackets, nothing where there are none.
pub open spec fn extras_part(extras: Seq<Seq<char>>) -> Seq<char> {
    if extras.len() > 0 {
        seq!['['] + commas(extras) + seq![']']
    } else {
        Seq::empty()
    }
}

/// The normal form of a requirement without marker: the name, the extras
/// in brackets, the specifiers; the last two joined by commas.
pub open spec fn requirement_text(r: PlainRequirement) -> Seq<char> {
    r.name + extras_part(r.extras) + commas(specifier_texts(r.specifiers))
}

/// Whether `name` is a name in normal form: not empty, and made of
/// lower-case letters, digits and hyphens.
pub open spec fn name_ok(name: Seq<char>) -> bool {
    name.len() > 0 && forall|i: int| 0 <= i < name.len() ==> is_name_char(#[trigger] name[i])
}

/// Whether a requirement without marker has a normal form.
pub open spec fn well_written(r: PlainRequirement) -> bool {
    &&& name_ok(r.name)
    &&& forall|i: int| 0 <= i < r.extras.len() ==> name_ok(#[trigger] r.extras[i])
    &&& forall|i: int| 0 <= i < r.specifiers.len() ==> canonical((#[trigger] r.specifiers[i]).version)
}

/// Whether `c` can stand in the normal form of a version.
pub open spec fn is_version_char(c: char) -> bool {
    is_local_char(c) || c == '!' || c == '+'
}

/// Whether every character of `t` can stand in the normal form of a version.
pub open spec fn version_chars(t: Seq<char>) -> bool {
    forall|i: int| 0 <= i < t.len() ==> is_version_char(#[trigger] t[i])
}

proof fn lemma_chars_add(a: Seq<char>, b: Seq<char>)
    requires
        version_chars(a),
        version_chars(b),
    ensures
        version_chars(a + b),
{
    assert forall|i: int| 0 <= i < (a + b).len() implies is_version_char(#[trigger] (a + b)[i]) by {
        if i < a.len() {
            assert((a + b)[i] == a[i]);
        } else {
            assert((a + b)[i] == b[i - a.len()]);
        }
    }
}

proof fn lemma_chars_decimal(n: nat)
    ensures
        version_chars(decimal(n)),
        decimal(n).len() > 0,
        is_digit(decimal(n)[0]),
{
    lemma_decimal_value(n);
    assert forall|i: int| 0 <= i < decimal(n).len() implies is_version_char(
        #[trigger] decimal(n)[i],
    ) by {
        assert(is_digit(decimal(n)[i]));
    }
}

proof fn lemma_chars_release(r: Seq<u64>)
    requires
        r.len() >= 1,
    ensures
        version_chars(release_text(r)),
        release_text(r).len() > 0,
        is_digit(release_text(r)[0]),
    decreases r.len(),
{
    lemma_release_left(r);
    lemma_chars_decimal(r[0] as nat);
    if r.len() > 1 {
        lemma_chars_release(r.skip(1));
        lemma_chars_add(decimal(r[0] as nat), seq!['.']);
        lemma_chars_add(decimal(r[0] as nat) + seq!['.'], release_text(r.skip(1)));
        assert(release_text(r)[0] == decimal(r[0] as nat)[0]);
    }
}

/// The normal form of a version is made of digits, lower-case letters,
/// dots, `!` and `+`, and it starts with a digit.
pub proof fn lemma_chars_version(v: VersionView)
    requires
        canonical(v),
    ensures
        version_chars(version_text(v)),
        version_text(v).len() > 0,
        is_digit(version_text(v)[0]),
{
    lemma_version_text_parts(v);
    let e = epoch_part(v.epoch);
    let r = release_text(v.release);
    let p = pre_part(v.pre);
    let q = post_part(v.post);
    let d = dev_part(v.dev);
    let l = local_part(v.local);
    lemma_chars_release(v.release);
    assert(version_chars(e) && (e.len() > 0 ==> is_digit(e[0]))) by {
        if v.epoch != 0 {
            lemma_chars_decimal(v.epoch as nat);
            lemma_chars_add(decimal(v.epoch as nat), seq!['!']);
            assert(e[0] == decimal(v.epoch as nat)[0]);
        }
    }
    assert(version_chars(p)) by {
        match v.pre {
            Some(pre) => {
                lemma_chars_decimal(pre.number as nat);
                lemma_chars_add(kind_text(pre.kind), decimal(pre.number as nat));
            },
            None => {},
        }
    }
    assert(version_chars(q)) by {
        match v.post {
            Some(n) => {
                lemma_chars_decimal(n as nat);
                lemma_chars_add(seq!['.', 'p', 'o', 's', 't'], decimal(n as nat));
            },
            None => {},
        }
    }
    assert(version_chars(d)) by {
        match v.dev {
            Some(n) => {
                lemma_chars_decimal(n as nat);
                lemma_chars_add(seq!['.', 'd', 'e', 'v'], decimal(n as nat));
            },
            None => {},
        }
    }
    assert(version_chars(l)) by {
        if v.local.len() > 0 {
            assert forall|i: int| 0 <= i < v.local.len() implies is_version_char(
                #[trigger] v.local[i],
            ) by {
                assert(is_local_char(v.local[i]));
            }
            lemma_chars_add(seq!['+'], v.local);
        }
    }
    lemma_chars_add(e, r);
    lemma_chars_add(e + r, p);
    lemma_chars_add(e + r + p, q);
    lemma_chars_add(e + r + p + q, d);
    lemma_chars_add(e + r + p + q + d, l);
    if e.len() > 0 {
        assert(version_text(v)[0] == e[0]);
    } else {
        assert(version_text(v)[0] == r[0]);
    }
}

/// The operator that a word is read as has the word as its sign.
pub proof fn lemma_operator_sound(word: Seq<char>)
    ensures
        operator_of(word) matches Some(operator) ==> operator_text(operator) == word && !starred(
            operator,
        ),
{
    reveal(operator_of);
    match operator_of(word) {
        Some(operator) => {
            assert(operator_text(operator) =~= word);
        },
        None => {},
    }
}

/// The operator without prefix matching.
pub open spec fn unstarred(operator: Operator) -> Operator {
    match operator {
        Operator::EqualStar => Operator::Equal,
        Operator::NotEqualStar => Operator::NotEqual,
        other => other,
    }
}

/// The sign of an operator is read as that operator, prefix matching left aside.
pub proof fn lemma_operator_complete(operator: Operator)
    ensures
        operator_of(operator_text(operator)) == Some(unstarred(operator)),
        starred(operator) ==> with_star(unstarred(operator)) == Some(operator),
        forall|i: int|
            0 <= i < operator_text(operator).len() ==> is_operator_char(
                #[trigger] operator_text(operator)[i],
            ),
        1 <= operator_text(operator).len() <= 3,
{
    reveal(operator_of);
}

proof fn lemma_read_body_sound(operator: Operator, body: Seq<char>)
    requires
        !starred(operator),
    ensures
        read_body(operator, body) matches Some(s) ==> canonical(s.version) && operator_text(
            s.operator,
        ) == operator_text(operator) && body == version_text(s.version) + (if starred(s.operator) {
            seq!['.', '*']
        } else {
            Seq::empty()
        }),
{
    reveal(read_body);
    match read_body(operator, body) {
        Some(s) => {
            if ends_in_star(body) {
                let front = body.take(body.len() - 2);
                lemma_read_version_sound(front);
                assert(body =~= front + seq!['.', '*']);
            } else {
                lemma_read_version_sound(body);
                assert(body =~= body + Seq::<char>::empty());
            }
        },
        None => {},
    }
}

proof fn lemma_last_char(v: VersionView)
    requires
        canonical(v),
    ensures
        version_text(v).len() > 0,
        version_text(v).last() != '*',
{
    lemma_chars_version(v);
    let text = version_text(v);
    assert(is_version_char(text[text.len() - 1]));
}

proof fn lemma_body_plain(operator: Operator, v: VersionView)
    requires
        canonical(v),
    ensures
        read_body(operator, version_text(v)) == Some(SpecifierView { operator, version: v }),
{
    reveal(read_body);
    lemma_last_char(v);
    lemma_read_version_complete(v);
}

proof fn lemma_body_star(operator: Operator, v: VersionView)
    requires
        canonical(v),
        with_star(operator) is Some,
    ensures
        read_body(operator, version_text(v) + seq!['.', '*']) == Some(
            SpecifierView { operator: with_star(operator)->0, version: v },
        ),
{
    reveal(read_body);
    lemma_read_version_complete(v);
    let text = version_text(v);
    let body = text + seq!['.', '*'];
    assert(body[body.len() - 2] == '.');
    assert(body[body.len() - 1] == '*');
    assert(body.take(body.len() - 2) =~= text);
}

proof fn lemma_read_body_complete(s: SpecifierView)
    requires
        canonical(s.version),
    ensures
        read_body(
            unstarred(s.operator),
            version_text(s.version) + (if starred(s.operator) {
                seq!['.', '*']
            } else {
                Seq::empty()
            }),
        ) == Some(s),
{
    let text = version_text(s.version);
    if starred(s.operator) {
        lemma_body_star(unstarred(s.operator), s.version);
    } else {
        lemma_body_plain(s.operator, s.version);
        assert(text + Seq::<char>::empty() =~= text);
    }
}

proof fn lemma_joined(word: Seq<char>, text: Seq<char>, star: Seq<char>, body: Seq<char>, piece: Seq<char>)
    requires
        body == text + star,
        piece == word + body,
    ensures
        word + text + star == piece,
{
    assert(word + text + star =~= word + (text + star));
}

/// What is read as a specifier has the text as its normal form.
pub proof fn lemma_read_specifier_sound(piece: Seq<char>)
    ensures
        read_specifier(piece) matches Some(s) ==> canonical(s.version) && specifier_text(s) == piece,
{
    let k = operator_end(piece, 0);
    let word = piece.take(k);
    let body = piece.skip(k);
    if operator_of(word) is Some {
        let operator = operator_of(word)->0;
        assert(read_specifier(piece) == read_body(operator, body));
        if read_body(operator, body) is Some {
            let s = read_body(operator, body)->0;
            lemma_ends(piece, 0);
            lemma_operator_sound(word);
            lemma_read_body_sound(operator, body);
            assert(piece =~= word + body);
            let star = if starred(s.operator) {
                seq!['.', '*']
            } else {
                Seq::<char>::empty()
            };
            lemma_joined(word, version_text(s.version), star, body, piece);
        }
    } else {
        assert(read_specifier(piece) is None);
    }
}

proof fn lemma_operator_run(piece: Seq<char>, from: int, end: int)
    requires
        0 <= from <= end <= piece.len(),
        forall|i: int| from <= i < end ==> is_operator_char(#[trigger] piece[i]),
        end < piece.len() ==> !is_operator_char(piece[end]),
    ensures
        operator_end(piece, from) == end,
    decreases end - from,
{
    if from < end {
        lemma_operator_run(piece, from + 1, end);
    }
}

/// The normal form of a specifier is read as that specifier.
pub proof fn lemma_read_specifier_complete(s: SpecifierView)
    requires
        canonical(s.version),
    ensures
        read_specifier(specifier_text(s)) == Some(s),
{
    let piece = specifier_text(s);
    let word = operator_text(s.operator);
    let text = version_text(s.version);
    lemma_chars_version(s.version);
    lemma_operator_complete(s.operator);
    let star = if starred(s.operator) {
        seq!['.', '*']
    } else {
        Seq::<char>::empty()
    };
    assert(piece =~= word + (text + star));
    let k = word.len() as int;
    assert(piece[k] == text[0]);
    assert forall|i: int| 0 <= i < k implies is_operator_char(#[trigger] piece[i]) by {
        assert(piece[i] == word[i]);
    }
    lemma_operator_run(piece, 0, k);
    assert(piece.take(k) =~= word);
    assert(piece.skip(k) =~= text + star);
    lemma_read_body_complete(s);
}

proof fn lemma_name_run(s: Seq<char>, from: int, end: int)
    requires
        0 <= from <= end <= s.len(),
        forall|i: int| from <= i < end ==> is_name_char(#[trigger] s[i]),
        end < s.len() ==> !is_name_char(s[end]),
    ensures
        name_end(s, from) == end,
    decreases end - from,
{
    if from < end {
        lemma_name_run(s, from + 1, end);
    }
}

proof fn lemma_name_end(s: Seq<char>, from: int)
    requires
        0 <= from <= s.len(),
    ensures
        from <= name_end(s, from) <= s.len(),
        forall|i: int| from <= i < name_end(s, from) ==> is_name_char(#[trigger] s[i]),
        name_end(s, from) < s.len() ==> !is_name_char(s[name_end(s, from)]),
    decreases s.len() - from,
{
    if from < s.len() && is_name_char(s[from]) {
        lemma_name_end(s, from + 1);
    }
}

proof fn lemma_piece_run(s: Seq<char>, from: int, end: int)
    requires
        0 <= from <= end <= s.len(),
        forall|i: int| from <= i < end ==> (#[trigger] s[i]) != ',',
        end < s.len() ==> s[end] == ',',
    ensures
        piece_end(s, from) == end,
    decreases end - from,
{
    if from < end {
        lemma_piece_run(s, from + 1, end);
    }
}

proof fn lemma_piece_end(s: Seq<char>, from: int)
    requires
        0 <= from <= s.len(),
    ensures
        from <= piece_end(s, from) <= s.len(),
        piece_end(s, from) < s.len() ==> s[piece_end(s, from)] == ',',
    decreases s.len() - from,
{
    if from < s.len() && s[from] != ',' {
        lemma_piece_end(s, from + 1);
    }
}

proof fn lemma_read_name_sound(s: Seq<char>, from: int)
    requires
        0 <= from <= s.len(),
    ensures
        read_name(s, from) matches Some((name, end)) ==> from < end <= s.len() && name_ok(name)
            && name == s.subrange(from, end),
{
    lemma_name_end(s, from);
    match read_name(s, from) {
        Some((name, end)) => {
            assert forall|i: int| 0 <= i < name.len() implies is_name_char(#[trigger] name[i]) by {
                assert(name[i] == s[from + i]);
            }
        },
        None => {},
    }
}

proof fn lemma_read_extra_list_sound(s: Seq<char>, from: int)
    requires
        0 <= from <= s.len(),
    ensures
        read_extra_list(s, from) matches Some((extras, stop)) ==> from < stop <= s.len()
            && extras.len() >= 1 && s.subrange(from, stop) == commas(extras) + seq![']']
            && forall|i: int| 0 <= i < extras.len() ==> name_ok(#[trigger] extras[i]),
    decreases s.len() - from,
{
    lemma_read_name_sound(s, from);
    match read_name(s, from) {
        None => {},
        Some((extra, end)) => {
            if at(s, end, ']') {
                assert(s.subrange(from, end + 1) =~= extra + seq![']']);
            } else if at(s, end, ',') {
                lemma_read_extra_list_sound(s, end + 1);
                match read_extra_list(s, end + 1) {
                    Some((rest, stop)) => {
                        let extras = seq![extra] + rest;
                        assert(extras.skip(1) =~= rest);
                        assert(s.subrange(from, stop) =~= extra + seq![','] + s.subrange(
                            end + 1,
                            stop,
                        ));
                        assert(commas(extras) + seq![']'] =~= extra + seq![','] + (commas(rest)
                            + seq![']']));
                        assert forall|i: int| 0 <= i < extras.len() implies name_ok(
                            #[trigger] extras[i],
                        ) by {
                            if i > 0 {
                                assert(extras[i] == rest[i - 1]);
                            }
                        }
                    },
                    None => {},
                }
            }
        },
    }
}

proof fn lemma_read_specifier_list_sound(s: Seq<char>, from: int)
    requires
        0 <= from <= s.len(),
    ensures
        read_specifier_list(s, from) matches Some(list) ==> list.len() >= 1 && s.subrange(
            from,
            s.len() as int,
        ) == commas(specifier_texts(list)) && forall|i: int|
            0 <= i < list.len() ==> canonical((#[trigger] list[i]).version),
    decreases s.len() - from,
{
    lemma_piece_end(s, from);
    let end = piece_end(s, from);
    lemma_read_specifier_sound(s.subrange(from, end));
    match read_specifier(s.subrange(from, end)) {
        None => {},
        Some(specifier) => {
            if end >= s.len() {
                let list = seq![specifier];
                assert(specifier_texts(list)[0] == specifier_text(specifier));
            } else {
                lemma_read_specifier_list_sound(s, end + 1);
                match read_specifier_list(s, end + 1) {
                    Some(rest) => {
                        let list = seq![specifier] + rest;
                        assert(specifier_texts(list).skip(1) =~= specifier_texts(rest));
                        assert(specifier_texts(list)[0] == specifier_text(specifier));
                        assert(s.subrange(from, s.len() as int) =~= s.subrange(from, end) + seq![',']
                            + s.subrange(end + 1, s.len() as int));
                        assert forall|i: int| 0 <= i < list.len() implies canonical(
                            (#[trigger] list[i]).version,
                        ) by {
                            if i > 0 {
                                assert(list[i] == rest[i - 1]);
                            }
                        }
                    },
                    None => {},
                }
            }
        },
    }
}

/// What is read as a requirement has the text as its normal form.
pub proof fn lemma_read_requirement_sound(s: Seq<char>)
    ensures
        read_requirement(s) matches Some(r) ==> well_written(r) && requirement_text(r) == s,
{
    match read_requirement(s) {
        Some(r) => {
            lemma_read_name_sound(s, 0);
            let (name, at0) = read_name(s, 0)->0;
            let (extras, at1) = read_extras(s, at0)->0;
            if at(s, at0, '[') {
                lemma_read_extra_list_sound(s, at0 + 1);
                assert(s.subrange(at0, at1) =~= seq!['['] + s.subrange(at0 + 1, at1));
                assert(extras_part(extras) =~= seq!['['] + (commas(extras) + seq![']']));
            } else {
                assert(s.subrange(at0, at1) =~= Seq::<char>::empty());
            }
            if at1 == s.len() {
                assert(s.subrange(at1, s.len() as int) =~= Seq::<char>::empty());
                assert(specifier_texts(r.specifiers) =~= Seq::<Seq<char>>::empty());
            } else {
                lemma_read_specifier_list_sound(s, at1);
            }
            assert(s =~= s.subrange(0, at0) + s.subrange(at0, at1) + s.subrange(
                at1,
                s.len() as int,
            ));
        },
        None => {},
    }
}

proof fn lemma_read_name_complete(s: Seq<char>, from: int, name: Seq<char>, tail: Seq<char>)
    requires
        0 <= from <= s.len(),
        s.subrange(from, s.len() as int) == name + tail,
        name_ok(name),
        tail.len() == 0 || !is_name_char(tail[0]),
    ensures
        read_name(s, from) == Some((name, from + name.len())),
        s.subrange(from + name.len(), s.len() as int) == tail,
{
    lemma_split(s, from, name, tail);
    let end = from + name.len();
    assert forall|i: int| from <= i < end implies is_name_char(#[trigger] s[i]) by {
        assert(s[from + (i - from)] == name[i - from]);
    }
    if tail.len() > 0 {
        assert(s[end + 0] == tail[0]);
    }
    lemma_name_run(s, from, end);
}

proof fn lemma_read_extra_list_complete(s: Seq<char>, from: int, extras: Seq<Seq<char>>, tail: Seq<char>)
    requires
        0 <= from <= s.len(),
        extras.len() >= 1,
        forall|i: int| 0 <= i < extras.len() ==> name_ok(#[trigger] extras[i]),
        s.subrange(from, s.len() as int) == commas(extras) + seq![']'] + tail,
    ensures
        read_extra_list(s, from) == Some((extras, from + commas(extras).len() + 1)),
        s.subrange(from + commas(extras).len() + 1, s.len() as int) == tail,
    decreases extras.len(),
{
    let first = extras[0];
    assert(name_ok(first));
    if extras.len() == 1 {
        let more = seq![']'] + tail;
        assert(commas(extras) + seq![']'] + tail =~= first + more);
        lemma_read_name_complete(s, from, first, more);
        let end = from + first.len();
        lemma_split(s, end, seq![']'], tail);
        assert(s[end + 0] == seq![']'][0]);
        assert(seq![first] =~= extras);
    } else {
        let rest = extras.skip(1);
        let more = seq![','] + (commas(rest) + seq![']'] + tail);
        assert(commas(extras) + seq![']'] + tail =~= first + more);
        lemma_read_name_complete(s, from, first, more);
        let end = from + first.len();
        lemma_split(s, end, seq![','], commas(rest) + seq![']'] + tail);
        assert(s[end + 0] == seq![','][0]);
        assert forall|i: int| 0 <= i < rest.len() implies name_ok(#[trigger] rest[i]) by {
            assert(rest[i] == extras[i + 1]);
        }
        lemma_read_extra_list_complete(s, end + 1, rest, tail);
        assert(seq![first] + rest =~= extras);
        assert(commas(extras).len() == first.len() + 1 + commas(rest).len());
    }
}

/// The normal form of a specifier is not empty, starts with a character
/// of an operator, and holds no comma.
pub proof fn lemma_specifier_text(s: SpecifierView)
    requires
        canonical(s.version),
    ensures
        specifier_text(s).len() > 0,
        is_operator_char(specifier_text(s)[0]),
        forall|i: int| 0 <= i < specifier_text(s).len() ==> (#[trigger] specifier_text(s)[i]) != ',',
{
    let word = operator_text(s.operator);
    let text = version_text(s.version);
    lemma_operator_complete(s.operator);
    lemma_chars_version(s.version);
    let star = if starred(s.operator) {
        seq!['.', '*']
    } else {
        Seq::<char>::empty()
    };
    let whole = specifier_text(s);
    assert(whole =~= word + (text + star));
    assert(whole[0] == word[0]);
    assert forall|i: int| 0 <= i < whole.len() implies (#[trigger] whole[i]) != ',' by {
        if i < word.len() {
            assert(whole[i] == word[i]);
        } else if i < word.len() + text.len() {
            assert(whole[i] == text[i - word.len()]);
            assert(is_version_char(text[i - word.len()]));
        } else {
            assert(whole[i] == star[i - word.len() - text.len()]);
        }
    }
}

proof fn lemma_read_specifier_list_complete(s: Seq<char>, from: int, list: Seq<SpecifierView>)
    requires
        0 <= from <= s.len(),
        list.len() >= 1,
        forall|i: int| 0 <= i < list.len() ==> canonical((#[trigger] list[i]).version),
        s.subrange(from, s.len() as int) == commas(specifier_texts(list)),
    ensures
        read_specifier_list(s, from) == Some(list),
    decreases list.len(),
{
    let texts = specifier_texts(list);
    let first = texts[0];
    assert(first == specifier_text(list[0]));
    assert(canonical(list[0].version));
    lemma_specifier_text(list[0]);
    lemma_read_specifier_complete(list[0]);
    if list.len() == 1 {
        assert(commas(texts) == first);
        let end = from + first.len();
        assert(s.subrange(from, s.len() as int) =~= first + Seq::<char>::empty());
        lemma_split(s, from, first, Seq::<char>::empty());
        assert forall|i: int| from <= i < end implies (#[trigger] s[i]) != ',' by {
            assert(s[from + (i - from)] == first[i - from]);
        }
        lemma_piece_run(s, from, end);
        assert(seq![list[0]] =~= list);
    } else {
        let rest = list.skip(1);
        assert(texts.skip(1) =~= specifier_texts(rest));
        let more = seq![','] + commas(specifier_texts(rest));
        assert(commas(texts) =~= first + more);
        lemma_split(s, from, first, more);
        let end = from + first.len();
        assert forall|i: int| from <= i < end implies (#[trigger] s[i]) != ',' by {
            assert(s[from + (i - from)] == first[i - from]);
        }
        assert(s[end + 0] == more[0]);
        lemma_piece_run(s, from, end);
        lemma_split(s, end, seq![','], commas(specifier_texts(rest)));
        assert forall|i: int| 0 <= i < rest.len() implies canonical((#[trigger] rest[i]).version) by {
            assert(rest[i] == list[i + 1]);
        }
        lemma_read_specifier_list_complete(s, end + 1, rest);
        assert(seq![list[0]] + rest =~= list);
    }
}

proof fn lemma_commas_start(texts: Seq<Seq<char>>)
    requires
        texts.len() >= 1,
        texts[0].len() > 0,
    ensures
        commas(texts).len() > 0,
        commas(texts)[0] == texts[0][0],
{
    if texts.len() > 1 {
        assert(commas(texts) =~= texts[0] + (seq![','] + commas(texts.skip(1))));
    }
}

/// The normal form of a requirement is read as that requirement.
pub proof fn lemma_read_requirement_complete(r: PlainRequirement)
    requires
        well_written(r),
    ensures
        read_requirement(requirement_text(r)) == Some(r),
{
    let s = requirement_text(r);
    let e = extras_part(r.extras);
    let texts = specifier_texts(r.specifiers);
    let c = commas(texts);
    assert(s =~= r.name + (e + c));
    assert(s.subrange(0, s.len() as int) =~= s);
    // what follows the name is no character of a name
    assert(c.len() == 0 || is_operator_char(c[0])) by {
        if r.specifiers.len() > 0 {
            assert(canonical(r.specifiers[0].version));
            lemma_specifier_text(r.specifiers[0]);
            assert(texts[0] == specifier_text(r.specifiers[0]));
            lemma_commas_start(texts);
        }
    }
    let tail = e + c;
    assert(tail.len() == 0 || !is_name_char(tail[0])) by {
        if r.extras.len() > 0 {
            assert(tail[0] == '[');
        } else {
            assert(tail =~= c);
        }
    }
    lemma_read_name_complete(s, 0, r.name, tail);
    let at0 = r.name.len() as int;
    if r.extras.len() > 0 {
        assert(tail =~= seq!['['] + (commas(r.extras) + seq![']'] + c));
        lemma_split(s, at0, seq!['['], commas(r.extras) + seq![']'] + c);
        assert(s[at0 + 0] == seq!['['][0]);
        lemma_read_extra_list_complete(s, at0 + 1, r.extras, c);
        let at1 = at0 + 1 + commas(r.extras).len() + 1;
        if r.specifiers.len() > 0 {
            lemma_read_specifier_list_complete(s, at1, r.specifiers);
        } else {
            assert(r.specifiers =~= Seq::<SpecifierView>::empty());
            assert(s.subrange(at1, s.len() as int).len() == 0);
        }
    } else {
        assert(r.extras =~= Seq::<Seq<char>>::empty());
        assert(tail =~= c);
        if c.len() > 0 {
            assert(s[at0 + 0] == c[0]);
        }
        if r.specifiers.len() > 0 {
            lemma_read_specifier_list_complete(s, at0, r.specifiers);
        } else {
            assert(r.specifiers =~= Seq::<SpecifierView>::empty());
            assert(s.subrange(at0, s.len() as int).len() == 0);
        }
    }
}

impl Requirement {
    /// Reads a requirement from its normal form `name[extra,extra]spec,spec`:
    /// no blanks, no marker, the name and the extras in lower-case letters,
    /// digits and hyphens, every version in its normal form. `None` for
    /// every other text.
    pub fn parse(text: &str) -> (r: Option<Requirement>)
        ensures
            match r {
                Some(q) => q.marker is None && well_written(plain(q)) && requirement_text(plain(q))
                    == text@,
                None => forall|q: PlainRequirement|
                    well_written(q) ==> #[trigger] requirement_text(q) != text@,
            },
    {
        let chars = chars_of(text);
        let r = parse_requirement_chars(&chars);
        proof {
            lemma_read_requirement_sound(text@);
            if r is None {
                assert forall|q: PlainRequirement| well_written(q) implies #[trigger] requirement_text(
                    q,
                ) != text@ by {
                    if requirement_text(q) == text@ {
                        lemma_read_requirement_complete(q);
                    }
                }
            }
        }
        r
    }
}

/// The texts joined by commas, from the last text on.
pub proof fn lemma_commas_right(items: Seq<Seq<char>>)
    requires
        items.len() >= 2,
    ensures
        commas(items) == commas(items.drop_last()) + seq![','] + items.last(),
    decreases items.len(),
{
    let rest = items.skip(1);
    let front = items.drop_last();
    assert(commas(items) == items[0] + seq![','] + commas(rest));
    if items.len() == 2 {
        assert(rest.len() == 1 && rest[0] == items[1]);
        assert(commas(rest) == items[1]);
        assert(front.len() == 1 && front[0] == items[0]);
        assert(commas(front) == items[0]);
    } else {
        lemma_commas_right(rest);
        assert(front.skip(1) =~= rest.drop_last());
        assert(front[0] == items[0]);
        assert(rest.last() == items.last());
        assert(commas(front) == items[0] + seq![','] + commas(front.skip(1)));
        assert(commas(rest) == commas(rest.drop_last()) + seq![','] + items.last());
        assert(items[0] + seq![','] + (commas(rest.drop_last()) + seq![','] + items.last())
            =~= items[0] + seq![','] + commas(rest.drop_last()) + seq![','] + items.last());
    }
}

/// The extras of a line of a graph are the extras joined by commas.
pub proof fn lemma_extras_text(extras: Seq<Seq<char>>, n: int)
    requires
        0 <= n <= extras.len(),
    ensures
        extras_text(extras, n) == commas(extras.take(n)),
    decreases n,
{
    if n == 1 {
        assert(extras.take(1)[0] == extras[0]);
    } else if n > 1 {
        lemma_extras_text(extras, n - 1);
        lemma_commas_right(extras.take(n));
        assert(extras.take(n).drop_last() =~= extras.take(n - 1));
    }
}

/// The requirement that pins a node: its name, its extras, and `==` its version.
pub open spec fn pin_of(node: NodeView) -> PlainRequirement {
    PlainRequirement {
        name: node.name,
        extras: node.extras,
        specifiers: seq![SpecifierView { operator: Operator::Equal, version: node.version }],
    }
}

/// The display form goes back and forth: the line of a node, without its
/// line feed, is the normal form of the requirement that pins the node,
/// and it is read as that requirement.
pub proof fn lemma_line_reads_back(node: NodeView)
    requires
        well_written(pin_of(node)),
    ensures
        node_text(node) == requirement_text(pin_of(node)) + seq!['\n'],
        read_requirement(requirement_text(pin_of(node))) == Some(pin_of(node)),
{
    let pin = pin_of(node);
    lemma_read_requirement_complete(pin);
    lemma_extras_text(node.extras, node.extras.len() as int);
    assert(node.extras.take(node.extras.len() as int) =~= node.extras);
    let texts = specifier_texts(pin.specifiers);
    assert(texts[0] == specifier_text(pin.specifiers[0]));
    assert(commas(texts) == texts[0]);
    assert(specifier_text(pin.specifiers[0]) =~= seq!['=', '='] + version_text(node.version));
    assert(node_text(node) =~= requirement_text(pin) + seq!['\n']);
}

fn push_operator(out: &mut Vec<char>, operator: Operator)
    ensures
        final(out)@ == old(out)@ + operator_text(operator),
{
    match operator {
        Operator::Equal | Operator::EqualStar => {
            out.push('=');
            out.push('=');
        },
        Operator::ExactEqual => {
            out.push('=');
            out.push('=');
            out.push('=');
        },
        Operator::NotEqual | Operator::NotEqualStar => {
            out.push('!');
            out.push('=');
        },
        Operator::TildeEqual => {
            out.push('~');
            out.push('=');
        },
        Operator::LessThan => {
            out.push('<');
        },
        Operator::LessThanEqual => {
            out.push('<');
            out.push('=');
        },
        Operator::GreaterThan => {
            out.push('>');
        },
        Operator::GreaterThanEqual => {
            out.push('>');
            out.push('=');
        },
    }
    assert(out@ =~= old(out)@ + operator_text(operator));
}

/// Appends the normal form of a specifier to `out`.
pub fn push_specifier(out: &mut Vec<char>, specifier: &Specifier)
    ensures
        final(out)@ == old(out)@ + specifier_text(specifier@),
{
    push_operator(out, specifier.operator);
    push_version(out, &specifier.version);
    match specifier.operator {
        Operator::EqualStar | Operator::NotEqualStar => {
            out.push('.');
            out.push('*');
        },
        _ => {},
    }
    assert(out@ =~= old(out)@ + specifier_text(specifier@));
}

fn push_names(out: &mut Vec<char>, names: &Vec<String>)
    ensures
        final(out)@ == old(out)@ + commas(texts(names@)),
{
    let ghost all = texts(names@);
    let mut i: usize = 0;
    assert(all.take(0) =~= Seq::<Seq<char>>::empty());
    assert(out@ =~= old(out)@ + commas(all.take(0)));
    while i < names.len()
        invariant
            i <= names.len(),
            all == texts(names@),
            out@ == old(out)@ + commas(all.take(i as int)),
        decreases names.len() - i,
    {
        if i > 0 {
            out.push(',');
        }
        push_str(out, names[i].as_str());
        proof {
            let next = all.take(i + 1);
            assert(next.drop_last() =~= all.take(i as int));
            assert(next.last() == names@[i as int]@);
            if i > 0 {
                lemma_commas_right(next);
            }
            assert(out@ =~= old(out)@ + commas(next));
        }
        i = i + 1;
    }
    assert(all.take(names@.len() as int) =~= all);
}

fn push_specifiers(out: &mut Vec<char>, specifiers: &Vec<Specifier>)
    ensures
        final(out)@ == old(out)@ + commas(specifier_texts(specifiers_view(specifiers@))),
{
    let ghost all = specifier_texts(specifiers_view(specifiers@));
    let mut i: usize = 0;
    assert(all.take(0) =~= Seq::<Seq<char>>::empty());
    assert(out@ =~= old(out)@ + commas(all.take(0)));
    while i < specifiers.len()
        invariant
            i <= specifiers.len(),
            all == specifier_texts(specifiers_view(specifiers@)),
            out@ == old(out)@ + commas(all.take(i as int)),
        decreases specifiers.len() - i,
    {
        if i > 0 {
            out.push(',');
        }
        push_specifier(out, &specifiers[i]);
        proof {
            let next = all.take(i + 1);
            assert(next.drop_last() =~= all.take(i as int));
            assert(next.last() == specifier_text(specifiers@[i as int]@));
            if i > 0 {
                lemma_commas_right(next);
            }
            assert(out@ =~= old(out)@ + commas(next));
        }
        i = i + 1;
    }
    assert(all.take(specifiers@.len() as int) =~= all);
}

impl Requirement {
    /// The normal form of the requirement, its marker left out.
    pub fn to_text(&self) -> (text: String)
        ensures
            text@ == requirement_text(plain(*self)),
    {
        let mut out: Vec<char> = Vec::new();
        push_str(&mut out, self.name.as_str());
        if self.extras.len() > 0 {
            out.push('[');
            push_names(&mut out, &self.extras);
            out.push(']');
        }
        assert(out@ =~= self.name@ + extras_part(texts(self.extras@)));
        push_specifiers(&mut out, &self.specifiers);
        string_of(&out)
    }
}

impl Specifier {
    /// Reads a specifier from its normal form: an operator and a version
    /// in normal form, after `==` and `!=` also with `.*` at the end.
    /// `None` for every other text.
    pub fn parse(text: &str) -> (r: Option<Specifier>)
        ensures
            match r {
                Some(s) => canonical(s@.version) && specifier_text(s@) == text@,
                None => forall|s: SpecifierView|
                    canonical(s.version) ==> #[trigger] specifier_text(s) != text@,
            },
    {
        let chars = chars_of(text);
        let r = parse_specifier_chars(&chars);
        proof {
            lemma_read_specifier_sound(text@);
            if r is None {
                assert forall|s: SpecifierView| canonical(s.version) implies #[trigger] specifier_text(
                    s,
                ) != text@ by {
                    if specifier_text(s) == text@ {
                        lemma_read_specifier_complete(s);
                    }
                }
            }
        }
        r
    }

    /// The normal form of the specifier.
    pub fn to_text(&self) -> (text: String)
        ensures
            text@ == specifier_text(self@),
    {
        let mut out: Vec<char> = Vec::new();
        push_specifier(&mut out, self);
        string_of(&out)
    }
}

} // verus!
