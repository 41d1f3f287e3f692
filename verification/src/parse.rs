//! Versions read from their normal form.

use crate::number::{is_ascii_digit, is_digit, lemma_scan, scan, scan_number};
use crate::text::string_of;
use crate::version::{PreRelease, PreReleaseKind, Version, VersionView};
use vstd::prelude::*;

verus! {

/// Whether the character `c` stands at place `i` of `s`.
pub open spec fn at(s: Seq<char>, i: int, c: char) -> bool {
    0 <= i < s.len() && s[i] == c
}

/// Whether a digit stands at place `i` of `s`.
pub open spec fn digit_at(s: Seq<char>, i: int) -> bool {
    0 <= i < s.len() && is_digit(s[i])
}

/// Whether a character may stand in a local label: a lower-case letter, a
/// digit or a dot.
pub open spec fn is_local_char(c: char) -> bool {
    ('a' <= c && c <= 'z') || is_digit(c) || c == '.'
}

/// Whether every character of `label` may stand in a local label.
pub open spec fn local_ok(label: Seq<char>) -> bool {
    forall|i: int| 0 <= i < label.len() ==> is_local_char(#[trigger] label[i])
}

/// Whether a version is one that has a normal form: it has a release,
/// and its local label is made of lower-case letters, digits and dots.
pub open spec fn canonical(v: VersionView) -> bool {
    v.release.len() >= 1 && local_ok(v.local)
}

/// The release that starts at `from`: numerals joined by dots, as far as
/// a dot is followed by a digit; with the place where it ends.
pub open spec fn read_release(s: Seq<char>, from: int) -> Option<(Seq<u64>, int)>
    decreases s.len() - from,
{
    match scan(s, from) {
        None => None,
        Some((n, end)) => {
            proof {
                lemma_scan(s, from);
            }
            if at(s, end, '.') && digit_at(s, end + 1) {
                match read_release(s, end + 1) {
                    Some((rest, stop)) => Some((seq![n] + rest, stop)),
                    None => None,
                }
            } else {
                Some((seq![n], end))
            }
        },
    }
}

/// The epoch at the start of `s`, zero where there is none, with the place
/// where the release starts. An epoch of zero is never written.
pub open spec fn read_epoch(s: Seq<char>) -> Option<(u64, int)> {
    match scan(s, 0) {
        Some((n, end)) => if at(s, end, '!') {
            if n == 0 {
                None
            } else {
                Some((n, end + 1))
            }
        } else {
            Some((0, 0))
        },
        None => Some((0, 0)),
    }
}

/// The number that follows a marker which ends before `from`.
pub open spec fn read_marked(s: Seq<char>, kind: PreReleaseKind, from: int) -> Option<
    (Option<PreRelease>, int),
> {
    match scan(s, from) {
        Some((n, end)) => Some((Some(PreRelease { kind, number: n }), end)),
        None => None,
    }
}

/// The pre-release marker at `from`, if one stands there.
pub open spec fn read_pre(s: Seq<char>, from: int) -> Option<(Option<PreRelease>, int)> {
    if at(s, from, 'a') {
        read_marked(s, PreReleaseKind::Alpha, from + 1)
    } else if at(s, from, 'b') {
        read_marked(s, PreReleaseKind::Beta, from + 1)
    } else if at(s, from, 'r') && at(s, from + 1, 'c') {
        read_marked(s, PreReleaseKind::Rc, from + 2)
    } else {
        Some((None, from))
    }
}

/// Whether `.post` stands at `from`.
pub open spec fn post_at(s: Seq<char>, from: int) -> bool {
    at(s, from, '.') && at(s, from + 1, 'p') && at(s, from + 2, 'o') && at(s, from + 3, 's') && at(
        s,
        from + 4,
        't',
    )
}

/// Whether `.dev` stands at `from`.
pub open spec fn dev_at(s: Seq<char>, from: int) -> bool {
    at(s, from, '.') && at(s, from + 1, 'd') && at(s, from + 2, 'e') && at(s, from + 3, 'v')
}

/// The post-release marker at `from`, if one stands there.
pub open spec fn read_post(s: Seq<char>, from: int) -> Option<(Option<u64>, int)> {
    if post_at(s, from) {
        match scan(s, from + 5) {
            Some((n, end)) => Some((Some(n), end)),
            None => None,
        }
    } else {
        Some((None, from))
    }
}

/// The development marker at `from`, if one stands there.
pub open spec fn read_dev(s: Seq<char>, from: int) -> Option<(Option<u64>, int)> {
    if dev_at(s, from) {
        match scan(s, from + 4) {
            Some((n, end)) => Some((Some(n), end)),
            None => None,
        }
    } else {
        Some((None, from))
    }
}

/// The local label from `from` to the end: nothing, or `+` and at least
/// one character that may stand in a label.
pub open spec fn read_local(s: Seq<char>, from: int) -> Option<Seq<char>> {
    if from == s.len() {
        Some(Seq::empty())
    } else if at(s, from, '+') && from + 1 < s.len() && local_ok(s.subrange(from + 1, s.len() as int)) {
        Some(s.subrange(from + 1, s.len() as int))
    } else {
        None
    }
}

/// The version whose normal form `s` is.
#[verifier::opaque]
pub open spec fn read_version(s: Seq<char>) -> Option<VersionView> {
    match read_epoch(s) {
        None => None,
        Some((epoch, at0)) => match read_release(s, at0) {
            None => None,
            Some((release, at1)) => match read_pre(s, at1) {
                None => None,
                Some((pre, at2)) => match read_post(s, at2) {
                    None => None,
                    Some((post, at3)) => match read_dev(s, at3) {
                        None => None,
                        Some((dev, at4)) => match read_local(s, at4) {
                            None => None,
                            Some(local) => Some(
                                VersionView { epoch, release, pre, post, dev, local },
                            ),
                        },
                    },
                },
            },
        },
    }
}

/// What was read of a release lies within the text.
pub proof fn lemma_read_release_bounds(s: Seq<char>, from: int)
    ensures
        read_release(s, from) matches Some((r, stop)) ==> 0 <= from < stop <= s.len() && r.len() >= 1,
    decreases s.len() - from,
{
    lemma_scan(s, from);
    match scan(s, from) {
        None => {},
        Some((n, end)) => {
            if at(s, end, '.') && digit_at(s, end + 1) {
                lemma_read_release_bounds(s, end + 1);
            }
        },
    }
}

fn stands(chars: &Vec<char>, i: usize, c: char) -> (b: bool)
    ensures
        b == at(chars@, i as int, c),
{
    i < chars.len() && chars[i] == c
}

fn digit_stands(chars: &Vec<char>, i: usize) -> (b: bool)
    ensures
        b == digit_at(chars@, i as int),
{
    i < chars.len() && is_ascii_digit(chars[i])
}

/// A release that was read, with the place as a mathematical integer.
pub open spec fn release_read(r: Option<(Vec<u64>, usize)>) -> Option<(Seq<u64>, int)> {
    match r {
        Some((release, stop)) => Some((release@, stop as int)),
        None => None,
    }
}

fn parse_release(chars: &Vec<char>, from: usize) -> (r: Option<(Vec<u64>, usize)>)
    requires
        from <= chars.len(),
    ensures
        release_read(r) == read_release(chars@, from as int),
        r matches Some((_, stop)) ==> stop <= chars.len(),
{
    let ghost s = chars@;
    let mut release: Vec<u64> = Vec::new();
    let mut place: usize = from;
    loop
        invariant
            from <= place <= chars.len(),
            s == chars@,
            read_release(s, from as int) == (match read_release(s, place as int) {
                Some((rest, stop)) => Some((release@ + rest, stop)),
                None => None,
            }),
        decreases chars.len() - place,
    {
        proof {
            lemma_scan(s, place as int);
        }
        match scan_number(chars, place) {
            None => {
                return None;
            },
            Some((n, end)) => {
                let ghost before = release@;
                release.push(n);
                if stands(chars, end, '.') && end < usize::MAX && digit_stands(chars, end + 1) {
                    proof {
                        match read_release(s, end + 1) {
                            Some((rest, stop)) => {
                                assert(before + (seq![n] + rest) =~= release@ + rest);
                            },
                            None => {},
                        }
                    }
                    place = end + 1;
                } else {
                    proof {
                        assert(before + seq![n] =~= release@);
                    }
                    return Some((release, end));
                }
            },
        }
    }
}

/// A marker that was read, with the place as a mathematical integer.
pub open spec fn pre_read(r: Option<(Option<PreRelease>, usize)>) -> Option<(Option<PreRelease>, int)> {
    match r {
        Some((pre, stop)) => Some((pre, stop as int)),
        None => None,
    }
}

/// A number that was read, with the place as a mathematical integer.
pub open spec fn number_read(r: Option<(Option<u64>, usize)>) -> Option<(Option<u64>, int)> {
    match r {
        Some((n, stop)) => Some((n, stop as int)),
        None => None,
    }
}

fn parse_marked(chars: &Vec<char>, kind: PreReleaseKind, from: usize) -> (r: Option<
    (Option<PreRelease>, usize),
>)
    requires
        from <= chars.len(),
    ensures
        pre_read(r) == read_marked(chars@, kind, from as int),
        r matches Some((_, stop)) ==> stop <= chars.len(),
{
    match scan_number(chars, from) {
        Some((n, end)) => Some((Some(PreRelease { kind, number: n }), end)),
        None => None,
    }
}

fn parse_pre(chars: &Vec<char>, from: usize) -> (r: Option<(Option<PreRelease>, usize)>)
    requires
        from <= chars.len(),
    ensures
        pre_read(r) == read_pre(chars@, from as int),
        r matches Some((_, stop)) ==> stop <= chars.len(),
{
    if stands(chars, from, 'a') {
        parse_marked(chars, PreReleaseKind::Alpha, from + 1)
    } else if stands(chars, from, 'b') {
        parse_marked(chars, PreReleaseKind::Beta, from + 1)
    } else if stands(chars, from, 'r') && stands(chars, from + 1, 'c') {
        parse_marked(chars, PreReleaseKind::Rc, from + 2)
    } else {
        Some((None, from))
    }
}

fn parse_post(chars: &Vec<char>, from: usize) -> (r: Option<(Option<u64>, usize)>)
    requires
        from <= chars.len(),
    ensures
        number_read(r) == read_post(chars@, from as int),
        r matches Some((_, stop)) ==> stop <= chars.len(),
{
    if chars.len() - from >= 5 && stands(chars, from, '.') && stands(chars, from + 1, 'p') && stands(
        chars,
        from + 2,
        'o',
    ) && stands(chars, from + 3, 's') && stands(chars, from + 4, 't') {
        match scan_number(chars, from + 5) {
            Some((n, end)) => Some((Some(n), end)),
            None => None,
        }
    } else {
        Some((None, from))
    }
}

fn parse_dev(chars: &Vec<char>, from: usize) -> (r: Option<(Option<u64>, usize)>)
    requires
        from <= chars.len(),
    ensures
        number_read(r) == read_dev(chars@, from as int),
        r matches Some((_, stop)) ==> stop <= chars.len(),
{
    if chars.len() - from >= 4 && stands(chars, from, '.') && stands(chars, from + 1, 'd') && stands(
        chars,
        from + 2,
        'e',
    ) && stands(chars, from + 3, 'v') {
        match scan_number(chars, from + 4) {
            Some((n, end)) => Some((Some(n), end)),
            None => None,
        }
    } else {
        Some((None, from))
    }
}

/// The text of an optional label.
pub open spec fn label_read(r: Option<Vec<char>>) -> Option<Seq<char>> {
    match r {
        Some(label) => Some(label@),
        None => None,
    }
}

fn parse_local(chars: &Vec<char>, from: usize) -> (r: Option<Vec<char>>)
    requires
        from <= chars.len(),
    ensures
        label_read(r) == read_local(chars@, from as int),
{
    let ghost s = chars@;
    let mut label: Vec<char> = Vec::new();
    if from == chars.len() {
        assert(label@ =~= Seq::<char>::empty());
        return Some(label);
    }
    if !stands(chars, from, '+') || chars.len() - from < 2 {
        return None;
    }
    let mut i: usize = from + 1;
    assert(label@ =~= s.subrange(from + 1, i as int));
    while i < chars.len()
        invariant
            from + 1 <= i <= chars.len(),
            s == chars@,
            label@ == s.subrange(from + 1, i as int),
            local_ok(label@),
        decreases chars.len() - i,
    {
        let c = chars[i];
        if !(('a' <= c && c <= 'z') || is_ascii_digit(c) || c == '.') {
            assert(s.subrange(from + 1, s.len() as int)[i - from - 1] == c);
            return None;
        }
        let ghost before = label@;
        label.push(c);
        assert(label@ =~= s.subrange(from + 1, i + 1));
        assert forall|k: int| 0 <= k < label@.len() implies is_local_char(#[trigger] label@[k]) by {
            if k < before.len() {
                assert(label@[k] == before[k]);
            }
        }
        i = i + 1;
    }
    Some(label)
}

/// The value of an optional version.
pub open spec fn version_read(r: Option<Version>) -> Option<VersionView> {
    match r {
        Some(v) => Some(v@),
        None => None,
    }
}

/// Reads a version from the characters of its normal form.
pub(crate) fn parse_version_chars(chars: &Vec<char>) -> (r: Option<Version>)
    ensures
        version_read(r) == read_version(chars@),
{
    proof {
        reveal(read_version);
    }
    let (epoch, at0) = match scan_number(chars, 0) {
        Some((n, end)) => {
            if stands(chars, end, '!') {
                if n == 0 {
                    return None;
                }
                (n, end + 1)
            } else {
                (0, 0)
            }
        },
        None => (0, 0),
    };
    let (release, at1) = match parse_release(chars, at0) {
        Some(x) => x,
        None => {
            return None;
        },
    };
    let (pre, at2) = match parse_pre(chars, at1) {
        Some(x) => x,
        None => {
            return None;
        },
    };
    let (post, at3) = match parse_post(chars, at2) {
        Some(x) => x,
        None => {
            return None;
        },
    };
    let (dev, at4) = match parse_dev(chars, at3) {
        Some(x) => x,
        None => {
            return None;
        },
    };
    match parse_local(chars, at4) {
        Some(label) => Some(Version { epoch, release, pre, post, dev, local: string_of(&label) }),
        None => None,
    }
}

} // verus!
