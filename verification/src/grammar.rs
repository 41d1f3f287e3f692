//! The reader of versions and the normal form of versions fit together:
//! what is read from a text has that text as its normal form, and the
//! normal form of a version is read as that version.

use crate::number::{is_digit, lemma_decimal_value, lemma_scan, lemma_scan_decimal, scan};
use crate::parse::{
    at, canonical, dev_at, digit_at, lemma_read_release_bounds, local_ok, post_at, read_dev,
    read_epoch, read_local, read_marked, read_post, read_pre, read_release, read_version,
};
use crate::parse::parse_version_chars;
use crate::text::{chars_of, decimal, string_of};
use crate::version::{push_version, Version};
use crate::version::{
    dev_text, epoch_text, kind_text, local_text, post_text, pre_text, release_text,
    version_text, PreRelease, PreReleaseKind, VersionView,
};
use vstd::prelude::*;

verus! {

/// The text of a release, from its first segment on.
pub proof fn lemma_release_left(r: Seq<u64>)
    requires
        r.len() >= 1,
    ensures
        release_text(r) == (if r.len() == 1 {
            decimal(r[0] as nat)
        } else {
            decimal(r[0] as nat) + seq!['.'] + release_text(r.skip(1))
        }),
    decreases r.len(),
{
    if r.len() == 2 {
        assert(r.drop_last() =~= seq![r[0]]);
        assert(r.skip(1) =~= seq![r[1]]);
        assert(release_text(r.drop_last()) == decimal(r[0] as nat));
        assert(release_text(r.skip(1)) == decimal(r[1] as nat));
    } else if r.len() > 2 {
        let front = r.drop_last();
        lemma_release_left(front);
        let tail = r.skip(1);
        assert(tail.drop_last() =~= front.skip(1));
        assert(tail.last() == r.last());
        assert(front[0] == r[0]);
        assert(release_text(r) == release_text(front) + seq!['.'] + decimal(r.last() as nat));
        assert(release_text(tail) == release_text(front.skip(1)) + seq!['.'] + decimal(
            r.last() as nat,
        ));
        assert(release_text(r) =~= decimal(r[0] as nat) + seq!['.'] + release_text(tail));
    }
}

/// What is read as a release is the text of that release.
pub proof fn lemma_read_release_sound(s: Seq<char>, from: int)
    ensures
        read_release(s, from) matches Some((r, stop)) ==> 0 <= from < stop <= s.len() && r.len() >= 1
            && s.subrange(from, stop) == release_text(r),
    decreases s.len() - from,
{
    lemma_scan(s, from);
    lemma_read_release_bounds(s, from);
    match scan(s, from) {
        None => {},
        Some((n, end)) => {
            if at(s, end, '.') && digit_at(s, end + 1) {
                lemma_read_release_sound(s, end + 1);
                lemma_read_release_bounds(s, end + 1);
                match read_release(s, end + 1) {
                    Some((rest, stop)) => {
                        let r = seq![n] + rest;
                        lemma_release_left(r);
                        assert(r.skip(1) =~= rest);
                        assert(s.subrange(from, stop) =~= s.subrange(from, end) + seq!['.']
                            + s.subrange(end + 1, stop));
                    },
                    None => {},
                }
            } else {
                assert(release_text(seq![n]) == decimal(n as nat));
            }
        },
    }
}

/// The text of an optional pre-release marker.
pub open spec fn pre_part(pre: Option<PreRelease>) -> Seq<char> {
    match pre {
        Some(p) => kind_text(p.kind) + decimal(p.number as nat),
        None => Seq::empty(),
    }
}

/// The text of an optional post-release marker.
pub open spec fn post_part(post: Option<u64>) -> Seq<char> {
    match post {
        Some(n) => seq!['.', 'p', 'o', 's', 't'] + decimal(n as nat),
        None => Seq::empty(),
    }
}

/// The text of an optional development marker.
pub open spec fn dev_part(dev: Option<u64>) -> Seq<char> {
    match dev {
        Some(n) => seq!['.', 'd', 'e', 'v'] + decimal(n as nat),
        None => Seq::empty(),
    }
}

/// The text of an epoch.
pub open spec fn epoch_part(epoch: u64) -> Seq<char> {
    if epoch != 0 {
        decimal(epoch as nat) + seq!['!']
    } else {
        Seq::empty()
    }
}

/// The text of a local label.
pub open spec fn local_part(local: Seq<char>) -> Seq<char> {
    if local.len() > 0 {
        seq!['+'] + local
    } else {
        Seq::empty()
    }
}

proof fn lemma_read_epoch_sound(s: Seq<char>)
    ensures
        read_epoch(s) matches Some((epoch, at0)) ==> 0 <= at0 <= s.len() && s.subrange(0, at0)
            == epoch_part(epoch),
{
    lemma_scan(s, 0);
    match read_epoch(s) {
        Some((epoch, at0)) => {
            if epoch != 0 {
                let end = at0 - 1;
                assert(s.subrange(0, at0) =~= s.subrange(0, end) + seq!['!']);
            } else {
                assert(s.subrange(0, 0) =~= Seq::<char>::empty());
            }
        },
        None => {},
    }
}

proof fn lemma_read_pre_sound(s: Seq<char>, from: int)
    requires
        0 <= from <= s.len(),
    ensures
        read_pre(s, from) matches Some((pre, stop)) ==> from <= stop <= s.len() && s.subrange(
            from,
            stop,
        ) == pre_part(pre),
{
    match read_pre(s, from) {
        Some((pre, stop)) => {
            if at(s, from, 'a') || at(s, from, 'b') {
                lemma_scan(s, from + 1);
                assert(s.subrange(from, stop) =~= seq![s[from]] + s.subrange(from + 1, stop));
                assert(kind_text(PreReleaseKind::Alpha) =~= seq!['a']);
                assert(kind_text(PreReleaseKind::Beta) =~= seq!['b']);
            } else if at(s, from, 'r') && at(s, from + 1, 'c') {
                lemma_scan(s, from + 2);
                assert(s.subrange(from, stop) =~= seq!['r', 'c'] + s.subrange(from + 2, stop));
            } else {
                assert(s.subrange(from, from) =~= Seq::<char>::empty());
            }
        },
        None => {},
    }
}

proof fn lemma_read_post_sound(s: Seq<char>, from: int)
    requires
        0 <= from <= s.len(),
    ensures
        read_post(s, from) matches Some((post, stop)) ==> from <= stop <= s.len() && s.subrange(
            from,
            stop,
        ) == post_part(post),
{
    match read_post(s, from) {
        Some((post, stop)) => {
            if post_at(s, from) {
                lemma_scan(s, from + 5);
                assert(s.subrange(from, stop) =~= seq!['.', 'p', 'o', 's', 't'] + s.subrange(
                    from + 5,
                    stop,
                ));
            } else {
                assert(s.subrange(from, from) =~= Seq::<char>::empty());
            }
        },
        None => {},
    }
}

proof fn lemma_read_dev_sound(s: Seq<char>, from: int)
    requires
        0 <= from <= s.len(),
    ensures
        read_dev(s, from) matches Some((dev, stop)) ==> from <= stop <= s.len() && s.subrange(
            from,
            stop,
        ) == dev_part(dev),
{
    match read_dev(s, from) {
        Some((dev, stop)) => {
            if dev_at(s, from) {
                lemma_scan(s, from + 4);
                assert(s.subrange(from, stop) =~= seq!['.', 'd', 'e', 'v'] + s.subrange(
                    from + 4,
                    stop,
                ));
            } else {
                assert(s.subrange(from, from) =~= Seq::<char>::empty());
            }
        },
        None => {},
    }
}

proof fn lemma_read_local_sound(s: Seq<char>, from: int)
    requires
        0 <= from <= s.len(),
    ensures
        read_local(s, from) matches Some(local) ==> local_ok(local) && s.subrange(
            from,
            s.len() as int,
        ) == local_part(local),
{
    match read_local(s, from) {
        Some(local) => {
            if from == s.len() {
                assert(s.subrange(from, s.len() as int) =~= Seq::<char>::empty());
            } else {
                assert(s.subrange(from, s.len() as int) =~= seq!['+'] + local);
            }
        },
        None => {},
    }
}

/// The normal form of a version, part by part.
pub proof fn lemma_version_text_parts(v: VersionView)
    ensures
        version_text(v) == epoch_part(v.epoch) + release_text(v.release) + pre_part(v.pre)
            + post_part(v.post) + dev_part(v.dev) + local_part(v.local),
{
    assert(epoch_text(v) == epoch_part(v.epoch));
    assert(pre_text(v) == pre_part(v.pre));
    assert(post_text(v) == post_part(v.post));
    assert(dev_text(v) == dev_part(v.dev));
    assert(local_text(v) == local_part(v.local));
}

/// What is read from a text is a version whose normal form is the text.
pub proof fn lemma_read_version_sound(s: Seq<char>)
    ensures
        read_version(s) matches Some(v) ==> canonical(v) && version_text(v) == s,
{
    reveal(read_version);
    match read_version(s) {
        Some(v) => {
            lemma_read_epoch_sound(s);
            let (epoch, at0) = read_epoch(s)->0;
            lemma_read_release_sound(s, at0);
            let (release, at1) = read_release(s, at0)->0;
            lemma_read_pre_sound(s, at1);
            let (pre, at2) = read_pre(s, at1)->0;
            lemma_read_post_sound(s, at2);
            let (post, at3) = read_post(s, at2)->0;
            lemma_read_dev_sound(s, at3);
            let (dev, at4) = read_dev(s, at3)->0;
            lemma_read_local_sound(s, at4);
            lemma_version_text_parts(v);
            assert(s =~= s.subrange(0, at0) + s.subrange(at0, at1) + s.subrange(at1, at2)
                + s.subrange(at2, at3) + s.subrange(at3, at4) + s.subrange(at4, s.len() as int));
        },
        None => {},
    }
}

/// Whether a numeral may end before `t`: no digit follows.
pub open spec fn ends_numeral(t: Seq<char>) -> bool {
    t.len() == 0 || !is_digit(t[0])
}

/// Whether `t` starts with what can follow the release of a version or
/// one of its markers: nothing, a letter of a marker, a dot and a letter,
/// or the `+` of a local label.
pub open spec fn ends_release(t: Seq<char>) -> bool {
    ends_numeral(t) && !(t.len() >= 2 && t[0] == '.' && is_digit(t[1]))
}

/// The parts of a text that is known from some place on.
pub proof fn lemma_split(s: Seq<char>, from: int, x: Seq<char>, y: Seq<char>)
    requires
        0 <= from <= s.len(),
        s.subrange(from, s.len() as int) == x + y,
    ensures
        from + x.len() <= s.len(),
        s.subrange(from, from + x.len()) == x,
        s.subrange(from + x.len(), s.len() as int) == y,
        forall|i: int| 0 <= i < x.len() ==> s[from + i] == x[i],
        forall|j: int| 0 <= j < y.len() ==> s[from + x.len() + j] == y[j],
{
    let whole = s.subrange(from, s.len() as int);
    assert(whole.len() == x.len() + y.len());
    assert forall|i: int| 0 <= i < x.len() implies s[from + i] == x[i] by {
        assert(whole[i] == (x + y)[i]);
    }
    assert forall|j: int| 0 <= j < y.len() implies s[from + x.len() + j] == y[j] by {
        assert(whole[x.len() + j] == (x + y)[x.len() + j]);
    }
    assert(s.subrange(from, from + x.len()) =~= x);
    assert(s.subrange(from + x.len(), s.len() as int) =~= y);
}

proof fn lemma_scan_in(s: Seq<char>, from: int, n: u64, tail: Seq<char>)
    requires
        0 <= from <= s.len(),
        s.subrange(from, s.len() as int) == decimal(n as nat) + tail,
        ends_numeral(tail),
    ensures
        scan(s, from) == Some((n, from + decimal(n as nat).len())),
        s.subrange(from + decimal(n as nat).len(), s.len() as int) == tail,
{
    lemma_split(s, from, decimal(n as nat), tail);
    if tail.len() > 0 {
        assert(s[from + decimal(n as nat).len() + 0] == tail[0]);
    }
    lemma_scan_decimal(s, from, n);
}

/// The text of a release, wherever nothing follows that would continue
/// it, is read as that release.
pub proof fn lemma_read_release_complete(s: Seq<char>, from: int, r: Seq<u64>, tail: Seq<char>)
    requires
        0 <= from <= s.len(),
        r.len() >= 1,
        s.subrange(from, s.len() as int) == release_text(r) + tail,
        ends_release(tail),
    ensures
        read_release(s, from) == Some((r, from + release_text(r).len())),
    decreases r.len(),
{
    lemma_release_left(r);
    let first = decimal(r[0] as nat);
    lemma_decimal_value(r[0] as nat);
    if r.len() == 1 {
        lemma_scan_in(s, from, r[0], tail);
        let end = from + first.len();
        lemma_split(s, from, first, tail);
        if tail.len() >= 2 {
            assert(s[end + 0] == tail[0]);
            assert(s[end + 1] == tail[1]);
        } else if tail.len() == 1 {
            assert(s[end + 0] == tail[0]);
        }
        assert(seq![r[0]] =~= r);
    } else {
        let rest = r.skip(1);
        let more = seq!['.'] + release_text(rest) + tail;
        assert(release_text(r) + tail =~= first + more);
        assert(more[0] == '.');
        lemma_scan_in(s, from, r[0], more);
        let end = from + first.len();
        lemma_split(s, from, first, more);
        lemma_release_left(rest);
        lemma_decimal_value(rest[0] as nat);
        let next = release_text(rest);
        assert(next.len() > 0 && is_digit(next[0])) by {
            if rest.len() == 1 {
                assert(next[0] == decimal(rest[0] as nat)[0]);
            } else {
                assert(next[0] == decimal(rest[0] as nat)[0]);
            }
        }
        assert(s[end + 0] == more[0]);
        assert(s[end + 1] == more[1]);
        assert(more[1] == next[0]);
        assert(more =~= seq!['.'] + (next + tail));
        lemma_split(s, end, seq!['.'], next + tail);
        lemma_read_release_complete(s, end + 1, rest, tail);
        assert(seq![r[0]] + rest =~= r);
        assert(release_text(r).len() == first.len() + 1 + next.len());
    }
}

proof fn lemma_read_pre_complete(s: Seq<char>, from: int, pre: Option<PreRelease>, tail: Seq<char>)
    requires
        0 <= from <= s.len(),
        s.subrange(from, s.len() as int) == pre_part(pre) + tail,
        ends_numeral(tail),
        pre is None ==> tail.len() == 0 || tail[0] == '.' || tail[0] == '+',
    ensures
        read_pre(s, from) == Some((pre, from + pre_part(pre).len())),
        s.subrange(from + pre_part(pre).len(), s.len() as int) == tail,
{
    lemma_split(s, from, pre_part(pre), tail);
    match pre {
        None => {
            if tail.len() > 0 {
                assert(s[from + 0 + 0] == tail[0]);
            }
        },
        Some(p) => {
            let word = kind_text(p.kind);
            let number = decimal(p.number as nat);
            assert(pre_part(pre) + tail =~= word + (number + tail));
            lemma_split(s, from, word, number + tail);
            lemma_scan_in(s, from + word.len(), p.number, tail);
            assert(s[from + 0] == word[0]);
            if p.kind == PreReleaseKind::Rc {
                assert(s[from + 1] == word[1]);
            }
            assert(read_marked(s, p.kind, from + word.len()) == Some(
                (pre, from + word.len() + number.len()),
            ));
        },
    }
}

proof fn lemma_read_post_complete(s: Seq<char>, from: int, post: Option<u64>, tail: Seq<char>)
    requires
        0 <= from <= s.len(),
        s.subrange(from, s.len() as int) == post_part(post) + tail,
        ends_numeral(tail),
        post is None ==> tail.len() == 0 || tail[0] == '+' || (tail.len() >= 2 && tail[0] == '.'
            && tail[1] == 'd'),
    ensures
        read_post(s, from) == Some((post, from + post_part(post).len())),
        s.subrange(from + post_part(post).len(), s.len() as int) == tail,
{
    lemma_split(s, from, post_part(post), tail);
    match post {
        None => {
            if tail.len() >= 2 {
                assert(s[from + 0 + 0] == tail[0]);
                assert(s[from + 0 + 1] == tail[1]);
            } else if tail.len() == 1 {
                assert(s[from + 0 + 0] == tail[0]);
            }
        },
        Some(n) => {
            let word = seq!['.', 'p', 'o', 's', 't'];
            let number = decimal(n as nat);
            assert(post_part(post) + tail =~= word + (number + tail));
            lemma_split(s, from, word, number + tail);
            lemma_scan_in(s, from + 5, n, tail);
            assert(s[from + 0] == word[0]);
            assert(s[from + 1] == word[1]);
            assert(s[from + 2] == word[2]);
            assert(s[from + 3] == word[3]);
            assert(s[from + 4] == word[4]);
        },
    }
}

proof fn lemma_read_dev_complete(s: Seq<char>, from: int, dev: Option<u64>, tail: Seq<char>)
    requires
        0 <= from <= s.len(),
        s.subrange(from, s.len() as int) == dev_part(dev) + tail,
        tail.len() == 0 || tail[0] == '+',
    ensures
        read_dev(s, from) == Some((dev, from + dev_part(dev).len())),
        s.subrange(from + dev_part(dev).len(), s.len() as int) == tail,
{
    lemma_split(s, from, dev_part(dev), tail);
    match dev {
        None => {
            if tail.len() > 0 {
                assert(s[from + 0 + 0] == tail[0]);
            }
        },
        Some(n) => {
            let word = seq!['.', 'd', 'e', 'v'];
            let number = decimal(n as nat);
            assert(dev_part(dev) + tail =~= word + (number + tail));
            lemma_split(s, from, word, number + tail);
            lemma_scan_in(s, from + 4, n, tail);
            assert(s[from + 0] == word[0]);
            assert(s[from + 1] == word[1]);
            assert(s[from + 2] == word[2]);
            assert(s[from + 3] == word[3]);
        },
    }
}

proof fn lemma_read_local_complete(s: Seq<char>, from: int, local: Seq<char>)
    requires
        0 <= from <= s.len(),
        s.subrange(from, s.len() as int) == local_part(local),
        local_ok(local),
    ensures
        read_local(s, from) == Some(local),
{
    if local.len() > 0 {
        lemma_split(s, from, seq!['+'], local);
        assert(s[from + 0] == seq!['+'][0]);
        assert(s.subrange(from + 1, s.len() as int) == local);
    } else {
        assert(s.subrange(from, s.len() as int).len() == 0);
    }
}

/// What follows the development marker in the normal form.
pub open spec fn after_dev(v: VersionView) -> Seq<char> {
    local_part(v.local)
}

/// What follows the post-release marker in the normal form.
pub open spec fn after_post(v: VersionView) -> Seq<char> {
    dev_part(v.dev) + after_dev(v)
}

/// What follows the pre-release marker in the normal form.
pub open spec fn after_pre(v: VersionView) -> Seq<char> {
    post_part(v.post) + after_post(v)
}

/// What follows the release in the normal form.
pub open spec fn after_release(v: VersionView) -> Seq<char> {
    pre_part(v.pre) + after_pre(v)
}

/// What follows the epoch in the normal form.
pub open spec fn after_epoch(v: VersionView) -> Seq<char> {
    release_text(v.release) + after_release(v)
}

proof fn lemma_after_post(v: VersionView)
    ensures
        after_post(v).len() == 0 || after_post(v)[0] == '+' || (after_post(v).len() >= 2
            && after_post(v)[0] == '.' && after_post(v)[1] == 'd'),
        after_dev(v).len() == 0 || after_dev(v)[0] == '+',
{
    let l = after_dev(v);
    let t = after_post(v);
    match v.dev {
        Some(n) => {
            lemma_decimal_value(n as nat);
            assert(t[0] == '.' && t[1] == 'd');
        },
        None => {
            assert(t =~= l);
        },
    }
}

proof fn lemma_after_pre(v: VersionView)
    ensures
        after_pre(v).len() == 0 || after_pre(v)[0] == '.' || after_pre(v)[0] == '+',
        after_pre(v).len() >= 2 && after_pre(v)[0] == '.' ==> !is_digit(after_pre(v)[1]),
{
    lemma_after_post(v);
    let t = after_pre(v);
    match v.post {
        Some(n) => {
            lemma_decimal_value(n as nat);
            assert(t[0] == '.' && t[1] == 'p');
        },
        None => {
            assert(t =~= after_post(v));
        },
    }
}

proof fn lemma_after_release(v: VersionView)
    ensures
        ends_release(after_release(v)),
        after_release(v).len() > 0 ==> after_release(v)[0] != '!',
{
    lemma_after_pre(v);
    let t = after_release(v);
    match v.pre {
        Some(p) => {
            lemma_decimal_value(p.number as nat);
            assert(t[0] == kind_text(p.kind)[0]);
        },
        None => {
            assert(t =~= after_pre(v));
        },
    }
}

proof fn lemma_read_epoch_complete(v: VersionView)
    requires
        canonical(v),
    ensures
        read_epoch(version_text(v)) == Some((v.epoch, epoch_part(v.epoch).len() as int)),
        version_text(v).subrange(
            epoch_part(v.epoch).len() as int,
            version_text(v).len() as int,
        ) == after_epoch(v),
{
    let s = version_text(v);
    lemma_version_text_parts(v);
    let e = epoch_part(v.epoch);
    let t0 = after_epoch(v);
    assert(s =~= e + t0);
    assert(s.subrange(0, s.len() as int) =~= s);
    lemma_release_left(v.release);
    lemma_decimal_value(v.release[0] as nat);
    lemma_after_release(v);
    let first = decimal(v.release[0] as nat);
    if v.epoch != 0 {
        let number = decimal(v.epoch as nat);
        let rest = seq!['!'] + t0;
        assert(s =~= number + rest);
        assert(rest[0] == '!');
        lemma_scan_in(s, 0, v.epoch, rest);
        lemma_split(s, 0, number, rest);
        assert(s[0int + number.len() + 0] == rest[0]);
        lemma_split(s, number.len() as int, seq!['!'], t0);
        assert(e.len() == number.len() + 1);
    } else {
        assert(e =~= Seq::<char>::empty());
        assert(s =~= t0);
        let t1 = after_release(v);
        let more = if v.release.len() == 1 {
            t1
        } else {
            seq!['.'] + release_text(v.release.skip(1)) + t1
        };
        assert(s =~= first + more);
        if v.release.len() > 1 {
            assert(more[0] == '.');
        }
        lemma_scan_in(s, 0, v.release[0], more);
        lemma_split(s, 0, first, more);
        if more.len() > 0 {
            assert(s[0int + first.len() + 0] == more[0]);
        }
    }
}

/// The normal form of a version that has one is read as that version.
pub proof fn lemma_read_version_complete(v: VersionView)
    requires
        canonical(v),
    ensures
        read_version(version_text(v)) == Some(v),
{
    reveal(read_version);
    let s = version_text(v);
    lemma_read_epoch_complete(v);
    lemma_after_release(v);
    lemma_after_pre(v);
    lemma_after_post(v);
    let at0 = epoch_part(v.epoch).len() as int;
    lemma_read_release_complete(s, at0, v.release, after_release(v));
    let at1 = at0 + release_text(v.release).len();
    lemma_split(s, at0, release_text(v.release), after_release(v));
    lemma_read_pre_complete(s, at1, v.pre, after_pre(v));
    let at2 = at1 + pre_part(v.pre).len();
    lemma_read_post_complete(s, at2, v.post, after_post(v));
    let at3 = at2 + post_part(v.post).len();
    lemma_read_dev_complete(s, at3, v.dev, after_dev(v));
    let at4 = at3 + dev_part(v.dev).len();
    lemma_read_local_complete(s, at4, v.local);
}

/// A text is the normal form of at most one version.
pub proof fn lemma_normal_form_is_unique(v: VersionView, w: VersionView)
    requires
        canonical(v),
        canonical(w),
        version_text(v) == version_text(w),
    ensures
        v == w,
{
    lemma_read_version_complete(v);
    lemma_read_version_complete(w);
}

impl Version {
    /// Reads a version from its normal form, such as `1!2.0rc1.post2.dev3+local`:
    /// numbers without leading zeros, the markers `a`, `b`, `rc`, `.post` and
    /// `.dev` in this order, and a local label of lower-case letters, digits
    /// and dots. `None` for every other text.
    pub fn parse(text: &str) -> (r: Option<Version>)
        ensures
            match r {
                Some(v) => canonical(v@) && version_text(v@) == text@,
                None => forall|v: VersionView| canonical(v) ==> #[trigger] version_text(v) != text@,
            },
    {
        let chars = chars_of(text);
        let r = parse_version_chars(&chars);
        proof {
            lemma_read_version_sound(text@);
            if r is None {
                assert forall|v: VersionView| canonical(v) implies #[trigger] version_text(v)
                    != text@ by {
                    if version_text(v) == text@ {
                        lemma_read_version_complete(v);
                    }
                }
            }
        }
        r
    }

    /// The normal form of the version.
    pub fn to_text(&self) -> (text: String)
        ensures
            text@ == version_text(self@),
    {
        let mut out: Vec<char> = Vec::new();
        push_version(&mut out, self);
        string_of(&out)
    }
}

} // verus!
