//! Entry names, the hidden-file convention, selection strings and the
//! derived archive file name.
//!
//! Names and paths are byte strings, as the operating system hands them
//! out: a name is a `Vec<u8>`, a root-relative path is a list of name
//! components.

use vstd::prelude::*;

verus! {

/// The conventional hidden-file marker: a leading `.` in the name.
pub open spec fn spec_is_hidden(name: Seq<u8>) -> bool {
    name.len() > 0 && name[0] == 46u8
}

/// A name is hidden when it starts with the hidden-file marker.
/// Hidden entries are pruned from listings and archives, recursively.
pub fn is_hidden_name(name: &Vec<u8>) -> (r: bool)
    ensures
        r == spec_is_hidden(name@),
{
    name.len() > 0 && name[0] == 46u8
}

/// Splitting a selection string at `/`, carried out from position `i`
/// with the components already finished and the one being read.
pub open spec fn spec_split_from(s: Seq<u8>, i: int, acc: Seq<Seq<u8>>, cur: Seq<u8>) -> Seq<
    Seq<u8>,
>
    decreases s.len() - i,
{
    if i < 0 || i >= s.len() {
        acc.push(cur)
    } else if s[i] == 47u8 {
        spec_split_from(s, i + 1, acc.push(cur), Seq::empty())
    } else {
        spec_split_from(s, i + 1, acc, cur.push(s[i]))
    }
}

/// A selection string as its `/`-separated components.
pub open spec fn spec_split(s: Seq<u8>) -> Seq<Seq<u8>> {
    spec_split_from(s, 0, Seq::empty(), Seq::empty())
}

/// A usable path component: non-empty, and neither `.` nor `..`, so a
/// validated selection can never name the root itself by a detour or
/// escape it.
pub open spec fn spec_component_ok(c: Seq<u8>) -> bool {
    c.len() > 0 && c != seq![46u8] && c != seq![46u8, 46u8]
}

/// A usable relative path: at least one component, all of them usable.
pub open spec fn spec_path_ok(p: Seq<Seq<u8>>) -> bool {
    p.len() > 0 && (forall|i: int| 0 <= i < p.len() ==> spec_component_ok(#[trigger] p[i]))
}

/// A selection string as a relative path: split at `/`, with one
/// trailing separator tolerated — the index page names a directory
/// `docs/`, and that selects `docs`.
pub open spec fn spec_selection_path(s: Seq<u8>) -> Seq<Seq<u8>> {
    let p = spec_split(s);
    if p.len() > 1 && p.last().len() == 0 {
        p.drop_last()
    } else {
        p
    }
}

/// A valid selection string: its components, one trailing separator
/// dropped, are all usable.
pub open spec fn spec_selection_ok(s: Seq<u8>) -> bool {
    spec_path_ok(spec_selection_path(s))
}

/// Splits a selection string at `/` into its path components.
pub fn split_selection(s: &Vec<u8>) -> (r: Vec<Vec<u8>>)
    ensures
        r.deep_view() == spec_split(s@),
{
    let mut acc: Vec<Vec<u8>> = Vec::new();
    let mut cur: Vec<u8> = Vec::new();
    proof {
        assert(acc.deep_view() =~= Seq::<Seq<u8>>::empty());
        assert(cur@ =~= Seq::<u8>::empty());
    }
    let mut i: usize = 0;
    while i < s.len()
        invariant
            i <= s.len(),
            spec_split(s@) == spec_split_from(s@, i as int, acc.deep_view(), cur@),
        decreases s.len() - i,
    {
        if s[i] == 47u8 {
            let ghost acc_old = acc.deep_view();
            proof {
                assert(cur.deep_view() =~= cur@);
            }
            acc.push(cur);
            proof {
                assert(acc.deep_view() =~= acc_old.push(cur@));
            }
            cur = Vec::new();
        } else {
            cur.push(s[i]);
        }
        i += 1;
    }
    let ghost acc_old = acc.deep_view();
    proof {
        assert(cur.deep_view() =~= cur@);
    }
    acc.push(cur);
    proof {
        assert(acc.deep_view() =~= acc_old.push(cur@));
    }
    acc
}

/// Splits a selection string into its path components, dropping one
/// trailing `/` if the client sent one, as the index page does for
/// directories.
pub fn selection_path(s: &Vec<u8>) -> (r: Vec<Vec<u8>>)
    ensures
        r.deep_view() == spec_selection_path(s@),
{
    let mut p = split_selection(s);
    let ghost pv = p.deep_view();
    if p.len() > 1 && p[p.len() - 1].len() == 0 {
        proof {
            assert(pv.last() =~= p@[p@.len() - 1]@);
            assert(pv.last().len() == 0);
        }
        p.pop();
        proof {
            assert(p.deep_view() =~= pv.drop_last());
        }
    } else {
        proof {
            if pv.len() > 1 {
                assert(pv.last() =~= p@[p@.len() - 1]@);
            }
        }
    }
    p
}

/// Whether one component may stand in a selection path.
pub fn component_ok(c: &Vec<u8>) -> (r: bool)
    ensures
        r == spec_component_ok(c@),
{
    if c.len() == 0 {
        false
    } else if c.len() == 1 && c[0] == 46u8 {
        assert(c@ =~= seq![46u8]);
        false
    } else if c.len() == 2 && c[0] == 46u8 && c[1] == 46u8 {
        assert(c@ =~= seq![46u8, 46u8]);
        false
    } else {
        assert(c@ != seq![46u8] && c@ != seq![46u8, 46u8]);
        true
    }
}

/// Whether a split selection is a usable relative path.
pub fn path_ok(p: &Vec<Vec<u8>>) -> (r: bool)
    ensures
        r == spec_path_ok(p.deep_view()),
{
    let ghost pv = p.deep_view();
    if p.len() == 0 {
        return false;
    }
    let mut i: usize = 0;
    while i < p.len()
        invariant
            i <= p.len(),
            pv == p.deep_view(),
            forall|k: int| 0 <= k < i ==> spec_component_ok(#[trigger] pv[k]),
        decreases p.len() - i,
    {
        if !component_ok(&p[i]) {
            proof {
                assert(pv[i as int] =~= p@[i as int]@);
            }
            return false;
        }
        proof {
            assert(pv[i as int] =~= p@[i as int]@);
        }
        i += 1;
    }
    true
}

/// The `.tar` file-name extension.
pub open spec fn spec_tar_ext() -> Seq<u8> {
    seq![46u8, 116u8, 97u8, 114u8]
}

/// The fallback base name `archive`: used for multi-entry selections
/// and for a listing of the served root itself, which has no name.
pub open spec fn spec_default_name() -> Seq<u8> {
    seq![97u8, 114u8, 99u8, 104u8, 105u8, 118u8, 101u8]
}

/// The generic archive name used for multi-entry selections:
/// `archive.tar`.
pub open spec fn spec_generic_name() -> Seq<u8> {
    spec_default_name() + spec_tar_ext()
}

/// The download name of the archive. One selected path is named after
/// its leaf; several get the generic name; none (the whole listed
/// directory) is named after that directory.
pub open spec fn spec_archive_name(listing_leaf: Seq<u8>, sels: Seq<Seq<Seq<u8>>>) -> Seq<u8> {
    if sels.len() == 0 {
        listing_leaf + spec_tar_ext()
    } else if sels.len() == 1 {
        sels[0].last() + spec_tar_ext()
    } else {
        spec_generic_name()
    }
}

/// Appends `.tar`.
fn push_tar_ext(out: &mut Vec<u8>)
    ensures
        final(out)@ == old(out)@ + spec_tar_ext(),
{
    out.push(46u8);
    out.push(116u8);
    out.push(97u8);
    out.push(114u8);
    assert(out@ =~= old(out)@ + spec_tar_ext());
}

/// Derives the archive's download name from the listed directory's
/// leaf name and the selected paths.
pub fn archive_name(listing_leaf: &Vec<u8>, sels: &Vec<Vec<Vec<u8>>>) -> (r: Vec<u8>)
    requires
        forall|i: int| 0 <= i < sels.deep_view().len() ==> (#[trigger] sels.deep_view()[i]).len()
            > 0,
    ensures
        r@ == spec_archive_name(listing_leaf@, sels.deep_view()),
{
    if sels.len() == 0 {
        let mut r = crate::walk::clone_name(listing_leaf);
        push_tar_ext(&mut r);
        r
    } else if sels.len() == 1 {
        let p = &sels[0];
        assert(sels.deep_view()[0].len() > 0);
        assert(p@.len() > 0);
        let mut r = crate::walk::clone_name(&p[p.len() - 1]);
        proof {
            assert(r@ =~= sels.deep_view()[0].last());
        }
        push_tar_ext(&mut r);
        r
    } else {
        let mut r: Vec<u8> = Vec::new();
        r.push(97u8);
        r.push(114u8);
        r.push(99u8);
        r.push(104u8);
        r.push(105u8);
        r.push(118u8);
        r.push(101u8);
        push_tar_ext(&mut r);
        assert(r@ =~= spec_generic_name());
        r
    }
}

/// An ASCII hexadecimal digit.
pub open spec fn spec_is_hex(b: u8) -> bool {
    (48 <= b <= 57) || (65 <= b <= 70) || (97 <= b <= 102)
}

/// The value of an ASCII hexadecimal digit.
pub open spec fn spec_hex_val(b: u8) -> u8 {
    if 48 <= b <= 57 {
        (b - 48) as u8
    } else if 65 <= b <= 70 {
        (b - 55) as u8
    } else {
        (b - 87) as u8
    }
}

/// URL percent-decoding: `%` followed by two hexadecimal digits
/// becomes the encoded byte; anything else passes through unchanged.
pub open spec fn spec_percent_decode(s: Seq<u8>) -> Seq<u8>
    decreases s.len(),
{
    if s.len() == 0 {
        Seq::empty()
    } else if s[0] == 37u8 && s.len() >= 3 && spec_is_hex(s[1]) && spec_is_hex(s[2]) {
        seq![((16 * spec_hex_val(s[1]) + spec_hex_val(s[2])) as u8)] + spec_percent_decode(
            s.skip(3),
        )
    } else {
        seq![s[0]] + spec_percent_decode(s.skip(1))
    }
}

/// Whether `b` is an ASCII hexadecimal digit.
fn is_hex_digit(b: u8) -> (r: bool)
    ensures
        r == spec_is_hex(b),
{
    (48 <= b && b <= 57) || (65 <= b && b <= 70) || (97 <= b && b <= 102)
}

/// The value of an ASCII hexadecimal digit.
fn hex_val(b: u8) -> (r: u8)
    requires
        spec_is_hex(b),
    ensures
        r == spec_hex_val(b),
        r <= 15,
{
    if 48 <= b && b <= 57 {
        b - 48
    } else if 65 <= b && b <= 70 {
        b - 55
    } else {
        b - 87
    }
}

/// Decodes a percent-encoded byte string, as URL paths and form
/// values are transmitted.
#[verifier::loop_isolation(false)]
pub fn percent_decode(s: &Vec<u8>) -> (r: Vec<u8>)
    ensures
        r@ == spec_percent_decode(s@),
{
    let mut out: Vec<u8> = Vec::new();
    let mut i: usize = 0;
    proof {
        assert(s@.skip(0) =~= s@);
        assert(out@ + spec_percent_decode(s@) =~= spec_percent_decode(s@));
    }
    while i < s.len()
        invariant
            i <= s@.len(),
            spec_percent_decode(s@) == out@ + spec_percent_decode(s@.skip(i as int)),
        decreases s@.len() - i,
    {
        let ghost rest = s@.skip(i as int);
        proof {
            assert(rest[0] == s@[i as int]);
        }
        if s[i] == 37u8 && s.len() - i >= 3 && is_hex_digit(s[i + 1]) && is_hex_digit(s[i + 2]) {
            proof {
                assert(rest.len() >= 3);
                assert(rest[1] == s@[i + 1]);
                assert(rest[2] == s@[i + 2]);
                assert(rest.skip(3) =~= s@.skip(i + 3));
            }
            let v = 16 * hex_val(s[i + 1]) + hex_val(s[i + 2]);
            out.push(v);
            proof {
                assert(out@ + spec_percent_decode(s@.skip(i + 3)) =~= spec_percent_decode(s@));
            }
            i += 3;
        } else {
            proof {
                if rest.len() > 0 {
                    assert(rest.skip(1) =~= s@.skip(i + 1));
                }
            }
            out.push(s[i]);
            proof {
                assert(out@ + spec_percent_decode(s@.skip(i + 1)) =~= spec_percent_decode(s@));
            }
            i += 1;
        }
    }
    proof {
        assert(s@.skip(s@.len() as int) =~= Seq::<u8>::empty());
        assert(out@ + spec_percent_decode(Seq::<u8>::empty()) =~= out@);
    }
    out
}

/// The last non-empty component of `p`, or the fallback base name.
pub open spec fn spec_last_nonempty(p: Seq<Seq<u8>>) -> Seq<u8>
    decreases p.len(),
{
    if p.len() == 0 {
        spec_default_name()
    } else if p.last().len() > 0 {
        p.last()
    } else {
        spec_last_nonempty(p.drop_last())
    }
}

/// The name of a listed directory, read off its URL path: the last
/// non-empty path component, or `archive` for the served root itself.
/// It names the download of an empty selection.
pub open spec fn spec_listing_leaf(s: Seq<u8>) -> Seq<u8> {
    spec_last_nonempty(spec_split(s))
}

/// Derives the listed directory's name from its URL path.
#[verifier::loop_isolation(false)]
pub fn listing_leaf(path: &Vec<u8>) -> (r: Vec<u8>)
    ensures
        r@ == spec_listing_leaf(path@),
{
    let p = split_selection(path);
    let ghost pv = p.deep_view();
    let mut j: usize = p.len();
    assert(pv.take(j as int) =~= pv);
    while j > 0 && p[j - 1].len() == 0
        invariant
            j <= p@.len(),
            spec_last_nonempty(pv.take(j as int)) == spec_last_nonempty(pv),
        decreases j,
    {
        proof {
            assert(pv.take(j as int).last() == pv[j - 1]);
            assert(pv[j - 1] =~= p@[j - 1]@);
            assert(pv.take(j as int).drop_last() =~= pv.take(j - 1));
        }
        j -= 1;
    }
    if j == 0 {
        assert(pv.take(0) =~= Seq::<Seq<u8>>::empty());
        let mut r: Vec<u8> = Vec::new();
        r.push(97u8);
        r.push(114u8);
        r.push(99u8);
        r.push(104u8);
        r.push(105u8);
        r.push(118u8);
        r.push(101u8);
        assert(r@ =~= spec_default_name());
        r
    } else {
        proof {
            assert(pv.take(j as int).last() == pv[j - 1]);
            assert(pv[j - 1] =~= p@[j - 1]@);
            assert(pv[j - 1].len() > 0);
        }
        let r = crate::walk::clone_name(&p[j - 1]);
        proof {
            assert(r@ =~= pv[j - 1]);
        }
        r
    }
}

} // verus!
