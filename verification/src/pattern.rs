//! The file-name grammar.
//!
//! Everything the classifier reads out of a path is defined here, twice
//! over: spec functions give the grammar its mathematical meaning, and
//! executable scanners are proved to compute exactly those functions.
//! The grammar has three parts: detecting special markers (OVA and
//! credit-less tags), stripping noise tokens that could be mistaken
//! for episode numbers, and extracting a season/episode pair.

use vstd::prelude::*;
use vstd::string::StrSliceExecFns;

verus! {

// ---------------------------------------------------------------------
// File-name component of a path
// ---------------------------------------------------------------------

/// Index where the last `/`-separated segment of `p` begins.
pub open spec fn seg_start(p: Seq<char>) -> int
    decreases p.len(),
{
    if p.len() == 0 {
        0
    } else if p.last() == '/' {
        p.len() as int
    } else {
        seg_start(p.drop_last())
    }
}

/// The file-name component of a path: the last segment, with trailing
/// slashes and `.` segments dropped; `None` when nothing remains or the
/// last segment is `..`.
pub open spec fn file_name_of(p: Seq<char>) -> Option<Seq<char>>
    decreases p.len(),
{
    if p.len() == 0 {
        None
    } else if p.last() == '/' {
        file_name_of(p.drop_last())
    } else {
        let s = seg_start(p);
        let n = p.len() as int;
        if n - s == 1 && p[n - 1] == '.' {
            file_name_of(p.take(n - 1))
        } else if n - s == 2 && p[n - 2] == '.' && p[n - 1] == '.' {
            None
        } else {
            Some(p.subrange(s, n))
        }
    }
}

/// On a prefix that ends inside the last segment, `seg_start` is found
/// where the scan from the right stops: at the character after the last
/// slash, or at the start of the string.
proof fn lemma_seg_start_at(p: Seq<char>, s: int, e: int)
    requires
        0 <= s < e <= p.len(),
        forall|k: int| s <= k < e ==> p[k] != '/',
        s == 0 || p[s - 1] == '/',
    ensures
        seg_start(p.take(e)) == s,
    decreases e,
{
    let q = p.take(e);
    assert(q.last() == p[e - 1]);
    assert(q.drop_last() =~= p.take(e - 1));
    assert(seg_start(q) == seg_start(p.take(e - 1)));
    if s == e - 1 {
        if s == 0 {
            assert(seg_start(p.take(0)) == 0);
        } else {
            assert(p.take(e - 1).last() == '/');
            assert(seg_start(p.take(e - 1)) == e - 1);
        }
    } else {
        lemma_seg_start_at(p, s, e - 1);
    }
}

/// Extracts the file-name component of `path`, as [`file_name_of`]
/// describes it.
pub fn file_name(path: &str) -> (r: Option<String>)
    ensures
        match r {
            Some(f) => file_name_of(path@) == Some(f@),
            None => file_name_of(path@) == None::<Seq<char>>,
        },
{
    let n = path.unicode_len();
    let mut e: usize = n;
    proof {
        assert(path@.take(n as int) =~= path@);
    }
    loop
        invariant
            0 <= e <= n,
            n == path@.len(),
            file_name_of(path@) == file_name_of(path@.take(e as int)),
        decreases e,
    {
        let ghost e0 = e;
        // Strip trailing slashes.
        while e > 0 && path.get_char(e - 1) == '/'
            invariant
                0 <= e <= n,
                e <= e0,
                n == path@.len(),
                file_name_of(path@) == file_name_of(path@.take(e as int)),
            decreases e,
        {
            proof {
                assert(path@.take(e as int).drop_last() =~= path@.take(e - 1));
            }
            e = e - 1;
        }
        if e == 0 {
            return None;
        }
        // Scan left to the start of the last segment.
        let ghost q = path@.take(e as int);
        let mut s: usize = e;
        while s > 0 && path.get_char(s - 1) != '/'
            invariant
                0 <= s <= e <= n,
                n == path@.len(),
                forall|k: int| s <= k < e ==> path@[k] != '/',
            decreases s,
        {
            s = s - 1;
        }
        proof {
            lemma_seg_start_at(path@, s as int, e as int);
            assert(q.last() == path@[e - 1]);
            assert(q.last() != '/');
        }
        if e - s == 1 && path.get_char(s) == '.' {
            proof {
                assert(q.take(e - 1) =~= path@.take(e - 1));
            }
            e = e - 1;
        } else if e - s == 2 && path.get_char(s) == '.' && path.get_char(s + 1) == '.' {
            return None;
        } else {
            let sub = path.substring_char(s, e);
            proof {
                assert(q.subrange(s as int, e as int) =~= path@.subrange(s as int, e as int));
            }
            return Some(sub.to_owned());
        }
    }
}

// ---------------------------------------------------------------------
// Special markers
// ---------------------------------------------------------------------

/// Separators that may bound a credit-less token.
pub open spec fn is_sep3(c: char) -> bool {
    c == '-' || c == '_' || c == ' '
}

/// Some character at or after `i` equals `c`.
pub open spec fn char_from(p: Seq<char>, i: int, c: char) -> bool
    decreases p.len() - i,
{
    if i < 0 || i >= p.len() {
        false
    } else if p[i] == c {
        true
    } else {
        char_from(p, i + 1, c)
    }
}

/// Some character at or after `i` is a separator.
pub open spec fn sep3_from(p: Seq<char>, i: int) -> bool
    decreases p.len() - i,
{
    if i < 0 || i >= p.len() {
        false
    } else if is_sep3(p[i]) {
        true
    } else {
        sep3_from(p, i + 1)
    }
}

pub open spec fn ova_at(p: Seq<char>, i: int) -> bool {
    &&& 0 <= i
    &&& i + 3 <= p.len()
    &&& p[i] == 'O'
    &&& p[i + 1] == 'V'
    &&& p[i + 2] == 'A'
}

pub open spec fn nced_at(p: Seq<char>, i: int) -> bool {
    &&& 0 <= i
    &&& i + 4 <= p.len()
    &&& p[i] == 'N'
    &&& p[i + 1] == 'C'
    &&& p[i + 2] == 'E'
    &&& p[i + 3] == 'D'
}

pub open spec fn ncop_at(p: Seq<char>, i: int) -> bool {
    &&& 0 <= i
    &&& i + 4 <= p.len()
    &&& p[i] == 'N'
    &&& p[i + 1] == 'C'
    &&& p[i + 2] == 'O'
    &&& p[i + 3] == 'P'
}

pub open spec fn ed_at(p: Seq<char>, i: int) -> bool {
    &&& 0 <= i
    &&& i + 2 <= p.len()
    &&& p[i] == 'E'
    &&& p[i + 1] == 'D'
}

pub open spec fn op_at(p: Seq<char>, i: int) -> bool {
    &&& 0 <= i
    &&& i + 2 <= p.len()
    &&& p[i] == 'O'
    &&& p[i + 1] == 'P'
}

pub open spec fn sp_at(p: Seq<char>, i: int) -> bool {
    &&& 0 <= i
    &&& i + 2 <= p.len()
    &&& p[i] == 'S'
    &&& p[i + 1] == 'P'
}

/// The token `no-credit_opening` starts at `i`.
pub open spec fn nc_open_at(p: Seq<char>, i: int) -> bool {
    &&& 0 <= i
    &&& i + 17 <= p.len()
    &&& p[i] == 'n'
    &&& p[i + 1] == 'o'
    &&& p[i + 2] == '-'
    &&& p[i + 3] == 'c'
    &&& p[i + 4] == 'r'
    &&& p[i + 5] == 'e'
    &&& p[i + 6] == 'd'
    &&& p[i + 7] == 'i'
    &&& p[i + 8] == 't'
    &&& p[i + 9] == '_'
    &&& p[i + 10] == 'o'
    &&& p[i + 11] == 'p'
    &&& p[i + 12] == 'e'
    &&& p[i + 13] == 'n'
    &&& p[i + 14] == 'i'
    &&& p[i + 15] == 'n'
    &&& p[i + 16] == 'g'
}

/// The token `no-credit_ending` starts at `i`.
pub open spec fn nc_end_at(p: Seq<char>, i: int) -> bool {
    &&& 0 <= i
    &&& i + 16 <= p.len()
    &&& p[i] == 'n'
    &&& p[i + 1] == 'o'
    &&& p[i + 2] == '-'
    &&& p[i + 3] == 'c'
    &&& p[i + 4] == 'r'
    &&& p[i + 5] == 'e'
    &&& p[i + 6] == 'd'
    &&& p[i + 7] == 'i'
    &&& p[i + 8] == 't'
    &&& p[i + 9] == '_'
    &&& p[i + 10] == 'e'
    &&& p[i + 11] == 'n'
    &&& p[i + 12] == 'd'
    &&& p[i + 13] == 'i'
    &&& p[i + 14] == 'n'
    &&& p[i + 15] == 'g'
}

/// A separator at `i`, a credit-less token right after it, and a
/// second separator anywhere after the token.
pub open spec fn token_hit_at(p: Seq<char>, i: int) -> bool {
    &&& 0 <= i < p.len()
    &&& is_sep3(p[i])
    &&& {
        ||| (ed_at(p, i + 1) && sep3_from(p, i + 3))
        ||| (op_at(p, i + 1) && sep3_from(p, i + 3))
        ||| (sp_at(p, i + 1) && sep3_from(p, i + 3))
        ||| (nc_open_at(p, i + 1) && sep3_from(p, i + 18))
        ||| (nc_end_at(p, i + 1) && sep3_from(p, i + 17))
    }
}

/// One of the special-marker alternatives matches starting at `i`:
/// `OVA` later followed by a dot, `NCED`/`NCOP` later followed by a
/// space, or a separator-bounded credit-less token.
pub open spec fn special_hit_at(p: Seq<char>, i: int) -> bool {
    ||| (ova_at(p, i) && char_from(p, i + 3, '.'))
    ||| (nced_at(p, i) && char_from(p, i + 4, ' '))
    ||| (ncop_at(p, i) && char_from(p, i + 4, ' '))
    ||| token_hit_at(p, i)
}

pub open spec fn special_scan(p: Seq<char>, i: int) -> bool
    decreases p.len() - i,
{
    if i < 0 || i >= p.len() {
        false
    } else if special_hit_at(p, i) {
        true
    } else {
        special_scan(p, i + 1)
    }
}

/// The path carries a special marker.
pub open spec fn is_special(p: Seq<char>) -> bool {
    special_scan(p, 0)
}

fn find_char_from(v: &Vec<char>, start: usize, c: char) -> (r: bool)
    ensures
        r == char_from(v@, start as int, c),
{
    let n = v.len();
    let mut i: usize = start;
    while i < n
        invariant
            start <= i,
            n == v@.len(),
            char_from(v@, start as int, c) == char_from(v@, i as int, c),
        decreases n - i,
    {
        if v[i] == c {
            return true;
        }
        i = i + 1;
    }
    false
}

fn find_sep3_from(v: &Vec<char>, start: usize) -> (r: bool)
    ensures
        r == sep3_from(v@, start as int),
{
    let n = v.len();
    let mut i: usize = start;
    while i < n
        invariant
            start <= i,
            n == v@.len(),
            sep3_from(v@, start as int) == sep3_from(v@, i as int),
        decreases n - i,
    {
        let c = v[i];
        if c == '-' || c == '_' || c == ' ' {
            return true;
        }
        i = i + 1;
    }
    false
}

fn special_hit_check(v: &Vec<char>, i: usize) -> (r: bool)
    requires
        i < v@.len(),
    ensures
        r == special_hit_at(v@, i as int),
{
    let n = v.len();
    if n - i >= 3 && v[i] == 'O' && v[i + 1] == 'V' && v[i + 2] == 'A' {
        if find_char_from(v, i + 3, '.') {
            return true;
        }
    }
    if n - i >= 4 && v[i] == 'N' && v[i + 1] == 'C' && v[i + 2] == 'E' && v[i + 3] == 'D' {
        if find_char_from(v, i + 4, ' ') {
            return true;
        }
    }
    if n - i >= 4 && v[i] == 'N' && v[i + 1] == 'C' && v[i + 2] == 'O' && v[i + 3] == 'P' {
        if find_char_from(v, i + 4, ' ') {
            return true;
        }
    }
    let ci = v[i];
    if ci == '-' || ci == '_' || ci == ' ' {
        if n - i >= 3 && v[i + 1] == 'E' && v[i + 2] == 'D' {
            if find_sep3_from(v, i + 3) {
                return true;
            }
        }
        if n - i >= 3 && v[i + 1] == 'O' && v[i + 2] == 'P' {
            if find_sep3_from(v, i + 3) {
                return true;
            }
        }
        if n - i >= 3 && v[i + 1] == 'S' && v[i + 2] == 'P' {
            if find_sep3_from(v, i + 3) {
                return true;
            }
        }
        if n - i >= 18 && v[i + 1] == 'n' && v[i + 2] == 'o' && v[i + 3] == '-' && v[i + 4]
            == 'c' && v[i + 5] == 'r' && v[i + 6] == 'e' && v[i + 7] == 'd' && v[i + 8] == 'i'
            && v[i + 9] == 't' && v[i + 10] == '_' {
            if v[i + 11] == 'o' && v[i + 12] == 'p' && v[i + 13] == 'e' && v[i + 14] == 'n'
                && v[i + 15] == 'i' && v[i + 16] == 'n' && v[i + 17] == 'g' {
                if find_sep3_from(v, i + 18) {
                    return true;
                }
            }
            if n - i >= 17 && v[i + 11] == 'e' && v[i + 12] == 'n' && v[i + 13] == 'd' && v[i
                + 14] == 'i' && v[i + 15] == 'n' && v[i + 16] == 'g' {
                if find_sep3_from(v, i + 17) {
                    return true;
                }
            }
        } else if n - i >= 17 && v[i + 1] == 'n' && v[i + 2] == 'o' && v[i + 3] == '-' && v[i
            + 4] == 'c' && v[i + 5] == 'r' && v[i + 6] == 'e' && v[i + 7] == 'd' && v[i + 8]
            == 'i' && v[i + 9] == 't' && v[i + 10] == '_' && v[i + 11] == 'e' && v[i + 12]
            == 'n' && v[i + 13] == 'd' && v[i + 14] == 'i' && v[i + 15] == 'n' && v[i + 16]
            == 'g' {
            if find_sep3_from(v, i + 17) {
                return true;
            }
        }
    }
    false
}

/// Scans the whole path for a special marker.
pub fn special_check(v: &Vec<char>) -> (r: bool)
    ensures
        r == is_special(v@),
{
    let n = v.len();
    let mut i: usize = 0;
    while i < n
        invariant
            i <= n,
            n == v@.len(),
            is_special(v@) == special_scan(v@, i as int),
        decreases n - i,
    {
        if special_hit_check(v, i) {
            return true;
        }
        i = i + 1;
    }
    false
}

// ---------------------------------------------------------------------
// Noise stripping
// ---------------------------------------------------------------------

pub open spec fn is_digit(c: char) -> bool {
    ('0' as u32) <= (c as u32) && (c as u32) <= ('9' as u32)
}

/// Numeric value of a digit character.
pub open spec fn dval(c: char) -> int {
    (c as u32) - ('0' as u32)
}

pub open spec fn x264_at(p: Seq<char>, i: int) -> bool {
    &&& 0 <= i
    &&& i + 4 <= p.len()
    &&& p[i] == 'x'
    &&& p[i + 1] == '2'
    &&& p[i + 2] == '6'
    &&& (p[i + 3] == '4' || p[i + 3] == '5')
}

pub open spec fn d4_at(p: Seq<char>, i: int) -> bool {
    &&& 0 <= i
    &&& i + 4 <= p.len()
    &&& is_digit(p[i])
    &&& is_digit(p[i + 1])
    &&& is_digit(p[i + 2])
    &&& is_digit(p[i + 3])
}

pub open spec fn d3_at(p: Seq<char>, i: int) -> bool {
    &&& 0 <= i
    &&& i + 3 <= p.len()
    &&& is_digit(p[i])
    &&& is_digit(p[i + 1])
    &&& is_digit(p[i + 2])
}

/// A `10<x>bits`-style marker starts at `i`; the third character is
/// arbitrary.
pub open spec fn tenbits_at(p: Seq<char>, i: int) -> bool {
    &&& 0 <= i
    &&& i + 7 <= p.len()
    &&& p[i] == '1'
    &&& p[i + 1] == '0'
    &&& p[i + 3] == 'b'
    &&& p[i + 4] == 'i'
    &&& p[i + 5] == 't'
    &&& p[i + 6] == 's'
}

/// The rest of the path from `i` on, with noise tokens — codec
/// markers, three- or four-digit runs, bit-depth markers — each
/// replaced by a single `#` placeholder.
pub open spec fn strip_noise_from(p: Seq<char>, i: int) -> Seq<char>
    decreases p.len() - i,
{
    if i < 0 || i >= p.len() {
        Seq::empty()
    } else if x264_at(p, i) || d4_at(p, i) {
        seq!['#'] + strip_noise_from(p, i + 4)
    } else if d3_at(p, i) {
        seq!['#'] + strip_noise_from(p, i + 3)
    } else if tenbits_at(p, i) {
        seq!['#'] + strip_noise_from(p, i + 7)
    } else {
        seq![p[i]] + strip_noise_from(p, i + 1)
    }
}

pub open spec fn strip_noise(p: Seq<char>) -> Seq<char> {
    strip_noise_from(p, 0)
}

fn digit_at(v: &Vec<char>, i: usize) -> (r: bool)
    requires
        i < v@.len(),
    ensures
        r == is_digit(v@[i as int]),
{
    let u = v[i] as u32;
    u >= '0' as u32 && u <= '9' as u32
}

/// Replaces every noise token by `#`, as [`strip_noise`] describes.
pub fn strip_noise_vec(v: &Vec<char>) -> (out: Vec<char>)
    ensures
        out@ == strip_noise(v@),
{
    let n = v.len();
    let mut out: Vec<char> = Vec::new();
    let mut i: usize = 0;
    while i < n
        invariant
            i <= n,
            n == v@.len(),
            strip_noise(v@) == out@ + strip_noise_from(v@, i as int),
        decreases n - i,
    {
        let ghost pre = out@;
        if n - i >= 4 && v[i] == 'x' && v[i + 1] == '2' && v[i + 2] == '6' && (v[i + 3] == '4'
            || v[i + 3] == '5') {
            out.push('#');
            proof {
                assert(out@ =~= pre + seq!['#']);
                assert(pre + (seq!['#'] + strip_noise_from(v@, i + 4)) =~= out@
                    + strip_noise_from(v@, i + 4));
            }
            i = i + 4;
        } else if n - i >= 4 && digit_at(v, i) && digit_at(v, i + 1) && digit_at(v, i + 2)
            && digit_at(v, i + 3) {
            out.push('#');
            proof {
                assert(out@ =~= pre + seq!['#']);
                assert(pre + (seq!['#'] + strip_noise_from(v@, i + 4)) =~= out@
                    + strip_noise_from(v@, i + 4));
            }
            i = i + 4;
        } else if n - i >= 3 && digit_at(v, i) && digit_at(v, i + 1) && digit_at(v, i + 2) {
            out.push('#');
            proof {
                assert(out@ =~= pre + seq!['#']);
                assert(pre + (seq!['#'] + strip_noise_from(v@, i + 3)) =~= out@
                    + strip_noise_from(v@, i + 3));
            }
            i = i + 3;
        } else if n - i >= 7 && v[i] == '1' && v[i + 1] == '0' && v[i + 3] == 'b' && v[i + 4]
            == 'i' && v[i + 5] == 't' && v[i + 6] == 's' {
            out.push('#');
            proof {
                assert(out@ =~= pre + seq!['#']);
                assert(pre + (seq!['#'] + strip_noise_from(v@, i + 7)) =~= out@
                    + strip_noise_from(v@, i + 7));
            }
            i = i + 7;
        } else {
            out.push(v[i]);
            proof {
                assert(out@ =~= pre + seq![v@[i as int]]);
                assert(pre + (seq![v@[i as int]] + strip_noise_from(v@, i + 1)) =~= out@
                    + strip_noise_from(v@, i + 1));
            }
            i = i + 1;
        }
    }
    proof {
        assert(out@ + strip_noise_from(v@, i as int) =~= out@);
    }
    out
}

// ---------------------------------------------------------------------
// Episode extraction
// ---------------------------------------------------------------------

/// What may follow the episode digits: the end of the string, a
/// `bits` suffix after one arbitrary character, or one of the
/// boundary characters.
pub open spec fn boundary_at(q: Seq<char>, j: int) -> bool {
    ||| j == q.len()
    ||| (0 <= j && j + 5 <= q.len() && q[j + 1] == 'b' && q[j + 2] == 'i' && q[j + 3] == 't'
        && q[j + 4] == 's')
    ||| (0 <= j && j < q.len() && (q[j] == '_' || q[j] == ' ' || q[j] == '-' || q[j] == '.'
        || q[j] == 'v'))
}

pub open spec fn two_digits_at(q: Seq<char>, i: int) -> bool {
    &&& 0 <= i
    &&& i + 2 <= q.len()
    &&& is_digit(q[i])
    &&& is_digit(q[i + 1])
}

/// The episode number starting at `m`: two digits if a boundary
/// follows them, else one digit if a boundary follows it.
pub open spec fn ep_digits_at(q: Seq<char>, m: int) -> Option<int> {
    if two_digits_at(q, m) && boundary_at(q, m + 2) {
        Some(10 * dval(q[m]) + dval(q[m + 1]))
    } else if 0 <= m && m + 1 <= q.len() && is_digit(q[m]) && boundary_at(q, m + 1) {
        Some(dval(q[m]))
    } else {
        None
    }
}

/// A separator at `k` and an episode number after it; the separator
/// alternatives are tried in the grammar's preference order.
pub open spec fn sep_ep_at(q: Seq<char>, k: int) -> Option<int> {
    if 0 <= k && k < q.len() {
        if q[k] == '_' && ep_digits_at(q, k + 1) is Some {
            ep_digits_at(q, k + 1)
        } else if q[k] == 'x' && ep_digits_at(q, k + 1) is Some {
            ep_digits_at(q, k + 1)
        } else if q[k] == 'E' && ep_digits_at(q, k + 1) is Some {
            ep_digits_at(q, k + 1)
        } else if q[k] == 'e' && ep_digits_at(q, k + 1) is Some {
            ep_digits_at(q, k + 1)
        } else if k + 2 <= q.len() && q[k] == 'E' && q[k + 1] == 'P' && ep_digits_at(q, k + 2)
            is Some {
            ep_digits_at(q, k + 2)
        } else if k + 2 <= q.len() && q[k] == 'e' && q[k + 1] == 'p' && ep_digits_at(q, k + 2)
            is Some {
            ep_digits_at(q, k + 2)
        } else if q[k] == ' ' && ep_digits_at(q, k + 1) is Some {
            ep_digits_at(q, k + 1)
        } else {
            None
        }
    } else {
        None
    }
}

/// A whole episode pattern starting at `i`: an optional two-digit
/// season introduced by `S`, `s` or the string start, then a
/// separator and the episode number. The season defaults to 1 when
/// the season group is absent.
pub open spec fn ep_match_at(q: Seq<char>, i: int) -> Option<(int, int)> {
    if i == 0 && two_digits_at(q, 0) && sep_ep_at(q, 2) is Some {
        Some((10 * dval(q[0]) + dval(q[1]), sep_ep_at(q, 2)->0))
    } else if 0 <= i && i < q.len() && q[i] == 'S' && two_digits_at(q, i + 1) && sep_ep_at(
        q,
        i + 3,
    ) is Some {
        Some((10 * dval(q[i + 1]) + dval(q[i + 2]), sep_ep_at(q, i + 3)->0))
    } else if 0 <= i && i < q.len() && q[i] == 's' && two_digits_at(q, i + 1) && sep_ep_at(
        q,
        i + 3,
    ) is Some {
        Some((10 * dval(q[i + 1]) + dval(q[i + 2]), sep_ep_at(q, i + 3)->0))
    } else if sep_ep_at(q, i) is Some {
        Some((1, sep_ep_at(q, i)->0))
    } else {
        None
    }
}

pub open spec fn find_episode_from(q: Seq<char>, i: int) -> Option<(int, int)>
    decreases q.len() - i,
{
    if i < 0 || i >= q.len() {
        None
    } else if ep_match_at(q, i) is Some {
        ep_match_at(q, i)
    } else {
        find_episode_from(q, i + 1)
    }
}

/// The leftmost episode match in the noise-stripped path.
pub open spec fn find_episode(q: Seq<char>) -> Option<(int, int)> {
    find_episode_from(q, 0)
}

fn boundary_check(v: &Vec<char>, j: usize) -> (r: bool)
    requires
        j <= v@.len(),
    ensures
        r == boundary_at(v@, j as int),
{
    let n = v.len();
    if j == n {
        return true;
    }
    if n - j >= 5 && v[j + 1] == 'b' && v[j + 2] == 'i' && v[j + 3] == 't' && v[j + 4] == 's' {
        return true;
    }
    let c = v[j];
    c == '_' || c == ' ' || c == '-' || c == '.' || c == 'v'
}

fn ep_digits_check(v: &Vec<char>, m: usize) -> (r: Option<usize>)
    requires
        m <= v@.len(),
    ensures
        match r {
            Some(e) => ep_digits_at(v@, m as int) == Some(e as int),
            None => ep_digits_at(v@, m as int) == None::<int>,
        },
{
    let n = v.len();
    if n - m >= 2 && digit_at(v, m) && digit_at(v, m + 1) && boundary_check(v, m + 2) {
        let e = 10 * (v[m] as u32 - '0' as u32) + (v[m + 1] as u32 - '0' as u32);
        return Some(e as usize);
    }
    if n - m >= 1 && digit_at(v, m) && boundary_check(v, m + 1) {
        let e = v[m] as u32 - '0' as u32;
        return Some(e as usize);
    }
    None
}

fn sep_ep_check(v: &Vec<char>, k: usize) -> (r: Option<usize>)
    requires
        k <= v@.len(),
    ensures
        match r {
            Some(e) => sep_ep_at(v@, k as int) == Some(e as int),
            None => sep_ep_at(v@, k as int) == None::<int>,
        },
{
    let n = v.len();
    if k >= n {
        return None;
    }
    let c = v[k];
    if c == '_' || c == 'x' || c == 'E' || c == 'e' || c == ' ' {
        let r1 = ep_digits_check(v, k + 1);
        if r1.is_some() {
            if c == '_' {
                return r1;
            }
            if c == 'x' {
                return r1;
            }
            if c == 'E' {
                return r1;
            }
            if c == 'e' {
                return r1;
            }
        }
        if (c == 'E' && n - k >= 2 && v[k + 1] == 'P') || (c == 'e' && n - k >= 2 && v[k + 1]
            == 'p') {
            let r2 = ep_digits_check(v, k + 2);
            if r2.is_some() {
                return r2;
            }
        }
        if c == ' ' {
            return r1;
        }
        return None;
    }
    None
}

fn ep_match_check(v: &Vec<char>, i: usize) -> (r: Option<(usize, usize)>)
    requires
        i < v@.len(),
    ensures
        match r {
            Some(se) => ep_match_at(v@, i as int) == Some((se.0 as int, se.1 as int)),
            None => ep_match_at(v@, i as int) == None::<(int, int)>,
        },
{
    let n = v.len();
    if i == 0 && n >= 2 && digit_at(v, 0) && digit_at(v, 1) {
        if let Some(e) = sep_ep_check(v, 2) {
            let s = 10 * (v[0] as u32 - '0' as u32) + (v[1] as u32 - '0' as u32);
            return Some((s as usize, e));
        }
    }
    if (v[i] == 'S' || v[i] == 's') && n - i >= 3 && digit_at(v, i + 1) && digit_at(v, i + 2) {
        if let Some(e) = sep_ep_check(v, i + 3) {
            let s = 10 * (v[i + 1] as u32 - '0' as u32) + (v[i + 2] as u32 - '0' as u32);
            return Some((s as usize, e));
        }
    }
    if let Some(e) = sep_ep_check(v, i) {
        return Some((1, e));
    }
    None
}

/// Finds the leftmost episode match, as [`find_episode`] describes.
pub fn find_episode_vec(v: &Vec<char>) -> (r: Option<(usize, usize)>)
    ensures
        match r {
            Some(se) => find_episode(v@) == Some((se.0 as int, se.1 as int)),
            None => find_episode(v@) == None::<(int, int)>,
        },
{
    let n = v.len();
    let mut i: usize = 0;
    while i < n
        invariant
            i <= n,
            n == v@.len(),
            find_episode(v@) == find_episode_from(v@, i as int),
        decreases n - i,
    {
        if let Some(se) = ep_match_check(v, i) {
            return Some(se);
        }
        i = i + 1;
    }
    None
}


// ---------------------------------------------------------------------
// Extension filter
// ---------------------------------------------------------------------

/// Collects the characters of a string.
pub fn chars_of(s: &str) -> (r: Vec<char>)
    ensures
        r@ == s@,
{
    let n = s.unicode_len();
    let mut r: Vec<char> = Vec::new();
    let mut i: usize = 0;
    proof {
        assert(r@ =~= s@.take(0));
    }
    while i < n
        invariant
            i <= n,
            n == s@.len(),
            r@ == s@.take(i as int),
        decreases n - i,
    {
        r.push(s.get_char(i));
        proof {
            assert(r@ =~= s@.take(i + 1));
        }
        i = i + 1;
    }
    proof {
        assert(s@.take(n as int) =~= s@);
    }
    r
}

/// Index of the last `.` in a file name, or `-1` when there is none.
pub open spec fn dot_split(f: Seq<char>) -> int
    decreases f.len(),
{
    if f.len() == 0 {
        -1
    } else if f.last() == '.' {
        f.len() - 1
    } else {
        dot_split(f.drop_last())
    }
}

/// The extension of a file name: what follows the last dot, unless
/// the only dot is the leading one of a hidden file.
pub open spec fn ext_of(f: Seq<char>) -> Option<Seq<char>> {
    if dot_split(f) <= 0 {
        None
    } else {
        Some(f.subrange(dot_split(f) + 1, f.len() as int))
    }
}

pub open spec fn is_video_ext(e: Seq<char>) -> bool {
    ||| e == seq!['m', 'k', 'v']
    ||| e == seq!['m', 'p', '4']
    ||| e == seq!['t', 's']
}

/// The path names a video file: its file-name component carries one
/// of the tracked extensions.
pub open spec fn video_ext(p: Seq<char>) -> bool {
    match file_name_of(p) {
        Some(f) => match ext_of(f) {
            Some(e) => is_video_ext(e),
            None => false,
        },
        None => false,
    }
}

proof fn lemma_dot_split_none(f: Seq<char>)
    requires
        forall|k: int| 0 <= k < f.len() ==> f[k] != '.',
    ensures
        dot_split(f) == -1,
    decreases f.len(),
{
    if f.len() > 0 {
        lemma_dot_split_none(f.drop_last());
    }
}

proof fn lemma_dot_split_at(f: Seq<char>, d: int)
    requires
        0 <= d < f.len(),
        f[d] == '.',
        forall|k: int| d < k < f.len() ==> f[k] != '.',
    ensures
        dot_split(f) == d,
    decreases f.len(),
{
    if d == f.len() - 1 {
    } else {
        assert(f.last() != '.');
        assert(f.drop_last()[d] == '.');
        lemma_dot_split_at(f.drop_last(), d);
    }
}

/// Decides whether the path names a video file, as [`video_ext`]
/// describes.
pub fn video_ext_check(path: &str) -> (r: bool)
    ensures
        r == video_ext(path@),
{
    match file_name(path) {
        None => false,
        Some(f) => {
            let w = chars_of(f.as_str());
            let n = w.len();
            let mut k: usize = n;
            while k > 0 && w[k - 1] != '.'
                invariant
                    k <= n,
                    n == w@.len(),
                    w@ == f@,
                    forall|kk: int| k <= kk < n ==> w@[kk] != '.',
                decreases k,
            {
                k = k - 1;
            }
            if k == 0 {
                proof {
                    lemma_dot_split_none(f@);
                }
                return false;
            }
            if k == 1 {
                proof {
                    lemma_dot_split_at(f@, 0);
                }
                return false;
            }
            proof {
                lemma_dot_split_at(f@, k - 1);
            }
            let ghost e = f@.subrange(k as int, n as int);
            proof {
                assert(seq!['m', 'k', 'v'].len() == 3);
                assert(seq!['m', 'p', '4'].len() == 3);
                assert(seq!['t', 's'].len() == 2);
            }
            if n - k == 3 && w[k] == 'm' && w[k + 1] == 'k' && w[k + 2] == 'v' {
                proof {
                    assert(e =~= seq!['m', 'k', 'v']);
                }
                true
            } else if n - k == 3 && w[k] == 'm' && w[k + 1] == 'p' && w[k + 2] == '4' {
                proof {
                    assert(e =~= seq!['m', 'p', '4']);
                }
                true
            } else if n - k == 2 && w[k] == 't' && w[k + 1] == 's' {
                proof {
                    assert(e =~= seq!['t', 's']);
                }
                true
            } else {
                proof {
                    assert(e.len() == n - k);
                    assert(!is_video_ext(e)) by {
                        if e == seq!['m', 'k', 'v'] {
                            assert(e[0] == 'm' && e[1] == 'k' && e[2] == 'v');
                        }
                        if e == seq!['m', 'p', '4'] {
                            assert(e[0] == 'm' && e[1] == 'p' && e[2] == '4');
                        }
                        if e == seq!['t', 's'] {
                            assert(e[0] == 't' && e[1] == 's');
                        }
                    }
                }
                false
            }
        },
    }
}


} // verus!
