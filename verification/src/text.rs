//! Character-level text utilities: prefix and substring tests, line and
//! whitespace-field splitting, the octal space unescape used by mount tables,
//! and decimal parsing. Everything is specified over `Seq<char>` views.

use vstd::prelude::*;
use vstd::string::*;

verus! {

/// The whitespace characters that separate fields in a mount table record.
pub open spec fn is_wspace(c: char) -> bool {
    c == ' ' || c == '\t' || c == '\r'
}

pub fn wspace(c: char) -> (r: bool)
    ensures
        r == is_wspace(c),
{
    c == ' ' || c == '\t' || c == '\r'
}

/// A decimal digit.
pub open spec fn is_digit(c: char) -> bool {
    48 <= c as u32 <= 57
}

pub fn digit(c: char) -> (r: bool)
    ensures
        r == is_digit(c),
{
    let u = c as u32;
    48 <= u && u <= 57
}

/// `p` is a prefix of `s`.
pub open spec fn spec_starts_with(s: Seq<char>, p: Seq<char>) -> bool {
    p.len() <= s.len() && s.subrange(0, p.len() as int) == p
}

pub fn starts_with_str(s: &str, p: &str) -> (r: bool)
    ensures
        r == spec_starts_with(s@, p@),
{
    let sl = s.unicode_len();
    let pl = p.unicode_len();
    if pl > sl {
        return false;
    }
    let mut i: usize = 0;
    while i < pl
        invariant
            0 <= i <= pl,
            pl <= sl,
            pl == p@.len(),
            sl == s@.len(),
            forall|j: int| 0 <= j < i ==> s@[j] == p@[j],
        decreases pl - i,
    {
        if s.get_char(i) != p.get_char(i) {
            let ghost ii = i as int;
            assert(spec_starts_with(s@, p@) ==> s@.subrange(0, p@.len() as int)[ii] == p@[ii]);
            return false;
        }
        i += 1;
    }
    assert(s@.subrange(0, p@.len() as int) =~= p@);
    true
}

/// `sub` occurs in `s` starting at index `i`.
pub open spec fn spec_contains_at(s: Seq<char>, sub: Seq<char>, i: int) -> bool {
    0 <= i && i + sub.len() <= s.len() && s.subrange(i, i + sub.len() as int) == sub
}

/// `sub` occurs somewhere in `s`.
pub open spec fn spec_contains(s: Seq<char>, sub: Seq<char>) -> bool {
    exists|i: int| spec_contains_at(s, sub, i)
}

fn match_at(s: &str, sub: &str, i: usize) -> (r: bool)
    requires
        i + sub@.len() <= s@.len(),
    ensures
        r == spec_contains_at(s@, sub@, i as int),
{
    let sl = s.unicode_len();
    let bl = sub.unicode_len();
    let mut j: usize = 0;
    while j < bl
        invariant
            0 <= j <= bl,
            bl == sub@.len(),
            sl == s@.len(),
            i + bl <= sl,
            forall|k: int| 0 <= k < j ==> s@[i + k] == sub@[k],
        decreases bl - j,
    {
        if s.get_char(i + j) != sub.get_char(j) {
            assert(spec_contains_at(s@, sub@, i as int) ==> s@.subrange(
                i as int,
                i + sub@.len() as int,
            )[j as int] == sub@[j as int]);
            return false;
        }
        j += 1;
    }
    assert(s@.subrange(i as int, i + sub@.len() as int) =~= sub@);
    true
}

pub fn contains_substr(s: &str, sub: &str) -> (r: bool)
    ensures
        r == spec_contains(s@, sub@),
{
    let sl = s.unicode_len();
    let bl = sub.unicode_len();
    if bl > sl {
        return false;
    }
    if bl == 0 {
        assert(s@.subrange(0, 0) =~= sub@);
        assert(spec_contains_at(s@, sub@, 0));
        return true;
    }
    let mut i: usize = 0;
    while i <= sl - bl
        invariant
            0 <= i <= sl - bl + 1,
            bl == sub@.len(),
            sl == s@.len(),
            0 < bl <= sl,
            forall|k: int| 0 <= k < i ==> !spec_contains_at(s@, sub@, k),
        decreases sl - bl - i + 1,
    {
        if match_at(s, sub, i) {
            return true;
        }
        i += 1;
    }
    assert(forall|k: int| spec_contains_at(s@, sub@, k) ==> 0 <= k < i);
    false
}

/// The value of a digit string read as a decimal number.
pub open spec fn dec_val(s: Seq<char>) -> int
    decreases s.len(),
{
    if s.len() == 0 {
        0
    } else {
        dec_val(s.drop_last()) * 10 + (s.last() as u32 - 48)
    }
}

pub open spec fn all_digits(s: Seq<char>) -> bool {
    forall|i: int| 0 <= i < s.len() ==> is_digit(#[trigger] s[i])
}

proof fn lemma_dec_val_nonneg(s: Seq<char>)
    requires
        all_digits(s),
    ensures
        dec_val(s) >= 0,
    decreases s.len(),
{
    if s.len() > 0 {
        assert(all_digits(s.drop_last()));
        lemma_dec_val_nonneg(s.drop_last());
        assert(is_digit(s.last()));
    }
}

proof fn lemma_dec_val_grows(s: Seq<char>, i: int)
    requires
        all_digits(s),
        0 <= i <= s.len(),
    ensures
        dec_val(s) >= dec_val(s.take(i)),
    decreases s.len() - i,
{
    if i < s.len() {
        let t = s.take(i + 1);
        assert(t.drop_last() =~= s.take(i));
        assert(all_digits(t.drop_last()));
        lemma_dec_val_nonneg(t.drop_last());
        assert(dec_val(t) == dec_val(s.take(i)) * 10 + (t.last() as u32 - 48));
        assert(dec_val(t) >= dec_val(s.take(i)));
        lemma_dec_val_grows(s, i + 1);
    } else {
        assert(s.take(i) =~= s);
    }
}

/// What a decimal string reads as: its value if it is all digits and fits a
/// `u64`, and `0` otherwise.
pub open spec fn spec_parse_u64_or_zero(s: Seq<char>) -> u64 {
    if s.len() > 0 && all_digits(s) && dec_val(s) <= u64::MAX {
        dec_val(s) as u64
    } else {
        0
    }
}

/// Read a string of decimal digits as a `u64`; anything else, and any value
/// that does not fit, reads as `0`.
pub fn parse_u64_or_zero(s: &str) -> (r: u64)
    ensures
        r == spec_parse_u64_or_zero(s@),
{
    let len = s.unicode_len();
    if len == 0 {
        return 0;
    }
    let mut acc: u64 = 0;
    let mut i: usize = 0;
    while i < len
        invariant
            0 <= i <= len,
            len == s@.len(),
            all_digits(s@.take(i as int)),
            acc == dec_val(s@.take(i as int)),
        decreases len - i,
    {
        let c = s.get_char(i);
        if !digit(c) {
            assert(!all_digits(s@));
            return 0;
        }
        let d: u64 = (c as u32 - 48) as u64;
        if acc > (u64::MAX - d) / 10 {
            proof {
                assert(s@.take(i as int + 1).drop_last() =~= s@.take(i as int));
                assert(dec_val(s@.take(i as int + 1)) == acc * 10 + d);
                assert(acc * 10 + d > u64::MAX);
                if all_digits(s@) {
                    lemma_dec_val_grows(s@, i as int + 1);
                }
            }
            return 0;
        }
        proof {
            assert(s@.take(i as int + 1).drop_last() =~= s@.take(i as int));
        }
        acc = acc * 10 + d;
        i += 1;
    }
    assert(s@.take(len as int) =~= s@);
    acc
}

/// Whitespace-field splitting, carried out with an accumulator holding the
/// word being read: the fields of `cur + s` where `cur` is a partial word.
pub open spec fn spec_fields_from(cur: Seq<char>, s: Seq<char>) -> Seq<Seq<char>>
    decreases s.len(),
{
    if s.len() == 0 {
        if cur.len() == 0 {
            Seq::empty()
        } else {
            seq![cur]
        }
    } else if is_wspace(s[0]) {
        if cur.len() == 0 {
            spec_fields_from(cur, s.skip(1))
        } else {
            seq![cur] + spec_fields_from(Seq::empty(), s.skip(1))
        }
    } else {
        spec_fields_from(cur.push(s[0]), s.skip(1))
    }
}

/// The whitespace-separated fields of `s`.
pub open spec fn spec_fields(s: Seq<char>) -> Seq<Seq<char>> {
    spec_fields_from(Seq::empty(), s)
}

/// The views of a sequence of owned values.
pub open spec fn seq_views<T: View>(s: Seq<T>) -> Seq<T::V> {
    s.map_values(|t: T| t@)
}

/// The view of an optional owned string.
pub open spec fn opt_view(o: Option<String>) -> Option<Seq<char>> {
    match o {
        Some(s) => Some(s@),
        None => None,
    }
}

pub fn split_fields(s: &str) -> (r: Vec<String>)
    ensures
        seq_views(r@) == spec_fields(s@),
{
    let len = s.unicode_len();
    let mut out: Vec<String> = Vec::new();
    let mut cur: String = String::new();
    let mut i: usize = 0;
    proof {
        assert(s@.skip(0) =~= s@);
        assert(seq_views(out@) + spec_fields_from(cur@, s@) =~= spec_fields(s@));
    }
    while i < len
        invariant
            0 <= i <= len,
            len == s@.len(),
            spec_fields(s@) == seq_views(out@) + spec_fields_from(cur@, s@.skip(i as int)),
        decreases len - i,
    {
        let ghost rest = s@.skip(i as int);
        proof {
            assert(rest[0] == s@[i as int]);
            assert(rest.skip(1) =~= s@.skip(i as int + 1));
        }
        let c = s.get_char(i);
        if wspace(c) {
            if cur.unicode_len() > 0 {
                proof {
                    assert(seq_views(out@.push(cur)) =~= seq_views(out@).push(cur@));
                    assert(seq_views(out@) + (seq![cur@] + spec_fields_from(
                        Seq::empty(),
                        rest.skip(1),
                    )) =~= seq_views(out@.push(cur)) + spec_fields_from(
                        Seq::empty(),
                        rest.skip(1),
                    ));
                }
                out.push(cur);
                cur = String::new();
            }
        } else {
            let piece = s.substring_char(i, i + 1);
            proof {
                assert(piece@ =~= seq![s@[i as int]]);
                assert(cur@ + piece@ =~= cur@.push(s@[i as int]));
            }
            cur.append(piece);
        }
        i += 1;
    }
    proof {
        assert(s@.skip(len as int) =~= Seq::<char>::empty());
    }
    if cur.unicode_len() > 0 {
        proof {
            assert(seq_views(out@.push(cur)) =~= seq_views(out@).push(cur@));
            assert(seq_views(out@) + seq![cur@] =~= seq_views(out@).push(cur@));
        }
        out.push(cur);
    } else {
        proof {
            assert(seq_views(out@) + Seq::<Seq<char>>::empty() =~= seq_views(out@));
        }
    }
    out
}

/// The lines of `s`: the segments between newline characters.
pub open spec fn spec_lines_from(cur: Seq<char>, s: Seq<char>) -> Seq<Seq<char>>
    decreases s.len(),
{
    if s.len() == 0 {
        seq![cur]
    } else if s[0] == '\n' {
        seq![cur] + spec_lines_from(Seq::empty(), s.skip(1))
    } else {
        spec_lines_from(cur.push(s[0]), s.skip(1))
    }
}

pub open spec fn spec_lines(s: Seq<char>) -> Seq<Seq<char>> {
    spec_lines_from(Seq::empty(), s)
}

pub fn split_lines(s: &str) -> (r: Vec<String>)
    ensures
        seq_views(r@) == spec_lines(s@),
{
    let len = s.unicode_len();
    let mut out: Vec<String> = Vec::new();
    let mut cur: String = String::new();
    let mut i: usize = 0;
    proof {
        assert(s@.skip(0) =~= s@);
        assert(seq_views(out@) + spec_lines_from(cur@, s@) =~= spec_lines(s@));
    }
    while i < len
        invariant
            0 <= i <= len,
            len == s@.len(),
            spec_lines(s@) == seq_views(out@) + spec_lines_from(cur@, s@.skip(i as int)),
        decreases len - i,
    {
        let ghost rest = s@.skip(i as int);
        proof {
            assert(rest[0] == s@[i as int]);
            assert(rest.skip(1) =~= s@.skip(i as int + 1));
        }
        let c = s.get_char(i);
        if c == '\n' {
            proof {
                assert(seq_views(out@.push(cur)) =~= seq_views(out@).push(cur@));
                assert(seq_views(out@) + (seq![cur@] + spec_lines_from(Seq::empty(), rest.skip(1)))
                    =~= seq_views(out@.push(cur)) + spec_lines_from(Seq::empty(), rest.skip(1)));
            }
            out.push(cur);
            cur = String::new();
        } else {
            let piece = s.substring_char(i, i + 1);
            proof {
                assert(piece@ =~= seq![s@[i as int]]);
                assert(cur@ + piece@ =~= cur@.push(s@[i as int]));
            }
            cur.append(piece);
        }
        i += 1;
    }
    proof {
        assert(s@.skip(len as int) =~= Seq::<char>::empty());
        assert(seq_views(out@.push(cur)) =~= seq_views(out@).push(cur@));
        assert(seq_views(out@) + seq![cur@] =~= seq_views(out@).push(cur@));
    }
    out.push(cur);
    out
}

/// Mount tables escape a space inside a mount point as the four characters
/// `\040`; this is that escape undone, scanning left to right.
pub open spec fn spec_unescape(s: Seq<char>) -> Seq<char>
    decreases s.len(),
{
    if s.len() >= 4 && s[0] == '\\' && s[1] == '0' && s[2] == '4' && s[3] == '0' {
        seq![' '] + spec_unescape(s.skip(4))
    } else if s.len() == 0 {
        Seq::empty()
    } else {
        seq![s[0]] + spec_unescape(s.skip(1))
    }
}

pub fn unescape_octal_spaces(s: &str) -> (r: String)
    ensures
        r@ == spec_unescape(s@),
{
    let len = s.unicode_len();
    let mut out: String = String::new();
    let mut i: usize = 0;
    proof {
        assert(s@.skip(0) =~= s@);
        assert(out@ + spec_unescape(s@) =~= spec_unescape(s@));
    }
    while i < len
        invariant
            0 <= i <= len,
            len == s@.len(),
            spec_unescape(s@) == out@ + spec_unescape(s@.skip(i as int)),
        decreases len - i,
    {
        let ghost rest = s@.skip(i as int);
        proof {
            assert(forall|k: int| 0 <= k < rest.len() ==> rest[k] == s@[i + k]);
        }
        if len - i >= 4 && s.get_char(i) == '\\' && s.get_char(i + 1) == '0' && s.get_char(i + 2)
            == '4' && s.get_char(i + 3) == '0' {
            proof {
                reveal_strlit(" ");
                assert(rest.skip(4) =~= s@.skip(i as int + 4));
                assert(" "@ =~= seq![' ']);
                assert(out@ + (seq![' '] + spec_unescape(rest.skip(4))) =~= (out@ + " "@)
                    + spec_unescape(rest.skip(4)));
            }
            out.append(" ");
            i += 4;
        } else {
            let piece = s.substring_char(i, i + 1);
            proof {
                assert(piece@ =~= seq![s@[i as int]]);
                assert(rest.skip(1) =~= s@.skip(i as int + 1));
                assert(out@ + (seq![s@[i as int]] + spec_unescape(rest.skip(1))) =~= (out@
                    + piece@) + spec_unescape(rest.skip(1)));
            }
            out.append(piece);
            i += 1;
        }
    }
    proof {
        assert(s@.skip(len as int) =~= Seq::<char>::empty());
        assert(out@ + Seq::<char>::empty() =~= out@);
    }
    out
}

/// Underscores replaced by spaces, character for character.
pub open spec fn spec_underscores_to_spaces(s: Seq<char>) -> Seq<char> {
    s.map_values(|c: char| if c == '_' { ' ' } else { c })
}

pub fn underscores_to_spaces(s: &str) -> (r: String)
    ensures
        r@ == spec_underscores_to_spaces(s@),
{
    let len = s.unicode_len();
    let mut out: String = String::new();
    let mut i: usize = 0;
    while i < len
        invariant
            0 <= i <= len,
            len == s@.len(),
            out@ =~= spec_underscores_to_spaces(s@.take(i as int)),
        decreases len - i,
    {
        let c = s.get_char(i);
        if c == '_' {
            proof {
                reveal_strlit(" ");
                assert(" "@ =~= seq![' ']);
            }
            out.append(" ");
        } else {
            let piece = s.substring_char(i, i + 1);
            proof {
                assert(piece@ =~= seq![s@[i as int]]);
            }
            out.append(piece);
        }
        proof {
            assert(out@ =~= spec_underscores_to_spaces(s@.take(i as int + 1)));
        }
        i += 1;
    }
    proof {
        assert(s@.take(len as int) =~= s@);
    }
    out
}

/// String equality through the character views.
pub fn str_eq(a: &str, b: &str) -> (r: bool)
    ensures
        r == (a@ == b@),
{
    let al = a.unicode_len();
    let bl = b.unicode_len();
    if al != bl {
        proof {
            assert(a@ != b@);
        }
        return false;
    }
    let mut i: usize = 0;
    while i < al
        invariant
            0 <= i <= al,
            al == a@.len(),
            bl == b@.len(),
            al == bl,
            forall|j: int| 0 <= j < i ==> a@[j] == b@[j],
        decreases al - i,
    {
        if a.get_char(i) != b.get_char(i) {
            return false;
        }
        i += 1;
    }
    proof {
        assert(a@ =~= b@);
    }
    true
}

} // verus!
