//! Splitting text on a separator character and reading unsigned decimal
//! numbers, together with the sequence-level specifications of both.

use vstd::prelude::*;
use vstd::string::StrSliceExecFns;
use vstd::string::StringExecFns;

verus! {

/// The pieces of `s` between occurrences of `sep`, in order. A string with
/// no separator yields one piece; every separator adds one more, so the
/// empty string yields one empty piece.
pub open spec fn split_on(s: Seq<char>, sep: char) -> Seq<Seq<char>>
    decreases s.len(),
{
    if s.len() == 0 {
        seq![Seq::<char>::empty()]
    } else {
        let front = split_on(s.drop_last(), sep);
        if s.last() == sep {
            front.push(Seq::<char>::empty())
        } else {
            front.update(front.len() - 1, front.last().push(s.last()))
        }
    }
}

/// Splitting always yields at least one piece.
pub proof fn lemma_split_on_len(s: Seq<char>, sep: char)
    ensures
        split_on(s, sep).len() >= 1,
    decreases s.len(),
{
    if s.len() != 0 {
        lemma_split_on_len(s.drop_last(), sep);
    }
}

/// Appending one character extends the last piece, or opens a new empty
/// piece when the character is the separator.
pub proof fn lemma_split_on_push(t: Seq<char>, c: char, sep: char)
    ensures
        c == sep ==> split_on(t.push(c), sep) =~~= split_on(t, sep).push(Seq::<char>::empty()),
        c != sep ==> split_on(t.push(c), sep) =~~= split_on(t, sep).update(
            split_on(t, sep).len() - 1,
            split_on(t, sep).last().push(c),
        ),
{
    lemma_split_on_len(t, sep);
    assert(t.push(c).drop_last() =~= t);
    assert(t.push(c).last() == c);
}

/// A string that holds no separator splits into itself alone.
pub proof fn lemma_split_on_whole(s: Seq<char>, sep: char)
    requires
        forall|i: int| 0 <= i < s.len() ==> s[i] != sep,
    ensures
        split_on(s, sep) =~~= seq![s],
    decreases s.len(),
{
    if s.len() != 0 {
        lemma_split_on_whole(s.drop_last(), sep);
        assert(s.drop_last().push(s.last()) =~= s);
    }
}

/// Splitting a string that starts with a separator-free piece, then the
/// separator, yields that piece followed by the split of the rest.
pub proof fn lemma_split_on_concat(piece: Seq<char>, rest: Seq<char>, sep: char)
    requires
        forall|i: int| 0 <= i < piece.len() ==> piece[i] != sep,
    ensures
        split_on(piece + seq![sep] + rest, sep) =~~= seq![piece] + split_on(rest, sep),
    decreases rest.len(),
{
    let s = piece + seq![sep] + rest;
    if rest.len() == 0 {
        assert(s.drop_last() =~= piece);
        assert(s.last() == sep);
        lemma_split_on_whole(piece, sep);
    } else {
        let r2 = rest.drop_last();
        assert(s.drop_last() =~= piece + seq![sep] + r2);
        assert(s.last() == rest.last());
        lemma_split_on_concat(piece, r2, sep);
        lemma_split_on_len(r2, sep);
        let g = split_on(r2, sep);
        assert(split_on(s.drop_last(), sep) =~~= seq![piece] + g);
        assert((seq![piece] + g).len() == 1 + g.len());
        assert((seq![piece] + g).last() =~= g.last());
        if rest.last() != sep {
            assert((seq![piece] + g).update(g.len() as int, g.last().push(rest.last())) =~~= seq![
                piece,
            ] + g.update(g.len() - 1, g.last().push(rest.last())));
        }
    }
}

/// The views of a vector of owned strings.
pub open spec fn views_of(parts: Seq<String>) -> Seq<Seq<char>> {
    parts.map_values(|p: String| p@)
}

/// Splits `s` on the separator `sep`, as `split_on` describes.
pub fn split_str(s: &str, sep: char) -> (parts: Vec<String>)
    ensures
        views_of(parts@) =~~= split_on(s@, sep),
        parts@.len() >= 1,
{
    let n: usize = s.unicode_len();
    let mut parts: Vec<String> = Vec::new();
    let mut seg_start: usize = 0;
    let mut i: usize = 0;
    while i < n
        invariant
            n == s@.len(),
            seg_start <= i <= n,
            views_of(parts@) =~~= split_on(s@.subrange(0, i as int), sep).drop_last(),
            s@.subrange(seg_start as int, i as int) =~= split_on(s@.subrange(0, i as int), sep).last(),
        decreases n - i,
    {
        let c = s.get_char(i);
        proof {
            lemma_split_on_len(s@.subrange(0, i as int), sep);
            lemma_split_on_push(s@.subrange(0, i as int), s@[i as int], sep);
            assert(s@.subrange(0, i as int + 1) =~= s@.subrange(0, i as int).push(s@[i as int]));
        }
        if c == sep {
            let piece = s.substring_char(seg_start, i);
            let ghost vold = parts@;
            let owned = String::from_str(piece);
            parts.push(owned);
            proof {
                let x = split_on(s@.subrange(0, i as int), sep);
                assert(parts@ == vold.push(owned));
                assert(views_of(vold.push(owned)) =~~= views_of(vold).push(owned@));
                assert(views_of(parts@) =~~= x.drop_last().push(x.last()));
                assert(x.drop_last().push(x.last()) =~~= x);
                assert(split_on(s@.subrange(0, i as int + 1), sep).drop_last() =~~= x);
            }
            seg_start = i + 1;
            proof {
                assert(s@.subrange(seg_start as int, i as int + 1) =~= Seq::<char>::empty());
            }
        } else {
            proof {
                assert(s@.subrange(seg_start as int, i as int + 1) =~= s@.subrange(
                    seg_start as int,
                    i as int,
                ).push(s@[i as int]));
            }
        }
        i = i + 1;
    }
    let piece = s.substring_char(seg_start, n);
    let ghost vold = parts@;
    let owned = String::from_str(piece);
    parts.push(owned);
    proof {
        lemma_split_on_len(s@.subrange(0, n as int), sep);
        assert(s@.subrange(0, n as int) =~= s@);
        let x = split_on(s@, sep);
        assert(parts@ == vold.push(owned));
        assert(views_of(vold.push(owned)) =~~= views_of(vold).push(owned@));
        assert(views_of(parts@) =~~= x.drop_last().push(x.last()));
        assert(x.drop_last().push(x.last()) =~~= x);
    }
    parts
}

/// A decimal digit character.
pub open spec fn is_digit_char(c: char) -> bool {
    48 <= c as int <= 57
}

/// The numeric value of a decimal digit character.
pub open spec fn digit_val(c: char) -> int {
    c as int - 48
}

/// Every character of `s` is a decimal digit.
pub open spec fn all_digits(s: Seq<char>) -> bool {
    forall|i: int| 0 <= i < s.len() ==> is_digit_char(#[trigger] s[i])
}

/// The value of a decimal digit string, most significant digit first.
pub open spec fn dec_val(s: Seq<char>) -> int
    decreases s.len(),
{
    if s.len() == 0 {
        0
    } else {
        dec_val(s.drop_last()) * 10 + digit_val(s.last())
    }
}

/// `s` is a non-empty, all-digit string whose value is at most `max`.
pub open spec fn is_dec_in_range(s: Seq<char>, max: int) -> bool {
    s.len() > 0 && all_digits(s) && dec_val(s) <= max
}

/// A digit string's value is non-negative.
pub proof fn lemma_dec_val_nonneg(s: Seq<char>)
    requires
        all_digits(s),
    ensures
        dec_val(s) >= 0,
    decreases s.len(),
{
    if s.len() != 0 {
        assert(all_digits(s.drop_last()));
        lemma_dec_val_nonneg(s.drop_last());
    }
}

/// A digit string's value is at least the value of any of its prefixes.
pub proof fn lemma_dec_val_prefix(s: Seq<char>, i: int)
    requires
        all_digits(s),
        0 <= i <= s.len(),
    ensures
        dec_val(s) >= dec_val(s.subrange(0, i)),
    decreases s.len() - i,
{
    if i == s.len() {
        assert(s.subrange(0, i) =~= s);
    } else {
        let t = s.subrange(0, i + 1);
        assert(t.drop_last() =~= s.subrange(0, i));
        assert(all_digits(s.subrange(0, i)));
        lemma_dec_val_nonneg(s.subrange(0, i));
        lemma_dec_val_prefix(s, i + 1);
    }
}

/// Reads `seg` as an unsigned decimal number of value at most `max`.
/// Returns `None` exactly when `seg` is empty, holds a non-digit, or its
/// value exceeds `max`.
pub fn parse_dec(seg: &str, max: u32) -> (r: Option<u32>)
    requires
        max <= 0xFFFF,
    ensures
        r is Some <==> is_dec_in_range(seg@, max as int),
        r is Some ==> r->0 as int == dec_val(seg@) && r->0 <= max,
{
    let n: usize = seg.unicode_len();
    if n == 0 {
        return None;
    }
    let mut acc: u32 = 0;
    let mut i: usize = 0;
    while i < n
        invariant
            0 <= i <= n,
            n == seg@.len(),
            n > 0,
            max <= 0xFFFF,
            all_digits(seg@.subrange(0, i as int)),
            acc as int == dec_val(seg@.subrange(0, i as int)),
            acc <= max,
        decreases n - i,
    {
        let c = seg.get_char(i);
        let v: u32 = c as u32;
        if v < 48 || v > 57 {
            proof {
                assert(!is_digit_char(seg@[i as int]));
            }
            return None;
        }
        let d: u32 = v - 48;
        let acc2: u32 = acc * 10 + d;
        proof {
            assert(seg@.subrange(0, i as int + 1).drop_last() =~= seg@.subrange(0, i as int));
            assert(all_digits(seg@.subrange(0, i as int + 1)));
            assert(acc2 as int == dec_val(seg@.subrange(0, i as int + 1)));
        }
        if acc2 > max {
            proof {
                if all_digits(seg@) {
                    lemma_dec_val_prefix(seg@, i as int + 1);
                }
            }
            return None;
        }
        acc = acc2;
        i = i + 1;
    }
    proof {
        assert(seg@.subrange(0, n as int) =~= seg@);
    }
    Some(acc)
}

} // verus!
