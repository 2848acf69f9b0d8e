//! Comma-separated lists as the command line gives them: tags, references
//! and note IDs.
use vstd::prelude::*;
use crate::error::Error;
use crate::text::{texts, trim_of, trim_text};

verus! {

/// The pieces of a text between its commas (one piece where it has none).
pub open spec fn comma_split(s: Seq<char>) -> Seq<Seq<char>>
    decreases s.len(),
{
    if s.len() == 0 {
        seq![Seq::empty()]
    } else {
        let before = comma_split(s.drop_last());
        if s.last() == ',' {
            before.push(Seq::empty())
        } else {
            before.update(before.len() - 1, before.last().push(s.last()))
        }
    }
}

/// The pieces trimmed, with the empty ones dropped.
pub open spec fn kept_pieces(p: Seq<Seq<char>>) -> Seq<Seq<char>>
    decreases p.len(),
{
    if p.len() == 0 {
        Seq::empty()
    } else {
        let before = kept_pieces(p.drop_last());
        let t = trim_of(p.last());
        if t.len() == 0 {
            before
        } else {
            before.push(t)
        }
    }
}

/// A decimal digit.
pub open spec fn is_digit(c: char) -> bool {
    '0' <= c && c <= '9'
}

/// The value of a run of decimal digits.
pub open spec fn digits_value(s: Seq<char>) -> int
    decreases s.len(),
{
    if s.len() == 0 {
        0
    } else {
        10 * digits_value(s.drop_last()) + ((s.last() as u32) as int - 48)
    }
}

/// The text without its leading sign, if it has one.
pub open spec fn unsigned_part(s: Seq<char>) -> Seq<char> {
    if s.len() > 0 && (s[0] == '+' || s[0] == '-') {
        s.drop_first()
    } else {
        s
    }
}

/// The `i64` that a text writes in decimal (an optional sign, then at least
/// one digit), as `str::parse::<i64>` reads it; `None` for any other text or
/// a value out of range.
pub open spec fn decimal_of(s: Seq<char>) -> Option<i64> {
    let d = unsigned_part(s);
    let v = if s.len() > 0 && s[0] == '-' { -digits_value(d) } else { digits_value(d) };
    if d.len() > 0 && (forall|i: int| 0 <= i < d.len() ==> is_digit(d[i])) && i64::MIN <= v <= i64::MAX {
        Some(v as i64)
    } else {
        None
    }
}

/// The IDs that the pieces write, or `None` where one of them is no ID.
pub open spec fn id_list(p: Seq<Seq<char>>) -> Option<Seq<i64>>
    decreases p.len(),
{
    if p.len() == 0 {
        Some(Seq::empty())
    } else {
        match id_list(p.drop_last()) {
            Some(before) => match decimal_of(p.last()) {
                Some(v) => Some(before.push(v)),
                None => None,
            },
            None => None,
        }
    }
}

proof fn lemma_comma_split_len(s: Seq<char>)
    ensures
        comma_split(s).len() >= 1,
    decreases s.len(),
{
    if s.len() > 0 {
        lemma_comma_split_len(s.drop_last());
    }
}

proof fn lemma_digits_grow(s: Seq<char>, k: int)
    requires
        0 <= k <= s.len(),
        forall|i: int| 0 <= i < s.len() ==> is_digit(s[i]),
    ensures
        digits_value(s.subrange(0, k)) <= digits_value(s),
        0 <= digits_value(s),
    decreases s.len(),
{
    if s.len() > 0 {
        assert(s.drop_last() =~= s.subrange(0, s.len() - 1));
        if k < s.len() {
            lemma_digits_grow(s.drop_last(), k);
            assert(s.drop_last().subrange(0, k) =~= s.subrange(0, k));
        } else {
            assert(s.subrange(0, k) =~= s);
            lemma_digits_grow(s.drop_last(), 0);
        }
        assert(is_digit(s.last()));
    } else {
        assert(s.subrange(0, k) =~= s);
    }
}

/// Reads a decimal `i64` as [`decimal_of`] states.
pub fn parse_i64(s: &str) -> (r: Option<i64>)
    ensures
        r == decimal_of(s@),
{
    let n = s.unicode_len();
    let mut start: usize = 0;
    let mut neg = false;
    if n > 0 {
        let c = s.get_char(0);
        if c == '-' {
            neg = true;
            start = 1;
        } else if c == '+' {
            start = 1;
        }
    }
    let ghost d = unsigned_part(s@);
    assert(d =~= s@.subrange(start as int, n as int));
    if start >= n {
        assert(d.len() == 0);
        return None;
    }
    let mut mag: u64 = 0;
    let mut i: usize = start;
    while i < n
        invariant
            start <= i <= n,
            n == s@.len(),
            d == unsigned_part(s@),
            neg == (s@.len() > 0 && s@[0] == '-'),
            d == s@.subrange(start as int, n as int),
            mag as int == digits_value(d.subrange(0, i - start)),
            mag <= 9223372036854775808u64,
            forall|k: int| 0 <= k < i - start ==> is_digit(d[k]),
        decreases n - i,
    {
        let c = s.get_char(i);
        if !(c >= '0' && c <= '9') {
            assert(d[i - start] == s@[i as int]);
            assert(!is_digit(d[i - start]));
            assert(!(forall|k: int| 0 <= k < d.len() ==> is_digit(d[k])));
            return None;
        }
        let digit: u64 = (c as u32 - 48) as u64;
        proof {
            assert(d.subrange(0, i - start + 1).drop_last() =~= d.subrange(0, i - start));
            assert(d.subrange(0, i - start + 1).last() == c);
        }
        if mag > (9223372036854775808u64 - digit) / 10 {
            proof {
                assert(10 * mag + digit > 9223372036854775808u64) by (nonlinear_arith)
                    requires
                        mag > (9223372036854775808u64 - digit) / 10,
                        digit <= 9;
                if forall|k: int| 0 <= k < d.len() ==> is_digit(d[k]) {
                    lemma_digits_grow(d, i - start + 1);
                }
            }
            return None;
        }
        proof {
            assert(10 * mag + digit <= 9223372036854775808u64) by (nonlinear_arith)
                requires
                    mag <= (9223372036854775808u64 - digit) / 10,
                    digit <= 9;
        }
        mag = mag * 10 + digit;
        i = i + 1;
    }
    assert(d.subrange(0, n - start) =~= d);
    if neg {
        if mag == 9223372036854775808u64 {
            Some(i64::MIN)
        } else {
            Some(-(mag as i64))
        }
    } else if mag > 9223372036854775807u64 {
        None
    } else {
        Some(mag as i64)
    }
}

/// The trimmed, non-empty pieces of a comma-separated list.
pub fn parse_tags(list: &str) -> (r: Vec<String>)
    ensures
        texts(r@) == kept_pieces(comma_split(list@)),
{
    let n = list.unicode_len();
    let mut r: Vec<String> = Vec::new();
    let mut start: usize = 0;
    let mut i: usize = 0;
    let ghost mut done: Seq<Seq<char>> = Seq::empty();
    assert(list@.subrange(0, 0) =~= Seq::<char>::empty());
    assert(comma_split(list@.subrange(0, 0)) =~= done.push(list@.subrange(0, 0)));
    while i < n
        invariant
            start <= i <= n,
            n == list@.len(),
            comma_split(list@.subrange(0, i as int)) == done.push(list@.subrange(start as int, i as int)),
            texts(r@) == kept_pieces(done),
        decreases n - i,
    {
        let c = list.get_char(i);
        proof {
            let pre = list@.subrange(0, i as int);
            let post = list@.subrange(0, i + 1);
            assert(post.drop_last() =~= pre);
            assert(post.last() == c);
            lemma_comma_split_len(pre);
        }
        if c == ',' {
            let piece = trim_text(list.substring_char(start, i));
            let ghost full = done.push(list@.subrange(start as int, i as int));
            proof {
                assert(full.drop_last() =~= done);
            }
            if piece.unicode_len() > 0 {
                let ghost pv = piece@;
                r.push(piece);
                assert(texts(r@) =~= kept_pieces(done).push(pv));
            }
            proof {
                done = full;
                assert(list@.subrange(i + 1, i + 1) =~= Seq::<char>::empty());
            }
            start = i + 1;
        } else {
            proof {
                assert(list@.subrange(start as int, i + 1) =~= list@.subrange(start as int, i as int).push(c));
                assert(done.push(list@.subrange(start as int, i as int)).update(done.len() as int,
                    list@.subrange(start as int, i + 1)) =~= done.push(list@.subrange(start as int, i + 1)));
            }
        }
        i = i + 1;
    }
    let piece = trim_text(list.substring_char(start, n));
    let ghost full = done.push(list@.subrange(start as int, n as int));
    proof {
        assert(list@.subrange(0, n as int) =~= list@);
        assert(full.drop_last() =~= done);
    }
    if piece.unicode_len() > 0 {
        let ghost pv = piece@;
        r.push(piece);
        assert(texts(r@) =~= kept_pieces(done).push(pv));
    }
    r
}

/// The note IDs of a comma-separated list; a piece that is no ID is a
/// validation error.
pub fn parse_ids(ids: &str) -> (r: Result<Vec<i64>, Error>)
    ensures
        match id_list(kept_pieces(comma_split(ids@))) {
            Some(v) => r matches Ok(x) && x@ == v,
            None => r matches Err(e) && e is Validation,
        },
{
    let pieces = parse_tags(ids);
    let ghost p = texts(pieces@);
    let mut r: Vec<i64> = Vec::new();
    let mut i: usize = 0;
    while i < pieces.len()
        invariant
            i <= pieces.len(),
            p == texts(pieces@),
            p == kept_pieces(comma_split(ids@)),
            id_list(p.subrange(0, i as int)) == Some(r@),
        decreases pieces.len() - i,
    {
        proof {
            assert(p.subrange(0, i + 1).drop_last() =~= p.subrange(0, i as int));
            assert(p.subrange(0, i + 1).last() == pieces@[i as int]@);
        }
        match parse_i64(pieces[i].as_str()) {
            Some(v) => {
                r.push(v);
            },
            None => {
                proof {
                    assert(id_list(p.subrange(0, i + 1)) is None);
                    lemma_id_list_none(p, i + 1);
                    assert(id_list(p) is None);
                }
                let mut msg = String::from_str("Invalid note ID: ");
                msg.append(pieces[i].as_str());
                return Err(Error::Validation(msg));
            },
        }
        i = i + 1;
    }
    assert(p.subrange(0, pieces.len() as int) =~= p);
    Ok(r)
}

proof fn lemma_id_list_none(p: Seq<Seq<char>>, k: int)
    requires
        0 <= k <= p.len(),
        id_list(p.subrange(0, k)) is None,
    ensures
        id_list(p) is None,
    decreases p.len() - k,
{
    if k < p.len() {
        assert(p.subrange(0, k + 1).drop_last() =~= p.subrange(0, k));
        lemma_id_list_none(p, k + 1);
    } else {
        assert(p.subrange(0, k) =~= p);
    }
}

} // verus!
