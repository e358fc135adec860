//! What a player types: a move as `row, col, value`, the word that ends the
//! game, and the constraints of a puzzle as a list of numbers.

use vstd::prelude::*;

verus! {

/// Whether `c` is white space: a character with Unicode's `White_Space`
/// property.
pub open spec fn is_space(c: char) -> bool {
    let n = c as u32;
    ||| 0x09 <= n <= 0x0d
    ||| n == 0x20
    ||| n == 0x85
    ||| n == 0xa0
    ||| n == 0x1680
    ||| 0x2000 <= n <= 0x200a
    ||| n == 0x2028
    ||| n == 0x2029
    ||| n == 0x202f
    ||| n == 0x205f
    ||| n == 0x3000
}

/// Whether `c` is one of the digits `0` to `9`.
pub open spec fn is_digit(c: char) -> bool {
    0x30 <= c as u32 <= 0x39
}

/// The number that the digit `c` stands for.
pub open spec fn digit_of(c: char) -> nat {
    (c as u32 - 0x30) as nat
}

/// `s` without the white space at its start.
pub open spec fn trim_start(s: Seq<char>) -> Seq<char>
    decreases s.len(),
{
    if s.len() > 0 && is_space(s[0]) {
        trim_start(s.drop_first())
    } else {
        s
    }
}

/// `s` without the white space at its end.
pub open spec fn trim_end(s: Seq<char>) -> Seq<char>
    decreases s.len(),
{
    if s.len() > 0 && is_space(s.last()) {
        trim_end(s.drop_last())
    } else {
        s
    }
}

/// `s` without the white space at its two ends.
pub open spec fn trimmed(s: Seq<char>) -> Seq<char> {
    trim_end(trim_start(s))
}

/// The pieces of `s` between its commas: one more than it has commas, and
/// empty where two commas meet or a comma stands at an end.
pub open spec fn fields(s: Seq<char>) -> Seq<Seq<char>>
    decreases s.len(),
{
    if s.len() == 0 {
        seq![Seq::<char>::empty()]
    } else if s.last() == ',' {
        fields(s.drop_last()).push(Seq::<char>::empty())
    } else {
        let before = fields(s.drop_last());
        before.drop_last().push(before.last().push(s.last()))
    }
}

/// Whether `s` holds digits only.
pub open spec fn all_digits(s: Seq<char>) -> bool {
    forall|i: int| 0 <= i < s.len() ==> is_digit(#[trigger] s[i])
}

/// The number that the digits `s` spell out in base ten.
pub open spec fn digits_value(s: Seq<char>) -> nat
    decreases s.len(),
{
    if s.len() == 0 {
        0
    } else {
        digits_value(s.drop_last()) * 10 + digit_of(s.last())
    }
}

/// The number that `s` spells out: one digit or more, after at most one `+`.
/// Anything else is no number.
pub open spec fn number(s: Seq<char>) -> Option<nat> {
    let digits = if s.len() > 0 && s[0] == '+' {
        s.drop_first()
    } else {
        s
    };
    if digits.len() > 0 && all_digits(digits) {
        Some(digits_value(digits))
    } else {
        None
    }
}

/// What the field `s` stands for: the number that it spells out once the white
/// space around it is gone, where that is a number and no greater than `limit`.
pub open spec fn token(s: Seq<char>, limit: nat) -> Option<nat> {
    match number(trimmed(s)) {
        Some(n) => if n <= limit {
            Some(n)
        } else {
            None
        },
        None => None,
    }
}

/// The move that `s` spells out: three fields, the first two of them numbers
/// that fit a `usize` and the third a number that fits a `u8`.
pub open spec fn parsed_move(s: Seq<char>) -> Option<(usize, usize, u8)> {
    let f = fields(trimmed(s));
    if f.len() == 3 && token(f[0], usize::MAX as nat) is Some && token(f[1], usize::MAX as nat)
        is Some && token(f[2], u8::MAX as nat) is Some {
        Some(
            (
                token(f[0], usize::MAX as nat)->0 as usize,
                token(f[1], usize::MAX as nat)->0 as usize,
                token(f[2], u8::MAX as nat)->0 as u8,
            ),
        )
    } else {
        None
    }
}

/// Whether `s` asks to end the game: `q` or `quit`, white space around it
/// aside.
pub open spec fn asks_to_quit(s: Seq<char>) -> bool {
    trimmed(s) == seq!['q'] || trimmed(s) == seq!['q', 'u', 'i', 't']
}

/// Why a list of numbers was refused: the field at `index`, counted from 0, is
/// no number from 0 to 255. It is the first such field.
#[derive(Debug, Clone, Copy, PartialEq, Eq)]
pub struct BadNumber {
    pub index: usize,
}

/// A prefix of a run of digits spells out no greater a number than the run.
proof fn lemma_digits_prefix(s: Seq<char>, n: int)
    requires
        0 <= n <= s.len(),
    ensures
        digits_value(s.take(n)) <= digits_value(s),
    decreases s.len(),
{
    if n == s.len() {
        assert(s.take(n) =~= s);
    } else {
        lemma_digits_prefix(s.drop_last(), n);
        assert(s.drop_last().take(n) =~= s.take(n));
    }
}

fn chars_of(s: &str) -> (v: Vec<char>)
    ensures
        v@ == s@,
{
    let mut v: Vec<char> = Vec::new();
    for c in it: s.chars()
        invariant
            it.seq() == s@,
            v@ == it.seq().take(it.index()),
    {
        v.push(c);
    }
    v
}

fn space(c: char) -> (r: bool)
    ensures
        r == is_space(c),
{
    let n = c as u32;
    (0x09 <= n && n <= 0x0d) || n == 0x20 || n == 0x85 || n == 0xa0 || n == 0x1680 || (0x2000 <= n
        && n <= 0x200a) || n == 0x2028 || n == 0x2029 || n == 0x202f || n == 0x205f || n == 0x3000
}

/// The bounds of what is left of `v[lo..hi]` without the white space at its
/// two ends.
fn trim(v: &Vec<char>, lo: usize, hi: usize) -> (r: (usize, usize))
    requires
        lo <= hi <= v.len(),
    ensures
        lo <= r.0 <= r.1 <= hi,
        v@.subrange(r.0 as int, r.1 as int) == trimmed(v@.subrange(lo as int, hi as int)),
{
    let mut a = lo;
    while a < hi && space(v[a])
        invariant
            lo <= a <= hi <= v.len(),
            trim_start(v@.subrange(lo as int, hi as int)) == trim_start(
                v@.subrange(a as int, hi as int),
            ),
        decreases hi - a,
    {
        assert(v@.subrange(a as int, hi as int).drop_first() =~= v@.subrange(a + 1, hi as int));
        a = a + 1;
    }
    let mut b = hi;
    while b > a && space(v[b - 1])
        invariant
            a <= b <= hi <= v.len(),
            trim_end(v@.subrange(a as int, hi as int)) == trim_end(v@.subrange(a as int, b as int)),
        decreases b - a,
    {
        assert(v@.subrange(a as int, b as int).drop_last() =~= v@.subrange(a as int, b - 1));
        b = b - 1;
    }
    (a, b)
}

/// The bounds of the pieces of `v[lo..hi]` between its commas.
fn split(v: &Vec<char>, lo: usize, hi: usize) -> (parts: Vec<(usize, usize)>)
    requires
        lo <= hi <= v.len(),
    ensures
        parts.len() == fields(v@.subrange(lo as int, hi as int)).len(),
        forall|k: int|
            0 <= k < parts.len() ==> lo <= (#[trigger] parts[k]).0 <= parts[k].1 <= hi
                && v@.subrange(parts[k].0 as int, parts[k].1 as int) == fields(
                v@.subrange(lo as int, hi as int),
            )[k],
{
    let mut parts: Vec<(usize, usize)> = Vec::new();
    let mut start = lo;
    let mut i = lo;
    while i < hi
        invariant
            lo <= start <= i <= hi <= v.len(),
            fields(v@.subrange(lo as int, i as int)).len() == parts.len() + 1,
            fields(v@.subrange(lo as int, i as int)).last() == v@.subrange(start as int, i as int),
            forall|k: int|
                0 <= k < parts.len() ==> lo <= (#[trigger] parts[k]).0 <= parts[k].1 <= hi
                    && v@.subrange(parts[k].0 as int, parts[k].1 as int) == fields(
                    v@.subrange(lo as int, i as int),
                )[k],
        decreases hi - i,
    {
        let ghost before = fields(v@.subrange(lo as int, i as int));
        proof {
            assert(v@.subrange(lo as int, i + 1).drop_last() =~= v@.subrange(lo as int, i as int));
            assert(v@.subrange(lo as int, i + 1).last() == v@[i as int]);
        }
        if v[i] == ',' {
            parts.push((start, i));
            start = i + 1;
            assert(v@.subrange(start as int, start as int) =~= Seq::<char>::empty());
        } else {
            assert(v@.subrange(start as int, i as int).push(v@[i as int]) =~= v@.subrange(
                start as int,
                i + 1,
            ));
        }
        i = i + 1;
    }
    parts.push((start, hi));
    parts
}

/// The number that `v[lo..hi]` spells out, where it is one and no greater than
/// `limit`.
fn parse_number(v: &Vec<char>, lo: usize, hi: usize, limit: usize) -> (r: Option<usize>)
    requires
        lo <= hi <= v.len(),
    ensures
        r is Some <==> number(v@.subrange(lo as int, hi as int)) is Some && number(
            v@.subrange(lo as int, hi as int),
        )->0 <= limit,
        r is Some ==> r->0 == number(v@.subrange(lo as int, hi as int))->0,
{
    let ghost s = v@.subrange(lo as int, hi as int);
    let first = if lo < hi && v[lo] == '+' {
        lo + 1
    } else {
        lo
    };
    let ghost digits = v@.subrange(first as int, hi as int);
    proof {
        if first == lo {
            assert(digits =~= s);
        } else {
            assert(digits =~= s.drop_first());
        }
    }
    if first == hi {
        return None;
    }
    let mut acc: usize = 0;
    let mut i = first;
    while i < hi
        invariant
            lo <= first <= i <= hi <= v.len(),
            digits == v@.subrange(first as int, hi as int),
            digits.len() > 0,
            number(v@.subrange(lo as int, hi as int)) == if all_digits(digits) {
                Some(digits_value(digits))
            } else {
                None::<nat>
            },
            all_digits(digits.take(i - first)),
            acc == digits_value(digits.take(i - first)),
            acc <= limit,
        decreases hi - i,
    {
        let c = v[i];
        let n = c as u32;
        let ghost seen = digits.take(i - first);
        let ghost next = digits.take(i + 1 - first);
        proof {
            assert(next.drop_last() =~= seen);
            assert(next.last() == c);
            assert(digits[i - first] == c);
        }
        if n < 0x30 || n > 0x39 {
            assert(!all_digits(digits));
            return None;
        }
        let d = (n - 0x30) as usize;
        proof {
            assert(d == digit_of(c));
            assert forall|j: int| 0 <= j < next.len() implies is_digit(#[trigger] next[j]) by {
                if j < seen.len() {
                    assert(seen[j] == next[j]);
                }
            }
            if all_digits(digits) {
                lemma_digits_prefix(digits, i + 1 - first);
            }
        }
        match acc.checked_mul(10) {
            Some(tens) => match tens.checked_add(d) {
                Some(sum) => {
                    if sum > limit {
                        return None;
                    }
                    acc = sum;
                },
                None => {
                    return None;
                },
            },
            None => {
                return None;
            },
        }
        i = i + 1;
    }
    assert(digits.take(hi - first) =~= digits);
    Some(acc)
}

/// What the field `v[lo..hi]` stands for under `limit`.
fn parse_token(v: &Vec<char>, lo: usize, hi: usize, limit: usize) -> (r: Option<usize>)
    requires
        lo <= hi <= v.len(),
    ensures
        r is Some <==> token(v@.subrange(lo as int, hi as int), limit as nat) is Some,
        r is Some ==> r->0 == token(v@.subrange(lo as int, hi as int), limit as nat)->0,
{
    let (a, b) = trim(v, lo, hi);
    assert(v@.subrange(lo as int, hi as int).subrange(a - lo, b - lo) =~= v@.subrange(
        a as int,
        b as int,
    ));
    parse_number(v, a, b, limit)
}

/// Reads a move, written as `row, col, value`: three numbers between commas,
/// with white space allowed around each. Anything else is no move.
pub fn parse_input(input: &str) -> (mv: Option<(usize, usize, u8)>)
    ensures
        mv == parsed_move(input@),
{
    let v = chars_of(input);
    let (a, b) = trim(&v, 0, v.len());
    assert(v@.subrange(0, v.len() as int) =~= v@);
    let vals = split(&v, a, b);
    if vals.len() == 3 {
        let row = parse_token(&v, vals[0].0, vals[0].1, usize::MAX);
        let col = parse_token(&v, vals[1].0, vals[1].1, usize::MAX);
        let val = parse_token(&v, vals[2].0, vals[2].1, 255);
        match (row, col, val) {
            (Some(row), Some(col), Some(val)) => Some((row, col, val as u8)),
            _ => None,
        }
    } else {
        None
    }
}

/// Whether the player asked to end the game: `q` or `quit`, white space around
/// it aside.
pub fn quit_input(input: &str) -> (quit: bool)
    ensures
        quit == asks_to_quit(input@),
{
    let v = chars_of(input);
    let (a, b) = trim(&v, 0, v.len());
    assert(v@.subrange(0, v.len() as int) =~= v@);
    let ghost word = v@.subrange(a as int, b as int);
    if b - a == 1 {
        let quit = v[a] == 'q';
        proof {
            assert(word[0] == v@[a as int]);
            if quit {
                assert(word =~= seq!['q']);
            } else {
                assert(seq!['q'][0] == 'q');
                assert(seq!['q', 'u', 'i', 't'].len() == 4);
            }
        }
        quit
    } else if b - a == 4 {
        let quit = v[a] == 'q' && v[a + 1] == 'u' && v[a + 2] == 'i' && v[a + 3] == 't';
        proof {
            assert(word[0] == v@[a as int]);
            assert(word[1] == v@[a + 1]);
            assert(word[2] == v@[a + 2]);
            assert(word[3] == v@[a + 3]);
            let quit_word = seq!['q', 'u', 'i', 't'];
            assert(quit_word[0] == 'q' && quit_word[1] == 'u' && quit_word[2] == 'i'
                && quit_word[3] == 't');
            if quit {
                assert(word =~= quit_word);
            }
            assert(seq!['q'].len() == 1);
        }
        quit
    } else {
        proof {
            assert(seq!['q'].len() == 1);
            assert(seq!['q', 'u', 'i', 't'].len() == 4);
        }
        false
    }
}

/// Reads a list of numbers from 0 to 255 between commas, with white space
/// allowed around each. The first field that is no such number is named by
/// its index.
pub fn parse_list(input: &str) -> (list: Result<Vec<u8>, BadNumber>)
    ensures
        match list {
            Ok(nums) => nums.len() == fields(trimmed(input@)).len() && forall|k: int|
                0 <= k < nums.len() ==> token(
                    #[trigger] fields(trimmed(input@))[k],
                    u8::MAX as nat,
                ) == Some(nums[k] as nat),
            Err(bad) => bad.index < fields(trimmed(input@)).len() && token(
                fields(trimmed(input@))[bad.index as int],
                u8::MAX as nat,
            ) is None && forall|k: int|
                0 <= k < bad.index ==> token(
                    #[trigger] fields(trimmed(input@))[k],
                    u8::MAX as nat,
                ) is Some,
        },
{
    let v = chars_of(input);
    let (a, b) = trim(&v, 0, v.len());
    assert(v@.subrange(0, v.len() as int) =~= v@);
    let vals = split(&v, a, b);
    let ghost f = fields(trimmed(input@));
    let mut res: Vec<u8> = Vec::new();
    let mut i: usize = 0;
    while i < vals.len()
        invariant
            i <= vals.len(),
            a <= b <= v.len(),
            f == fields(trimmed(input@)),
            vals.len() == f.len(),
            forall|k: int|
                0 <= k < vals.len() ==> a <= (#[trigger] vals[k]).0 <= vals[k].1 <= b && v@.subrange(
                    vals[k].0 as int,
                    vals[k].1 as int,
                ) == f[k],
            res.len() == i,
            forall|k: int|
                0 <= k < i ==> token(#[trigger] f[k], u8::MAX as nat) == Some(res[k] as nat),
        decreases vals.len() - i,
    {
        assert(v@.subrange(vals[i as int].0 as int, vals[i as int].1 as int) == f[i as int]);
        match parse_token(&v, vals[i].0, vals[i].1, 255) {
            Some(item) => {
                res.push(item as u8);
            },
            None => {
                return Err(BadNumber { index: i });
            },
        }
        i = i + 1;
    }
    Ok(res)
}

} // verus!
