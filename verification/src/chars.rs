//! Reading text: strings as character sequences, white space, words and whole numbers.
use crate::snapshot::joined;
use vstd::arithmetic::power::pow;
use vstd::prelude::*;
use vstd::slice::slice_subrange;

verus! {

/// The characters of a string.
pub fn to_chars(s: &str) -> (r: Vec<char>)
    ensures
        r@ == s@,
{
    let mut r: Vec<char> = Vec::new();
    for c in it: s.chars()
        invariant
            it.seq() == s@,
            r@ == s@.take(it.index()),
    {
        r.push(c);
        assert(r@ =~= s@.take(it.index() + 1));
    }
    assert(r@ =~= s@);
    r
}

/// The string of the given characters.
pub fn from_chars(chars: &[char]) -> (r: String)
    ensures
        r@ == chars@,
{
    let mut r = String::new();
    let mut i: usize = 0;
    while i < chars.len()
        invariant
            i <= chars@.len(),
            r@ == chars@.take(i as int),
        decreases chars@.len() - i,
    {
        r.push(chars[i]);
        i += 1;
        assert(chars@.take(i as int) =~= chars@.take(i - 1).push(chars@[i - 1]));
    }
    assert(chars@.take(i as int) =~= chars@);
    r
}

/// Whether a character is white space (the Unicode property `White_Space`).
pub open spec fn is_white(c: char) -> bool {
    let n = c as u32;
    ||| 0x09 <= n <= 0x0d
    ||| n == 0x20
    ||| n == 0x85
    ||| n == 0xa0
    ||| n == 0x1680
    ||| 0x2000 <= n <= 0x200a
    ||| n == 0x2028
    ||| n == 0x2029
    ||| n == 0x202f
    ||| n == 0x205f
    ||| n == 0x3000
}

fn white(c: char) -> (r: bool)
    ensures
        r == is_white(c),
{
    let n: u32 = c as u32;
    (0x09 <= n && n <= 0x0d) || n == 0x20 || n == 0x85 || n == 0xa0 || n == 0x1680 || (0x2000 <= n
        && n <= 0x200a) || n == 0x2028 || n == 0x2029 || n == 0x202f || n == 0x205f || n == 0x3000
}

/// `s` without the white space at its start.
pub open spec fn trimmed_start(s: Seq<char>) -> Seq<char>
    decreases s.len(),
{
    if s.len() > 0 && is_white(s[0]) {
        trimmed_start(s.skip(1))
    } else {
        s
    }
}

/// `s` without the white space at its end.
pub open spec fn trimmed_end(s: Seq<char>) -> Seq<char>
    decreases s.len(),
{
    if s.len() > 0 && is_white(s.last()) {
        trimmed_end(s.drop_last())
    } else {
        s
    }
}

/// `s` without the white space at its ends.
pub open spec fn trimmed(s: Seq<char>) -> Seq<char> {
    trimmed_end(trimmed_start(s))
}

/// Drop the white space at the ends.
pub fn trim(s: &[char]) -> (r: &[char])
    ensures
        r@ == trimmed(s@),
{
    let mut from: usize = 0;
    assert(s@.skip(0) =~= s@);
    while from < s.len() && white(s[from])
        invariant
            from <= s@.len(),
            trimmed_start(s@) == trimmed_start(s@.skip(from as int)),
        decreases s@.len() - from,
    {
        from += 1;
        assert(s@.skip(from - 1).skip(1) =~= s@.skip(from as int));
    }
    let ghost rest = s@.skip(from as int);
    let mut to: usize = s.len();
    assert(s@.subrange(from as int, to as int) =~= rest);
    while from < to && white(s[to - 1])
        invariant
            from <= to <= s@.len(),
            trimmed_end(rest) == trimmed_end(s@.subrange(from as int, to as int)),
        decreases to,
    {
        to -= 1;
        assert(s@.subrange(from as int, to + 1).drop_last() =~= s@.subrange(from as int, to as int));
    }
    slice_subrange(s, from, to)
}

/// What stands before the suffix `x`, if `s` ends in it.
pub open spec fn before_suffix(s: Seq<char>, x: Seq<char>) -> Option<Seq<char>> {
    if x.len() <= s.len() && s.skip(s.len() - x.len()) == x {
        Some(s.take(s.len() - x.len()))
    } else {
        None
    }
}

/// What stands after the prefix `x`, if `s` begins with it.
pub open spec fn after_prefix(s: Seq<char>, x: Seq<char>) -> Option<Seq<char>> {
    if x.len() <= s.len() && s.take(x.len() as int) == x {
        Some(s.skip(x.len() as int))
    } else {
        None
    }
}

/// What an optional run of characters says.
pub open spec fn opt_chars(s: Option<&[char]>) -> Option<Seq<char>> {
    match s {
        Some(s) => Some(s@),
        None => None,
    }
}

/// Whether two runs of characters are equal.
pub fn chars_eq(a: &[char], b: &[char]) -> (r: bool)
    ensures
        r == (a@ == b@),
{
    if a.len() != b.len() {
        return false;
    }
    let mut i: usize = 0;
    while i < a.len()
        invariant
            i <= a@.len(),
            a@.len() == b@.len(),
            forall|j: int| 0 <= j < i ==> a@[j] == b@[j],
        decreases a@.len() - i,
    {
        if a[i] != b[i] {
            return false;
        }
        i += 1;
    }
    assert(a@ =~= b@);
    true
}

/// What stands before the suffix `x`, if `s` ends in it.
pub fn strip_suffix<'a>(s: &'a [char], x: &str) -> (r: Option<&'a [char]>)
    ensures
        opt_chars(r) == before_suffix(s@, x@),
{
    let x = to_chars(x);
    if x.len() > s.len() {
        return None;
    }
    let at: usize = s.len() - x.len();
    let tail = slice_subrange(s, at, s.len());
    assert(tail@ =~= s@.skip(at as int));
    if chars_eq(tail, x.as_slice()) {
        let head = slice_subrange(s, 0, at);
        assert(head@ =~= s@.take(at as int));
        Some(head)
    } else {
        None
    }
}

/// What stands after the prefix `x`, if `s` begins with it.
pub fn strip_prefix<'a>(s: &'a [char], x: &str) -> (r: Option<&'a [char]>)
    ensures
        opt_chars(r) == after_prefix(s@, x@),
{
    let x = to_chars(x);
    if x.len() > s.len() {
        return None;
    }
    let head = slice_subrange(s, 0, x.len());
    assert(head@ =~= s@.take(x@.len() as int));
    if chars_eq(head, x.as_slice()) {
        let tail = slice_subrange(s, x.len(), s.len());
        assert(tail@ =~= s@.skip(x@.len() as int));
        Some(tail)
    } else {
        None
    }
}

/// The value of a decimal digit.
pub open spec fn digit_value(c: char) -> Option<nat> {
    if '0' <= c <= '9' {
        Some((c as u32 - 0x30) as nat)
    } else {
        None
    }
}

/// The value of a hexadecimal digit, of either case.
pub open spec fn hex_value(c: char) -> Option<nat> {
    if '0' <= c <= '9' {
        Some((c as u32 - 0x30) as nat)
    } else if 'a' <= c <= 'f' {
        Some((c as u32 - 0x61 + 10) as nat)
    } else if 'A' <= c <= 'F' {
        Some((c as u32 - 0x41 + 10) as nat)
    } else {
        None
    }
}

/// The value of a run of decimal digits. There must be at least one.
pub open spec fn digits_value(s: Seq<char>) -> Option<nat>
    decreases s.len(),
{
    if s.len() == 0 {
        None
    } else if s.len() == 1 {
        digit_value(s[0])
    } else {
        match (digits_value(s.drop_last()), digit_value(s.last())) {
            (Some(n), Some(d)) => Some(10 * n + d),
            _ => None,
        }
    }
}

/// The unsigned 32-bit number that `s` spells: digits, after an optional `+`.
pub open spec fn u32_value(s: Seq<char>) -> Option<u32> {
    let digits = if s.len() > 0 && s[0] == '+' {
        s.skip(1)
    } else {
        s
    };
    match digits_value(digits) {
        Some(n) => if n <= u32::MAX {
            Some(n as u32)
        } else {
            None
        },
        None => None,
    }
}

/// The signed 32-bit number that `s` spells: digits, after an optional `+` or `-`.
pub open spec fn i32_value(s: Seq<char>) -> Option<i32> {
    if s.len() > 0 && s[0] == '-' {
        match digits_value(s.skip(1)) {
            Some(n) => if n <= 0x8000_0000 {
                Some((-n) as i32)
            } else {
                None
            },
            None => None,
        }
    } else {
        match u32_value(s) {
            Some(n) => if n <= 0x7fff_ffff {
                Some(n as i32)
            } else {
                None
            },
            None => None,
        }
    }
}

fn digit(c: char) -> (r: Option<u32>)
    ensures
        match r {
            Some(d) => digit_value(c) == Some(d as nat) && d < 10,
            None => digit_value(c) is None,
        },
{
    if '0' <= c && c <= '9' {
        Some(c as u32 - 0x30)
    } else {
        None
    }
}

/// The value of a hexadecimal digit, of either case.
pub fn hex_digit(c: char) -> (r: Option<u8>)
    ensures
        match r {
            Some(d) => hex_value(c) == Some(d as nat) && d < 16,
            None => hex_value(c) is None,
        },
{
    if '0' <= c && c <= '9' {
        Some((c as u32 - 0x30) as u8)
    } else if 'a' <= c && c <= 'f' {
        Some((c as u32 - 0x61 + 10) as u8)
    } else if 'A' <= c && c <= 'F' {
        Some((c as u32 - 0x41 + 10) as u8)
    } else {
        None
    }
}

proof fn lemma_digits_prefix(s: Seq<char>, k: int)
    requires
        0 < k <= s.len(),
        digits_value(s) is Some,
    ensures
        digits_value(s.take(k)) is Some,
        digits_value(s.take(k))->0 <= digits_value(s)->0,
    decreases s.len(),
{
    if k == s.len() {
        assert(s.take(k) =~= s);
    } else {
        lemma_digits_prefix(s.drop_last(), k);
        assert(s.drop_last().take(k) =~= s.take(k));
    }
}

/// The value of a run of decimal digits, if it is at most 2^32 - 1.
fn parse_digits(s: &[char]) -> (r: Option<u32>)
    ensures
        match r {
            Some(n) => digits_value(s@) == Some(n as nat),
            None => digits_value(s@) is None || digits_value(s@)->0 > u32::MAX,
        },
{
    if s.len() == 0 {
        return None;
    }
    let mut n: u64 = 0;
    let mut i: usize = 0;
    while i < s.len()
        invariant
            i <= s@.len(),
            n <= u32::MAX,
            i == 0 ==> n == 0,
            i > 0 ==> digits_value(s@.take(i as int)) == Some(n as nat),
        decreases s@.len() - i,
    {
        proof {
            if digits_value(s@) is Some {
                lemma_digits_prefix(s@, i + 1);
            }
            if i > 0 {
                assert(s@.take(i + 1).drop_last() =~= s@.take(i as int));
            }
            assert(s@.take(i + 1).last() == s@[i as int]);
        }
        match digit(s[i]) {
            Some(d) => {
                n = 10 * n + d as u64;
                assert(digits_value(s@.take(i + 1)) == Some(n as nat));
                if n > u32::MAX as u64 {
                    return None;
                }
            },
            None => {
                assert(digits_value(s@.take(i + 1)) is None);
                return None;
            },
        }
        i += 1;
    }
    assert(s@.take(i as int) =~= s@);
    Some(n as u32)
}

/// Read an unsigned 32-bit number.
pub fn parse_u32(s: &[char]) -> (r: Option<u32>)
    ensures
        r == u32_value(s@),
{
    if s.len() > 0 && s[0] == '+' {
        let rest = slice_subrange(s, 1, s.len());
        assert(rest@ =~= s@.skip(1));
        parse_digits(rest)
    } else {
        parse_digits(s)
    }
}

/// Read a signed 32-bit number.
pub fn parse_i32(s: &[char]) -> (r: Option<i32>)
    ensures
        r == i32_value(s@),
{
    if s.len() > 0 && s[0] == '-' {
        let rest = slice_subrange(s, 1, s.len());
        assert(rest@ =~= s@.skip(1));
        match parse_digits(rest) {
            Some(n) => if n <= 0x8000_0000 {
                Some((-(n as i64)) as i32)
            } else {
                None
            },
            None => None,
        }
    } else {
        match parse_u32(s) {
            Some(n) => if n <= 0x7fff_ffff {
                Some(n as i32)
            } else {
                None
            },
            None => None,
        }
    }
}

/// The pieces of `s` between the occurrences of `sep`: always at least one.
pub open spec fn split_at_char(s: Seq<char>, sep: char) -> Seq<Seq<char>>
    decreases s.len(),
{
    if s.len() == 0 {
        seq![s]
    } else {
        let init = split_at_char(s.drop_last(), sep);
        if s.last() == sep {
            init.push(seq![])
        } else {
            init.drop_last().push(init.last().push(s.last()))
        }
    }
}

/// What the character runs of a sequence say.
pub open spec fn runs_view(v: Seq<Vec<char>>) -> Seq<Seq<char>> {
    v.map_values(|r: Vec<char>| r@)
}

/// The pieces of `s` between the occurrences of `sep`.
pub fn split(s: &[char], sep: char) -> (r: Vec<Vec<char>>)
    ensures
        runs_view(r@) == split_at_char(s@, sep),
{
    let mut done: Vec<Vec<char>> = Vec::new();
    let mut piece: Vec<char> = Vec::new();
    let mut i: usize = 0;
    assert(piece@ =~= s@.take(0));
    assert(runs_view(done@).push(piece@) =~= split_at_char(s@.take(0), sep));
    while i < s.len()
        invariant
            i <= s@.len(),
            runs_view(done@).push(piece@) == split_at_char(s@.take(i as int), sep),
        decreases s@.len() - i,
    {
        let ghost before = runs_view(done@).push(piece@);
        let ghost held = done@;
        let ghost last = piece@;
        proof {
            assert(s@.take(i + 1).drop_last() =~= s@.take(i as int));
            assert(s@.take(i + 1).last() == s@[i as int]);
        }
        if s[i] == sep {
            done.push(piece);
            piece = Vec::new();
            assert(runs_view(done@) =~= runs_view(held).push(last));
            assert(runs_view(done@).push(piece@) =~= before.push(seq![]));
        } else {
            piece.push(s[i]);
            assert(before.drop_last() =~= runs_view(held));
            assert(runs_view(done@).push(piece@) =~= before.drop_last().push(
                before.last().push(s@[i as int]),
            ));
        }
        i += 1;
    }
    let ghost held = done@;
    let ghost last = piece@;
    done.push(piece);
    assert(runs_view(done@) =~= runs_view(held).push(last));
    assert(s@.take(i as int) =~= s@);
    done
}

/// The pieces of `s` between white space; empty pieces are left out.
pub open spec fn words(s: Seq<char>) -> Seq<Seq<char>> {
    let (done, piece) = words_scan(s);
    if piece.len() > 0 {
        done.push(piece)
    } else {
        done
    }
}

/// The complete words of `s`, and the word that is begun at its end.
pub open spec fn words_scan(s: Seq<char>) -> (Seq<Seq<char>>, Seq<char>)
    decreases s.len(),
{
    if s.len() == 0 {
        (seq![], seq![])
    } else {
        let (done, piece) = words_scan(s.drop_last());
        if !is_white(s.last()) {
            (done, piece.push(s.last()))
        } else if piece.len() > 0 {
            (done.push(piece), seq![])
        } else {
            (done, piece)
        }
    }
}

/// The pieces of `s` between white space.
pub fn split_words(s: &[char]) -> (r: Vec<Vec<char>>)
    ensures
        runs_view(r@) == words(s@),
{
    let mut done: Vec<Vec<char>> = Vec::new();
    let mut piece: Vec<char> = Vec::new();
    let mut i: usize = 0;
    assert(runs_view(done@) =~= seq![]);
    assert(piece@ =~= seq![]);
    while i < s.len()
        invariant
            i <= s@.len(),
            (runs_view(done@), piece@) == words_scan(s@.take(i as int)),
        decreases s@.len() - i,
    {
        let ghost held = done@;
        let ghost last = piece@;
        proof {
            assert(s@.take(i + 1).drop_last() =~= s@.take(i as int));
            assert(s@.take(i + 1).last() == s@[i as int]);
        }
        if !white(s[i]) {
            piece.push(s[i]);
        } else if piece.len() > 0 {
            done.push(piece);
            piece = Vec::new();
            assert(runs_view(done@) =~= runs_view(held).push(last));
            assert(piece@ =~= seq![]);
        }
        i += 1;
    }
    assert(s@.take(i as int) =~= s@);
    if piece.len() > 0 {
        let ghost held = done@;
        let ghost last = piece@;
        done.push(piece);
        assert(runs_view(done@) =~= runs_view(held).push(last));
    }
    done
}

/// Where `c` first occurs in `s`, from index `from` on.
pub open spec fn first_from(s: Seq<char>, c: char, from: int) -> Option<int>
    decreases s.len() - from,
{
    if from >= s.len() {
        None
    } else if s[from] == c {
        Some(from)
    } else {
        first_from(s, c, from + 1)
    }
}

/// What stands before and after the first `sep` in `s`, if there is one.
pub open spec fn halves(s: Seq<char>, sep: char) -> Option<(Seq<char>, Seq<char>)> {
    match first_from(s, sep, 0) {
        Some(i) => Some((s.take(i), s.skip(i + 1))),
        None => None,
    }
}

/// What stands before and after the first `sep` in `s`, if there is one.
pub fn split_once<'a>(s: &'a [char], sep: char) -> (r: Option<(&'a [char], &'a [char])>)
    ensures
        match r {
            Some((a, b)) => halves(s@, sep) == Some((a@, b@)),
            None => halves(s@, sep) is None,
        },
{
    let mut i: usize = 0;
    while i < s.len()
        invariant
            i <= s@.len(),
            first_from(s@, sep, 0) == first_from(s@, sep, i as int),
        decreases s@.len() - i,
    {
        if s[i] == sep {
            let head = slice_subrange(s, 0, i);
            let tail = slice_subrange(s, i + 1, s.len());
            assert(head@ =~= s@.take(i as int));
            assert(tail@ =~= s@.skip(i + 1));
            return Some((head, tail));
        }
        i += 1;
    }
    None
}

// ---------------------------------------------------------------------------------------
// What reading text amounts to.
// ---------------------------------------------------------------------------------------

/// Digits before digits are worth ten times as much for each digit that follows, and a digit alone
/// is worth its distance from `0`.
pub proof fn law_digits_are_positional(a: Seq<char>, b: Seq<char>)
    requires
        digits_value(a) is Some,
        digits_value(b) is Some,
    ensures
        digits_value(a + b) == Some(
            (digits_value(a)->0 * pow(10, b.len()) + digits_value(b)->0) as nat,
        ),
    decreases b.len(),
{
    let x = digits_value(a)->0;
    assert((a + b).drop_last() =~= a + b.drop_last());
    assert((a + b).last() == b.last());
    reveal(pow);
    if b.len() == 1 {
        assert(b.drop_last() =~= seq![]);
        assert(a + b.drop_last() =~= a);
        assert(pow(10, 0) == 1);
        assert(pow(10, 1) == 10 * pow(10, 0));
        assert(b.last() == b[0]);
        assert(a.len() > 0);
        let p = pow(10, 1);
        assert(x * p == 10 * x) by (nonlinear_arith)
            requires
                p == 10,
        ;
    } else {
        let init = b.drop_last();
        law_digits_are_positional(a, init);
        let p = pow(10, init.len());
        assert(pow(10, b.len()) == 10 * p);
        assert(x * (10 * p) == 10 * (x * p)) by (nonlinear_arith);
        vstd::arithmetic::power::lemma_pow_positive(10, init.len());
        assert(x * p >= 0) by (nonlinear_arith)
            requires
                x >= 0,
                p > 0,
        ;
    }
}

/// A number is spelled by decimal digits alone, one at least; before them a sign may stand.
pub proof fn law_numbers_are_digits(s: Seq<char>)
    ensures
        digits_value(s) is Some <==> s.len() > 0 && forall|i: int|
            0 <= i < s.len() ==> '0' <= #[trigger] s[i] <= '9',
        s.len() == 1 && '0' <= s[0] <= '9' ==> digits_value(s) == Some((s[0] as u32 - 48) as nat),
    decreases s.len(),
{
    if s.len() > 1 {
        let init = s.drop_last();
        law_numbers_are_digits(init);
        assert(s.last() == s[s.len() - 1]);
        if digits_value(s) is Some {
            assert forall|i: int| 0 <= i < s.len() implies '0' <= #[trigger] s[i] <= '9' by {
                if i < init.len() {
                    assert(init[i] == s[i]);
                }
            }
        }
        if forall|i: int| 0 <= i < s.len() ==> '0' <= #[trigger] s[i] <= '9' {
            assert forall|i: int| 0 <= i < init.len() implies '0' <= #[trigger] init[i] <= '9' by {
                assert(init[i] == s[i]);
            }
        }
    }
}

/// A number is what its digits are worth, as far as it fits; `+` changes nothing and `-` negates it.
pub proof fn law_signs_are_signs(s: Seq<char>)
    requires
        digits_value(s) is Some,
    ensures
        ({
            let n = digits_value(s)->0;
            let plus = seq!['+'] + s;
            let minus = seq!['-'] + s;
            &&& u32_value(s) is Some <==> n < 0x1_0000_0000
            &&& u32_value(s) matches Some(v) ==> v == n
            &&& u32_value(plus) == u32_value(s)
            &&& u32_value(minus) is None
            &&& i32_value(s) is Some <==> n < 0x8000_0000
            &&& i32_value(s) matches Some(v) ==> v == n
            &&& i32_value(plus) == i32_value(s)
            &&& i32_value(minus) is Some <==> n <= 0x8000_0000
            &&& i32_value(minus) matches Some(v) ==> v == -n
        }),
{
    let plus = seq!['+'] + s;
    let minus = seq!['-'] + s;
    law_numbers_are_digits(s);
    law_numbers_are_digits(minus);
    assert('0' <= s[0] <= '9');
    assert(plus.skip(1) =~= s);
    assert(minus.skip(1) =~= s);
    assert(plus[0] == '+');
    assert(minus[0] == '-');
}

/// Trimming takes away white space at the ends and nothing else: what is left begins and ends with
/// something else, and only white space stood round it. Where it stood is returned.
pub proof fn law_trimming_takes_only_white_space(s: Seq<char>) -> (at: (int, int))
    ensures
        0 <= at.0 <= at.1 <= s.len(),
        trimmed(s) == s.subrange(at.0, at.1),
        forall|i: int| 0 <= i < at.0 || at.1 <= i < s.len() ==> is_white(#[trigger] s[i]),
        at.0 < at.1 ==> !is_white(s[at.0]) && !is_white(s[at.1 - 1]),
{
    let from = lemma_trim_start(s);
    let rest = trimmed_start(s);
    let to = lemma_trim_end(rest);
    assert(rest =~= s.skip(from));
    assert(trimmed(s) =~= s.subrange(from, from + to));
    assert forall|i: int| 0 <= i < from || from + to <= i < s.len() implies is_white(
        #[trigger] s[i],
    ) by {
        if i >= from {
            assert(rest[i - from] == s[i]);
        }
    }
    if to > 0 {
        assert(rest[0] == s[from]);
        assert(rest[to - 1] == s[from + to - 1]);
    }
    (from, from + to)
}

proof fn lemma_trim_start(s: Seq<char>) -> (from: int)
    ensures
        0 <= from <= s.len(),
        trimmed_start(s) == s.skip(from),
        forall|i: int| 0 <= i < from ==> is_white(#[trigger] s[i]),
        from < s.len() ==> !is_white(s[from]),
    decreases s.len(),
{
    if s.len() > 0 && is_white(s[0]) {
        let from = lemma_trim_start(s.skip(1));
        assert(s.skip(1).skip(from) =~= s.skip(from + 1));
        assert forall|i: int| 0 <= i < from + 1 implies is_white(#[trigger] s[i]) by {
            if i > 0 {
                assert(s.skip(1)[i - 1] == s[i]);
            }
        }
        if from + 1 < s.len() {
            assert(s.skip(1)[from] == s[from + 1]);
        }
        from + 1
    } else {
        assert(s.skip(0) =~= s);
        0
    }
}

proof fn lemma_trim_end(s: Seq<char>) -> (to: int)
    ensures
        0 <= to <= s.len(),
        trimmed_end(s) == s.take(to),
        forall|i: int| to <= i < s.len() ==> is_white(#[trigger] s[i]),
        to > 0 ==> !is_white(s[to - 1]),
    decreases s.len(),
{
    if s.len() > 0 && is_white(s.last()) {
        let init = s.drop_last();
        let to = lemma_trim_end(init);
        assert(init.take(to) =~= s.take(to));
        assert forall|i: int| to <= i < s.len() implies is_white(#[trigger] s[i]) by {
            if i < init.len() {
                assert(init[i] == s[i]);
            }
        }
        if to > 0 {
            assert(init[to - 1] == s[to - 1]);
        }
        to
    } else {
        assert(s.take(s.len() as int) =~= s);
        s.len() as int
    }
}

/// Splitting is undone by joining, and no piece holds the separator.
pub proof fn law_split_pieces_join(s: Seq<char>, sep: char)
    ensures
        split_at_char(s, sep).len() > 0,
        joined(split_at_char(s, sep), sep) == s,
        forall|i: int|
            0 <= i < split_at_char(s, sep).len() ==> !(#[trigger] split_at_char(
                s,
                sep,
            )[i]).contains(sep),
    decreases s.len(),
{
    let all = split_at_char(s, sep);
    if s.len() == 0 {
        assert(all =~= seq![s]);
    } else {
        let init = split_at_char(s.drop_last(), sep);
        law_split_pieces_join(s.drop_last(), sep);
        if s.last() == sep {
            assert(all.drop_last() =~= init);
            assert(joined(all, sep) =~= s);
        } else {
            let last = init.last().push(s.last());
            assert(all.drop_last() =~= init.drop_last());
            assert(init.last() == init[init.len() - 1]);
            assert(joined(all, sep) =~= joined(init, sep).push(s.last()));
            assert(joined(all, sep) =~= s);
            assert forall|i: int| 0 <= i < all.len() implies !(#[trigger] all[i]).contains(sep) by {
                if i < all.len() - 1 {
                    assert(all[i] == init[i]);
                } else if last.contains(sep) {
                    let k = choose|k: int| 0 <= k < last.len() && last[k] == sep;
                    assert(init.last()[k] == sep);
                }
            }
        }
    }
}

/// Text that holds no white space is one word; white space divides what stands before it from what
/// stands after it, and is part of neither.
pub proof fn law_words_stand_between_white_space(a: Seq<char>, w: char, b: Seq<char>)
    ensures
        is_white(w) ==> words(a.push(w) + b) == words(a) + words(b),
        a.len() > 0 && (forall|i: int| 0 <= i < a.len() ==> !is_white(#[trigger] a[i])) ==> words(a)
            == seq![a],
        a.len() == 0 ==> words(a) == Seq::<Seq<char>>::empty(),
{
    if is_white(w) {
        lemma_words_after(a, w, b);
        let (done, piece) = words_scan(b);
        assert(words(a.push(w) + b) =~= words(a) + words(b));
    }
    if a.len() > 0 && forall|i: int| 0 <= i < a.len() ==> !is_white(#[trigger] a[i]) {
        lemma_one_word(a);
        assert(words(a) =~= seq![a]);
    }
}

proof fn lemma_words_after(a: Seq<char>, w: char, b: Seq<char>)
    requires
        is_white(w),
    ensures
        words_scan(a.push(w) + b) == (words(a) + words_scan(b).0, words_scan(b).1),
    decreases b.len(),
{
    let all = a.push(w) + b;
    if b.len() == 0 {
        assert(all =~= a.push(w));
        assert(a.push(w).drop_last() =~= a);
        assert(words(a) + words_scan(b).0 =~= words(a));
        assert(words_scan(a.push(w)).1 =~= seq![]);
    } else {
        assert(all.drop_last() =~= a.push(w) + b.drop_last());
        assert(all.last() == b.last());
        lemma_words_after(a, w, b.drop_last());
        let (done, piece) = words_scan(b.drop_last());
        assert((words(a) + done).push(piece) =~= words(a) + done.push(piece));
    }
}

proof fn lemma_one_word(a: Seq<char>)
    requires
        forall|i: int| 0 <= i < a.len() ==> !is_white(#[trigger] a[i]),
    ensures
        words_scan(a) == (Seq::<Seq<char>>::empty(), a),
    decreases a.len(),
{
    if a.len() > 0 {
        let init = a.drop_last();
        assert forall|i: int| 0 <= i < init.len() implies !is_white(#[trigger] init[i]) by {
            assert(init[i] == a[i]);
        }
        lemma_one_word(init);
        assert(a.last() == a[a.len() - 1]);
        assert(init.push(a.last()) =~= a);
    } else {
        assert(a =~= seq![]);
    }
}

/// The halves of a text are what stands before its first separator and what stands after it.
pub proof fn law_halves_stand_round_the_first_separator(s: Seq<char>, sep: char)
    ensures
        match halves(s, sep) {
            Some((a, b)) => s == a.push(sep) + b && !a.contains(sep),
            None => !s.contains(sep),
        },
{
    lemma_first_from(s, sep, 0);
    if let Some(i) = first_from(s, sep, 0) {
        let a = s.take(i);
        assert(s =~= a.push(sep) + s.skip(i + 1));
        if a.contains(sep) {
            let k = choose|k: int| 0 <= k < a.len() && a[k] == sep;
            assert(s[k] == sep);
        }
    }
}

proof fn lemma_first_from(s: Seq<char>, c: char, from: int)
    requires
        0 <= from,
    ensures
        match first_from(s, c, from) {
            Some(i) => from <= i < s.len() && s[i] == c && forall|j: int|
                from <= j < i ==> #[trigger] s[j] != c,
            None => forall|j: int| from <= j < s.len() ==> #[trigger] s[j] != c,
        },
    decreases s.len() - from,
{
    if from < s.len() && s[from] != c {
        lemma_first_from(s, c, from + 1);
    }
}

/// White space is the 25 characters that have the property in Unicode.
pub proof fn law_white_space_is_that_of_unicode(c: char)
    ensures
        is_white(c) <==> {
            ||| c == '\t' || c == '\n' || c == '\u{b}' || c == '\u{c}' || c == '\r' || c == ' '
            ||| c == '\u{85}' || c == '\u{a0}' || c == '\u{1680}' || c == '\u{2000}'
            ||| c == '\u{2001}' || c == '\u{2002}' || c == '\u{2003}' || c == '\u{2004}'
            ||| c == '\u{2005}' || c == '\u{2006}' || c == '\u{2007}' || c == '\u{2008}'
            ||| c == '\u{2009}' || c == '\u{200a}' || c == '\u{2028}' || c == '\u{2029}'
            ||| c == '\u{202f}' || c == '\u{205f}' || c == '\u{3000}'
        },
{
}

/// A text that ends in a suffix is what stands before it and the suffix.
pub proof fn law_suffixes_are_taken_off(s: Seq<char>, x: Seq<char>, t: Seq<char>)
    ensures
        before_suffix(s, x) == Some(t) <==> s == t + x,
{
    if s == t + x {
        assert(s.skip(s.len() - x.len()) =~= x);
        assert(s.take(s.len() - x.len()) =~= t);
    }
    if before_suffix(s, x) == Some(t) {
        assert(s =~= t + x) by {
            assert forall|i: int| 0 <= i < s.len() implies s[i] == (t + x)[i] by {
                if i >= t.len() {
                    assert(s.skip(s.len() - x.len())[i - t.len()] == s[i]);
                }
            }
        }
    }
}

/// A text that begins with a prefix is the prefix and what stands after it.
pub proof fn law_prefixes_are_taken_off(s: Seq<char>, x: Seq<char>, t: Seq<char>)
    ensures
        after_prefix(s, x) == Some(t) <==> s == x + t,
{
    if s == x + t {
        assert(s.take(x.len() as int) =~= x);
        assert(s.skip(x.len() as int) =~= t);
    }
    if after_prefix(s, x) == Some(t) {
        assert(s =~= x + t) by {
            assert forall|i: int| 0 <= i < s.len() implies s[i] == (x + t)[i] by {
                if i < x.len() {
                    assert(s.take(x.len() as int)[i] == s[i]);
                }
            }
        }
    }
}

} // verus!
