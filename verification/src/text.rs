//! Character-level text utilities: ASCII case folding, comparison against
//! string literals, and display truncation.

use vstd::prelude::*;

verus! {

/// ASCII lower-casing of a single character; every other character is left
/// unchanged.  The persisted enum vocabulary is ASCII, so this matches the
/// case-insensitive parsing the store expects.
pub open spec fn lower_char(c: char) -> char {
    match c {
        'A' => 'a',
        'B' => 'b',
        'C' => 'c',
        'D' => 'd',
        'E' => 'e',
        'F' => 'f',
        'G' => 'g',
        'H' => 'h',
        'I' => 'i',
        'J' => 'j',
        'K' => 'k',
        'L' => 'l',
        'M' => 'm',
        'N' => 'n',
        'O' => 'o',
        'P' => 'p',
        'Q' => 'q',
        'R' => 'r',
        'S' => 's',
        'T' => 't',
        'U' => 'u',
        'V' => 'v',
        'W' => 'w',
        'X' => 'x',
        'Y' => 'y',
        'Z' => 'z',
        _ => c,
    }
}

/// Lower-casing plus folding `'-'` to `'_'`, used by the enum vocabularies
/// that accept both spellings.
pub open spec fn canon_char(c: char) -> char {
    if c == '-' {
        '_'
    } else {
        lower_char(c)
    }
}

pub open spec fn lower_of(s: Seq<char>) -> Seq<char> {
    s.map_values(|c: char| lower_char(c))
}

pub open spec fn canon_of(s: Seq<char>) -> Seq<char> {
    s.map_values(|c: char| canon_char(c))
}

pub fn lower_char_exec(c: char) -> (r: char)
    ensures
        r == lower_char(c),
{
    match c {
        'A' => 'a',
        'B' => 'b',
        'C' => 'c',
        'D' => 'd',
        'E' => 'e',
        'F' => 'f',
        'G' => 'g',
        'H' => 'h',
        'I' => 'i',
        'J' => 'j',
        'K' => 'k',
        'L' => 'l',
        'M' => 'm',
        'N' => 'n',
        'O' => 'o',
        'P' => 'p',
        'Q' => 'q',
        'R' => 'r',
        'S' => 's',
        'T' => 't',
        'U' => 'u',
        'V' => 'v',
        'W' => 'w',
        'X' => 'x',
        'Y' => 'y',
        'Z' => 'z',
        _ => c,
    }
}

/// The characters of `s`, in order.
pub fn chars_of(s: &str) -> (v: Vec<char>)
    ensures
        v@ == s@,
{
    let n = s.unicode_len();
    let mut v: Vec<char> = Vec::new();
    for i in 0..n
        invariant
            n == s@.len(),
            v@ == s@.subrange(0, i as int),
    {
        v.push(s.get_char(i));
        assert(v@ =~= s@.subrange(0, i + 1));
    }
    assert(v@ =~= s@);
    v
}

/// The characters of `s`, ASCII lower-cased.
pub fn lower_str(s: &str) -> (v: Vec<char>)
    ensures
        v@ == lower_of(s@),
{
    let n = s.unicode_len();
    let mut v: Vec<char> = Vec::new();
    for i in 0..n
        invariant
            n == s@.len(),
            v@ == lower_of(s@.subrange(0, i as int)),
    {
        v.push(lower_char_exec(s.get_char(i)));
        assert(v@ =~= lower_of(s@.subrange(0, i + 1)));
    }
    assert(v@ =~= lower_of(s@));
    v
}

/// The characters of `s`, ASCII lower-cased with `'-'` folded to `'_'`.
pub fn canon_str(s: &str) -> (v: Vec<char>)
    ensures
        v@ == canon_of(s@),
{
    let n = s.unicode_len();
    let mut v: Vec<char> = Vec::new();
    for i in 0..n
        invariant
            n == s@.len(),
            v@ == canon_of(s@.subrange(0, i as int)),
    {
        let c = s.get_char(i);
        if c == '-' {
            v.push('_');
        } else {
            v.push(lower_char_exec(c));
        }
        assert(v@ =~= canon_of(s@.subrange(0, i + 1)));
    }
    assert(v@ =~= canon_of(s@));
    v
}

/// Whether the character sequence `v` spells exactly the string `s`.
pub fn text_eq(v: &Vec<char>, s: &str) -> (b: bool)
    ensures
        b == (v@ == s@),
{
    let n = s.unicode_len();
    if v.len() != n {
        return false;
    }
    for i in 0..n
        invariant
            n == s@.len(),
            v@.len() == n,
            forall|j: int| 0 <= j < i ==> v@[j] == s@[j],
    {
        if v[i] != s.get_char(i) {
            return false;
        }
    }
    assert(v@ =~= s@);
    true
}

/// The decimal digits of `n`, most significant first.
pub open spec fn dec_digits(n: nat) -> Seq<char>
    decreases n,
{
    if n < 10 {
        seq![digit_char(n)]
    } else {
        dec_digits(n / 10).push(digit_char(n % 10))
    }
}

pub open spec fn digit_char(d: nat) -> char {
    if d == 0 {
        '0'
    } else if d == 1 {
        '1'
    } else if d == 2 {
        '2'
    } else if d == 3 {
        '3'
    } else if d == 4 {
        '4'
    } else if d == 5 {
        '5'
    } else if d == 6 {
        '6'
    } else if d == 7 {
        '7'
    } else if d == 8 {
        '8'
    } else {
        '9'
    }
}

/// The decimal rendering of a signed number: a minus sign before the
/// digits of its magnitude when negative.
pub open spec fn dec_of(n: int) -> Seq<char> {
    if n < 0 {
        seq!['-'] + dec_digits((-n) as nat)
    } else {
        dec_digits(n as nat)
    }
}

fn digit_char_exec(d: u64) -> (c: char)
    requires
        d < 10,
    ensures
        c == digit_char(d as nat),
{
    if d == 0 {
        '0'
    } else if d == 1 {
        '1'
    } else if d == 2 {
        '2'
    } else if d == 3 {
        '3'
    } else if d == 4 {
        '4'
    } else if d == 5 {
        '5'
    } else if d == 6 {
        '6'
    } else if d == 7 {
        '7'
    } else if d == 8 {
        '8'
    } else {
        '9'
    }
}

fn digit_str(d: u64) -> (s: &'static str)
    requires
        d < 10,
    ensures
        s@ =~= seq![digit_char(d as nat)],
{
    proof {
        reveal_strlit("0");
        reveal_strlit("1");
        reveal_strlit("2");
        reveal_strlit("3");
        reveal_strlit("4");
        reveal_strlit("5");
        reveal_strlit("6");
        reveal_strlit("7");
        reveal_strlit("8");
        reveal_strlit("9");
    }
    if d == 0 {
        "0"
    } else if d == 1 {
        "1"
    } else if d == 2 {
        "2"
    } else if d == 3 {
        "3"
    } else if d == 4 {
        "4"
    } else if d == 5 {
        "5"
    } else if d == 6 {
        "6"
    } else if d == 7 {
        "7"
    } else if d == 8 {
        "8"
    } else {
        "9"
    }
}

/// The digit characters of a reversed digit list: the last entry first.
pub open spec fn rev_digit_chars(s: Seq<u64>) -> Seq<char>
    decreases s.len(),
{
    if s.len() == 0 {
        Seq::empty()
    } else {
        seq![digit_char(s.last() as nat)] + rev_digit_chars(s.drop_last())
    }
}

proof fn lemma_rev_digit_chars_index(s: Seq<u64>)
    ensures
        rev_digit_chars(s).len() == s.len(),
        forall|i: int|
            0 <= i < s.len() ==> #[trigger] rev_digit_chars(s)[i] == digit_char(
                s[s.len() - 1 - i] as nat,
            ),
    decreases s.len(),
{
    if s.len() != 0 {
        lemma_rev_digit_chars_index(s.drop_last());
        let r = rev_digit_chars(s);
        assert forall|i: int| 0 <= i < s.len() implies #[trigger] r[i] == digit_char(
            s[s.len() - 1 - i] as nat,
        ) by {
            if i > 0 {
                assert(r[i] == rev_digit_chars(s.drop_last())[i - 1]);
                assert(s.drop_last()[s.len() - 1 - i] == s[s.len() - 1 - i]);
            }
        }
    }
}

/// The decimal rendering of an unsigned number.
#[verifier::loop_isolation(false)]
pub fn format_u64(n: u64) -> (r: String)
    ensures
        r@ == dec_digits(n as nat),
{
    let mut digits: Vec<u64> = Vec::new();
    let mut m = n;
    while m >= 10
        invariant
            dec_digits(n as nat) == dec_digits(m as nat).add(rev_digit_chars(digits@)),
            forall|i: int| 0 <= i < digits@.len() ==> #[trigger] digits@[i] < 10,
        decreases m,
    {
        let d = m % 10;
        proof {
            let pushed = digits@.push(d);
            assert(pushed.drop_last() =~= digits@);
            assert(rev_digit_chars(pushed) == seq![digit_char(d as nat)] + rev_digit_chars(
                digits@,
            ));
            assert(dec_digits(m as nat) == dec_digits((m / 10) as nat).push(
                digit_char((m % 10) as nat),
            ));
            assert(dec_digits((m / 10) as nat).push(digit_char(d as nat)).add(
                rev_digit_chars(digits@),
            ) =~= dec_digits((m / 10) as nat).add(rev_digit_chars(pushed)));
        }
        digits.push(d);
        m = m / 10;
    }
    let mut r = digit_str(m).to_owned();
    proof {
        assert(dec_digits(m as nat) =~= seq![digit_char(m as nat)]);
        assert(r@ == dec_digits(m as nat));
        lemma_rev_digit_chars_index(digits@);
    }
    let k = digits.len();
    for i in 0..k
        invariant
            r@ == dec_digits(m as nat).add(rev_digit_chars(digits@).subrange(0, i as int)),
            forall|x: int| 0 <= x < digits@.len() ==> #[trigger] digits@[x] < 10,
            rev_digit_chars(digits@).len() == k,
            forall|x: int|
                0 <= x < k ==> #[trigger] rev_digit_chars(digits@)[x] == digit_char(
                    digits@[k - 1 - x] as nat,
                ),
    {
        let d = digits[k - 1 - i];
        r.append(digit_str(d));
        proof {
            assert(rev_digit_chars(digits@)[i as int] == digit_char(d as nat));
            assert(dec_digits(m as nat).add(
                rev_digit_chars(digits@).subrange(0, i as int),
            ).add(seq![digit_char(d as nat)]) =~= dec_digits(m as nat).add(
                rev_digit_chars(digits@).subrange(0, i + 1),
            ));
        }
    }
    proof {
        assert(rev_digit_chars(digits@).subrange(0, k as int) =~= rev_digit_chars(digits@));
    }
    r
}

/// The decimal rendering of a signed number.
pub fn format_i64(n: i64) -> (r: String)
    ensures
        r@ == dec_of(n as int),
{
    if n >= 0 {
        format_u64(n as u64)
    } else {
        proof {
            reveal_strlit("-");
        }
        let mut r = String::from_str("-");
        let mag: u64 = if n == i64::MIN {
            9_223_372_036_854_775_808u64
        } else {
            (-n) as u64
        };
        r.append(format_u64(mag).as_str());
        proof {
            assert(r@ =~= seq!['-'] + dec_digits(mag as nat));
        }
        r
    }
}

/// The prefix of `s` before its first `':'`; the whole of `s` when it has
/// none.  Composite embedding keys put the video id there.
pub open spec fn colon_prefix(s: Seq<char>) -> Seq<char>
    decreases s.len(),
{
    if s.len() == 0 {
        s
    } else if s[0] == ':' {
        Seq::empty()
    } else {
        seq![s[0]] + colon_prefix(s.drop_first())
    }
}

/// The characters of `s` after the first `':'`; empty when it has none.
pub open spec fn colon_suffix(s: Seq<char>) -> Seq<char>
    decreases s.len(),
{
    if s.len() == 0 {
        s
    } else if s[0] == ':' {
        s.drop_first()
    } else {
        colon_suffix(s.drop_first())
    }
}

/// `colon_prefix` takes everything before the first colon.
pub proof fn lemma_colon_prefix_at(s: Seq<char>, p: int)
    requires
        0 <= p <= s.len(),
        forall|i: int| 0 <= i < p ==> s[i] != ':',
        p < s.len() ==> s[p] == ':',
    ensures
        colon_prefix(s) == s.subrange(0, p),
        colon_suffix(s) == if p < s.len() {
            s.subrange(p + 1, s.len() as int)
        } else {
            Seq::<char>::empty()
        },
    decreases s.len(),
{
    if s.len() == 0 {
        assert(colon_prefix(s) =~= s.subrange(0, 0));
        assert(colon_suffix(s) =~= Seq::<char>::empty());
    } else if p == 0 {
        assert(s[0] == ':');
        assert(colon_prefix(s) =~= s.subrange(0, 0));
        assert(colon_suffix(s) =~= s.subrange(1, s.len() as int));
    } else {
        let s0 = s.drop_first();
        assert(forall|i: int| 0 <= i < p - 1 ==> #[trigger] s0[i] != ':');
        lemma_colon_prefix_at(s0, p - 1);
        assert(seq![s[0]] + s0.subrange(0, p - 1) =~= s.subrange(0, p));
        if p < s.len() {
            assert(s0.subrange(p - 1 + 1, s0.len() as int) =~= s.subrange(p + 1, s.len() as int));
        }
    }
}

/// The prefix of `s` before its first `':'` (the whole string when there
/// is none), as the characters of a fresh string.
#[verifier::loop_isolation(false)]
pub fn split_colon_prefix(s: &str) -> (r: String)
    ensures
        r@ == colon_prefix(s@),
{
    let n = s.unicode_len();
    let mut p: usize = 0;
    while p < n && s.get_char(p) != ':'
        invariant
            p <= n,
            forall|i: int| 0 <= i < p ==> s@[i] != ':',
        decreases n - p,
    {
        p = p + 1;
    }
    proof {
        lemma_colon_prefix_at(s@, p as int);
    }
    let pre = s.substring_char(0, p);
    pre.to_owned()
}

/// The numeric value of a decimal digit character; other characters count
/// zero and are ruled out by `all_digits`.
pub open spec fn digit_val(c: char) -> int {
    if c == '0' {
        0
    } else if c == '1' {
        1
    } else if c == '2' {
        2
    } else if c == '3' {
        3
    } else if c == '4' {
        4
    } else if c == '5' {
        5
    } else if c == '6' {
        6
    } else if c == '7' {
        7
    } else if c == '8' {
        8
    } else if c == '9' {
        9
    } else {
        0
    }
}

pub open spec fn is_digit(c: char) -> bool {
    c == '0' || c == '1' || c == '2' || c == '3' || c == '4' || c == '5' || c == '6' || c == '7'
        || c == '8' || c == '9'
}

pub open spec fn all_digits(s: Seq<char>) -> bool {
    forall|i: int| 0 <= i < s.len() ==> is_digit(#[trigger] s[i])
}

/// The value of a digit string, most significant digit first.
pub open spec fn dec_val(s: Seq<char>) -> int
    decreases s.len(),
{
    if s.len() == 0 {
        0
    } else {
        dec_val(s.drop_last()) * 10 + digit_val(s.last())
    }
}

/// What a decimal string denotes: an optional leading minus sign followed
/// by at least one digit; anything else denotes nothing.
pub open spec fn parse_int_of(s: Seq<char>) -> Option<int> {
    if s.len() >= 2 && s[0] == '-' && all_digits(s.drop_first()) {
        Some(-dec_val(s.drop_first()))
    } else if s.len() > 0 && all_digits(s) {
        Some(dec_val(s))
    } else {
        None
    }
}

/// The parsed value clamped to a use: out-of-range and unparseable strings
/// count zero, as the store's composite-key decoding has it.
pub open spec fn parsed_or_zero(s: Seq<char>, lo: int, hi: int) -> int {
    match parse_int_of(s) {
        Some(v) => if lo <= v <= hi {
            v
        } else {
            0
        },
        None => 0,
    }
}

pub proof fn lemma_dec_val_nonneg(s: Seq<char>)
    ensures
        dec_val(s) >= 0,
    decreases s.len(),
{
    if s.len() != 0 {
        lemma_dec_val_nonneg(s.drop_last());
        assert(dec_val(s.drop_last()) * 10 >= 0) by (nonlinear_arith)
            requires
                dec_val(s.drop_last()) >= 0,
        ;
    }
}

/// The value of a prefix never exceeds the value of the whole string.
pub proof fn lemma_dec_val_prefix_le(s: Seq<char>, i: int)
    requires
        0 <= i <= s.len(),
    ensures
        dec_val(s.subrange(0, i)) <= dec_val(s),
    decreases s.len() - i,
{
    if i < s.len() {
        let t = s.subrange(0, i + 1);
        assert(t.drop_last() =~= s.subrange(0, i));
        lemma_dec_val_nonneg(s.subrange(0, i));
        assert(dec_val(s.subrange(0, i)) * 10 >= dec_val(s.subrange(0, i))) by (nonlinear_arith)
            requires
                dec_val(s.subrange(0, i)) >= 0,
        ;
        lemma_dec_val_prefix_le(s, i + 1);
    } else {
        assert(s.subrange(0, i) =~= s);
    }
}

fn digit_of(c: char) -> (r: Option<u64>)
    ensures
        r is Some <==> is_digit(c),
        r is Some ==> r->0 as int == digit_val(c) && r->0 < 10,
{
    match c {
        '0' => Some(0),
        '1' => Some(1),
        '2' => Some(2),
        '3' => Some(3),
        '4' => Some(4),
        '5' => Some(5),
        '6' => Some(6),
        '7' => Some(7),
        '8' => Some(8),
        '9' => Some(9),
        _ => None,
    }
}

/// Parses the digits `v[from..]` as a magnitude; `None` for an empty or
/// non-digit tail, or one whose value exceeds `i64::MAX`.
#[verifier::loop_isolation(false)]
fn parse_magnitude(v: &Vec<char>, from: usize) -> (r: Option<i64>)
    requires
        from <= v@.len(),
    ensures
        ({
            let tail = v@.subrange(from as int, v@.len() as int);
            &&& r is Some <==> (tail.len() > 0 && all_digits(tail) && dec_val(tail) <= i64::MAX)
            &&& r is Some ==> r->0 as int == dec_val(tail)
        }),
{
    let ghost tail = v@.subrange(from as int, v@.len() as int);
    let n = v.len();
    if from == n {
        return None;
    }
    let mut acc: u128 = 0;
    let mut i = from;
    while i < n
        invariant
            from <= i <= n,
            acc as int == dec_val(v@.subrange(from as int, i as int)),
            acc <= i64::MAX,
            all_digits(v@.subrange(from as int, i as int)),
        decreases n - i,
    {
        let ghost pre = v@.subrange(from as int, i as int);
        let ghost cur = v@.subrange(from as int, i + 1);
        proof {
            assert(cur.drop_last() =~= pre);
            assert(cur.last() == v@[i as int]);
        }
        match digit_of(v[i]) {
            Some(d) => {
                let next: u128 = acc * 10 + (d as u128);
                if next > (i64::MAX as u128) {
                    proof {
                        assert(dec_val(cur) == next as int);
                        assert(tail.subrange(0, (i + 1 - from) as int) =~= cur);
                        lemma_dec_val_prefix_le(tail, i + 1 - from);
                        if tail.len() > 0 && all_digits(tail) && dec_val(tail) <= i64::MAX {
                            assert(dec_val(cur) <= dec_val(tail));
                        }
                    }
                    return None;
                }
                acc = next;
            },
            None => {
                proof {
                    assert(!is_digit(tail[i - from]));
                }
                return None;
            },
        }
        i = i + 1;
    }
    proof {
        assert(v@.subrange(from as int, n as int) =~= tail);
    }
    Some(acc as i64)
}

/// Parses an optional minus sign followed by digits.  `None` for anything
/// else, and for magnitudes beyond `i64::MAX`.
#[verifier::loop_isolation(false)]
pub fn parse_i64_chars(v: &Vec<char>) -> (r: Option<i64>)
    ensures
        r is Some <==> (parse_int_of(v@) is Some && -i64::MAX <= parse_int_of(v@)->0
            <= i64::MAX),
        r is Some ==> r->0 as int == parse_int_of(v@)->0,
{
    let n = v.len();
    if n == 0 {
        return None;
    }
    if v[0] == '-' {
        if n == 1 {
            proof {
                assert(parse_int_of(v@) is None);
            }
            return None;
        }
        proof {
            assert(v@.drop_first() =~= v@.subrange(1, n as int));
            lemma_dec_val_nonneg(v@.drop_first());
        }
        match parse_magnitude(v, 1) {
            Some(m) => Some(-m),
            None => None,
        }
    } else {
        proof {
            if v@.len() >= 2 && v@[0] == '-' {
                assert(false);
            }
            lemma_dec_val_nonneg(v@);
        }
        let r = parse_magnitude(v, 0);
        proof {
            assert(v@.subrange(0, n as int) =~= v@);
        }
        r
    }
}

/// Whether `needle` occurs in `hay` starting at position `i`.
pub open spec fn has_sub_at(hay: Seq<char>, needle: Seq<char>, i: int) -> bool {
    &&& 0 <= i
    &&& i + needle.len() <= hay.len()
    &&& hay.subrange(i, i + needle.len()) == needle
}

/// Whether `needle` occurs anywhere in `hay` (everywhere for the empty
/// needle, as substring containment has it).
pub open spec fn contains_sub(hay: Seq<char>, needle: Seq<char>) -> bool {
    exists|i: int| has_sub_at(hay, needle, i)
}

/// How many positions of `hay` the needle occurs at; the empty needle
/// counts zero.
pub open spec fn occurrences(hay: Seq<char>, needle: Seq<char>) -> int
    decreases hay.len(),
{
    if needle.len() == 0 {
        0
    } else if hay.len() < needle.len() {
        0
    } else {
        (if hay.subrange(0, needle.len() as int) == needle {
            1int
        } else {
            0int
        }) + occurrences(hay.drop_first(), needle)
    }
}

/// Whether `needle` occurs at position `i` of `hay`.
#[verifier::loop_isolation(false)]
fn match_at(hay: &Vec<char>, needle: &Vec<char>, i: usize) -> (b: bool)
    requires
        i + needle@.len() <= hay@.len(),
    ensures
        b == has_sub_at(hay@, needle@, i as int),
{
    let m = needle.len();
    let total = hay.len();
    for j in 0..m
        invariant
            i + m <= total,
            forall|l: int| 0 <= l < j ==> hay@[i + l] == needle@[l],
    {
        if hay[i + j] != needle[j] {
            proof {
                if has_sub_at(hay@, needle@, i as int) {
                    assert(hay@.subrange(i as int, i + m as int)[j as int] == hay@[i + j]);
                }
            }
            return false;
        }
    }
    proof {
        assert(hay@.subrange(i as int, i + m as int) =~= needle@);
    }
    true
}

/// Whether `needle` occurs anywhere in `hay`.
#[verifier::loop_isolation(false)]
pub fn contains_chars(hay: &Vec<char>, needle: &Vec<char>) -> (b: bool)
    ensures
        b == contains_sub(hay@, needle@),
{
    let n = hay.len();
    let m = needle.len();
    if m > n {
        proof {
            if contains_sub(hay@, needle@) {
                let w = choose|w: int| has_sub_at(hay@, needle@, w);
            }
        }
        return false;
    }
    if m == 0 {
        proof {
            assert(hay@.subrange(0, 0) =~= needle@);
            assert(has_sub_at(hay@, needle@, 0));
        }
        return true;
    }
    let k = n - m + 1;
    for i in 0..k
        invariant
            forall|l: int| 0 <= l < i ==> !has_sub_at(hay@, needle@, l),
    {
        if match_at(hay, needle, i) {
            return true;
        }
    }
    proof {
        if contains_sub(hay@, needle@) {
            let w = choose|w: int| has_sub_at(hay@, needle@, w);
            assert(w < k);
        }
    }
    false
}

/// The number of positions of `hay` where `needle` occurs.
#[verifier::loop_isolation(false)]
pub fn count_occurrences(hay: &Vec<char>, needle: &Vec<char>) -> (c: usize)
    ensures
        c == occurrences(hay@, needle@),
        c <= hay@.len(),
{
    let n = hay.len();
    let m = needle.len();
    if m == 0 || m > n {
        return 0;
    }
    let mut c: usize = 0;
    let mut i: usize = n - m + 1;
    proof {
        assert(hay@.subrange(i as int, n as int).len() < m);
    }
    while i > 0
        invariant
            i <= n - m + 1,
            0 < m <= n,
            c <= (n - m + 1) - i,
            c == occurrences(hay@.subrange(i as int, n as int), needle@),
        decreases i,
    {
        i = i - 1;
        let hit = match_at(hay, needle, i);
        proof {
            let s = hay@.subrange(i as int, n as int);
            assert(s.drop_first() =~= hay@.subrange(i + 1, n as int));
            assert(s.subrange(0, m as int) =~= hay@.subrange(i as int, i + m as int));
            if hit {
                assert(s.subrange(0, m as int) == needle@);
            } else {
                if s.subrange(0, m as int) == needle@ {
                    assert(has_sub_at(hay@, needle@, i as int));
                }
            }
        }
        if hit {
            c = c + 1;
        }
    }
    proof {
        assert(hay@.subrange(0, n as int) =~= hay@);
    }
    c
}

/// The prefix of `s` before its first space; the whole of `s` when it has
/// none.
pub open spec fn word_prefix(s: Seq<char>) -> Seq<char>
    decreases s.len(),
{
    if s.len() == 0 {
        s
    } else if s[0] == ' ' {
        Seq::empty()
    } else {
        seq![s[0]] + word_prefix(s.drop_first())
    }
}

/// The characters of `s` after its first space; empty when it has none.
pub open spec fn word_suffix(s: Seq<char>) -> Seq<char>
    decreases s.len(),
{
    if s.len() == 0 {
        s
    } else if s[0] == ' ' {
        s.drop_first()
    } else {
        word_suffix(s.drop_first())
    }
}

/// `word_prefix` takes everything before the first space.
pub proof fn lemma_word_prefix_at(s: Seq<char>, p: int)
    requires
        0 <= p <= s.len(),
        forall|i: int| 0 <= i < p ==> s[i] != ' ',
        p < s.len() ==> s[p] == ' ',
    ensures
        word_prefix(s) == s.subrange(0, p),
        word_suffix(s) == if p < s.len() {
            s.subrange(p + 1, s.len() as int)
        } else {
            Seq::<char>::empty()
        },
    decreases s.len(),
{
    if s.len() == 0 {
        assert(word_prefix(s) =~= s.subrange(0, 0));
        assert(word_suffix(s) =~= Seq::<char>::empty());
    } else if p == 0 {
        assert(s[0] == ' ');
        assert(word_prefix(s) =~= s.subrange(0, 0));
        assert(word_suffix(s) =~= s.subrange(1, s.len() as int));
    } else {
        let s0 = s.drop_first();
        assert(forall|i: int| 0 <= i < p - 1 ==> #[trigger] s0[i] != ' ');
        lemma_word_prefix_at(s0, p - 1);
        assert(seq![s[0]] + s0.subrange(0, p - 1) =~= s.subrange(0, p));
        if p < s.len() {
            assert(s0.subrange(p - 1 + 1, s0.len() as int) =~= s.subrange(p + 1, s.len() as int));
        }
    }
}

/// Dropping everything up to and including the first space shortens a
/// non-empty string.
pub proof fn lemma_word_suffix_len(s: Seq<char>)
    ensures
        s.len() > 0 ==> word_suffix(s).len() < s.len(),
    decreases s.len(),
{
    if s.len() > 0 {
        if s[0] == ' ' {
            assert(word_suffix(s) == s.drop_first());
        } else {
            let s0 = s.drop_first();
            assert(word_suffix(s) == word_suffix(s0));
            lemma_word_suffix_len(s0);
            if s0.len() == 0 {
                assert(word_suffix(s0) == s0);
            }
        }
    }
}

/// The space-separated words of `s`, in order, empty words dropped.
pub open spec fn split_terms(s: Seq<char>) -> Seq<Seq<char>>
    decreases s.len(),
    via split_terms_decreases
{
    if s.len() == 0 {
        Seq::empty()
    } else if s[0] == ' ' {
        split_terms(s.drop_first())
    } else {
        seq![word_prefix(s)] + split_terms(word_suffix(s))
    }
}

#[via_fn]
proof fn split_terms_decreases(s: Seq<char>) {
    if s.len() > 0 && s[0] != ' ' {
        lemma_word_suffix_len(s);
    }
}

/// The space-separated words of `v`, in order, empty words dropped.
#[verifier::loop_isolation(false)]
pub fn split_terms_chars(v: &Vec<char>) -> (r: Vec<Vec<char>>)
    ensures
        r@.len() == split_terms(v@).len(),
        forall|k: int| 0 <= k < r@.len() ==> (#[trigger] r@[k])@ == split_terms(v@)[k],
{
    let n = v.len();
    let mut r: Vec<Vec<char>> = Vec::new();
    let mut i: usize = 0;
    proof {
        assert(v@.skip(0) =~= v@);
        assert(r@.map_values(|w: Vec<char>| w@) =~= Seq::<Seq<char>>::empty());
        assert(split_terms(v@) =~= r@.map_values(|w: Vec<char>| w@) + split_terms(v@.skip(0)));
    }
    while i < n
        invariant
            i <= n,
            split_terms(v@) == r@.map_values(|w: Vec<char>| w@) + split_terms(
                v@.skip(i as int),
            ),
        decreases n - i,
    {
        let ghost suf = v@.skip(i as int);
        if v[i] == ' ' {
            proof {
                assert(suf[0] == ' ');
                assert(suf.drop_first() =~= v@.skip(i + 1));
            }
            i = i + 1;
        } else {
            let start = i;
            let mut w: Vec<char> = Vec::new();
            while i < n && v[i] != ' '
                invariant
                    start <= i <= n,
                    w@ == v@.subrange(start as int, i as int),
                    forall|l: int| start <= l < i ==> v@[l] != ' ',
                    v@[start as int] != ' ',
                decreases n - i,
            {
                w.push(v[i]);
                proof {
                    assert(w@ =~= v@.subrange(start as int, i + 1));
                }
                i = i + 1;
            }
            proof {
                assert(forall|l: int| 0 <= l < i - start ==> #[trigger] suf[l] != ' ');
                assert(i - start < suf.len() ==> suf[i - start] == ' ');
                lemma_word_prefix_at(suf, i - start);
                assert(suf.subrange(0, i - start) =~= v@.subrange(start as int, i as int));
                assert(w@ == word_prefix(suf));
                if (i as int) < suf.len() + start {
                    assert(suf.subrange(i - start + 1, suf.len() as int) =~= v@.skip(i + 1));
                }
            }
            let ghost before = r@;
            r.push(w);
            proof {
                assert(r@.map_values(|x: Vec<char>| x@) =~= before.map_values(
                    |x: Vec<char>| x@,
                ).push(w@));
                assert(split_terms(suf) == seq![word_prefix(suf)] + split_terms(word_suffix(suf)));
                if i < n {
                    assert(v@[i as int] == ' ');
                    assert(word_suffix(suf) =~= v@.skip(i + 1));
                    // The next iteration starts at the separating space; the
                    // skip-space branch of the definition passes over it.
                    assert(v@.skip(i as int)[0] == ' ');
                    assert(v@.skip(i as int).drop_first() =~= v@.skip(i + 1));
                    assert(split_terms(v@.skip(i as int)) == split_terms(v@.skip(i + 1)));
                } else {
                    assert(word_suffix(suf) =~= v@.skip(i as int));
                }
                assert(before.map_values(|x: Vec<char>| x@).push(w@) + split_terms(
                    v@.skip(i as int),
                ) =~= before.map_values(|x: Vec<char>| x@) + (seq![w@] + split_terms(
                    v@.skip(i as int),
                )));
            }
        }
    }
    proof {
        assert(v@.skip(n as int) =~= Seq::<char>::empty());
        assert(split_terms(v@) =~= r@.map_values(|w: Vec<char>| w@));
        assert forall|k: int| 0 <= k < r@.len() implies (#[trigger] r@[k])@ == split_terms(v@)[k]
            by {
            assert(r@.map_values(|w: Vec<char>| w@)[k] == r@[k]@);
        }
    }
    r
}
#[verifier::loop_isolation(false)]
pub fn split_colon_suffix(s: &str) -> (r: String)
    ensures
        r@ == colon_suffix(s@),
{
    let n = s.unicode_len();
    let mut p: usize = 0;
    while p < n && s.get_char(p) != ':'
        invariant
            p <= n,
            forall|i: int| 0 <= i < p ==> s@[i] != ':',
        decreases n - p,
    {
        p = p + 1;
    }
    proof {
        lemma_colon_prefix_at(s@, p as int);
    }
    if p < n {
        let suf = s.substring_char(p + 1, n);
        suf.to_owned()
    } else {
        String::new()
    }
}

/// Shortens `s` for display: a string of at most `max_len` characters is
/// returned unchanged, a longer one is cut and finished with `"..."`.
pub fn truncate(s: &str, max_len: usize) -> (r: String)
    ensures
        s@.len() <= max_len ==> r@ == s@,
        s@.len() > max_len ==> r@ == s@.subrange(
            0,
            if max_len >= 3 {
                (max_len - 3) as int
            } else {
                0
            },
        ) + "..."@,
{
    let n = s.unicode_len();
    if n <= max_len {
        s.to_owned()
    } else {
        let cut = if max_len >= 3 {
            max_len - 3
        } else {
            0
        };
        let mut r = s.substring_char(0, cut).to_owned();
        r.append("...");
        r
    }
}

} // verus!
