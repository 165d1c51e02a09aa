//! Character-level helpers over the views of strings.

use vstd::prelude::*;
use vstd::string::*;

verus! {

/// No position of `s` holds `c`.
pub open spec fn lacks(s: Seq<char>, c: char) -> bool {
    forall|j: int| 0 <= j < s.len() ==> s[j] != c
}

/// `i` is the first position of `s` that holds `c`.
pub open spec fn is_first_index(s: Seq<char>, c: char, i: int) -> bool {
    &&& 0 <= i < s.len()
    &&& s[i] == c
    &&& lacks(s.take(i), c)
}

/// The text before and after the first `c` in `s`, if `s` holds a `c`.
pub open spec fn split_once(s: Seq<char>, c: char) -> Option<(Seq<char>, Seq<char>)> {
    if exists|i: int| is_first_index(s, c, i) {
        let i = choose|i: int| is_first_index(s, c, i);
        Some((s.take(i), s.skip(i + 1)))
    } else {
        None
    }
}

/// `t` occurs in `s` starting at position `i`.
pub open spec fn occurs_at(s: Seq<char>, t: Seq<char>, i: int) -> bool {
    0 <= i && i + t.len() <= s.len() && s.subrange(i, i + t.len()) == t
}

/// `t` occurs somewhere in `s`.
pub open spec fn contains(s: Seq<char>, t: Seq<char>) -> bool {
    exists|i: int| occurs_at(s, t, i)
}

pub proof fn lemma_first_index_unique(s: Seq<char>, c: char, i: int, k: int)
    requires
        is_first_index(s, c, i),
        is_first_index(s, c, k),
    ensures
        i == k,
{
    if i < k {
        assert(s.take(k)[i] == c);
    } else if k < i {
        assert(s.take(i)[k] == c);
    }
}

/// The split at a known first position.
pub proof fn lemma_split_once_at(s: Seq<char>, c: char, i: int)
    requires
        is_first_index(s, c, i),
    ensures
        split_once(s, c) == Some((s.take(i), s.skip(i + 1))),
{
    let k = choose|k: int| is_first_index(s, c, k);
    lemma_first_index_unique(s, c, i, k);
}

/// The characters of `s`, in order.
pub(crate) fn chars_of(s: &str) -> (r: Vec<char>)
    ensures
        r@ == s@,
{
    let n = s.unicode_len();
    let mut v: Vec<char> = Vec::new();
    let mut i: usize = 0;
    while i < n
        invariant
            n == s@.len(),
            i <= n,
            v@ == s@.take(i as int),
        decreases n - i,
    {
        v.push(s.get_char(i));
        assert(s@.take(i + 1) =~= s@.take(i as int).push(s@[i as int]));
        i = i + 1;
    }
    assert(s@.take(n as int) =~= s@);
    v
}

/// The first position at or after `from` that holds `c`.
pub fn find_char(v: &Vec<char>, c: char, from: usize) -> (r: Option<usize>)
    requires
        from <= v.len(),
    ensures
        match r {
            Some(i) => from <= i < v.len() && v@[i as int] == c && lacks(
                v@.subrange(from as int, i as int),
                c,
            ),
            None => lacks(v@.skip(from as int), c),
        },
{
    let mut i = from;
    while i < v.len()
        invariant
            from <= i <= v.len(),
            lacks(v@.subrange(from as int, i as int), c),
        decreases v.len() - i,
    {
        if v[i] == c {
            return Some(i);
        }
        assert(v@.subrange(from as int, i + 1) =~= v@.subrange(from as int, i as int).push(v@[i as int]));
        i = i + 1;
    }
    assert(v@.skip(from as int) =~= v@.subrange(from as int, i as int));
    None
}

/// Whether `t` occurs in `s`.
pub fn contains_text(s: &str, t: &str) -> (r: bool)
    ensures
        r == contains(s@, t@),
{
    let sv = chars_of(s);
    let tv = chars_of(t);
    if tv.len() > sv.len() {
        return false;
    }
    let mut i: usize = 0;
    while i <= sv.len() - tv.len()
        invariant
            sv@ == s@,
            tv@ == t@,
            tv.len() <= sv.len(),
            i <= sv.len() - tv.len() + 1,
            forall|k: int| 0 <= k < i ==> !occurs_at(s@, t@, k),
        decreases sv.len() - i,
    {
        let mut j: usize = 0;
        let mut same = true;
        while j < tv.len()
            invariant
                sv@ == s@,
                tv@ == t@,
                i + tv.len() <= sv.len(),
                j <= tv.len(),
                same == (forall|m: int| 0 <= m < j ==> sv@[i + m] == tv@[m]),
            decreases tv.len() - j,
        {
            if sv[i + j] != tv[j] {
                same = false;
            }
            j = j + 1;
        }
        if same {
            assert(s@.subrange(i as int, i + t@.len()) =~= t@);
            assert(occurs_at(s@, t@, i as int));
            return true;
        }
        proof {
            let k = choose|m: int| 0 <= m < tv.len() && sv@[i + m] != tv@[m];
            assert(s@.subrange(i as int, i + t@.len())[k] != t@[k]);
        }
        i = i + 1;
    }
    proof {
        assert forall|k: int| !occurs_at(s@, t@, k) by {
            if 0 <= k && k + t@.len() <= s@.len() {
                assert(k < i);
            }
        }
    }
    false
}

/// A character of a decimal numeral: a digit or a minus sign.
pub open spec fn is_numeral_char(c: char) -> bool {
    ('0' <= c && c <= '9') || c == '-'
}

/// The text of one character of a numeral.
fn numeral_char_text(c: char) -> (r: &'static str)
    requires
        is_numeral_char(c),
    ensures
        r@ == seq![c],
{
    proof {
        reveal_strlit("0");
        reveal_strlit("1");
        reveal_strlit("2");
        reveal_strlit("3");
        reveal_strlit("4");
        reveal_strlit("5");
        reveal_strlit("6");
        reveal_strlit("7");
        reveal_strlit("8");
        reveal_strlit("9");
        reveal_strlit("-");
    }
    let r = if c == '0' { "0" } else if c == '1' { "1" } else if c == '2' { "2" }
    else if c == '3' { "3" } else if c == '4' { "4" } else if c == '5' { "5" }
    else if c == '6' { "6" } else if c == '7' { "7" } else if c == '8' { "8" }
    else if c == '9' { "9" } else { "-" };
    assert(r@ =~= seq![c]);
    r
}

/// The text made of the characters of a numeral, in order.
fn text_of(v: &Vec<char>) -> (r: String)
    requires
        forall|i: int| 0 <= i < v@.len() ==> is_numeral_char(#[trigger] v@[i]),
    ensures
        r@ == v@,
{
    let mut out = String::new();
    let mut i: usize = 0;
    while i < v.len()
        invariant
            i <= v.len(),
            forall|j: int| 0 <= j < v@.len() ==> is_numeral_char(#[trigger] v@[j]),
            out@ == v@.take(i as int),
        decreases v.len() - i,
    {
        out = out.concat(numeral_char_text(v[i]));
        assert(v@.take(i + 1) =~= v@.take(i as int) + seq![v@[i as int]]);
        i = i + 1;
    }
    assert(v@.take(i as int) =~= v@);
    out
}

proof fn lemma_decimal_text_numeral(n: nat)
    ensures
        forall|i: int|
            0 <= i < decimal_text(n).len() ==> is_numeral_char(#[trigger] decimal_text(n)[i]),
    decreases n,
{
    if n >= 10 {
        lemma_decimal_text_numeral(n / 10);
        let d = decimal_text(n);
        assert forall|i: int| 0 <= i < d.len() implies is_numeral_char(#[trigger] d[i]) by {
            if i < d.len() - 1 {
                assert(d[i] == decimal_text(n / 10)[i]);
            }
        }
    }
}

/// The character of a decimal digit.
pub open spec fn digit_char(d: nat) -> char {
    if d == 0 { '0' } else if d == 1 { '1' } else if d == 2 { '2' } else if d == 3 { '3' }
    else if d == 4 { '4' } else if d == 5 { '5' } else if d == 6 { '6' } else if d == 7 { '7' }
    else if d == 8 { '8' } else { '9' }
}

/// The decimal numeral of `n`, without leading zeros.
pub open spec fn decimal_text(n: nat) -> Seq<char>
    decreases n,
{
    if n < 10 {
        seq![digit_char(n)]
    } else {
        decimal_text(n / 10).push(digit_char(n % 10))
    }
}

/// The decimal numeral of `n`, with a `-` in front when `n` is negative.
pub open spec fn signed_decimal_text(n: int) -> Seq<char> {
    if n < 0 {
        seq!['-'] + decimal_text((-n) as nat)
    } else {
        decimal_text(n as nat)
    }
}

fn digit(d: u64) -> (c: char)
    requires
        d < 10,
    ensures
        c == digit_char(d as nat),
{
    if d == 0 { '0' } else if d == 1 { '1' } else if d == 2 { '2' } else if d == 3 { '3' }
    else if d == 4 { '4' } else if d == 5 { '5' } else if d == 6 { '6' } else if d == 7 { '7' }
    else if d == 8 { '8' } else { '9' }
}

fn decimal_chars(n: u64) -> (r: Vec<char>)
    ensures
        r@ == decimal_text(n as nat),
{
    let mut m = n;
    let mut out: Vec<char> = Vec::new();
    while m >= 10
        invariant
            decimal_text(n as nat) == decimal_text(m as nat) + out@,
        decreases m,
    {
        let c = digit(m % 10);
        let ghost before = out@;
        out.insert(0, c);
        assert(decimal_text(m as nat) == decimal_text((m / 10) as nat).push(digit_char((m % 10) as nat)));
        assert(out@ =~= seq![c] + before);
        assert(decimal_text(m as nat) + before =~= decimal_text((m / 10) as nat) + out@);
        m = m / 10;
    }
    let c = digit(m);
    let ghost before = out@;
    out.insert(0, c);
    assert(out@ =~= decimal_text(m as nat) + before);
    out
}

/// The decimal numeral of `n`.
pub fn decimal(n: usize) -> (r: String)
    ensures
        r@ == decimal_text(n as nat),
{
    proof {
        lemma_decimal_text_numeral(n as nat);
    }
    text_of(&decimal_chars(n as u64))
}

/// The decimal numeral of `n`, with a `-` in front when `n` is negative.
pub fn signed_decimal(n: isize) -> (r: String)
    ensures
        r@ == signed_decimal_text(n as int),
{
    if n < 0 {
        let magnitude: u64 = (-(n as i128)) as u64;
        proof {
            lemma_decimal_text_numeral(magnitude as nat);
        }
        let mut v = decimal_chars(magnitude);
        let ghost digits = v@;
        v.insert(0, '-');
        assert(v@ =~= seq!['-'] + digits);
        assert forall|i: int| 0 <= i < v@.len() implies is_numeral_char(#[trigger] v@[i]) by {
            if i > 0 {
                assert(v@[i] == digits[i - 1]);
            }
        }
        text_of(&v)
    } else {
        proof {
            lemma_decimal_text_numeral(n as nat);
        }
        text_of(&decimal_chars(n as u64))
    }
}

} // verus!
