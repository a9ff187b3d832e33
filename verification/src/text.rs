use vstd::prelude::*;

verus! {

// Occurrence of a pattern inside a text, and the leftmost such occurrence.
// These are the building blocks for the front-matter splitter and the
// template scanner.

/// The pattern `n` occurs in `h` starting at index `i`.
pub open spec fn occurs_at(h: Seq<char>, n: Seq<char>, i: int) -> bool {
    0 <= i && i + n.len() <= h.len() && h.subrange(i, i + n.len()) == n
}

/// The pattern `n` occurs somewhere in `h`.
pub open spec fn contains_seq(h: Seq<char>, n: Seq<char>) -> bool {
    exists|i: int| occurs_at(h, n, i)
}

/// Index of the leftmost occurrence of a non-empty pattern `n` in `h` at or
/// after `from`.
pub open spec fn find_from(h: Seq<char>, n: Seq<char>, from: int) -> Option<int>
    decreases h.len() - from,
{
    if from < 0 || n.len() == 0 {
        None
    } else if from + n.len() > h.len() {
        None
    } else if h.subrange(from, from + n.len()) == n {
        Some(from)
    } else {
        find_from(h, n, from + 1)
    }
}

/// What a found index means: an occurrence there, and none before it.
pub proof fn lemma_find_from_some(h: Seq<char>, n: Seq<char>, from: int, j: int)
    requires
        find_from(h, n, from) == Some(j),
    ensures
        from <= j,
        occurs_at(h, n, j),
        forall|k: int| from <= k < j ==> !occurs_at(h, n, k),
    decreases h.len() - from,
{
    if from < 0 || n.len() == 0 || from + n.len() > h.len() {
        assert(false);
    } else if h.subrange(from, from + n.len()) == n {
    } else {
        lemma_find_from_some(h, n, from + 1, j);
    }
}

/// A failed search means there is no occurrence at or after `from`.
pub proof fn lemma_find_from_none(h: Seq<char>, n: Seq<char>, from: int)
    requires
        0 <= from,
        0 < n.len(),
        find_from(h, n, from) is None,
    ensures
        forall|k: int| from <= k ==> !occurs_at(h, n, k),
    decreases h.len() - from,
{
    if from + n.len() > h.len() {
        assert forall|k: int| from <= k implies !occurs_at(h, n, k) by {
            assert(k + n.len() > h.len());
        }
    } else if h.subrange(from, from + n.len()) == n {
        assert(false);
    } else {
        lemma_find_from_none(h, n, from + 1);
    }
}

/// The leftmost occurrence is what the search returns.
pub proof fn lemma_find_from_first(h: Seq<char>, n: Seq<char>, from: int, j: int)
    requires
        0 <= from <= j,
        0 < n.len(),
        occurs_at(h, n, j),
        forall|k: int| from <= k < j ==> !occurs_at(h, n, k),
    ensures
        find_from(h, n, from) == Some(j),
    decreases j - from,
{
    if from == j {
    } else {
        assert(!occurs_at(h, n, from));
        lemma_find_from_first(h, n, from + 1, j);
    }
}

/// Whether `n` occurs in `h` at index `i`, decided by comparing characters.
pub fn occurs_at_exec(h: &str, n: &str, i: usize) -> (b: bool)
    requires
        i + n@.len() <= h@.len(),
    ensures
        b == occurs_at(h@, n@, i as int),
{
    let hl = h.unicode_len();
    let nl = n.unicode_len();
    let mut j: usize = 0;
    while j < nl
        invariant
            0 <= j <= nl,
            nl == n@.len(),
            hl == h@.len(),
            i + nl <= hl,
            forall|k: int| 0 <= k < j ==> h@[i + k] == n@[k],
        decreases nl - j,
    {
        if h.get_char(i + j) != n.get_char(j) {
            proof {
                assert(h@.subrange(i as int, i + n@.len())[j as int] != n@[j as int]);
            }
            return false;
        }
        j = j + 1;
    }
    proof {
        assert(h@.subrange(i as int, i + n@.len()) =~= n@);
    }
    true
}

/// The leftmost occurrence of `n` in `h` at or after `from`, by scanning.
pub fn find_from_exec(h: &str, n: &str, from: usize) -> (r: Option<usize>)
    ensures
        match r {
            Some(j) => find_from(h@, n@, from as int) == Some(j as int),
            None => find_from(h@, n@, from as int) is None,
        },
{
    let hl = h.unicode_len();
    let nl = n.unicode_len();
    if nl == 0 || from > hl || nl > hl - from {
        return None;
    }
    let mut i: usize = from;
    while i <= hl - nl
        invariant
            from <= i,
            0 < nl <= hl,
            i <= hl - nl + 1,
            hl == h@.len(),
            nl == n@.len(),
            find_from(h@, n@, from as int) == find_from(h@, n@, i as int),
        decreases hl - i,
    {
        if occurs_at_exec(h, n, i) {
            return Some(i);
        }
        i = i + 1;
    }
    None
}

/// Two string slices hold the same characters.
pub fn str_eq(a: &str, b: &str) -> (r: bool)
    ensures
        r == (a@ == b@),
{
    let al = a.unicode_len();
    let bl = b.unicode_len();
    if al != bl {
        return false;
    }
    let mut i: usize = 0;
    while i < al
        invariant
            0 <= i <= al,
            al == a@.len(),
            al == b@.len(),
            forall|k: int| 0 <= k < i ==> a@[k] == b@[k],
        decreases al - i,
    {
        if a.get_char(i) != b.get_char(i) {
            return false;
        }
        i = i + 1;
    }
    proof {
        assert(a@ =~= b@);
    }
    true
}

// Trimming surrounding whitespace, as the metadata block is trimmed before
// it is decoded.

/// The whitespace characters that trimming removes.
pub open spec fn is_space(c: char) -> bool {
    c == ' ' || c == '\t' || c == '\n' || c == '\r'
}

/// `s` without its leading whitespace.
pub open spec fn trim_start_spec(s: Seq<char>) -> Seq<char>
    decreases s.len(),
{
    if s.len() == 0 {
        s
    } else if is_space(s[0]) {
        trim_start_spec(s.drop_first())
    } else {
        s
    }
}

/// `s` without its trailing whitespace.
pub open spec fn trim_end_spec(s: Seq<char>) -> Seq<char>
    decreases s.len(),
{
    if s.len() == 0 {
        s
    } else if is_space(s[s.len() - 1]) {
        trim_end_spec(s.drop_last())
    } else {
        s
    }
}

/// `s` without surrounding whitespace.
pub open spec fn trim_spec(s: Seq<char>) -> Seq<char> {
    trim_end_spec(trim_start_spec(s))
}

proof fn lemma_trim_start_range(s: Seq<char>, a: int)
    requires
        0 <= a <= s.len(),
        forall|k: int| 0 <= k < a ==> is_space(s[k]),
        a < s.len() ==> !is_space(s[a]),
    ensures
        trim_start_spec(s) == s.subrange(a, s.len() as int),
    decreases a,
{
    if a == 0 {
        assert(s.subrange(0, s.len() as int) =~= s);
        if s.len() > 0 {
            assert(!is_space(s[0]));
        }
    } else {
        assert(is_space(s[0]));
        let t = s.drop_first();
        assert(t =~= s.subrange(1, s.len() as int));
        lemma_trim_start_range(t, a - 1);
        assert(t.subrange(a - 1, t.len() as int) =~= s.subrange(a, s.len() as int));
    }
}

proof fn lemma_trim_end_range(s: Seq<char>, b: int)
    requires
        0 <= b <= s.len(),
        forall|k: int| b <= k < s.len() ==> is_space(s[k]),
        b > 0 ==> !is_space(s[b - 1]),
    ensures
        trim_end_spec(s) == s.subrange(0, b),
    decreases s.len() - b,
{
    if b == s.len() {
        assert(s.subrange(0, b) =~= s);
        if s.len() > 0 {
            assert(!is_space(s[s.len() - 1]));
        }
    } else {
        assert(is_space(s[s.len() - 1]));
        let t = s.drop_last();
        assert(t =~= s.subrange(0, s.len() - 1));
        lemma_trim_end_range(t, b);
        assert(t.subrange(0, b) =~= s.subrange(0, b));
    }
}

fn is_space_exec(c: char) -> (b: bool)
    ensures
        b == is_space(c),
{
    c == ' ' || c == '\t' || c == '\n' || c == '\r'
}

/// `s` without surrounding whitespace, as an owned string.
pub fn trim_exec(s: &str) -> (r: String)
    ensures
        r@ == trim_spec(s@),
{
    let sl = s.unicode_len();
    let mut a: usize = 0;
    while a < sl && is_space_exec(s.get_char(a))
        invariant
            0 <= a <= sl,
            sl == s@.len(),
            forall|k: int| 0 <= k < a ==> is_space(s@[k]),
        decreases sl - a,
    {
        a = a + 1;
    }
    if a == sl {
        proof {
            lemma_trim_start_range(s@, a as int);
            assert(s@.subrange(sl as int, sl as int) =~= Seq::<char>::empty());
            assert(trim_spec(s@) =~= Seq::<char>::empty());
        }
        return String::new();
    }
    let mut b: usize = sl;
    while b > a && is_space_exec(s.get_char(b - 1))
        invariant
            a <= b <= sl,
            sl == s@.len(),
            a < sl,
            !is_space(s@[a as int]),
            forall|k: int| b <= k < sl ==> is_space(s@[k]),
        decreases b,
    {
        b = b - 1;
    }
    proof {
        lemma_trim_start_range(s@, a as int);
        let t = s@.subrange(a as int, sl as int);
        lemma_trim_end_range(t, b - a);
        assert(t.subrange(0, b - a) =~= s@.subrange(a as int, b as int));
    }
    let part = s.substring_char(a, b);
    String::from_str(part)
}

// Decimal digits, for the filename sequence number and its rendering.

/// The numeric value of a decimal digit character, or 10 for any other
/// character.
pub open spec fn digit_val(c: char) -> int {
    if c == '0' { 0 }
    else if c == '1' { 1 }
    else if c == '2' { 2 }
    else if c == '3' { 3 }
    else if c == '4' { 4 }
    else if c == '5' { 5 }
    else if c == '6' { 6 }
    else if c == '7' { 7 }
    else if c == '8' { 8 }
    else if c == '9' { 9 }
    else { 10 }
}

/// `c` is a decimal digit.
pub open spec fn is_digit(c: char) -> bool {
    digit_val(c) < 10
}

/// The digit character for a value 0 through 9.
pub open spec fn digit_char(d: int) -> char {
    if d == 0 { '0' }
    else if d == 1 { '1' }
    else if d == 2 { '2' }
    else if d == 3 { '3' }
    else if d == 4 { '4' }
    else if d == 5 { '5' }
    else if d == 6 { '6' }
    else if d == 7 { '7' }
    else if d == 8 { '8' }
    else { '9' }
}

pub fn is_digit_exec(c: char) -> (b: bool)
    ensures
        b == is_digit(c),
{
    c == '0' || c == '1' || c == '2' || c == '3' || c == '4' || c == '5' || c == '6' || c == '7'
        || c == '8' || c == '9'
}

pub fn digit_val_exec(c: char) -> (v: u32)
    requires
        is_digit(c),
    ensures
        v == digit_val(c),
{
    if c == '0' { 0 }
    else if c == '1' { 1 }
    else if c == '2' { 2 }
    else if c == '3' { 3 }
    else if c == '4' { 4 }
    else if c == '5' { 5 }
    else if c == '6' { 6 }
    else if c == '7' { 7 }
    else if c == '8' { 8 }
    else { 9 }
}

/// The decimal rendering of a value 0 through 255, without leading zeros.
pub open spec fn dec_of_u8(n: int) -> Seq<char> {
    if n < 10 {
        seq![digit_char(n)]
    } else if n < 100 {
        seq![digit_char(n / 10), digit_char(n % 10)]
    } else {
        seq![digit_char(n / 100), digit_char((n / 10) % 10), digit_char(n % 10)]
    }
}

fn digit_char_exec(d: u8) -> (c: char)
    requires
        d < 10,
    ensures
        c == digit_char(d as int),
{
    if d == 0 { '0' }
    else if d == 1 { '1' }
    else if d == 2 { '2' }
    else if d == 3 { '3' }
    else if d == 4 { '4' }
    else if d == 5 { '5' }
    else if d == 6 { '6' }
    else if d == 7 { '7' }
    else if d == 8 { '8' }
    else { '9' }
}

fn append_digit(out: &mut String, d: u8)
    requires
        d < 10,
    ensures
        final(out)@ == old(out)@.push(digit_char(d as int)),
{
    let digits = "0123456789";
    proof {
        reveal_strlit("0123456789");
    }
    let c = digit_char_exec(d);
    let i: usize = if d == 0 { 0 } else if d == 1 { 1 } else if d == 2 { 2 } else if d == 3 { 3 }
        else if d == 4 { 4 } else if d == 5 { 5 } else if d == 6 { 6 } else if d == 7 { 7 }
        else if d == 8 { 8 } else { 9 };
    let part = digits.substring_char(i, i + 1);
    proof {
        assert(part@ =~= seq![digit_char(d as int)]);
        assert(old(out)@ + part@ =~= old(out)@.push(digit_char(d as int)));
    }
    out.append(part);
}

/// The decimal rendering of `n`, without leading zeros.
pub fn u8_to_string(n: u8) -> (r: String)
    ensures
        r@ == dec_of_u8(n as int),
{
    let mut out = String::new();
    if n >= 100 {
        append_digit(&mut out, n / 100);
        append_digit(&mut out, (n / 10) % 10);
        append_digit(&mut out, n % 10);
        proof {
            assert(out@ =~= dec_of_u8(n as int));
        }
    } else if n >= 10 {
        append_digit(&mut out, n / 10);
        append_digit(&mut out, n % 10);
        proof {
            assert(out@ =~= dec_of_u8(n as int));
        }
    } else {
        append_digit(&mut out, n);
        proof {
            assert(out@ =~= dec_of_u8(n as int));
        }
    }
    out
}

} // verus!
