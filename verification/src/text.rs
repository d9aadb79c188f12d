//! Character-level string helpers shared by the other modules.

use vstd::prelude::*;

verus! {

/// The characters of `s`, in order.
pub fn chars_of(s: &str) -> (v: Vec<char>)
    ensures
        v@ == s@,
{
    let mut v: Vec<char> = Vec::new();
    for c in it: s.chars()
        invariant
            v@ == it.seq().take(it.index() as int),
            it.seq() == s@,
    {
        v.push(c);
    }
    v
}

/// A `String` holding exactly the characters of `s`.
pub fn string_from(s: &str) -> (r: String)
    ensures
        r@ == s@,
{
    String::from_str(s)
}

/// Appends one character to a string.
///
/// Trusted: wraps `String::push`, which std documents as appending the given
/// `char` to the end of the string.
#[verifier::external_body]
pub(crate) fn push_char(s: &mut String, c: char)
    ensures
        final(s)@ == old(s)@.push(c),
{
    s.push(c)
}

/// Appends a string slice to a string.
pub fn push_str(s: &mut String, t: &str)
    ensures
        final(s)@ == old(s)@ + t@,
{
    s.append(t)
}

/// A string made of the characters `cs`, in order.
pub fn string_of_chars(cs: &[char]) -> (r: String)
    ensures
        r@ == cs@,
{
    let mut r = String::new();
    let mut i: usize = 0;
    while i < cs.len()
        invariant
            i <= cs@.len(),
            r@ == cs@.take(i as int),
        decreases cs@.len() - i,
    {
        push_char(&mut r, cs[i]);
        i = i + 1;
        assert(r@ =~= cs@.take(i as int));
    }
    assert(cs@.take(cs@.len() as int) =~= cs@);
    r
}

/// A string made of the characters `cs[from..to]`.
pub fn string_of_range(cs: &Vec<char>, from: usize, to: usize) -> (r: String)
    requires
        from <= to <= cs@.len(),
    ensures
        r@ == cs@.subrange(from as int, to as int),
{
    let mut r = String::new();
    let mut i: usize = from;
    while i < to
        invariant
            from <= i <= to <= cs@.len(),
            r@ == cs@.subrange(from as int, i as int),
        decreases to - i,
    {
        push_char(&mut r, cs[i]);
        i = i + 1;
        assert(r@ =~= cs@.subrange(from as int, i as int));
    }
    r
}

/// Unicode's `White_Space` property, the set of characters that
/// `char::is_whitespace` accepts.
pub open spec fn is_unicode_whitespace(c: char) -> bool {
    let u = c as u32;
    ||| 0x09 <= u <= 0x0D
    ||| u == 0x20
    ||| u == 0x85
    ||| u == 0xA0
    ||| u == 0x1680
    ||| 0x2000 <= u <= 0x200A
    ||| u == 0x2028
    ||| u == 0x2029
    ||| u == 0x202F
    ||| u == 0x205F
    ||| u == 0x3000
}

/// Whether `c` has the Unicode `White_Space` property, as
/// `char::is_whitespace` decides.
pub(crate) fn char_is_whitespace(c: char) -> (b: bool)
    ensures
        b == is_unicode_whitespace(c),
{
    let u = c as u32;
    (0x09 <= u && u <= 0x0D) || u == 0x20 || u == 0x85 || u == 0xA0 || u == 0x1680 || (0x2000 <= u
        && u <= 0x200A) || u == 0x2028 || u == 0x2029 || u == 0x202F || u == 0x205F || u == 0x3000
}

/// Number of bytes in the UTF-8 encoding of `c`.
pub open spec fn char_width(c: char) -> nat {
    let u = c as u32;
    if u < 0x80 {
        1
    } else if u < 0x800 {
        2
    } else if u < 0x10000 {
        3
    } else {
        4
    }
}

/// Number of bytes in the UTF-8 encoding of `s`.
pub open spec fn utf8_len(s: Seq<char>) -> nat
    decreases s.len(),
{
    if s.len() == 0 {
        0
    } else {
        char_width(s[0]) + utf8_len(s.drop_first())
    }
}

/// The UTF-8 length of a concatenation is the sum of the lengths.
pub proof fn lemma_utf8_len_append(a: Seq<char>, b: Seq<char>)
    ensures
        utf8_len(a + b) == utf8_len(a) + utf8_len(b),
    decreases a.len(),
{
    if a.len() == 0 {
        assert(a + b =~= b);
    } else {
        assert((a + b).drop_first() =~= a.drop_first() + b);
        lemma_utf8_len_append(a.drop_first(), b);
    }
}

/// `utf8_len` counts the bytes of vstd's UTF-8 encoding.
pub proof fn lemma_utf8_len_encode(s: Seq<char>)
    ensures
        utf8_len(s) == vstd::utf8::encode_utf8(s).len(),
    decreases s.len(),
{
    if s.len() > 0 {
        vstd::utf8::char_is_scalar(s[0]);
        lemma_utf8_len_encode(s.drop_first());
    }
}

/// The UTF-8 length of the first `i + 1` characters.
pub proof fn lemma_utf8_len_take_succ(s: Seq<char>, i: int)
    requires
        0 <= i < s.len(),
    ensures
        utf8_len(s.take(i + 1)) == utf8_len(s.take(i)) + char_width(s[i]),
{
    assert(s.take(i + 1) =~= s.take(i) + seq![s[i]]);
    lemma_utf8_len_append(s.take(i), seq![s[i]]);
    assert(seq![s[i]].drop_first() =~= Seq::<char>::empty());
    assert(utf8_len(Seq::<char>::empty()) == 0);
    assert(utf8_len(seq![s[i]]) == char_width(s[i]) + utf8_len(seq![s[i]].drop_first()));
}

/// A prefix is no longer than the whole.
pub proof fn lemma_utf8_len_take_le(s: Seq<char>, i: int)
    requires
        0 <= i <= s.len(),
    ensures
        utf8_len(s.take(i)) <= utf8_len(s),
{
    assert(s =~= s.take(i) + s.skip(i));
    lemma_utf8_len_append(s.take(i), s.skip(i));
}

/// The UTF-8 byte length of `s`, which always fits in a `usize`.
pub fn byte_len(s: &str) -> (n: usize)
    ensures
        n == utf8_len(s@),
{
    proof {
        lemma_utf8_len_encode(s@);
    }
    s.as_bytes().len()
}

/// Number of bytes in the UTF-8 encoding of `c`.
pub fn utf8_width(c: char) -> (w: usize)
    ensures
        w == char_width(c),
{
    let u = c as u32;
    if u < 0x80 {
        1
    } else if u < 0x800 {
        2
    } else if u < 0x10000 {
        3
    } else {
        4
    }
}

/// The ASCII digit for `d < 10`.
pub open spec fn digit_char(d: nat) -> char {
    if d == 0 { '0' }
    else if d == 1 { '1' }
    else if d == 2 { '2' }
    else if d == 3 { '3' }
    else if d == 4 { '4' }
    else if d == 5 { '5' }
    else if d == 6 { '6' }
    else if d == 7 { '7' }
    else if d == 8 { '8' }
    else { '9' }
}

/// Decimal notation of `n`, without leading zeros.
pub open spec fn decimal(n: nat) -> Seq<char>
    decreases n,
{
    if n < 10 {
        seq![digit_char(n)]
    } else {
        decimal(n / 10).push(digit_char(n % 10))
    }
}

fn digit(d: u64) -> (c: char)
    requires
        d < 10,
    ensures
        c == digit_char(d as nat),
{
    if d == 0 { '0' }
    else if d == 1 { '1' }
    else if d == 2 { '2' }
    else if d == 3 { '3' }
    else if d == 4 { '4' }
    else if d == 5 { '5' }
    else if d == 6 { '6' }
    else if d == 7 { '7' }
    else if d == 8 { '8' }
    else { '9' }
}

/// Appends the decimal notation of `n`.
pub fn push_decimal(s: &mut String, n: u64)
    ensures
        final(s)@ == old(s)@ + decimal(n as nat),
    decreases n,
{
    if n >= 10 {
        push_decimal(s, n / 10);
    }
    push_char(s, digit(n % 10));
    assert(s@ =~= old(s)@ + decimal(n as nat));
}


/// `s` without its leading whitespace.
pub open spec fn trim_start(s: Seq<char>) -> Seq<char>
    decreases s.len(),
{
    if s.len() > 0 && is_unicode_whitespace(s[0]) {
        trim_start(s.drop_first())
    } else {
        s
    }
}

/// `s` without its trailing whitespace.
pub open spec fn trim_end(s: Seq<char>) -> Seq<char>
    decreases s.len(),
{
    if s.len() > 0 && is_unicode_whitespace(s.last()) {
        trim_end(s.drop_last())
    } else {
        s
    }
}

/// `s` without leading and trailing whitespace, as `str::trim` gives it.
pub open spec fn trim(s: Seq<char>) -> Seq<char> {
    trim_end(trim_start(s))
}

/// The characters of `cs` without leading and trailing whitespace.
pub fn trim_chars(cs: &[char]) -> (r: Vec<char>)
    ensures
        r@ == trim(cs@),
{
    let n = cs.len();
    let mut a: usize = 0;
    assert(cs@.skip(0) =~= cs@);
    while a < n && char_is_whitespace(cs[a])
        invariant
            n == cs@.len(),
            a <= n,
            trim_start(cs@) == trim_start(cs@.skip(a as int)),
        decreases n - a,
    {
        assert(cs@.skip(a as int).drop_first() =~= cs@.skip(a + 1));
        a = a + 1;
    }
    let ghost t = cs@.skip(a as int);
    assert(trim_start(cs@) == t) by {
        if a == n {
            assert(t.len() == 0);
        } else {
            assert(t[0] == cs@[a as int]);
        }
    }
    let mut b: usize = n;
    assert(t.take(t.len() as int) =~= t);
    while b > a && char_is_whitespace(cs[b - 1])
        invariant
            n == cs@.len(),
            a <= b <= n,
            t == cs@.skip(a as int),
            trim_end(t) == trim_end(t.take(b - a)),
        decreases b,
    {
        assert(t.take(b - a).drop_last() =~= t.take(b - 1 - a));
        b = b - 1;
    }
    assert(trim_end(t) == t.take(b - a)) by {
        if b == a {
            assert(t.take(0).len() == 0);
        } else {
            assert(t.take(b - a).last() == cs@[b - 1]);
        }
    }
    let mut r: Vec<char> = Vec::new();
    let mut i = a;
    while i < b
        invariant
            a <= i <= b <= n,
            n == cs@.len(),
            r@ == cs@.subrange(a as int, i as int),
        decreases b - i,
    {
        r.push(cs[i]);
        i = i + 1;
        assert(r@ =~= cs@.subrange(a as int, i as int));
    }
    assert(t.take(b - a) =~= cs@.subrange(a as int, b as int));
    r
}

/// `s` without leading and trailing whitespace.
pub fn trim_str(s: &str) -> (r: String)
    ensures
        r@ == trim(s@),
{
    let cs = chars_of(s);
    let t = trim_chars(cs.as_slice());
    string_of_chars(t.as_slice())
}

/// Whether `s` begins with `p`.
pub open spec fn starts_with(s: Seq<char>, p: Seq<char>) -> bool {
    p.len() <= s.len() && s.take(p.len() as int) == p
}

/// Whether `s` ends with `p`.
pub open spec fn ends_with(s: Seq<char>, p: Seq<char>) -> bool {
    p.len() <= s.len() && s.skip(s.len() - p.len()) == p
}

/// Whether `s` begins with `p`.
pub fn has_prefix(s: &[char], p: &str) -> (b: bool)
    ensures
        b == starts_with(s@, p@),
{
    let pc = chars_of(p);
    if pc.len() > s.len() {
        return false;
    }
    let mut i: usize = 0;
    while i < pc.len()
        invariant
            pc@ == p@,
            pc@.len() <= s@.len(),
            i <= pc@.len(),
            forall|j: int| 0 <= j < i ==> s@[j] == pc@[j],
        decreases pc@.len() - i,
    {
        if s[i] != pc[i] {
            assert(s@.take(pc@.len() as int)[i as int] != p@[i as int]);
            return false;
        }
        i = i + 1;
    }
    assert(s@.take(pc@.len() as int) =~= p@);
    true
}

/// Whether `s` ends with `p`.
pub fn has_suffix(s: &[char], p: &str) -> (b: bool)
    ensures
        b == ends_with(s@, p@),
{
    let pc = chars_of(p);
    if pc.len() > s.len() {
        return false;
    }
    let sn = s.len();
    let off = sn - pc.len();
    let mut i: usize = 0;
    while i < pc.len()
        invariant
            sn == s@.len(),
            pc@ == p@,
            pc@.len() <= s@.len(),
            off == s@.len() - pc@.len(),
            i <= pc@.len(),
            forall|j: int| 0 <= j < i ==> s@[off + j] == pc@[j],
        decreases pc@.len() - i,
    {
        if s[off + i] != pc[i] {
            assert(s@.skip(off as int)[i as int] != p@[i as int]);
            return false;
        }
        i = i + 1;
    }
    assert(s@.skip(off as int) =~= p@);
    true
}

/// The lowercase form of a string, as `str::to_lowercase` computes it from
/// Unicode's case mappings.
pub uninterp spec fn lowercase(s: Seq<char>) -> Seq<char>;

/// The lowercase form of `s`.
///
/// Trusted: wraps `str::to_lowercase`. Its result depends on the text
/// alone, and is named `lowercase`; the Unicode mapping itself is not
/// stated.
#[verifier::external_body]
pub fn to_lower(s: &str) -> (r: String)
    ensures
        r@ == lowercase(s@),
{
    s.to_lowercase()
}


/// Index of the first `c` in `s`.
pub open spec fn index_of(s: Seq<char>, c: char) -> Option<int>
    decreases s.len(),
{
    if s.len() == 0 {
        None
    } else if s[0] == c {
        Some(0)
    } else {
        match index_of(s.drop_first(), c) {
            Some(k) => Some(k + 1),
            None => None,
        }
    }
}

/// `index_of` finds the first occurrence, or reports that there is none.
pub proof fn lemma_index_of(s: Seq<char>, c: char)
    ensures
        match index_of(s, c) {
            Some(k) => 0 <= k < s.len() && s[k] == c && forall|j: int| 0 <= j < k ==> s[j] != c,
            None => forall|j: int| 0 <= j < s.len() ==> s[j] != c,
        },
    decreases s.len(),
{
    if s.len() > 0 && s[0] != c {
        lemma_index_of(s.drop_first(), c);
        assert forall|j: int| 1 <= j < s.len() implies s[j] == s.drop_first()[j - 1] by {}
    }
}

/// The first occurrence is where the scan stops.
pub proof fn lemma_index_of_at(s: Seq<char>, c: char, k: int)
    requires
        0 <= k <= s.len(),
        forall|j: int| 0 <= j < k ==> s[j] != c,
        k < s.len() ==> s[k] == c,
    ensures
        index_of(s, c) == if k < s.len() {
            Some(k)
        } else {
            None::<int>
        },
{
    lemma_index_of(s, c);
    match index_of(s, c) {
        Some(i) => {
            if i < k {
            } else if i > k {
                assert(s[k] == c);
            }
        },
        None => {
            if k < s.len() {
                assert(s[k] == c);
            }
        },
    }
}

/// Index of the first `c` in `cs`.
pub fn find_char(cs: &[char], c: char) -> (r: Option<usize>)
    ensures
        match index_of(cs@, c) {
            Some(k) => r == Some(k as usize),
            None => r is None,
        },
{
    let n = cs.len();
    let mut i: usize = 0;
    while i < n && cs[i] != c
        invariant
            n == cs@.len(),
            i <= n,
            forall|j: int| 0 <= j < i ==> cs@[j] != c,
        decreases n - i,
    {
        i = i + 1;
    }
    proof {
        lemma_index_of_at(cs@, c, i as int);
    }
    if i < n {
        Some(i)
    } else {
        None
    }
}

/// Index of the first occurrence of `p` (not empty) in `s`.
pub open spec fn find_seq(s: Seq<char>, p: Seq<char>) -> Option<int>
    decreases s.len(),
{
    if s.len() < p.len() {
        None
    } else if s.take(p.len() as int) == p {
        Some(0)
    } else if s.len() == 0 {
        None
    } else {
        match find_seq(s.drop_first(), p) {
            Some(k) => Some(k + 1),
            None => None,
        }
    }
}

pub proof fn lemma_find_seq_at(s: Seq<char>, p: Seq<char>, k: int)
    requires
        p.len() > 0,
        0 <= k,
        k + p.len() <= s.len() + 1,
        forall|j: int| 0 <= j < k ==> #[trigger] s.subrange(j, j + p.len()) != p,
        k + p.len() <= s.len() ==> s.subrange(k, k + p.len()) == p,
    ensures
        find_seq(s, p) == if k + p.len() <= s.len() {
            Some(k)
        } else {
            None::<int>
        },
    decreases s.len(),
{
    if s.len() < p.len() {
    } else if k == 0 {
        assert(s.take(p.len() as int) =~= s.subrange(0, p.len() as int));
    } else {
        assert(s.take(p.len() as int) =~= s.subrange(0, p.len() as int));
        assert(s.subrange(0, 0 + p.len() as int) != p);
        let t = s.drop_first();
        assert forall|j: int| 0 <= j < k - 1 implies #[trigger] t.subrange(j, j + p.len()) != p by {
            assert(t.subrange(j, j + p.len()) =~= s.subrange(j + 1, j + 1 + p.len()));
        }
        if k + p.len() <= s.len() {
            assert(t.subrange(k - 1, k - 1 + p.len()) =~= s.subrange(k, k + p.len()));
        }
        lemma_find_seq_at(t, p, k - 1);
    }
}

/// Index of the first occurrence of `p` (not empty) in `cs`.
pub fn find_str(cs: &[char], p: &str) -> (r: Option<usize>)
    requires
        p@.len() > 0,
    ensures
        match find_seq(cs@, p@) {
            Some(k) => r == Some(k as usize),
            None => r is None,
        },
{
    let pc = chars_of(p);
    let n = cs.len();
    let m = pc.len();
    if m > n {
        return None;
    }
    let mut i: usize = 0;
    while i <= n - m
        invariant
            pc@ == p@,
            n == cs@.len(),
            m == p@.len(),
            0 < m <= n,
            i + m <= n + 1,
            forall|j: int| 0 <= j < i ==> #[trigger] cs@.subrange(j, j + m) != p@,
        decreases n + 1 - i,
    {
        let mut k: usize = 0;
        while k < m && cs[i + k] == pc[k]
            invariant
                pc@ == p@,
                n == cs@.len(),
                m == p@.len(),
                i + m <= n,
                k <= m,
                forall|j: int| 0 <= j < k ==> cs@[i + j] == pc@[j],
            decreases m - k,
        {
            k = k + 1;
        }
        if k == m {
            assert(cs@.subrange(i as int, i + m) =~= p@);
            proof {
                lemma_find_seq_at(cs@, p@, i as int);
            }
            return Some(i);
        }
        assert(cs@.subrange(i as int, i + m)[k as int] != p@[k as int]);
        i = i + 1;
    }
    proof {
        lemma_find_seq_at(cs@, p@, i as int);
    }
    None
}

/// The pieces of `s` between occurrences of `c`, as `str::split` gives
/// them (always at least one, possibly empty).
pub open spec fn split_on(s: Seq<char>, c: char) -> Seq<Seq<char>>
    decreases s.len(),
{
    match index_of(s, c) {
        None => seq![s],
        Some(i) => {
            proof {
                lemma_index_of(s, c);
            }
            seq![s.take(i)] + split_on(s.skip(i + 1), c)
        },
    }
}

/// The pieces of `cs` between occurrences of `c`.
pub fn split_chars(cs: &[char], c: char) -> (r: Vec<Vec<char>>)
    ensures
        r@.map_values(|v: Vec<char>| v@) == split_on(cs@, c),
{
    let n = cs.len();
    let mut r: Vec<Vec<char>> = Vec::new();
    let mut cur: Vec<char> = Vec::new();
    let mut start: usize = 0;
    let mut i: usize = 0;
    assert(cs@.skip(0) =~= cs@);
    while i < n
        invariant
            n == cs@.len(),
            start <= i <= n,
            cur@ == cs@.subrange(start as int, i as int),
            forall|j: int| start <= j < i ==> cs@[j] != c,
            split_on(cs@, c) == r@.map_values(|v: Vec<char>| v@) + split_on(cs@.skip(start as int), c),
        decreases n - i,
    {
        if cs[i] == c {
            let ghost rest = cs@.skip(start as int);
            let ghost piece = cur@;
            proof {
                lemma_index_of_at(rest, c, i - start);
                assert forall|j: int| 0 <= j < i - start implies rest[j] != c by {
                    assert(rest[j] == cs@[start + j]);
                }
                assert(rest.take(i - start) =~= piece);
                assert(rest.skip(i - start + 1) =~= cs@.skip(i + 1));
            }
            let ghost prev = r@.map_values(|v: Vec<char>| v@);
            r.push(cur);
            cur = Vec::new();
            start = i + 1;
            assert(r@.map_values(|v: Vec<char>| v@) =~= prev.push(piece));
            assert(prev + (seq![piece] + split_on(cs@.skip(start as int), c))
                =~= prev.push(piece) + split_on(cs@.skip(start as int), c));
        } else {
            cur.push(cs[i]);
        }
        i = i + 1;
        assert(cur@ =~= cs@.subrange(start as int, i as int));
    }
    let ghost rest = cs@.skip(start as int);
    proof {
        lemma_index_of_at(rest, c, rest.len() as int);
        assert(rest =~= cur@);
    }
    let ghost prev = r@.map_values(|v: Vec<char>| v@);
    r.push(cur);
    assert(r@.map_values(|v: Vec<char>| v@) =~= prev + seq![rest]);
    r
}

/// A line without the `\r` of a `\r\n` ending.
pub open spec fn strip_cr(line: Seq<char>) -> Seq<char> {
    if line.len() > 0 && line.last() == '\r' {
        line.drop_last()
    } else {
        line
    }
}

/// The lines of `s`, as `str::lines` gives them: split at `\n`, each
/// without the `\r` before its `\n`, with no empty line after a final
/// line ending.
pub open spec fn split_lines(s: Seq<char>) -> Seq<Seq<char>>
    decreases s.len(),
{
    if s.len() == 0 {
        Seq::empty()
    } else {
        match index_of(s, '\n') {
            None => seq![s],
            Some(i) => {
                proof {
                    lemma_index_of(s, '\n');
                }
                seq![strip_cr(s.take(i))] + split_lines(s.skip(i + 1))
            },
        }
    }
}

/// The lines of `cs`.
pub fn lines_of(cs: &[char]) -> (r: Vec<Vec<char>>)
    ensures
        r@.map_values(|v: Vec<char>| v@) == split_lines(cs@),
{
    let n = cs.len();
    let mut r: Vec<Vec<char>> = Vec::new();
    let mut cur: Vec<char> = Vec::new();
    let mut start: usize = 0;
    let mut i: usize = 0;
    assert(cs@.skip(0) =~= cs@);
    while i < n
        invariant
            n == cs@.len(),
            start <= i <= n,
            cur@ == cs@.subrange(start as int, i as int),
            forall|j: int| start <= j < i ==> cs@[j] != '\n',
            split_lines(cs@) == r@.map_values(|v: Vec<char>| v@) + split_lines(cs@.skip(start as int)),
        decreases n - i,
    {
        if cs[i] == '\n' {
            let ghost rest = cs@.skip(start as int);
            proof {
                lemma_index_of_at(rest, '\n', i - start);
                assert forall|j: int| 0 <= j < i - start implies rest[j] != '\n' by {
                    assert(rest[j] == cs@[start + j]);
                }
                assert(rest.take(i - start) =~= cur@);
                assert(rest.skip(i - start + 1) =~= cs@.skip(i + 1));
            }
            let ghost prev = r@.map_values(|v: Vec<char>| v@);
            let ghost line = strip_cr(cur@);
            if cur.len() > 0 && cur[cur.len() - 1] == '\r' {
                cur.pop();
            }
            assert(cur@ == line);
            r.push(cur);
            cur = Vec::new();
            start = i + 1;
            assert(r@.map_values(|v: Vec<char>| v@) =~= prev.push(line));
            assert(prev + (seq![line] + split_lines(cs@.skip(start as int)))
                =~= prev.push(line) + split_lines(cs@.skip(start as int)));
        } else {
            cur.push(cs[i]);
        }
        i = i + 1;
        assert(cur@ =~= cs@.subrange(start as int, i as int));
    }
    let ghost rest = cs@.skip(start as int);
    proof {
        lemma_index_of_at(rest, '\n', rest.len() as int);
        assert(rest =~= cur@);
    }
    let ghost prev = r@.map_values(|v: Vec<char>| v@);
    if cur.len() > 0 {
        r.push(cur);
        assert(r@.map_values(|v: Vec<char>| v@) =~= prev + seq![rest]);
    } else {
        assert(prev + split_lines(rest) =~= prev);
    }
    r
}

/// The value of a string of ASCII digits.
pub open spec fn digits_value(d: Seq<char>) -> nat
    decreases d.len(),
{
    if d.len() == 0 {
        0
    } else {
        digits_value(d.drop_last()) * 10 + ((d.last() as u32) - ('0' as u32)) as nat
    }
}

/// Whether every character of `d` is an ASCII digit.
pub open spec fn all_digits(d: Seq<char>) -> bool {
    forall|i: int| 0 <= i < d.len() ==> '0' <= #[trigger] d[i] <= '9'
}

/// The `u32` that `s` denotes, as `str::parse::<u32>` reads it: an optional
/// `+`, then one or more ASCII digits, with a value that fits.
pub open spec fn parse_u32(s: Seq<char>) -> Option<u32> {
    let d = if s.len() > 0 && s[0] == '+' {
        s.drop_first()
    } else {
        s
    };
    if d.len() > 0 && all_digits(d) && digits_value(d) <= u32::MAX {
        Some(digits_value(d) as u32)
    } else {
        None
    }
}

proof fn lemma_digits_value_grows(d: Seq<char>, i: int)
    requires
        0 <= i <= d.len(),
        all_digits(d),
    ensures
        digits_value(d.take(i)) <= digits_value(d),
    decreases d.len() - i,
{
    if i < d.len() {
        lemma_digits_value_grows(d, i + 1);
        assert(d.take(i + 1).drop_last() =~= d.take(i));
        assert('0' <= d[i] <= '9');
        let x = digits_value(d.take(i));
        assert(x <= x * 10) by (nonlinear_arith);
    } else {
        assert(d.take(i) =~= d);
    }
}

/// The `u32` that `s` denotes, if any.
pub fn parse_u32_chars(s: &[char]) -> (r: Option<u32>)
    ensures
        r == parse_u32(s@),
{
    let n = s.len();
    let start: usize = if n > 0 && s[0] == '+' { 1 } else { 0 };
    let ghost d = if s@.len() > 0 && s@[0] == '+' { s@.drop_first() } else { s@ };
    assert(d =~= s@.skip(start as int));
    if start >= n {
        return None;
    }
    let mut v: u64 = 0;
    let mut i: usize = start;
    assert(d.take(0) =~= Seq::<char>::empty());
    while i < n
        invariant
            n == s@.len(),
            start < n,
            start <= i <= n,
            d == s@.skip(start as int),
            d == (if s@.len() > 0 && s@[0] == '+' { s@.drop_first() } else { s@ }),
            all_digits(d.take(i - start)),
            v == digits_value(d.take(i - start)),
            v <= u32::MAX,
        decreases n - i,
    {
        let c = s[i];
        assert(d[i - start] == c);
        if !('0' <= c && c <= '9') {
            assert(!('0' <= d[i - start] <= '9'));
            assert(!all_digits(d));
            return None;
        }
        assert(d.take(i - start + 1).drop_last() =~= d.take(i - start));
        let nv = v * 10 + (c as u32 - '0' as u32) as u64;
        assert(d.take(i - start + 1).last() == c);
        assert(nv == digits_value(d.take(i - start + 1)));
        i = i + 1;
        assert(all_digits(d.take(i - start)));
        if nv > 0xFFFF_FFFF {
            proof {
                if all_digits(d) {
                    lemma_digits_value_grows(d, i - start);
                }
            }
            return None;
        }
        v = nv;
    }
    assert(d.take(n - start) =~= d);
    Some(v as u32)
}

/// The words `ws` joined with `sep` between them.
pub open spec fn join_with(ws: Seq<Seq<char>>, sep: Seq<char>) -> Seq<char>
    decreases ws.len(),
{
    if ws.len() == 0 {
        Seq::empty()
    } else if ws.len() == 1 {
        ws[0]
    } else {
        join_with(ws.drop_last(), sep) + sep + ws.last()
    }
}

/// The words joined with `sep` between them, as `[&str]::join` does.
pub fn join_strs(ws: &[&str], sep: &str) -> (r: String)
    ensures
        r@ == join_with(ws@.map_values(|w: &str| w@), sep@),
{
    let ghost v = ws@.map_values(|w: &str| w@);
    let mut r = String::new();
    let mut i: usize = 0;
    assert(v.take(0) =~= Seq::<Seq<char>>::empty());
    while i < ws.len()
        invariant
            v == ws@.map_values(|w: &str| w@),
            i <= ws@.len(),
            r@ == join_with(v.take(i as int), sep@),
        decreases ws@.len() - i,
    {
        if i > 0 {
            push_str(&mut r, sep);
        }
        push_str(&mut r, ws[i]);
        assert(v.take(i + 1).drop_last() =~= v.take(i as int));
        if i == 0 {
            assert(v.take(1)[0] == ws@[0]@);
            assert(r@ =~= join_with(v.take(1), sep@));
        }
        i = i + 1;
    }
    assert(v.take(ws@.len() as int) =~= v);
    r
}

/// The code of `c` with ASCII letters lowercased.
pub open spec fn ascii_lower(c: char) -> int {
    if 'A' <= c <= 'Z' {
        (c as u32) + 32
    } else {
        c as u32 as int
    }
}

/// Whether `a` and `b` are equal up to ASCII case, as
/// `str::eq_ignore_ascii_case` compares them.
pub open spec fn same_ignoring_ascii_case(a: Seq<char>, b: Seq<char>) -> bool {
    a.len() == b.len() && forall|i: int| 0 <= i < a.len() ==> ascii_lower(#[trigger] a[i]) == ascii_lower(b[i])
}

fn ascii_lower_code(c: char) -> (u: u32)
    ensures
        u == ascii_lower(c),
{
    if 'A' <= c && c <= 'Z' {
        c as u32 + 32
    } else {
        c as u32
    }
}

/// Whether `a` and `b` are equal up to ASCII case.
pub fn eq_ignore_ascii_case(a: &str, b: &str) -> (r: bool)
    ensures
        r == same_ignoring_ascii_case(a@, b@),
{
    let x = chars_of(a);
    let y = chars_of(b);
    if x.len() != y.len() {
        return false;
    }
    let mut i: usize = 0;
    while i < x.len()
        invariant
            x@ == a@,
            y@ == b@,
            x@.len() == y@.len(),
            i <= x@.len(),
            forall|j: int| 0 <= j < i ==> ascii_lower(#[trigger] x@[j]) == ascii_lower(y@[j]),
        decreases x@.len() - i,
    {
        if ascii_lower_code(x[i]) != ascii_lower_code(y[i]) {
            return false;
        }
        i = i + 1;
    }
    true
}

} // verus!
