//! Characters, numbers and words in text.
use vstd::prelude::*;

verus! {

/// `String::push`: appends one character.
pub assume_specification[ String::push ](s: &mut String, c: char)
    ensures
        final(s)@ == old(s)@.push(c),
;

/// What is said of `bytes` that are not UTF-8.
pub uninterp spec fn utf8_message(bytes: Seq<u8>) -> Seq<char>;

/// `std::str::from_utf8`: gives the text that `bytes` encode if they are valid UTF-8, and otherwise
/// an error. What the error displays depends on `bytes` alone and is not stated further.
#[verifier::external_body]
pub(crate) fn from_utf8(bytes: &[u8]) -> (r: Result<String, String>)
    ensures
        match r {
            Ok(s) => vstd::utf8::valid_utf8(bytes@) && s@ == vstd::utf8::decode_utf8(bytes@),
            Err(m) => !vstd::utf8::valid_utf8(bytes@) && m@ == utf8_message(bytes@),
        },
{
    match std::str::from_utf8(bytes) {
        Ok(s) => Ok(s.to_owned()),
        Err(e) => Err(e.to_string()),
    }
}

/// The characters of `s`.
pub fn chars_of(s: &str) -> (v: Vec<char>)
    ensures
        v@ == s@,
{
    let mut v: Vec<char> = Vec::new();
    for c in it: s.chars()
        invariant
            it.seq() == s@,
            v@ == s@.take(it.index()),
    {
        v.push(c);
        assert(s@.take(it.index() + 1) =~= s@.take(it.index()).push(c));
    }
    assert(s@.take(s@.len() as int) =~= s@);
    v
}

/// The text made of `chars`.
pub fn text_of(chars: &[char]) -> (s: String)
    ensures
        s@ == chars@,
{
    let mut s = String::new();
    let mut i: usize = 0;
    while i < chars.len()
        invariant
            i <= chars@.len(),
            s@ == chars@.take(i as int),
        decreases chars@.len() - i,
    {
        s.push(chars[i]);
        i += 1;
        assert(chars@.take(i as int) =~= chars@.take(i - 1).push(chars@[i - 1]));
    }
    assert(chars@.take(i as int) =~= chars@);
    s
}

/// Whether `chars` are the characters of `word`.
pub fn is_word(chars: &[char], word: &str) -> (r: bool)
    ensures
        r == (chars@ == word@),
{
    let mut i: usize = 0;
    for c in it: word.chars()
        invariant
            it.seq() == word@,
            i == it.index(),
            i <= chars@.len(),
            chars@.take(i as int) == word@.take(i as int),
    {
        if i >= chars.len() {
            return false;
        }
        if chars[i] != c {
            return false;
        }
        assert(chars@.take(i + 1) =~= chars@.take(i as int).push(c));
        assert(word@.take(i + 1) =~= word@.take(i as int).push(c));
        i += 1;
    }
    assert(word@.take(i as int) =~= word@);
    assert(chars@.take(i as int).len() == i);
    if i == chars.len() {
        assert(chars@.take(i as int) =~= chars@);
        true
    } else {
        false
    }
}

/// The digit with value `d`.
pub open spec fn digit(d: int) -> char {
    (48 + d) as char
}

/// The number `n` in decimal notation.
pub open spec fn decimal(n: nat) -> Seq<char>
    decreases n,
{
    if n < 10 {
        seq![digit(n as int)]
    } else {
        decimal(n / 10).push(digit((n % 10) as int))
    }
}

/// The number `n` in hexadecimal notation, with zeros before it up to `least` digits.
pub open spec fn hex(n: nat, least: nat) -> Seq<char>
    decreases n, least,
{
    if n == 0 && least == 0 {
        seq![]
    } else {
        let d = (n % 16) as int;
        let rest = if least == 0 {
            0
        } else {
            (least - 1) as nat
        };
        hex(n / 16, rest).push(if d < 10 { digit(d) } else { (87 + d) as char })
    }
}

/// Appends `n` in decimal notation.
pub fn push_decimal(s: &mut String, n: u64)
    ensures
        final(s)@ == old(s)@ + decimal(n as nat),
    decreases n,
{
    if n >= 10 {
        push_decimal(s, n / 10);
    }
    let d = (n % 10) as u8;
    s.push((48 + d) as char);
}

/// Appends `n` in hexadecimal notation, with zeros before it up to `least` digits.
pub fn push_hex(s: &mut String, n: u32, least: u32)
    ensures
        final(s)@ == old(s)@ + hex(n as nat, least as nat),
    decreases n, least,
{
    if n > 0 || least > 0 {
        let rest: u32 = if least == 0 {
            0
        } else {
            least - 1
        };
        push_hex(s, n / 16, rest);
        let d = (n % 16) as u8;
        if d < 10 {
            s.push((48 + d) as char);
        } else {
            s.push((87 + d) as char);
        }
    }
}

/// The first index from `i` on whose item satisfies `p`, or the length of `s`.
pub open spec fn find<T>(s: Seq<T>, p: spec_fn(T) -> bool, i: int) -> int
    decreases s.len() - i,
{
    if i >= s.len() {
        s.len() as int
    } else if p(s[i]) {
        i
    } else {
        find(s, p, i + 1)
    }
}

/// What `find` finds.
pub proof fn lemma_find<T>(s: Seq<T>, p: spec_fn(T) -> bool, i: int)
    requires
        0 <= i <= s.len(),
    ensures
        i <= find(s, p, i) <= s.len(),
        forall|j: int| i <= j < find(s, p, i) ==> !p(#[trigger] s[j]),
        find(s, p, i) < s.len() ==> p(s[find(s, p, i)]),
    decreases s.len() - i,
{
    if i < s.len() && !p(s[i]) {
        lemma_find(s, p, i + 1);
    }
}

/// Whether `c` separates words: the characters with the Unicode property `White_Space`.
pub open spec fn is_space(c: char) -> bool {
    let n = c as u32;
    ||| 9 <= n <= 13
    ||| n == 32
    ||| n == 0x85
    ||| n == 0xa0
    ||| n == 0x1680
    ||| 0x2000 <= n <= 0x200a
    ||| n == 0x2028
    ||| n == 0x2029
    ||| n == 0x202f
    ||| n == 0x205f
    ||| n == 0x3000
}

/// The predicate of being a space.
pub open spec fn space() -> spec_fn(char) -> bool {
    |c: char| is_space(c)
}

/// The predicate of being no space.
pub open spec fn ink() -> spec_fn(char) -> bool {
    |c: char| !is_space(c)
}

/// The predicate of being `x`.
pub open spec fn only<T>(x: T) -> spec_fn(T) -> bool {
    |c: T| c == x
}

/// Whether `c` separates words.
pub fn is_whitespace(c: char) -> (r: bool)
    ensures
        r == is_space(c),
{
    let n = c as u32;
    (9 <= n && n <= 13) || n == 32 || n == 0x85 || n == 0xa0 || n == 0x1680 || (0x2000 <= n && n
        <= 0x200a) || n == 0x2028 || n == 0x2029 || n == 0x202f || n == 0x205f || n == 0x3000
}

/// The first index from `from` on that holds a space, or with `solid` the first that holds none;
/// the length of `s` if there is no such index.
pub fn find_space(s: &[char], from: usize, solid: bool) -> (r: usize)
    requires
        from <= s@.len(),
    ensures
        r == find(s@, if solid { ink() } else { space() }, from as int),
        from <= r <= s@.len(),
{
    let mut i = from;
    let ghost p = if solid { ink() } else { space() };
    while i < s.len() && is_whitespace(s[i]) == solid
        invariant
            from <= i <= s@.len(),
            p == (if solid { ink() } else { space() }),
            find(s@, p, from as int) == find(s@, p, i as int),
        decreases s@.len() - i,
    {
        i += 1;
    }
    i
}

/// The first index from `from` on that holds `c`, or the length of `s`.
pub fn find_char(s: &[char], c: char, from: usize) -> (r: usize)
    requires
        from <= s@.len(),
    ensures
        r == find(s@, only(c), from as int),
        from <= r <= s@.len(),
{
    let mut i = from;
    while i < s.len() && s[i] != c
        invariant
            from <= i <= s@.len(),
            find(s@, only(c), from as int) == find(s@, only(c), i as int),
        decreases s@.len() - i,
    {
        i += 1;
    }
    i
}

/// The words of `s` from index `i` on, between spaces.
pub open spec fn words(s: Seq<char>, i: int) -> Seq<Seq<char>>
    decreases s.len() - i,
    when 0 <= i <= s.len()
    via words_decreases
{
    let a = find(s, ink(), i);
    if a >= s.len() {
        seq![]
    } else {
        let b = find(s, space(), a);
        seq![s.subrange(a, b)] + words(s, b)
    }
}

#[via_fn]
proof fn words_decreases(s: Seq<char>, i: int) {
    lemma_find(s, ink(), i);
    let a = find(s, ink(), i);
    if a < s.len() {
        lemma_find(s, space(), a);
    }
}

/// The pieces of `s` from index `i` on, between separators `c`.
pub open spec fn pieces(s: Seq<char>, c: char, i: int) -> Seq<Seq<char>>
    decreases s.len() - i,
    when 0 <= i <= s.len()
    via pieces_decreases
{
    let b = find(s, only(c), i);
    if b >= s.len() {
        seq![s.subrange(i, s.len() as int)]
    } else {
        seq![s.subrange(i, b)] + pieces(s, c, b + 1)
    }
}

#[via_fn]
proof fn pieces_decreases(s: Seq<char>, c: char, i: int) {
    lemma_find(s, only(c), i);
}

/// The texts in a vector.
pub open spec fn texts(v: Seq<Vec<char>>) -> Seq<Seq<char>> {
    v.map_values(|w: Vec<char>| w@)
}

/// The characters of `s` from `a` to `b`.
pub fn cut(s: &[char], a: usize, b: usize) -> (r: Vec<char>)
    requires
        a <= b <= s@.len(),
    ensures
        r@ == s@.subrange(a as int, b as int),
{
    vstd::slice::slice_to_vec(vstd::slice::slice_subrange(s, a, b))
}

/// The words of `s`, between spaces.
pub fn split_whitespace(s: &[char]) -> (r: Vec<Vec<char>>)
    ensures
        texts(r@) == words(s@, 0),
{
    let mut r: Vec<Vec<char>> = Vec::new();
    let mut i: usize = 0;
    assert(texts(r@) =~= seq![]);
    assert(words(s@, 0) =~= texts(r@) + words(s@, 0));
    loop
        invariant
            i <= s@.len(),
            words(s@, 0) == texts(r@) + words(s@, i as int),
        decreases s@.len() - i,
    {
        let a = find_space(s, i, true);
        if a >= s.len() {
            assert(words(s@, i as int) =~= seq![]);
            assert(words(s@, 0) =~= texts(r@));
            return r;
        }
        let b = find_space(s, a, false);
        proof {
            lemma_find(s@, ink(), i as int);
            lemma_find(s@, space(), a as int);
        }
        let ghost before = r@;
        r.push(cut(s, a, b));
        assert(texts(r@) =~= texts(before).push(s@.subrange(a as int, b as int)));
        assert(texts(r@) + words(s@, b as int) =~= texts(before) + words(s@, i as int));
        i = b;
    }
}

/// The pieces of `s`, between separators `c`.
pub fn split_at(s: &[char], c: char) -> (r: Vec<Vec<char>>)
    ensures
        texts(r@) == pieces(s@, c, 0),
        r@.len() > 0,
{
    let mut r: Vec<Vec<char>> = Vec::new();
    let mut i: usize = 0;
    assert(texts(r@) =~= seq![]);
    assert(pieces(s@, c, 0) =~= texts(r@) + pieces(s@, c, 0));
    loop
        invariant
            i <= s@.len(),
            pieces(s@, c, 0) == texts(r@) + pieces(s@, c, i as int),
        decreases s@.len() - i,
    {
        let b = find_char(s, c, i);
        let ghost before = r@;
        r.push(cut(s, i, b));
        assert(texts(r@) =~= texts(before).push(s@.subrange(i as int, b as int)));
        if b >= s.len() {
            assert(texts(r@) =~= texts(before) + pieces(s@, c, i as int));
            return r;
        }
        assert(texts(r@) + pieces(s@, c, b + 1) =~= texts(before) + pieces(s@, c, i as int));
        i = b + 1;
    }
}

/// The value of the decimal digits `s`.
pub open spec fn value(s: Seq<char>) -> nat
    decreases s.len(),
{
    if s.len() == 0 {
        0
    } else {
        10 * value(s.drop_last()) + (s.last() as u32 - 48) as nat
    }
}

/// Whether `c` is a decimal digit.
pub open spec fn is_digit(c: char) -> bool {
    48 <= c as u32 <= 57
}

/// The number that `s` writes in decimal digits, if it does and the number is at most `limit`.
pub open spec fn number(s: Seq<char>, limit: nat) -> Option<nat> {
    if s.len() > 0 && (forall|i: int| 0 <= i < s.len() ==> is_digit(#[trigger] s[i])) && value(s)
        <= limit {
        Some(value(s))
    } else {
        None
    }
}

proof fn lemma_value_grows(s: Seq<char>, i: int)
    requires
        0 <= i <= s.len(),
        forall|j: int| 0 <= j < s.len() ==> is_digit(#[trigger] s[j]),
    ensures
        value(s.take(i)) <= value(s),
    decreases s.len() - i,
{
    if i < s.len() {
        lemma_value_grows(s, i + 1);
        assert(s.take(i + 1).drop_last() =~= s.take(i));
        assert(s.take(i + 1).last() == s[i]);
    } else {
        assert(s.take(i) =~= s);
    }
}

/// The number that `s` writes in decimal digits, if it does and the number is at most `limit`.
pub fn parse_number(s: &[char], limit: u32) -> (r: Option<u32>)
    ensures
        match (r, number(s@, limit as nat)) {
            (Some(a), Some(b)) => a == b,
            (None, None) => true,
            _ => false,
        },
{
    if s.len() == 0 {
        return None;
    }
    let mut n: u64 = 0;
    let mut i: usize = 0;
    assert(s@.take(0) =~= seq![]);
    while i < s.len()
        invariant
            i <= s@.len(),
            n <= limit,
            n == value(s@.take(i as int)),
            forall|j: int| 0 <= j < i ==> is_digit(#[trigger] s@[j]),
        decreases s@.len() - i,
    {
        let c = s[i] as u32;
        if c < 48 || c > 57 {
            assert(!is_digit(s@[i as int]));
            return None;
        }
        n = 10 * n + (c - 48) as u64;
        assert(s@.take(i + 1).drop_last() =~= s@.take(i as int));
        i += 1;
        if n > limit as u64 {
            proof {
                if forall|j: int| 0 <= j < s@.len() ==> is_digit(#[trigger] s@[j]) {
                    lemma_value_grows(s@, i as int);
                }
            }
            return None;
        }
    }
    assert(s@.take(i as int) =~= s@);
    Some(n as u32)
}

/// The characters whose numbers are `bytes`.
pub open spec fn latin(bytes: Seq<u8>) -> Seq<char> {
    bytes.map_values(|b: u8| b as char)
}

/// The characters whose numbers are `bytes`.
pub fn latin_chars(bytes: &[u8]) -> (v: Vec<char>)
    ensures
        v@ == latin(bytes@),
{
    let mut v: Vec<char> = Vec::new();
    let mut i: usize = 0;
    while i < bytes.len()
        invariant
            i <= bytes@.len(),
            v@ == latin(bytes@).take(i as int),
        decreases bytes@.len() - i,
    {
        v.push(bytes[i] as char);
        i += 1;
        assert(latin(bytes@).take(i as int) =~= latin(bytes@).take(i - 1).push(
            bytes@[i - 1] as char,
        ));
    }
    assert(latin(bytes@).take(i as int) =~= latin(bytes@));
    v
}

/// Whether `s` begins with `word`.
pub open spec fn starts(s: Seq<char>, word: Seq<char>) -> bool {
    s.len() >= word.len() && s.take(word.len() as int) == word
}

/// Whether `chars` begin with `word`.
pub fn starts_with(chars: &[char], word: &str) -> (r: bool)
    ensures
        r == starts(chars@, word@),
{
    let w = chars_of(word);
    if chars.len() < w.len() {
        return false;
    }
    let head = cut(chars, 0, w.len());
    assert(head@ =~= chars@.take(w@.len() as int));
    is_word(head.as_slice(), word)
}

/// What is found stays when more follows, and nothing is found before it.
pub proof fn lemma_find_more<T>(s: Seq<T>, more: Seq<T>, p: spec_fn(T) -> bool, i: int)
    requires
        0 <= i <= s.len(),
    ensures
        find(s, p, i) < s.len() ==> find(s + more, p, i) == find(s, p, i),
        find(s, p, i) == s.len() ==> find(s + more, p, i) >= s.len(),
    decreases s.len() - i,
{
    if i < s.len() {
        assert((s + more)[i] == s[i]);
        lemma_find_more(s, more, p, i + 1);
    } else {
        lemma_find(s + more, p, i);
    }
}

/// `s` without the spaces at its end.
pub open spec fn trim_end(s: Seq<char>) -> Seq<char>
    decreases s.len(),
{
    if s.len() > 0 && is_space(s.last()) {
        trim_end(s.drop_last())
    } else {
        s
    }
}

/// `s` without the spaces at both ends.
pub open spec fn trim(s: Seq<char>) -> Seq<char> {
    trim_end(s.skip(find(s, ink(), 0)))
}

/// `s` without the spaces at both ends.
pub fn trimmed(s: &[char]) -> (r: Vec<char>)
    ensures
        r@ == trim(s@),
{
    let a = find_space(s, 0, true);
    let mut b = s.len();
    assert(s@.subrange(a as int, b as int) =~= s@.skip(a as int));
    while b > a && is_whitespace(s[b - 1])
        invariant
            a <= b <= s@.len(),
            trim(s@) == trim_end(s@.subrange(a as int, b as int)),
        decreases b,
    {
        let ghost before = s@.subrange(a as int, b as int);
        b -= 1;
        assert(before.drop_last() =~= s@.subrange(a as int, b as int));
        assert(before.last() == s@[b as int]);
    }
    assert(b > a ==> s@.subrange(a as int, b as int).last() == s@[b - 1]);
    cut(s, a, b)
}

/// The first index from `i` on at which `word` stands in `s`.
pub open spec fn find_word(s: Seq<char>, word: Seq<char>, i: int) -> Option<int>
    decreases s.len() + 1 - i,
{
    if i < 0 || i + word.len() > s.len() {
        None
    } else if s.subrange(i, i + word.len()) == word {
        Some(i)
    } else {
        find_word(s, word, i + 1)
    }
}

/// The first index at which `word` stands in `s`.
pub fn position_of_word(s: &[char], word: &str) -> (r: Option<usize>)
    ensures
        match r {
            Some(i) => find_word(s@, word@, 0) == Some(i as int) && i + word@.len() <= s@.len(),
            None => find_word(s@, word@, 0) is None,
        },
{
    let n = chars_of(word).len();
    let mut i: usize = 0;
    while s.len() - i >= n
        invariant
            n == word@.len(),
            i <= s@.len(),
            find_word(s@, word@, 0) == find_word(s@, word@, i as int),
        decreases s@.len() - i,
    {
        let here = cut(s, i, i + n);
        if is_word(here.as_slice(), word) {
            return Some(i);
        }
        if i == s.len() {
            assert(find_word(s@, word@, i + 1) is None);
            return None;
        }
        i += 1;
    }
    None
}

/// The first index from `from` on at which the slice has something else than `c`.
pub fn find_other(s: &[char], c: char, from: usize) -> (r: usize)
    requires
        from <= s@.len(),
    ensures
        r == find(s@, except(c), from as int),
        from <= r <= s@.len(),
{
    let mut i = from;
    while i < s.len() && s[i] == c
        invariant
            from <= i <= s@.len(),
            find(s@, except(c), from as int) == find(s@, except(c), i as int),
        decreases s@.len() - i,
    {
        i += 1;
    }
    i
}

/// The predicate of being something else than `x`.
pub open spec fn except<T>(x: T) -> spec_fn(T) -> bool {
    |c: T| c != x
}

/// The last index at which `c` stands in `s`.
pub open spec fn last_of(s: Seq<char>, c: char) -> Option<int>
    decreases s.len(),
{
    if s.len() == 0 {
        None
    } else if s.last() == c {
        Some(s.len() - 1)
    } else {
        last_of(s.drop_last(), c)
    }
}

/// The last index at which `c` stands in `s`.
pub fn find_last(s: &[char], c: char) -> (r: Option<usize>)
    ensures
        match r {
            Some(i) => last_of(s@, c) == Some(i as int) && i < s@.len(),
            None => last_of(s@, c) is None,
        },
{
    let mut n = s.len();
    assert(s@.take(n as int) =~= s@);
    while n > 0
        invariant
            n <= s@.len(),
            last_of(s@, c) == last_of(s@.take(n as int), c),
        decreases n,
    {
        assert(s@.take(n as int).drop_last() =~= s@.take(n - 1));
        assert(s@.take(n as int).last() == s@[n - 1]);
        n -= 1;
        if s[n] == c {
            return Some(n);
        }
    }
    None
}

} // verus!
