//! Text as sequences of characters: the string operations the rest of the crate is stated over.

use vstd::prelude::*;

verus! {

/// Appends one character (`String::push`): the text grows by exactly that character.
pub assume_specification[ String::push ](s: &mut String, c: char)
    ensures
        final(s)@ == old(s)@.push(c),
;

/// The characters with Unicode's `White_Space` property.
pub open spec fn white_space(c: char) -> bool {
    let u = c as u32;
    ||| 0x09 <= u <= 0x0d
    ||| u == 0x20
    ||| u == 0x85
    ||| u == 0xa0
    ||| u == 0x1680
    ||| 0x2000 <= u <= 0x200a
    ||| u == 0x2028
    ||| u == 0x2029
    ||| u == 0x202f
    ||| u == 0x205f
    ||| u == 0x3000
}

/// Whether `c` is white space.
pub fn is_white_space(c: char) -> (r: bool)
    ensures
        r == white_space(c),
{
    let u: u32 = c as u32;
    (0x09 <= u && u <= 0x0d) || u == 0x20 || u == 0x85 || u == 0xa0 || u == 0x1680 || (0x2000 <= u && u
        <= 0x200a) || u == 0x2028 || u == 0x2029 || u == 0x202f || u == 0x205f || u == 0x3000
}

/// The text without its leading white space.
pub open spec fn trim_start(s: Seq<char>) -> Seq<char>
    decreases s.len(),
{
    if s.len() > 0 && white_space(s[0]) {
        trim_start(s.skip(1))
    } else {
        s
    }
}

/// The text without its trailing white space.
pub open spec fn trim_end(s: Seq<char>) -> Seq<char>
    decreases s.len(),
{
    if s.len() > 0 && white_space(s.last()) {
        trim_end(s.drop_last())
    } else {
        s
    }
}

/// The text without white space at either end.
pub open spec fn trimmed(s: Seq<char>) -> Seq<char> {
    trim_end(trim_start(s))
}

/// `A` to `Z` become `a` to `z`; every other character stays.
pub open spec fn lower_char(c: char) -> char {
    if 'A' <= c <= 'Z' {
        ((c as u32) + 32) as char
    } else {
        c
    }
}

/// The text with its ASCII letters in lower case.
pub open spec fn lower(s: Seq<char>) -> Seq<char> {
    s.map_values(|c: char| lower_char(c))
}

/// Whether `needle` stands somewhere in `hay`.
pub open spec fn has(hay: Seq<char>, needle: Seq<char>) -> bool {
    exists|i: int| #[trigger] occurs_at(hay, needle, i)
}

/// Whether `needle` stands in `hay` from position `i`.
pub open spec fn occurs_at(hay: Seq<char>, needle: Seq<char>, i: int) -> bool {
    0 <= i <= hay.len() - needle.len() && hay.subrange(i, i + needle.len()) == needle
}

/// The text without the leading run of `c`.
pub open spec fn strip_front(s: Seq<char>, c: char) -> Seq<char>
    decreases s.len(),
{
    if s.len() > 0 && s[0] == c {
        strip_front(s.skip(1), c)
    } else {
        s
    }
}

/// The text without the trailing run of `c`.
pub open spec fn strip_back(s: Seq<char>, c: char) -> Seq<char>
    decreases s.len(),
{
    if s.len() > 0 && s.last() == c {
        strip_back(s.drop_last(), c)
    } else {
        s
    }
}

/// The pieces between the occurrences of `sep`: one more than there are occurrences.
pub open spec fn split(s: Seq<char>, sep: char) -> Seq<Seq<char>>
    decreases s.len(),
{
    if s.len() == 0 {
        seq![Seq::<char>::empty()]
    } else {
        let front = split(s.drop_last(), sep);
        if s.last() == sep {
            front.push(Seq::<char>::empty())
        } else {
            front.drop_last().push(front.last().push(s.last()))
        }
    }
}

/// A line without the carriage return of a CR LF ending.
pub open spec fn without_cr(s: Seq<char>) -> Seq<char> {
    if s.len() > 0 && s.last() == '\r' {
        s.drop_last()
    } else {
        s
    }
}

/// The lines of a text. A line ends at LF or CR LF, and the last ending is optional.
pub open spec fn lines(s: Seq<char>) -> Seq<Seq<char>> {
    let parts = split(s, '\n');
    let ended = parts.drop_last().map_values(|p: Seq<char>| without_cr(p));
    if parts.last().len() == 0 {
        ended
    } else {
        ended.push(parts.last())
    }
}

/// The texts of a list of strings.
pub open spec fn views(v: Seq<String>) -> Seq<Seq<char>> {
    v.map_values(|s: String| s@)
}

/// The parts with `sep` between neighbours.
pub open spec fn joined(parts: Seq<Seq<char>>, sep: Seq<char>) -> Seq<char>
    decreases parts.len(),
{
    if parts.len() == 0 {
        Seq::<char>::empty()
    } else if parts.len() == 1 {
        parts[0]
    } else {
        joined(parts.drop_last(), sep) + sep + parts.last()
    }
}

/// The decimal digit of `d`, which is below ten.
pub open spec fn digit(d: nat) -> char {
    (('0' as u32) + d) as char
}

/// The decimal numeral of `n`, without leading zeros.
pub open spec fn decimal(n: nat) -> Seq<char>
    decreases n,
{
    if n < 10 {
        seq![digit(n)]
    } else {
        decimal(n / 10).push(digit(n % 10))
    }
}

/// Whether every character is a decimal digit.
pub open spec fn all_digits(s: Seq<char>) -> bool {
    forall|i: int| 0 <= i < s.len() ==> '0' <= #[trigger] s[i] <= '9'
}

/// The number a run of decimal digits stands for.
pub open spec fn digits_value(s: Seq<char>) -> nat
    decreases s.len(),
{
    if s.len() == 0 {
        0
    } else {
        digits_value(s.drop_last()) * 10 + ((s.last() as u32) - ('0' as u32)) as nat
    }
}

/// The number a text denotes: decimal digits after an optional plus sign, below 2^64.
pub open spec fn number(s: Seq<char>) -> Option<u64> {
    let d = if s.len() > 0 && s[0] == '+' {
        s.skip(1)
    } else {
        s
    };
    if d.len() > 0 && all_digits(d) && digits_value(d) <= u64::MAX {
        Some(digits_value(d) as u64)
    } else {
        None
    }
}

/// Alphabetical order by code point, a proper prefix first.
pub open spec fn precedes(a: Seq<char>, b: Seq<char>) -> bool
    decreases a.len(),
{
    if b.len() == 0 {
        false
    } else if a.len() == 0 {
        true
    } else if a[0] != b[0] {
        a[0] < b[0]
    } else {
        precedes(a.skip(1), b.skip(1))
    }
}

/// The number of bytes UTF-8 takes for `c`.
pub open spec fn char_bytes(c: char) -> nat {
    let u = c as u32;
    if u < 0x80 {
        1
    } else if u < 0x800 {
        2
    } else if u < 0x1_0000 {
        3
    } else {
        4
    }
}

/// The number of bytes UTF-8 takes for the text.
pub open spec fn byte_len(s: Seq<char>) -> nat
    decreases s.len(),
{
    if s.len() == 0 {
        0
    } else {
        byte_len(s.drop_last()) + char_bytes(s.last())
    }
}

/// The characters of a text.
pub fn chars_of(s: &str) -> (v: Vec<char>)
    ensures
        v@ == s@,
{
    let mut out: Vec<char> = Vec::new();
    for c in it: s.chars()
        invariant
            out@ =~= it.seq().take(it.index() as int),
    {
        out.push(c);
    }
    out
}

/// The text of the characters from `from` up to `to`.
pub fn text_range(v: &Vec<char>, from: usize, to: usize) -> (s: String)
    requires
        from <= to <= v@.len(),
    ensures
        s@ == v@.subrange(from as int, to as int),
{
    let mut out = String::new();
    let mut i: usize = from;
    while i < to
        invariant
            from <= i <= to <= v@.len(),
            out@ =~= v@.subrange(from as int, i as int),
        decreases to - i,
    {
        out.push(v[i]);
        i += 1;
    }
    out
}

/// Whether two texts are the same.
pub fn same(a: &str, b: &str) -> (r: bool)
    ensures
        r == (a@ == b@),
{
    let x = chars_of(a);
    let y = chars_of(b);
    if x.len() != y.len() {
        return false;
    }
    let mut i: usize = 0;
    while i < x.len()
        invariant
            i <= x@.len() == y@.len(),
            x@ == a@,
            y@ == b@,
            forall|j: int| 0 <= j < i ==> x@[j] == y@[j],
        decreases x@.len() - i,
    {
        if x[i] != y[i] {
            assert(a@[i as int] != b@[i as int]);
            return false;
        }
        i += 1;
    }
    assert(a@ =~= b@);
    true
}

/// Whether `s` is one of `list`.
pub fn one_of(s: &str, list: &Vec<String>) -> (r: bool)
    ensures
        r == views(list@).contains(s@),
{
    let mut i: usize = 0;
    while i < list.len()
        invariant
            i <= list@.len(),
            forall|j: int| 0 <= j < i ==> list@[j]@ != s@,
        decreases list@.len() - i,
    {
        if same(list[i].as_str(), s) {
            assert(views(list@)[i as int] == s@);
            return true;
        }
        i += 1;
    }
    assert forall|j: int| 0 <= j < views(list@).len() implies views(list@)[j] != s@ by {
        assert(list@[j]@ != s@);
    }
    false
}

/// The text with its ASCII letters in lower case.
pub fn to_lower(s: &str) -> (r: String)
    ensures
        r@ == lower(s@),
{
    let v = chars_of(s);
    let mut out = String::new();
    let mut i: usize = 0;
    while i < v.len()
        invariant
            i <= v@.len(),
            v@ == s@,
            out@ =~= lower(s@.take(i as int)),
        decreases v@.len() - i,
    {
        let c = v[i];
        if 'A' <= c && c <= 'Z' {
            out.push(((c as u8) + 32) as char);
        } else {
            out.push(c);
        }
        assert(s@.take(i + 1) =~= s@.take(i as int).push(c));
        i += 1;
    }
    assert(s@.take(i as int) =~= s@);
    out
}

/// Whether `needle` stands somewhere in `hay`.
pub fn contains(hay: &str, needle: &str) -> (r: bool)
    ensures
        r == has(hay@, needle@),
{
    let h = chars_of(hay);
    let n = chars_of(needle);
    if n.len() > h.len() {
        return false;
    }
    let last: usize = h.len() - n.len();
    let mut i: usize = 0;
    loop
        invariant
            i <= last,
            last + n.len() == h.len(),
            h@ == hay@,
            n@ == needle@,
            forall|k: int| 0 <= k < i ==> !occurs_at(hay@, needle@, k),
        decreases last - i,
    {
        let mut j: usize = 0;
        while j < n.len() && h[i + j] == n[j]
            invariant
                i <= last,
                last + n.len() == h.len(),
                j <= n@.len(),
                forall|k: int| 0 <= k < j ==> h@[i + k] == n@[k],
            decreases n@.len() - j,
        {
            j += 1;
        }
        if j == n.len() {
            assert(h@.subrange(i as int, i + n@.len()) =~= n@);
            assert(occurs_at(hay@, needle@, i as int));
            return true;
        }
        assert(!occurs_at(hay@, needle@, i as int)) by {
            assert(h@.subrange(i as int, i + n@.len())[j as int] == h@[i + j]);
        }
        if i == last {
            return false;
        }
        i += 1;
    }
}

proof fn lemma_trim_start(s: Seq<char>, i: int)
    requires
        0 <= i <= s.len(),
        forall|k: int| 0 <= k < i ==> white_space(#[trigger] s[k]),
        i == s.len() || !white_space(s[i]),
    ensures
        trim_start(s) == s.skip(i),
    decreases i,
{
    if i > 0 {
        let t = s.skip(1);
        assert forall|k: int| 0 <= k < i - 1 implies white_space(#[trigger] t[k]) by {
            assert(t[k] == s[k + 1]);
        }
        lemma_trim_start(t, i - 1);
        assert(t.skip(i - 1) =~= s.skip(i));
    } else {
        assert(s.skip(0) =~= s);
    }
}

proof fn lemma_trim_end(s: Seq<char>, n: int)
    requires
        0 <= n <= s.len(),
        forall|k: int| n <= k < s.len() ==> white_space(#[trigger] s[k]),
        n == 0 || !white_space(s[n - 1]),
    ensures
        trim_end(s) == s.take(n),
    decreases s.len() - n,
{
    if n < s.len() {
        lemma_trim_end(s.drop_last(), n);
        assert(s.drop_last().take(n) =~= s.take(n));
    } else {
        assert(s.take(n) =~= s);
    }
}

/// The text without white space at either end.
pub fn trim(s: &str) -> (r: String)
    ensures
        r@ == trimmed(s@),
{
    let v = chars_of(s);
    let mut a: usize = 0;
    while a < v.len() && is_white_space(v[a])
        invariant
            a <= v@.len(),
            forall|k: int| 0 <= k < a ==> white_space(#[trigger] v@[k]),
        decreases v@.len() - a,
    {
        a += 1;
    }
    let mut b: usize = v.len();
    while b > a && is_white_space(v[b - 1])
        invariant
            a <= b <= v@.len(),
            forall|k: int| b <= k < v@.len() ==> white_space(#[trigger] v@[k]),
        decreases b,
    {
        b -= 1;
    }
    proof {
        lemma_trim_start(v@, a as int);
        let t = v@.skip(a as int);
        assert forall|k: int| b - a <= k < t.len() implies white_space(#[trigger] t[k]) by {
            assert(t[k] == v@[a + k]);
        }
        lemma_trim_end(t, b - a);
        assert(t.take(b - a) =~= v@.subrange(a as int, b as int));
    }
    text_range(&v, a, b)
}

proof fn lemma_strip_front(s: Seq<char>, c: char, i: int)
    requires
        0 <= i <= s.len(),
        forall|k: int| 0 <= k < i ==> #[trigger] s[k] == c,
        i == s.len() || s[i] != c,
    ensures
        strip_front(s, c) == s.skip(i),
    decreases i,
{
    if i > 0 {
        let t = s.skip(1);
        assert forall|k: int| 0 <= k < i - 1 implies #[trigger] t[k] == c by {
            assert(t[k] == s[k + 1]);
        }
        lemma_strip_front(t, c, i - 1);
        assert(t.skip(i - 1) =~= s.skip(i));
    } else {
        assert(s.skip(0) =~= s);
    }
}

proof fn lemma_strip_back(s: Seq<char>, c: char, n: int)
    requires
        0 <= n <= s.len(),
        forall|k: int| n <= k < s.len() ==> #[trigger] s[k] == c,
        n == 0 || s[n - 1] != c,
    ensures
        strip_back(s, c) == s.take(n),
    decreases s.len() - n,
{
    if n < s.len() {
        lemma_strip_back(s.drop_last(), c, n);
        assert(s.drop_last().take(n) =~= s.take(n));
    } else {
        assert(s.take(n) =~= s);
    }
}

/// The text without the leading run of `c`.
pub fn trim_front(s: &str, c: char) -> (r: String)
    ensures
        r@ == strip_front(s@, c),
{
    let v = chars_of(s);
    let mut a: usize = 0;
    while a < v.len() && v[a] == c
        invariant
            a <= v@.len(),
            forall|k: int| 0 <= k < a ==> #[trigger] v@[k] == c,
        decreases v@.len() - a,
    {
        a += 1;
    }
    proof {
        lemma_strip_front(v@, c, a as int);
    }
    text_range(&v, a, v.len())
}

/// The text without the trailing run of `c`.
pub fn trim_back(s: &str, c: char) -> (r: String)
    ensures
        r@ == strip_back(s@, c),
{
    let v = chars_of(s);
    let mut b: usize = v.len();
    while b > 0 && v[b - 1] == c
        invariant
            b <= v@.len(),
            forall|k: int| b <= k < v@.len() ==> #[trigger] v@[k] == c,
        decreases b,
    {
        b -= 1;
    }
    proof {
        lemma_strip_back(v@, c, b as int);
    }
    text_range(&v, 0, b)
}

/// The pieces between the occurrences of `sep`.
pub fn split_on(s: &str, sep: char) -> (r: Vec<String>)
    ensures
        views(r@) == split(s@, sep),
        r@.len() > 0,
{
    let v = chars_of(s);
    let mut out: Vec<String> = Vec::new();
    let mut piece = String::new();
    let mut i: usize = 0;
    proof {
        assert(s@.take(0) =~= Seq::<char>::empty());
    }
    assert(views(out@).push(piece@) =~= split(s@.take(0), sep));
    while i < v.len()
        invariant
            i <= v@.len(),
            v@ == s@,
            views(out@).push(piece@) == split(s@.take(i as int), sep),
        decreases v@.len() - i,
    {
        let ghost before = views(out@);
        let ghost open = piece@;
        proof {
            assert(s@.take(i + 1).drop_last() =~= s@.take(i as int));
        }
        if v[i] == sep {
            out.push(piece);
            piece = String::new();
            assert(views(out@) =~= before.push(open));
        } else {
            piece.push(v[i]);
            assert(before.push(open).drop_last() =~= before);
        }
        i += 1;
    }
    assert(s@.take(i as int) =~= s@);
    let ghost before = views(out@);
    let ghost open = piece@;
    out.push(piece);
    assert(views(out@) =~= before.push(open));
    out
}

/// A line without the carriage return of a CR LF ending.
fn drop_cr(s: &str) -> (r: String)
    ensures
        r@ == without_cr(s@),
{
    let v = chars_of(s);
    if v.len() > 0 && v[v.len() - 1] == '\r' {
        let r = text_range(&v, 0, v.len() - 1);
        assert(r@ =~= s@.drop_last());
        r
    } else {
        let r = text_range(&v, 0, v.len());
        assert(r@ =~= s@);
        r
    }
}

/// The lines of a text.
pub fn lines_of(s: &str) -> (r: Vec<String>)
    ensures
        views(r@) == lines(s@),
{
    let parts = split_on(s, '\n');
    let ghost all = split(s@, '\n');
    let n: usize = parts.len() - 1;
    let mut out: Vec<String> = Vec::new();
    let mut i: usize = 0;
    while i < n
        invariant
            i <= n,
            n + 1 == parts@.len(),
            views(parts@) == all,
            views(out@) =~= all.take(i as int).map_values(|p: Seq<char>| without_cr(p)),
        decreases n - i,
    {
        let ghost before = views(out@);
        let line = drop_cr(parts[i].as_str());
        assert(all[i as int] == parts@[i as int]@);
        out.push(line);
        assert(views(out@) =~= before.push(line@));
        i += 1;
    }
    assert(all.take(n as int) =~= all.drop_last());
    assert(all.last() == parts@[n as int]@);
    let last = chars_of(parts[n].as_str());
    if last.len() > 0 {
        let ghost before = views(out@);
        out.push(parts[n].clone());
        assert(views(out@) =~= before.push(all.last()));
    }
    out
}

/// The parts with `sep` between neighbours.
pub fn join(parts: &Vec<String>, sep: &str) -> (r: String)
    ensures
        r@ == joined(views(parts@), sep@),
{
    let mut out = String::new();
    let mut i: usize = 0;
    let ghost all = views(parts@);
    assert(all.take(0).len() == 0);
    while i < parts.len()
        invariant
            i <= parts@.len(),
            all == views(parts@),
            out@ == joined(all.take(i as int), sep@),
        decreases parts@.len() - i,
    {
        assert(all.take(i + 1).drop_last() =~= all.take(i as int));
        assert(all.take(i + 1).last() == parts@[i as int]@);
        if i > 0 {
            out.append(sep);
        } else {
            assert(out@ + parts@[0]@ =~= parts@[0]@);
        }
        out.append(parts[i].as_str());
        i += 1;
    }
    assert(all.take(i as int) =~= all);
    out
}

/// Appends the decimal numeral of `n`.
pub fn push_decimal(out: &mut String, n: u128)
    ensures
        final(out)@ == old(out)@ + decimal(n as nat),
    decreases n,
{
    if n >= 10 {
        push_decimal(out, n / 10);
    }
    let d: u8 = (n % 10) as u8;
    out.push((48 + d) as char);
    proof {
        if n < 10 {
            assert(out@ =~= old(out)@ + decimal(n as nat));
        } else {
            assert(out@ =~= old(out)@ + decimal(n as nat));
        }
    }
}

/// The decimal numeral of `n`.
pub fn decimal_of(n: u64) -> (r: String)
    ensures
        r@ == decimal(n as nat),
{
    wide_decimal_of(n as u128)
}

/// The decimal numeral of `n`.
pub fn wide_decimal_of(n: u128) -> (r: String)
    ensures
        r@ == decimal(n as nat),
{
    let mut out = String::new();
    push_decimal(&mut out, n);
    assert(out@ =~= decimal(n as nat));
    out
}

proof fn lemma_digits_value_monotone(s: Seq<char>, i: int)
    requires
        0 <= i <= s.len(),
    ensures
        digits_value(s.take(i)) <= digits_value(s),
    decreases s.len() - i,
{
    if i < s.len() {
        lemma_digits_value_monotone(s.drop_last(), i);
        assert(s.drop_last().take(i) =~= s.take(i));
    } else {
        assert(s.take(i) =~= s);
    }
}

/// The number a text denotes, if it denotes one below 2^64.
pub fn parse_number(s: &str) -> (r: Option<u64>)
    ensures
        r == number(s@),
{
    let v = chars_of(s);
    let start: usize = if v.len() > 0 && v[0] == '+' {
        1
    } else {
        0
    };
    let ghost d = s@.skip(start as int);
    assert(start == 0 ==> d =~= s@);
    if start == v.len() {
        return None;
    }
    let mut value: u64 = 0;
    let mut i: usize = start;
    assert(d.take(0) =~= Seq::<char>::empty());
    while i < v.len()
        invariant
            start <= i <= v@.len(),
            v@ == s@,
            start < v@.len(),
            d == s@.skip(start as int),
            start == (if s@.len() > 0 && s@[0] == '+' {
                1int
            } else {
                0int
            }),
            start == 0 ==> d =~= s@,
            forall|k: int| 0 <= k < i - start ==> '0' <= #[trigger] d[k] <= '9',
            value == digits_value(d.take(i - start)),
        decreases v@.len() - i,
    {
        let c = v[i];
        assert(d[i - start] == c);
        if c < '0' || '9' < c {
            return None;
        }
        let x: u64 = (c as u64) - 48;
        let ghost next = d.take(i - start + 1);
        assert(next.drop_last() =~= d.take(i - start));
        assert(digits_value(next) == value * 10 + x);
        proof {
            lemma_digits_value_monotone(d, i - start + 1);
        }
        if value > (u64::MAX - x) / 10 {
            return None;
        }
        value = value * 10 + x;
        i += 1;
    }
    assert(d.take(i - start) =~= d);
    Some(value)
}

/// Whether `a` comes before `b` by code point.
pub fn is_before(a: &str, b: &str) -> (r: bool)
    ensures
        r == precedes(a@, b@),
{
    let x = chars_of(a);
    let y = chars_of(b);
    let mut i: usize = 0;
    assert(x@.skip(0) =~= x@);
    assert(y@.skip(0) =~= y@);
    while i < x.len() && i < y.len() && x[i] == y[i]
        invariant
            i <= x@.len(),
            i <= y@.len(),
            x@ == a@,
            y@ == b@,
            precedes(x@, y@) == precedes(x@.skip(i as int), y@.skip(i as int)),
        decreases x@.len() - i,
    {
        assert(x@.skip(i as int).skip(1) =~= x@.skip(i + 1));
        assert(y@.skip(i as int).skip(1) =~= y@.skip(i + 1));
        i += 1;
    }
    if i >= y.len() {
        false
    } else if i >= x.len() {
        true
    } else {
        x[i] < y[i]
    }
}

/// `precedes` is a strict total order.
pub proof fn lemma_precedes_order(a: Seq<char>, b: Seq<char>, c: Seq<char>)
    ensures
        !precedes(a, a),
        precedes(a, b) && precedes(b, c) ==> precedes(a, c),
        precedes(a, b) || precedes(b, a) || a == b,
        !(precedes(a, b) && precedes(b, a)),
    decreases a.len() + b.len() + c.len(),
{
    if a.len() > 0 {
        let b1 = if b.len() > 0 {
            b.skip(1)
        } else {
            b
        };
        let c1 = if c.len() > 0 {
            c.skip(1)
        } else {
            c
        };
        lemma_precedes_order(a.skip(1), b1, c1);
        if b.len() > 0 && a[0] == b[0] && a.skip(1) == b.skip(1) {
            assert(a =~= seq![a[0]] + a.skip(1));
            assert(b =~= seq![b[0]] + b.skip(1));
        }
    } else if b.len() == 0 {
        assert(a =~= b);
    }
}

/// The number of bytes UTF-8 takes for the text.
pub fn byte_len_of(s: &str) -> (r: u128)
    ensures
        r == byte_len(s@),
{
    let v = chars_of(s);
    let mut n: u128 = 0;
    let mut i: usize = 0;
    assert(s@.take(0) =~= Seq::<char>::empty());
    while i < v.len()
        invariant
            i <= v@.len(),
            v@ == s@,
            n == byte_len(s@.take(i as int)),
            n <= 4 * i,
        decreases v@.len() - i,
    {
        assert(s@.take(i + 1).drop_last() =~= s@.take(i as int));
        n = n + bytes_of_char(v[i]) as u128;
        i += 1;
    }
    assert(s@.take(i as int) =~= s@);
    n
}

/// The number of bytes UTF-8 takes for `c`.
pub fn bytes_of_char(c: char) -> (r: u8)
    ensures
        r == char_bytes(c),
        1 <= r <= 4,
{
    let u: u32 = c as u32;
    if u < 0x80 {
        1
    } else if u < 0x800 {
        2
    } else if u < 0x1_0000 {
        3
    } else {
        4
    }
}

/// The parts that hold more than white space, without the white space around them.
pub open spec fn filled(parts: Seq<Seq<char>>) -> Seq<Seq<char>>
    decreases parts.len(),
{
    if parts.len() == 0 {
        Seq::empty()
    } else {
        let front = filled(parts.drop_last());
        let part = trimmed(parts.last());
        if part.len() > 0 {
            front.push(part)
        } else {
            front
        }
    }
}

/// The parts that hold more than white space, without the white space around them.
pub fn fill(parts: &Vec<String>) -> (r: Vec<String>)
    ensures
        views(r@) == filled(views(parts@)),
{
    let ghost all = views(parts@);
    let mut out: Vec<String> = Vec::new();
    let mut i: usize = 0;
    assert(views(out@) =~= filled(all.take(0)));
    while i < parts.len()
        invariant
            i <= parts@.len(),
            all == views(parts@),
            views(out@) == filled(all.take(i as int)),
        decreases parts@.len() - i,
    {
        let part = trim(parts[i].as_str());
        proof {
            assert(all.take(i + 1).drop_last() =~= all.take(i as int));
            assert(all.take(i + 1).last() == parts@[i as int]@);
        }
        if chars_of(part.as_str()).len() > 0 {
            let ghost before = views(out@);
            let ghost added = part@;
            out.push(part);
            assert(views(out@) =~= before.push(added));
        }
        i += 1;
    }
    assert(all.take(i as int) =~= all);
    out
}

proof fn lemma_trim_start_within(s: Seq<char>)
    ensures
        trim_start(s).len() == 0 || !white_space(trim_start(s)[0]),
        forall|c: char| #[trigger] trim_start(s).contains(c) ==> s.contains(c),
    decreases s.len(),
{
    if s.len() > 0 && white_space(s[0]) {
        let rest = s.skip(1);
        lemma_trim_start_within(rest);
        assert forall|c: char| #[trigger] trim_start(s).contains(c) implies s.contains(c) by {
            assert(trim_start(rest).contains(c));
            let k = choose|k: int| 0 <= k < rest.len() && rest[k] == c;
            assert(s[k + 1] == c);
        }
    }
}

proof fn lemma_trim_end_within(s: Seq<char>)
    ensures
        trim_end(s).len() == 0 || !white_space(trim_end(s).last()),
        trim_end(s).len() > 0 ==> trim_end(s)[0] == s[0],
        forall|c: char| #[trigger] trim_end(s).contains(c) ==> s.contains(c),
    decreases s.len(),
{
    if s.len() > 0 && white_space(s.last()) {
        let front = s.drop_last();
        lemma_trim_end_within(front);
        assert forall|c: char| #[trigger] trim_end(s).contains(c) implies s.contains(c) by {
            assert(trim_end(front).contains(c));
            let k = choose|k: int| 0 <= k < front.len() && front[k] == c;
            assert(s[k] == c);
        }
    }
}

/// A trimmed text has no white space at its ends, and holds no other characters than before.
pub proof fn lemma_trimmed(s: Seq<char>)
    ensures
        trimmed(trimmed(s)) == trimmed(s),
        forall|c: char| #[trigger] trimmed(s).contains(c) ==> s.contains(c),
{
    lemma_trim_start_within(s);
    lemma_trim_end_within(trim_start(s));
}

/// The pieces of a split hold no separator.
pub proof fn lemma_split_pieces(s: Seq<char>, sep: char)
    ensures
        split(s, sep).len() > 0,
        forall|k: int| 0 <= k < split(s, sep).len() ==> !(#[trigger] split(s, sep)[k]).contains(sep),
    decreases s.len(),
{
    if s.len() > 0 {
        lemma_split_pieces(s.drop_last(), sep);
        let front = split(s.drop_last(), sep);
        assert(!front[front.len() - 1].contains(sep));
    }
}

/// No part is left empty, each is trimmed, and each is one of the given parts once that is trimmed.
pub proof fn lemma_filled_hold_text(parts: Seq<Seq<char>>, k: int) -> (j: int)
    requires
        0 <= k < filled(parts).len(),
    ensures
        filled(parts)[k].len() > 0,
        0 <= j < parts.len(),
        filled(parts)[k] == trimmed(parts[j]),
    decreases parts.len(),
{
    let front = filled(parts.drop_last());
    if k < front.len() {
        lemma_filled_hold_text(parts.drop_last(), k)
    } else {
        parts.len() - 1
    }
}

/// The text without leading `./`, however often it is repeated.
pub open spec fn strip_here(s: Seq<char>) -> Seq<char>
    decreases s.len(),
{
    if s.len() >= 2 && s[0] == '.' && s[1] == '/' {
        strip_here(s.skip(2))
    } else {
        s
    }
}

/// The text without leading `./`, however often it is repeated.
pub fn trim_here(s: &str) -> (r: String)
    ensures
        r@ == strip_here(s@),
{
    let v = chars_of(s);
    let mut a: usize = 0;
    assert(v@.skip(0) =~= v@);
    while v.len() - a >= 2 && v[a] == '.' && v[a + 1] == '/'
        invariant
            a <= v@.len(),
            strip_here(v@) == strip_here(v@.skip(a as int)),
        decreases v@.len() - a,
    {
        assert(v@.skip(a as int).skip(2) =~= v@.skip(a + 2));
        a += 2;
    }
    text_range(&v, a, v.len())
}

/// Nothing is left to strip from a stripped text.
pub proof fn lemma_strip_here_idempotent(s: Seq<char>)
    ensures
        strip_here(strip_here(s)) == strip_here(s),
    decreases s.len(),
{
    if s.len() >= 2 && s[0] == '.' && s[1] == '/' {
        lemma_strip_here_idempotent(s.skip(2));
    }
}

/// The decimal numeral of an integer, with a minus sign where it is negative.
pub open spec fn signed(n: int) -> Seq<char> {
    if n < 0 {
        seq!['-'] + decimal((-n) as nat)
    } else {
        decimal(n as nat)
    }
}

/// The decimal numeral of an integer.
pub fn signed_of(n: i64) -> (r: String)
    ensures
        r@ == signed(n as int),
{
    if n < 0 {
        let mut out = String::new();
        out.push('-');
        assert(out@ =~= seq!['-']);
        let m: i128 = -(n as i128);
        push_decimal(&mut out, m as u128);
        out
    } else {
        decimal_of(n as u64)
    }
}

proof fn lemma_digit(d: nat)
    requires
        d < 10,
    ensures
        '0' <= digit(d) <= '9',
        (digit(d) as u32) - ('0' as u32) == d,
{
}

/// A decimal numeral is made of digits and stands for its number.
pub proof fn lemma_decimal_value(n: nat)
    ensures
        decimal(n).len() > 0,
        all_digits(decimal(n)),
        digits_value(decimal(n)) == n,
    decreases n,
{
    lemma_digit(n % 10);
    let s = decimal(n);
    if n < 10 {
        assert(s.drop_last() =~= Seq::<char>::empty());
        assert(digits_value(s.drop_last()) == 0);
    } else {
        lemma_decimal_value(n / 10);
        assert(s.drop_last() =~= decimal(n / 10));
    }
}

/// What is written as a decimal numeral is read as the same number.
pub proof fn law_numerals_read_back(n: u64)
    ensures
        number(decimal(n as nat)) == Some(n),
{
    lemma_decimal_value(n as nat);
    assert('0' <= decimal(n as nat)[0]);
}

proof fn lemma_trim_start_blank(s: Seq<char>)
    ensures
        trim_start(s).len() == 0 <==> (forall|i: int| 0 <= i < s.len() ==> white_space(#[trigger] s[i])),
    decreases s.len(),
{
    if s.len() > 0 && white_space(s[0]) {
        let rest = s.skip(1);
        lemma_trim_start_blank(rest);
        if forall|i: int| 0 <= i < rest.len() ==> white_space(#[trigger] rest[i]) {
            assert forall|i: int| 0 <= i < s.len() implies white_space(#[trigger] s[i]) by {
                if i > 0 {
                    assert(white_space(rest[i - 1]));
                }
            }
        }
        if forall|i: int| 0 <= i < s.len() ==> white_space(#[trigger] s[i]) {
            assert forall|i: int| 0 <= i < rest.len() implies white_space(#[trigger] rest[i]) by {
                assert(white_space(s[i + 1]));
            }
        }
    }
}

/// Trimming leaves nothing of a text exactly if it is white space throughout.
pub proof fn law_trimmed_blank(s: Seq<char>)
    ensures
        trimmed(s).len() == 0 <==> (forall|i: int| 0 <= i < s.len() ==> white_space(#[trigger] s[i])),
{
    lemma_trim_start_blank(s);
    let t = trim_start(s);
    lemma_trim_start_within(s);
    lemma_trim_end_blank(t);
}

proof fn lemma_trim_end_blank(s: Seq<char>)
    ensures
        trim_end(s).len() == 0 <==> (forall|i: int| 0 <= i < s.len() ==> white_space(#[trigger] s[i])),
    decreases s.len(),
{
    if s.len() > 0 && white_space(s.last()) {
        let front = s.drop_last();
        lemma_trim_end_blank(front);
        if forall|i: int| 0 <= i < front.len() ==> white_space(#[trigger] front[i]) {
            assert forall|i: int| 0 <= i < s.len() implies white_space(#[trigger] s[i]) by {
                if i < front.len() {
                    assert(white_space(front[i]));
                }
            }
        }
        if forall|i: int| 0 <= i < s.len() ==> white_space(#[trigger] s[i]) {
            assert forall|i: int| 0 <= i < front.len() implies white_space(#[trigger] front[i]) by {
                assert(white_space(s[i]));
            }
        }
    }
}

/// What a part holds, the joined text holds.
pub proof fn lemma_joined_holds(parts: Seq<Seq<char>>, sep: Seq<char>, k: int, c: char)
    requires
        0 <= k < parts.len(),
        parts[k].contains(c),
    ensures
        joined(parts, sep).contains(c),
    decreases parts.len(),
{
    let all = joined(parts, sep);
    if parts.len() == 1 {
    } else {
        let front = joined(parts.drop_last(), sep);
        if k < parts.len() - 1 {
            lemma_joined_holds(parts.drop_last(), sep, k, c);
            let i = choose|i: int| 0 <= i < front.len() && front[i] == c;
            assert(all[i] == c);
        } else {
            let i = choose|i: int| 0 <= i < parts[k].len() && parts[k][i] == c;
            assert(all[front.len() + sep.len() + i] == c);
        }
    }
}

proof fn lemma_first_solid(s: Seq<char>) -> (i: int)
    ensures
        0 <= i <= s.len(),
        forall|k: int| 0 <= k < i ==> white_space(#[trigger] s[k]),
        i == s.len() || !white_space(s[i]),
    decreases s.len(),
{
    if s.len() > 0 && white_space(s[0]) {
        let rest = s.skip(1);
        let i = lemma_first_solid(rest);
        assert forall|k: int| 0 <= k < i + 1 implies white_space(#[trigger] s[k]) by {
            if k > 0 {
                assert(rest[k - 1] == s[k]);
            }
        }
        i + 1
    } else {
        0
    }
}

proof fn lemma_last_solid(s: Seq<char>) -> (n: int)
    ensures
        0 <= n <= s.len(),
        forall|k: int| n <= k < s.len() ==> white_space(#[trigger] s[k]),
        n == 0 || !white_space(s[n - 1]),
    decreases s.len(),
{
    if s.len() > 0 && white_space(s.last()) {
        let n = lemma_last_solid(s.drop_last());
        assert forall|k: int| n <= k < s.len() implies white_space(#[trigger] s[k]) by {
            if k < s.len() - 1 {
                assert(s.drop_last()[k] == s[k]);
            }
        }
        n
    } else {
        s.len() as int
    }
}

/// Trimming takes white space off both ends, all of it and nothing else: what stays is the text from
/// the first to the last character that is no white space.
pub proof fn law_trimmed_range(s: Seq<char>) -> (range: (int, int))
    ensures
        0 <= range.0 <= range.1 <= s.len(),
        trimmed(s) == s.subrange(range.0, range.1),
        forall|k: int| 0 <= k < range.0 ==> white_space(#[trigger] s[k]),
        forall|k: int| range.1 <= k < s.len() ==> white_space(#[trigger] s[k]),
        range.0 < range.1 ==> !white_space(s[range.0]) && !white_space(s[range.1 - 1]),
{
    let i = lemma_first_solid(s);
    lemma_trim_start(s, i);
    let t = s.skip(i);
    let n = lemma_last_solid(t);
    lemma_trim_end(t, n);
    assert(t.take(n) =~= s.subrange(i, i + n));
    assert forall|k: int| i + n <= k < s.len() implies white_space(#[trigger] s[k]) by {
        assert(t[k - i] == s[k]);
    }
    if n > 0 {
        assert(t[n - 1] == s[i + n - 1]);
        if i < s.len() && n > 0 {
            assert(!white_space(s[i]));
        }
    }
    (i, i + n)
}

/// The white space of ASCII is tab, line feed, vertical tab, form feed, carriage return and space.
pub proof fn law_ascii_white_space(c: char)
    requires
        (c as u32) < 0x80,
    ensures
        white_space(c) <==> (c == '\t' || c == '\n' || c as u32 == 0x0b || c as u32 == 0x0c || c == '\r' || c
            == ' '),
{
}

/// Lower case has as many characters, none of them from `A` to `Z`; a letter from `A` to `Z` moves by
/// thirty-two code points, and every other character stays.
pub proof fn law_lower(s: Seq<char>)
    ensures
        lower(s).len() == s.len(),
        forall|i: int|
            0 <= i < s.len() ==> {
                let c = #[trigger] lower(s)[i];
                &&& !('A' <= c <= 'Z')
                &&& 'A' <= s[i] <= 'Z' ==> c as u32 == s[i] as u32 + 32
                &&& !('A' <= s[i] <= 'Z') ==> c == s[i]
            },
        lower(lower(s)) == lower(s),
{
    assert(lower(lower(s)) =~= lower(s));
}

/// Splitting loses nothing: the pieces, joined by the separator, are the text, and none holds it.
pub proof fn law_split(s: Seq<char>, sep: char)
    ensures
        split(s, sep).len() > 0,
        joined(split(s, sep), seq![sep]) == s,
        forall|k: int| 0 <= k < split(s, sep).len() ==> !(#[trigger] split(s, sep)[k]).contains(sep),
    decreases s.len(),
{
    lemma_split_pieces(s, sep);
    let all = split(s, sep);
    if s.len() == 0 {
        assert(all[0] =~= s);
    } else {
        let before = s.drop_last();
        law_split(before, sep);
        let front = split(before, sep);
        if s.last() == sep {
            assert(all.drop_last() =~= front);
            assert(joined(all, seq![sep]) =~= s);
        } else {
            assert(all.drop_last() =~= front.drop_last());
            if all.len() == 1 {
                assert(joined(all, seq![sep]) =~= front[0].push(s.last()));
                assert(front[0] =~= before);
                assert(joined(all, seq![sep]) =~= s);
            } else {
                assert(joined(all, seq![sep]) =~= joined(front, seq![sep]).push(s.last()));
                assert(joined(all, seq![sep]) =~= s);
            }
        }
    }
}

/// Joining nothing gives nothing, joining one part gives the part, and what is joined from two lists
/// is the first, the separator and the second.
pub proof fn law_joined(xs: Seq<Seq<char>>, ys: Seq<Seq<char>>, sep: Seq<char>)
    ensures
        joined(Seq::<Seq<char>>::empty(), sep) == Seq::<char>::empty(),
        xs.len() == 1 ==> joined(xs, sep) == xs[0],
        xs.len() > 0 && ys.len() > 0 ==> joined(xs + ys, sep) == joined(xs, sep) + sep + joined(ys, sep),
    decreases ys.len(),
{
    if xs.len() > 0 && ys.len() > 0 {
        let all = xs + ys;
        assert(all.last() == ys.last());
        if ys.len() == 1 {
            assert(all.drop_last() =~= xs);
            assert(joined(ys, sep) == ys[0]);
        } else {
            assert(all.drop_last() =~= xs + ys.drop_last());
            law_joined(xs, ys.drop_last(), sep);
            assert(joined(all, sep) =~= joined(xs, sep) + sep + joined(ys, sep));
        }
    }
}

/// Splitting undoes joining, as long as no part holds the separator.
pub proof fn law_split_joined(parts: Seq<Seq<char>>, sep: char)
    requires
        parts.len() > 0,
        forall|k: int| 0 <= k < parts.len() ==> !(#[trigger] parts[k]).contains(sep),
    ensures
        split(joined(parts, seq![sep]), sep) == parts,
    decreases parts.len(), parts.last().len(),
{
    let s = joined(parts, seq![sep]);
    let last = parts.last();
    if last.len() > 0 {
        let front = parts.drop_last().push(last.drop_last());
        assert forall|k: int| 0 <= k < front.len() implies !(#[trigger] front[k]).contains(sep) by {
            if k < parts.len() - 1 {
                assert(front[k] == parts[k]);
            } else {
                assert(!parts[k].contains(sep));
                if front[k].contains(sep) {
                    let i = choose|i: int| 0 <= i < front[k].len() && front[k][i] == sep;
                    assert(parts[k][i] == sep);
                }
            }
        }
        law_split_joined(front, sep);
        assert(front.drop_last() =~= parts.drop_last());
        assert(joined(front, seq![sep]) =~= s.drop_last());
        assert(s.last() == last.last());
        assert(!parts[parts.len() - 1].contains(sep));
        assert(last.contains(last.last()));
        assert(front.last().push(last.last()) =~= last);
        assert(split(s, sep) =~= parts);
    } else if parts.len() == 1 {
        assert(s.len() == 0);
        assert(split(s, sep) =~= parts) by {
            assert(parts[0] =~= Seq::<char>::empty());
        }
    } else {
        let front = parts.drop_last();
        assert forall|k: int| 0 <= k < front.len() implies !(#[trigger] front[k]).contains(sep) by {
            assert(front[k] == parts[k]);
        }
        law_split_joined(front, sep);
        assert(s.drop_last() =~= joined(front, seq![sep]));
        assert(s.last() == sep);
        assert(parts.last() =~= Seq::<char>::empty());
        assert(split(s, sep) =~= parts);
    }
}

/// Lines, each followed by its ending.
pub open spec fn with_endings(rows: Seq<Seq<char>>, ends: Seq<Seq<char>>) -> Seq<char>
    decreases rows.len(),
{
    if rows.len() == 0 {
        Seq::empty()
    } else {
        with_endings(rows.drop_last(), ends.drop_last()) + rows.last() + ends.last()
    }
}

/// How a line may end: with LF or CR LF; the last one, if it is not empty, with nothing too.
/// What comes before a plain LF is no carriage return.
pub open spec fn ending(row: Seq<char>, end: Seq<char>, last: bool) -> bool {
    ||| end == seq!['\n'] && (row.len() == 0 || row.last() != '\r')
    ||| end == seq!['\r', '\n']
    ||| last && row.len() > 0 && end == Seq::<char>::empty()
}

spec fn end_of(part: Seq<char>) -> Seq<char> {
    if part.len() > 0 && part.last() == '\r' {
        seq!['\r', '\n']
    } else {
        seq!['\n']
    }
}

proof fn lemma_with_endings(parts: Seq<Seq<char>>)
    requires
        parts.len() > 0,
    ensures
        ({
            let front = parts.drop_last();
            with_endings(front.map_values(|p: Seq<char>| without_cr(p)), front.map_values(|p: Seq<char>| end_of(p)))
                + parts.last() == joined(parts, seq!['\n'])
        }),
    decreases parts.len(),
{
    let front = parts.drop_last();
    let rows = front.map_values(|p: Seq<char>| without_cr(p));
    let ends = front.map_values(|p: Seq<char>| end_of(p));
    if front.len() == 0 {
        assert(with_endings(rows, ends) + parts.last() =~= parts[0]);
    } else {
        lemma_with_endings(front);
        assert(rows.drop_last() =~= front.drop_last().map_values(|p: Seq<char>| without_cr(p)));
        assert(ends.drop_last() =~= front.drop_last().map_values(|p: Seq<char>| end_of(p)));
        assert(rows.last() + ends.last() =~= front.last().push('\n'));
        assert(with_endings(rows, ends) + parts.last() =~= joined(parts, seq!['\n']));
    }
}

/// Reading lines loses nothing but their endings: the lines, each with an ending put back, are the
/// text, and no line holds a line feed.
pub proof fn law_lines(s: Seq<char>) -> (ends: Seq<Seq<char>>)
    ensures
        ends.len() == lines(s).len(),
        with_endings(lines(s), ends) == s,
        forall|k: int|
            0 <= k < ends.len() ==> ending(lines(s)[k], #[trigger] ends[k], k == ends.len() - 1)
                && !lines(s)[k].contains('\n'),
{
    law_split(s, '\n');
    let parts = split(s, '\n');
    lemma_with_endings(parts);
    let front = parts.drop_last();
    let closed = front.map_values(|p: Seq<char>| end_of(p));
    let rows = front.map_values(|p: Seq<char>| without_cr(p));
    let ends = if parts.last().len() == 0 {
        closed
    } else {
        closed.push(Seq::empty())
    };
    if parts.last().len() == 0 {
        assert(with_endings(rows, closed) + parts.last() =~= with_endings(rows, closed));
    } else {
        assert(lines(s).drop_last() =~= rows);
        assert(ends.drop_last() =~= closed);
        assert(with_endings(lines(s), ends) =~= s);
    }
    assert forall|k: int| 0 <= k < ends.len() implies ending(lines(s)[k], #[trigger] ends[k], k == ends.len() - 1)
        && !lines(s)[k].contains('\n') by {
        assert(!parts[k].contains('\n'));
        if k < front.len() {
            if lines(s)[k].contains('\n') {
                let i = choose|i: int| 0 <= i < lines(s)[k].len() && lines(s)[k][i] == '\n';
                assert(parts[k][i] == '\n');
            }
        } else {
            assert(lines(s)[k] == parts[k]);
        }
    }
    ends
}

/// A numeral has no leading zero, and one more digit makes it ten times as much and the digit.
pub proof fn law_decimal(n: nat, d: nat)
    requires
        d < 10,
    ensures
        decimal(d).len() == 1,
        decimal(d)[0] as u32 == '0' as u32 + d,
        n > 0 ==> decimal(n)[0] != '0',
        n > 0 ==> decimal(10 * n + d) == decimal(n) + decimal(d),
    decreases n,
{
    if n > 0 {
        assert((10 * n + d) / 10 == n && (10 * n + d) % 10 == d);
        assert(decimal(10 * n + d) =~= decimal(n) + decimal(d));
        if n >= 10 {
            lemma_decimal_value(n / 10);
            law_decimal(n / 10, 0);
        } else {
            lemma_digit(n);
        }
    }
}

/// A signed numeral is that of the magnitude, behind a minus sign exactly if the number is negative.
pub proof fn law_signed(n: int)
    ensures
        n >= 0 ==> signed(n) == decimal(n as nat),
        n < 0 ==> signed(n).len() > 1 && signed(n)[0] == '-' && signed(n).skip(1) == decimal((-n) as nat),
        digits_value(
            if n < 0 {
                signed(n).skip(1)
            } else {
                signed(n)
            },
        ) == if n < 0 {
            -n
        } else {
            n
        },
{
    lemma_decimal_value(
        if n < 0 {
            (-n) as nat
        } else {
            n as nat
        },
    );
    if n < 0 {
        assert(signed(n).skip(1) =~= decimal((-n) as nat));
    }
}

/// What denotes a number: one digit or more behind an optional plus sign. A further digit makes ten
/// times as much and the digit, and from 2^64 on there is no number.
pub proof fn law_number(s: Seq<char>, d: char)
    requires
        '0' <= d <= '9',
    ensures
        number(seq![d]) == Some(((d as u32) - ('0' as u32)) as u64),
        number(Seq::<char>::empty()) is None,
        number(seq!['+']) is None,
        s.len() > 0 && s[0] != '+' ==> number(seq!['+'] + s) == number(s),
        number(s) matches Some(v) ==> (10 * v + ((d as u32) - ('0' as u32)) <= u64::MAX ==> number(s.push(d))
            == Some((10 * v + ((d as u32) - ('0' as u32))) as u64)) && (10 * v + ((d as u32) - ('0' as u32))
            > u64::MAX ==> number(s.push(d)) is None),
        number(s) is Some && s[0] != '+' ==> forall|i: int| 0 <= i < s.len() ==> '0' <= #[trigger] s[i] <= '9',
{
    let one = seq![d];
    assert(one.drop_last() =~= Seq::<char>::empty());
    assert(digits_value(one.drop_last()) == 0);
    assert(seq!['+'].skip(1) =~= Seq::<char>::empty());
    assert((seq!['+'] + s).skip(1) =~= s);
    if number(s) is Some {
        let all = s.push(d);
        if s[0] == '+' {
            assert(all.skip(1) =~= s.skip(1).push(d));
            assert(all.skip(1).drop_last() =~= s.skip(1));
        } else {
            assert(all.drop_last() =~= s);
        }
    }
}

/// One text comes before another exactly if it has a smaller character where they first differ, or
/// is a proper beginning of it.
pub proof fn law_precedes(a: Seq<char>, b: Seq<char>)
    ensures
        precedes(a, b) <==> exists|i: int|
            0 <= i < b.len() && i <= a.len() && #[trigger] a.take(i) == b.take(i) && (i == a.len() || a[i] < b[i]),
    decreases a.len(),
{
    if b.len() > 0 {
        if a.len() == 0 {
            assert(a.take(0) =~= b.take(0));
        } else if a[0] != b[0] {
            assert(a.take(0) =~= b.take(0));
            assert forall|i: int|
                0 <= i < b.len() && i <= a.len() && #[trigger] a.take(i) == b.take(i) implies i == 0 by {
                if i > 0 {
                    assert(a.take(i)[0] == b.take(i)[0]);
                }
            }
        } else {
            let x = a.skip(1);
            let y = b.skip(1);
            law_precedes(x, y);
            if precedes(x, y) {
                let i = choose|i: int|
                    0 <= i < y.len() && i <= x.len() && #[trigger] x.take(i) == y.take(i) && (i == x.len() || x[i]
                        < y[i]);
                assert(a.take(i + 1) =~= seq![a[0]] + x.take(i));
                assert(b.take(i + 1) =~= seq![b[0]] + y.take(i));
                assert(a.take(i + 1) == b.take(i + 1));
            }
            if exists|i: int|
                0 <= i < b.len() && i <= a.len() && #[trigger] a.take(i) == b.take(i) && (i == a.len() || a[i]
                    < b[i]) {
                let i = choose|i: int|
                    0 <= i < b.len() && i <= a.len() && #[trigger] a.take(i) == b.take(i) && (i == a.len() || a[i]
                        < b[i]);
                assert(i > 0);
                assert(x.take(i - 1) =~= a.take(i).skip(1));
                assert(y.take(i - 1) =~= b.take(i).skip(1));
                assert(x.take(i - 1) == y.take(i - 1));
            }
        }
    }
}

/// The byte length is the length of the UTF-8 encoding.
pub proof fn law_byte_len(s: Seq<char>)
    ensures
        byte_len(s) == vstd::utf8::encode_utf8(s).len(),
    decreases s.len(),
{
    if s.len() > 0 {
        law_byte_len(s.skip(1));
        lemma_byte_len_front(s);
        vstd::utf8::char_is_scalar(s[0]);
    }
}

proof fn lemma_byte_len_front(s: Seq<char>)
    requires
        s.len() > 0,
    ensures
        byte_len(s) == char_bytes(s[0]) + byte_len(s.skip(1)),
    decreases s.len(),
{
    if s.len() == 1 {
        assert(s.drop_last() =~= Seq::<char>::empty());
        assert(s.skip(1) =~= Seq::<char>::empty());
    } else {
        lemma_byte_len_front(s.drop_last());
        assert(s.drop_last().skip(1) =~= s.skip(1).drop_last());
    }
}

/// Stripping a character off the front takes a run of it away, all of it and nothing else.
pub proof fn law_strip_front(s: Seq<char>, c: char) -> (i: int)
    ensures
        0 <= i <= s.len(),
        strip_front(s, c) == s.skip(i),
        forall|k: int| 0 <= k < i ==> #[trigger] s[k] == c,
        i == s.len() || s[i] != c,
    decreases s.len(),
{
    if s.len() > 0 && s[0] == c {
        let rest = s.skip(1);
        let i = law_strip_front(rest, c);
        assert(rest.skip(i) =~= s.skip(i + 1));
        assert forall|k: int| 0 <= k < i + 1 implies #[trigger] s[k] == c by {
            if k > 0 {
                assert(rest[k - 1] == s[k]);
            }
        }
        i + 1
    } else {
        assert(s.skip(0) =~= s);
        0
    }
}

/// Stripping a character off the back takes a run of it away, all of it and nothing else.
pub proof fn law_strip_back(s: Seq<char>, c: char) -> (n: int)
    ensures
        0 <= n <= s.len(),
        strip_back(s, c) == s.take(n),
        forall|k: int| n <= k < s.len() ==> #[trigger] s[k] == c,
        n == 0 || s[n - 1] != c,
    decreases s.len(),
{
    if s.len() > 0 && s.last() == c {
        let n = law_strip_back(s.drop_last(), c);
        assert(s.drop_last().take(n) =~= s.take(n));
        assert forall|k: int| n <= k < s.len() implies #[trigger] s[k] == c by {
            if k < s.len() - 1 {
                assert(s.drop_last()[k] == s[k]);
            }
        }
        n
    } else {
        assert(s.take(s.len() as int) =~= s);
        s.len() as int
    }
}

/// Stripping `./` takes it off the front as often as it stands there, and nothing else.
pub proof fn law_strip_here(s: Seq<char>) -> (n: int)
    ensures
        0 <= 2 * n <= s.len(),
        strip_here(s) == s.skip(2 * n),
        forall|k: int| 0 <= k < 2 * n ==> #[trigger] s[k] == if k % 2 == 0 {
            '.'
        } else {
            '/'
        },
        s.len() >= 2 * n + 2 ==> s[2 * n] != '.' || s[2 * n + 1] != '/',
    decreases s.len(),
{
    if s.len() >= 2 && s[0] == '.' && s[1] == '/' {
        let rest = s.skip(2);
        let n = law_strip_here(rest);
        assert(rest.skip(2 * n) =~= s.skip(2 * (n + 1)));
        assert forall|k: int| 0 <= k < 2 * (n + 1) implies #[trigger] s[k] == if k % 2 == 0 {
            '.'
        } else {
            '/'
        } by {
            if k > 1 {
                assert(rest[k - 2] == s[k]);
            }
        }
        if s.len() >= 2 * (n + 1) + 2 {
            assert(rest[2 * n] == s[2 * n + 2] && rest[2 * n + 1] == s[2 * n + 3]);
        }
        n + 1
    } else {
        assert(s.skip(0) =~= s);
        0
    }
}

/// Of some parts, those that hold more than white space stay, trimmed and in their order.
pub proof fn law_filled(parts: Seq<Seq<char>>) -> (at: Seq<int>)
    ensures
        crate::lists::are_places(at, parts.len() as int),
        at.len() == filled(parts).len(),
        forall|k: int| 0 <= k < at.len() ==> filled(parts)[k] == trimmed(parts[#[trigger] at[k]]),
        forall|i: int|
            0 <= i < parts.len() ==> (#[trigger] at.contains(i) <==> exists|j: int|
                0 <= j < parts[i].len() && !white_space(#[trigger] parts[i][j])),
    decreases parts.len(),
{
    if parts.len() == 0 {
        Seq::empty()
    } else {
        let front = parts.drop_last();
        let n = front.len() as int;
        let before = law_filled(front);
        law_trimmed_blank(parts.last());
        assert(!before.contains(n)) by {
            if before.contains(n) {
                let k = choose|k: int| 0 <= k < before.len() && before[k] == n;
                assert(before[k] < n);
            }
        }
        let at = if trimmed(parts.last()).len() > 0 {
            before.push(n)
        } else {
            before
        };
        assert forall|i: int| 0 <= i < parts.len() implies (#[trigger] at.contains(i) <==> exists|j: int|
            0 <= j < parts[i].len() && !white_space(#[trigger] parts[i][j])) by {
            if i < n {
                assert(front[i] == parts[i]);
                assert(before.contains(i) <==> at.contains(i)) by {
                    if before.contains(i) {
                        let k = choose|k: int| 0 <= k < before.len() && before[k] == i;
                        assert(at[k] == i);
                    }
                    if at.contains(i) {
                        let k = choose|k: int| 0 <= k < at.len() && at[k] == i;
                        assert(before[k] == i);
                    }
                }
            } else {
                assert(parts[i] == parts.last());
                if trimmed(parts.last()).len() > 0 {
                    assert(at[before.len() as int] == n);
                }
            }
        }
        at
    }
}

/// A text holds another exactly if it is that text with something before it and something behind it.
pub proof fn law_has(hay: Seq<char>, needle: Seq<char>)
    ensures
        has(hay, needle) <==> exists|a: Seq<char>, b: Seq<char>| hay == #[trigger] (a + needle + b),
{
    if has(hay, needle) {
        let i = choose|i: int| #[trigger] occurs_at(hay, needle, i);
        let a = hay.take(i);
        let b = hay.skip(i + needle.len());
        assert(hay =~= a + needle + b) by {
            assert forall|k: int| i <= k < i + needle.len() implies hay[k] == (a + needle + b)[k] by {
                assert(hay.subrange(i, i + needle.len())[k - i] == needle[k - i]);
            }
        }
    }
    if exists|a: Seq<char>, b: Seq<char>| hay == #[trigger] (a + needle + b) {
        let (a, b) = choose|a: Seq<char>, b: Seq<char>| hay == #[trigger] (a + needle + b);
        assert(hay.subrange(a.len() as int, (a.len() + needle.len()) as int) =~= needle);
        assert(occurs_at(hay, needle, a.len() as int));
    }
}

/// A second plus sign makes a text no number, and so does any character behind the first that is no
/// digit.
pub proof fn law_not_a_number(s: Seq<char>, i: int)
    ensures
        s.len() > 0 && s[0] == '+' ==> number(seq!['+'] + s) is None,
        0 < i < s.len() && !('0' <= s[i] <= '9') ==> number(s) is None,
        s.len() > 0 && s[0] != '+' && !('0' <= s[0] <= '9') ==> number(s) is None,
{
    if s.len() > 0 && s[0] == '+' {
        let t = seq!['+'] + s;
        assert(t.skip(1) =~= s);
        assert(!all_digits(s));
    }
    if 0 < i < s.len() && !('0' <= s[i] <= '9') {
        if s[0] == '+' {
            assert(s.skip(1)[i - 1] == s[i]);
        }
    }
}

} // verus!
