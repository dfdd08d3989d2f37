//! Text as the reports print it: numbers, plurals, joins, padding, and the
//! byte order a sorted list of findings is kept in.

use vstd::prelude::*;
use vstd::utf8::*;

verus! {

// ---------------------------------------------------------------------
// Specifications

/// The character of a decimal digit.
pub open spec fn digit_char(d: nat) -> char {
    ((48 + d) as u8) as char
}

/// `n` written in decimal, without leading zeros.
pub open spec fn decimal(n: nat) -> Seq<char>
    decreases n,
{
    if n < 10 {
        seq![digit_char(n)]
    } else {
        decimal(n / 10).push(digit_char(n % 10))
    }
}

/// `1 member`, `2 members`, `0 members`.
pub open spec fn plural_text(n: nat, noun: Seq<char>) -> Seq<char> {
    decimal(n) + seq![' '] + noun + if n == 1 {
        Seq::<char>::empty()
    } else {
        seq!['s']
    }
}

/// The parts with `sep` between each two of them.
pub open spec fn join(parts: Seq<Seq<char>>, sep: Seq<char>) -> Seq<char>
    decreases parts.len(),
{
    if parts.len() == 0 {
        Seq::<char>::empty()
    } else if parts.len() == 1 {
        parts[0]
    } else {
        join(parts.drop_last(), sep) + sep + parts.last()
    }
}

/// `n` spaces.
pub open spec fn spaces(n: nat) -> Seq<char> {
    Seq::new(n, |i: int| ' ')
}

/// `s` followed by enough spaces to make it `width` characters long; `s`
/// itself when it is already that long.
pub open spec fn pad(s: Seq<char>, width: nat) -> Seq<char> {
    if s.len() < width {
        s + spaces((width - s.len()) as nat)
    } else {
        s
    }
}

/// The number of bytes in the UTF-8 encoding of `s`, which is what `len`
/// of a Rust string counts.
pub open spec fn byte_len(s: Seq<char>) -> nat {
    encode_utf8(s).len()
}

pub open spec fn is_prefix(pre: Seq<char>, s: Seq<char>) -> bool {
    pre.len() <= s.len() && s.subrange(0, pre.len() as int) == pre
}

/// A layer or door pattern: a trailing `*` matches by prefix, every other
/// pattern only itself.
pub open spec fn pattern_matches(pattern: Seq<char>, dir: Seq<char>) -> bool {
    if pattern.len() > 0 && pattern.last() == '*' {
        is_prefix(pattern.drop_last(), dir)
    } else {
        dir == pattern
    }
}

/// Whether `needle` occurs in `hay`, byte for byte.
pub open spec fn contains_bytes(hay: Seq<u8>, needle: Seq<u8>) -> bool {
    exists|i: int|
        0 <= i && i + needle.len() <= hay.len() && #[trigger] hay.subrange(i, i + needle.len())
            == needle
}

/// Whether the text `needle` occurs in the text `hay`.
pub open spec fn contains_text(hay: Seq<char>, needle: Seq<char>) -> bool {
    contains_bytes(encode_utf8(hay), encode_utf8(needle))
}

/// Lexicographic order on bytes: a proper prefix comes first.
pub open spec fn bytes_lt(a: Seq<u8>, b: Seq<u8>) -> bool
    decreases a.len(),
{
    if a.len() == 0 {
        b.len() > 0
    } else if b.len() == 0 {
        false
    } else if a[0] != b[0] {
        a[0] < b[0]
    } else {
        bytes_lt(a.drop_first(), b.drop_first())
    }
}

/// The order of Rust's `String`: by the bytes of the UTF-8 encoding.
pub open spec fn text_lt(a: Seq<char>, b: Seq<char>) -> bool {
    bytes_lt(encode_utf8(a), encode_utf8(b))
}

/// Each element no greater than the next.
pub open spec fn sorted(s: Seq<Seq<char>>) -> bool {
    forall|i: int, j: int| 0 <= i < j < s.len() ==> !text_lt(#[trigger] s[j], #[trigger] s[i])
}

/// Each element less than the next, so no element twice.
pub open spec fn strictly_sorted(s: Seq<Seq<char>>) -> bool {
    forall|i: int, j: int| 0 <= i < j < s.len() ==> text_lt(#[trigger] s[i], #[trigger] s[j])
}

/// The views of a list of strings.
pub open spec fn texts(v: Seq<String>) -> Seq<Seq<char>> {
    v.map_values(|s: String| s@)
}

/// `char::is_whitespace`: the Unicode `White_Space` property.
pub open spec fn is_space(c: char) -> bool {
    let u = c as u32;
    (0x09 <= u <= 0x0d) || u == 0x20 || u == 0x85 || u == 0xa0 || u == 0x1680 || (0x2000 <= u
        <= 0x200a) || u == 0x2028 || u == 0x2029 || u == 0x202f || u == 0x205f || u == 0x3000
}

/// Whether `s.trim()` is empty: nothing but white space.
pub open spec fn is_blank(s: Seq<char>) -> bool {
    forall|i: int| 0 <= i < s.len() ==> is_space(#[trigger] s[i])
}

/// `s` with every `\` written as `/`.
pub open spec fn slashed(s: Seq<char>) -> Seq<char> {
    s.map_values(|c: char| if c == '\\' { '/' } else { c })
}

// ---------------------------------------------------------------------
// Lemmas about the order

pub proof fn lemma_bytes_lt_irreflexive(a: Seq<u8>)
    ensures
        !bytes_lt(a, a),
    decreases a.len(),
{
    if a.len() > 0 {
        lemma_bytes_lt_irreflexive(a.drop_first());
    }
}

pub proof fn lemma_bytes_lt_transitive(a: Seq<u8>, b: Seq<u8>, c: Seq<u8>)
    requires
        bytes_lt(a, b),
        bytes_lt(b, c),
    ensures
        bytes_lt(a, c),
    decreases a.len(),
{
    if a.len() > 0 && b.len() > 0 && c.len() > 0 {
        if a[0] == b[0] && b[0] == c[0] {
            lemma_bytes_lt_transitive(a.drop_first(), b.drop_first(), c.drop_first());
        }
    }
}

pub proof fn lemma_bytes_lt_total(a: Seq<u8>, b: Seq<u8>)
    requires
        a != b,
    ensures
        bytes_lt(a, b) || bytes_lt(b, a),
    decreases a.len(),
{
    if a.len() > 0 && b.len() > 0 && a[0] == b[0] {
        if a.drop_first() == b.drop_first() {
            assert(a =~= seq![a[0]] + a.drop_first());
            assert(b =~= seq![b[0]] + b.drop_first());
        }
        lemma_bytes_lt_total(a.drop_first(), b.drop_first());
    } else if a.len() == 0 && b.len() == 0 {
        assert(a =~= b);
    }
}

pub proof fn lemma_text_lt_irreflexive(a: Seq<char>)
    ensures
        !text_lt(a, a),
{
    lemma_bytes_lt_irreflexive(encode_utf8(a));
}

pub proof fn lemma_text_lt_transitive(a: Seq<char>, b: Seq<char>, c: Seq<char>)
    requires
        text_lt(a, b),
        text_lt(b, c),
    ensures
        text_lt(a, c),
{
    lemma_bytes_lt_transitive(encode_utf8(a), encode_utf8(b), encode_utf8(c));
}

pub proof fn lemma_text_lt_total(a: Seq<char>, b: Seq<char>)
    requires
        a != b,
    ensures
        text_lt(a, b) || text_lt(b, a),
{
    encode_utf8_decode_utf8(a);
    encode_utf8_decode_utf8(b);
    lemma_bytes_lt_total(encode_utf8(a), encode_utf8(b));
}

pub proof fn lemma_bytes_lt_step(a: Seq<u8>, b: Seq<u8>, i: int)
    requires
        0 <= i < a.len(),
        i < b.len(),
        a[i] == b[i],
    ensures
        bytes_lt(a.subrange(i, a.len() as int), b.subrange(i, b.len() as int)) == bytes_lt(
            a.subrange(i + 1, a.len() as int),
            b.subrange(i + 1, b.len() as int),
        ),
{
    assert(a.subrange(i, a.len() as int).drop_first() =~= a.subrange(i + 1, a.len() as int));
    assert(b.subrange(i, b.len() as int).drop_first() =~= b.subrange(i + 1, b.len() as int));
}

pub proof fn lemma_join_step(parts: Seq<Seq<char>>, sep: Seq<char>, i: int)
    requires
        0 < i < parts.len(),
    ensures
        join(parts.subrange(0, i + 1), sep) == join(parts.subrange(0, i), sep) + sep + parts[i],
{
    assert(parts.subrange(0, i + 1).drop_last() =~= parts.subrange(0, i));
}

/// How many line breaks `s` holds.
pub open spec fn newlines(s: Seq<char>) -> nat
    decreases s.len(),
{
    if s.len() == 0 {
        0
    } else {
        newlines(s.drop_last()) + if s.last() == '\n' {
            1nat
        } else {
            0nat
        }
    }
}

/// Whether `s` holds no line break.
pub open spec fn one_line(s: Seq<char>) -> bool {
    forall|i: int| 0 <= i < s.len() ==> s[i] != '\n'
}

pub proof fn lemma_newlines_add(a: Seq<char>, b: Seq<char>)
    ensures
        newlines(a + b) == newlines(a) + newlines(b),
    decreases b.len(),
{
    if b.len() == 0 {
        assert(a + b =~= a);
    } else {
        lemma_newlines_add(a, b.drop_last());
        assert((a + b).drop_last() =~= a + b.drop_last());
        assert((a + b).last() == b.last());
    }
}

pub proof fn lemma_one_line_none(s: Seq<char>)
    requires
        one_line(s),
    ensures
        newlines(s) == 0,
    decreases s.len(),
{
    if s.len() > 0 {
        assert(one_line(s.drop_last()));
        lemma_one_line_none(s.drop_last());
        assert(s.last() == s[s.len() - 1]);
    }
}

pub proof fn lemma_one_line_add(a: Seq<char>, b: Seq<char>)
    requires
        one_line(a),
        one_line(b),
    ensures
        one_line(a + b),
{
    assert forall|i: int| 0 <= i < (a + b).len() implies (a + b)[i] != '\n' by {
        if i >= a.len() {
            assert((a + b)[i] == b[i - a.len()]);
        }
    }
}

proof fn lemma_digit_one_line(d: nat)
    requires
        d < 10,
    ensures
        digit_char(d) != '\n',
{
    let b = (48 + d) as u8;
    assert(b == 48 + d);
    assert(b as char == digit_char(d));
    assert((b as char) as u32 == b as u32);
}

pub proof fn lemma_decimal_one_line(n: nat)
    ensures
        one_line(decimal(n)),
    decreases n,
{
    if n < 10 {
        assert(decimal(n)[0] == digit_char(n));
        lemma_digit_one_line(n);
    } else {
        lemma_decimal_one_line(n / 10);
        let d = (n % 10) as nat;
        lemma_digit_one_line(d);
        assert(one_line(seq![digit_char(d)]));
        lemma_one_line_add(decimal(n / 10), seq![digit_char(d)]);
        assert(decimal(n) =~= decimal(n / 10) + seq![digit_char(d)]);
    }
}

pub proof fn lemma_plural_one_line(n: nat, noun: Seq<char>)
    requires
        one_line(noun),
    ensures
        one_line(plural_text(n, noun)),
{
    lemma_decimal_one_line(n);
    assert(one_line(seq![' ']));
    assert(one_line(seq!['s']));
    assert(one_line(Seq::<char>::empty()));
    lemma_one_line_add(decimal(n), seq![' ']);
    lemma_one_line_add(decimal(n) + seq![' '], noun);
    if n == 1 {
        lemma_one_line_add(decimal(n) + seq![' '] + noun, Seq::<char>::empty());
    } else {
        lemma_one_line_add(decimal(n) + seq![' '] + noun, seq!['s']);
    }
}

pub proof fn lemma_join_one_line(parts: Seq<Seq<char>>, sep: Seq<char>)
    requires
        one_line(sep),
        forall|k: int| 0 <= k < parts.len() ==> one_line(#[trigger] parts[k]),
    ensures
        one_line(join(parts, sep)),
    decreases parts.len(),
{
    if parts.len() == 0 {
        assert(one_line(Seq::<char>::empty()));
    } else if parts.len() == 1 {
        assert(one_line(parts[0]));
    } else {
        assert forall|k: int| 0 <= k < parts.drop_last().len() implies one_line(
            #[trigger] parts.drop_last()[k],
        ) by {
            assert(parts.drop_last()[k] == parts[k]);
        }
        lemma_join_one_line(parts.drop_last(), sep);
        assert(one_line(parts.last())) by {
            assert(parts.last() == parts[parts.len() - 1]);
        }
        lemma_one_line_add(join(parts.drop_last(), sep), sep);
        lemma_one_line_add(join(parts.drop_last(), sep) + sep, parts.last());
    }
}

proof fn lemma_insert_sorted(before: Seq<Seq<char>>, k: int, x: Seq<char>)
    requires
        sorted(before),
        0 <= k <= before.len(),
        forall|m: int| 0 <= m < k ==> !text_lt(x, #[trigger] before[m]),
        k < before.len() ==> text_lt(x, before[k]),
    ensures
        sorted(before.insert(k, x)),
{
    let after = before.insert(k, x);
    assert forall|a: int, b: int| 0 <= a < b < after.len() implies !text_lt(
        #[trigger] after[b],
        #[trigger] after[a],
    ) by {
        if a < k && b == k {
        } else if a == k && b > k {
            if text_lt(after[b], x) {
                lemma_text_lt_transitive(after[b], x, before[k]);
                if b - 1 > k {
                    assert(!text_lt(before[b - 1], before[k]));
                } else {
                    lemma_text_lt_irreflexive(before[k]);
                }
            }
        } else if a < k && b > k {
            assert(!text_lt(before[b - 1], before[a]));
        } else if b < k {
            assert(!text_lt(before[b], before[a]));
        } else {
            assert(!text_lt(before[b - 1], before[a - 1]));
        }
    }
}

proof fn lemma_insert_multiset(before: Seq<Seq<char>>, k: int, x: Seq<char>)
    requires
        0 <= k <= before.len(),
    ensures
        before.insert(k, x).to_multiset() == before.to_multiset().insert(x),
{
    broadcast use vstd::seq_lib::group_to_multiset_ensures;

    let after = before.insert(k, x);
    assert(after.remove(k) =~= before);
    assert(after[k] == x);
    assert(after.to_multiset().remove(x) =~= before.to_multiset());
    assert(after.contains(x));
    assert(after.to_multiset().count(x) > 0);
    assert(after.to_multiset() =~= before.to_multiset().insert(x));
}

/// Two lists with the same elements, counted, hold the same elements.
pub proof fn lemma_same_elements(a: Seq<Seq<char>>, b: Seq<Seq<char>>)
    requires
        a.to_multiset() == b.to_multiset(),
    ensures
        forall|x: Seq<char>| a.contains(x) <==> b.contains(x),
{
    a.to_multiset_ensures();
    b.to_multiset_ensures();
    assert forall|x: Seq<char>| a.contains(x) <==> b.contains(x) by {
        assert(a.to_multiset().count(x) == b.to_multiset().count(x));
        assert(a.contains(x) <==> a.to_multiset().count(x) > 0);
        assert(b.contains(x) <==> b.to_multiset().count(x) > 0);
    }
}

/// Pushing a string adds its text to the set of texts.
pub proof fn lemma_push_text(before: Seq<String>, after: Seq<String>, x: String)
    requires
        after == before.push(x),
    ensures
        texts(after) == texts(before).push(x@),
        texts(after).to_set() == texts(before).to_set().insert(x@),
{
    assert(texts(after) =~= texts(before).push(x@));
    assert(texts(after).to_set() =~= texts(before).to_set().insert(x@)) by {
        assert forall|y: Seq<char>| texts(after).to_set().contains(y) <==> texts(
            before,
        ).to_set().insert(x@).contains(y) by {
            if texts(after).contains(y) {
                let k = choose|k: int| 0 <= k < texts(after).len() && texts(after)[k] == y;
                if k < texts(before).len() {
                    assert(texts(before)[k] == y);
                }
            }
            if texts(before).contains(y) {
                let k = choose|k: int| 0 <= k < texts(before).len() && texts(before)[k] == y;
                assert(texts(after)[k] == y);
            }
            if y == x@ {
                assert(texts(after)[texts(before).len() as int] == y);
            }
        }
    }
}

// ---------------------------------------------------------------------
// Building text

/// Calls `String::push`, which std documents as appending the character
/// to the end of the string.
#[verifier::external_body]
pub(crate) fn push_char(s: &mut String, c: char)
    ensures
        final(s)@ == old(s)@.push(c),
{
    s.push(c);
}

/// A new string holding `s`.
pub fn owned(s: &str) -> (r: String)
    ensures
        r@ == s@,
{
    String::from_str(s)
}

fn digit(d: usize) -> (c: char)
    requires
        d < 10,
    ensures
        c == digit_char(d as nat),
{
    let b: u8 = d as u8;
    (48u8 + b) as char
}

/// `n` in decimal, as `format!("{n}")` writes it.
pub fn decimal_text(n: usize) -> (s: String)
    ensures
        s@ == decimal(n as nat),
    decreases n,
{
    if n < 10 {
        let mut s = String::new();
        push_char(&mut s, digit(n));
        s
    } else {
        let mut s = decimal_text(n / 10);
        push_char(&mut s, digit(n % 10));
        s
    }
}

/// `1 member`, `2 members`. Written out rather than `member(s)` because
/// these end up in a line a person reads on every run.
pub fn plural(n: usize, noun: &str) -> (s: String)
    ensures
        s@ == plural_text(n as nat, noun@),
{
    let mut s = decimal_text(n);
    push_char(&mut s, ' ');
    s.append(noun);
    if n != 1 {
        push_char(&mut s, 's');
    }
    s
}

/// The strings with `sep` between each two of them.
pub fn join_texts(parts: &Vec<String>, sep: &str) -> (s: String)
    ensures
        s@ == join(texts(parts@), sep@),
{
    let ghost ps = texts(parts@);
    let mut s = String::new();
    let mut i: usize = 0;
    while i < parts.len()
        invariant
            i <= parts.len(),
            ps == texts(parts@),
            s@ == join(ps.subrange(0, i as int), sep@),
        decreases parts.len() - i,
    {
        if i == 0 {
            s.append(parts[i].as_str());
            assert(ps.subrange(0, 1) =~= seq![ps[0]]);
        } else {
            s.append(sep);
            s.append(parts[i].as_str());
            proof {
                lemma_join_step(ps, sep@, i as int);
            }
        }
        i = i + 1;
    }
    assert(ps.subrange(0, parts.len() as int) =~= ps);
    s
}

/// `s` padded with spaces to `width` characters, as `{:width$}` does.
pub fn padded(s: &str, width: usize) -> (r: String)
    ensures
        r@ == pad(s@, width as nat),
{
    let mut r = String::from_str(s);
    let n = s.unicode_len();
    if n < width {
        let mut k: usize = n;
        while k < width
            invariant
                n <= k <= width,
                n == s@.len(),
                r@ == s@ + spaces((k - n) as nat),
            decreases width - k,
        {
            push_char(&mut r, ' ');
            k = k + 1;
            assert(r@ =~= s@ + spaces((k - n) as nat));
        }
    }
    r
}

// ---------------------------------------------------------------------
// Comparing text

/// Whether two texts are the same.
pub fn same_text(a: &str, b: &str) -> (r: bool)
    ensures
        r == (a@ == b@),
{
    let x = chars_of(a);
    let y = chars_of(b);
    if x.len() != y.len() {
        return false;
    }
    let mut i: usize = 0;
    while i < x.len()
        invariant
            i <= x.len(),
            x.len() == y.len(),
            x@ == a@,
            y@ == b@,
            forall|k: int| 0 <= k < i ==> x@[k] == y@[k],
        decreases x.len() - i,
    {
        if x[i] != y[i] {
            return false;
        }
        i = i + 1;
    }
    assert(x@ =~= y@);
    true
}

/// The characters of `s`, in order.
pub fn chars_of(s: &str) -> (v: Vec<char>)
    ensures
        v@ == s@,
{
    let mut v: Vec<char> = Vec::new();
    for c in it: s.chars()
        invariant
            v@ == it.seq().take(it.index() as int),
            it.seq() == s@,
    {
        v.push(c);
    }
    v
}

/// Whether `pattern` matches `dir`: by prefix when it ends in `*`,
/// exactly otherwise.
pub fn matches_pattern(pattern: &str, dir: &str) -> (r: bool)
    ensures
        r == pattern_matches(pattern@, dir@),
{
    let p = chars_of(pattern);
    let d = chars_of(dir);
    if p.len() > 0 && p[p.len() - 1] == '*' {
        let n = p.len() - 1;
        if n > d.len() {
            return false;
        }
        let mut i: usize = 0;
        while i < n
            invariant
                i <= n,
                n == p.len() - 1,
                n <= d.len(),
                p@ == pattern@,
                d@ == dir@,
                forall|k: int| 0 <= k < i ==> d@[k] == p@[k],
            decreases n - i,
        {
            if p[i] != d[i] {
                assert(dir@.subrange(0, n as int)[i as int] != pattern@.drop_last()[i as int]);
                return false;
            }
            i = i + 1;
        }
        assert(dir@.subrange(0, n as int) =~= pattern@.drop_last());
        true
    } else {
        same_text(pattern, dir)
    }
}

/// Whether `needle` occurs in `hay`, as `str::contains` answers it.
pub fn contains(hay: &str, needle: &str) -> (r: bool)
    ensures
        r == contains_text(hay@, needle@),
{
    let h = hay.as_bytes();
    let n = needle.as_bytes();
    if n.len() == 0 {
        assert(encode_utf8(hay@).subrange(0int, 0int + encode_utf8(needle@).len()) =~= encode_utf8(needle@));
        return true;
    }
    if n.len() > h.len() {
        return false;
    }
    let last = h.len() - n.len();
    let mut i: usize = 0;
    while i <= last
        invariant
            last == h@.len() - n@.len(),
            last < h@.len(),
            i <= last + 1,
            h@ == encode_utf8(hay@),
            n@ == encode_utf8(needle@),
            forall|k: int| 0 <= k < i ==> #[trigger] h@.subrange(k, k + n@.len()) != n@,
        decreases last + 1 - i,
    {
        let mut j: usize = 0;
        let mut same = true;
        while j < n.len()
            invariant
                j <= n.len(),
                i <= last,
                last == h.len() - n.len(),
                same == (forall|k: int| 0 <= k < j ==> h@[i + k] == n@[k]),
            decreases n.len() - j,
        {
            if h[i + j] != n[j] {
                same = false;
            }
            j = j + 1;
        }
        if same {
            assert(h@.subrange(i as int, i + n@.len()) =~= n@);
            return true;
        }
        assert(h@.subrange(i as int, i + n@.len())[0] == h@[i as int + 0] || n@.len() == 0);
        assert(h@.subrange(i as int, i + n@.len()) != n@) by {
            let k = choose|k: int| 0 <= k < n@.len() && h@[i + k] != n@[k];
            assert(h@.subrange(i as int, i + n@.len())[k] != n@[k]);
        }
        i = i + 1;
    }
    false
}

/// Whether `a` sorts before `b`, as `String`'s `<` answers it.
pub fn text_less(a: &str, b: &str) -> (r: bool)
    ensures
        r == text_lt(a@, b@),
{
    let x = a.as_bytes();
    let y = b.as_bytes();
    let mut i: usize = 0;
    assert(x@.subrange(0, x@.len() as int) =~= x@);
    assert(y@.subrange(0, y@.len() as int) =~= y@);
    while i < x.len() && i < y.len()
        invariant
            i <= x.len(),
            i <= y.len(),
            x@ == encode_utf8(a@),
            y@ == encode_utf8(b@),
            text_lt(a@, b@) == bytes_lt(
                x@.subrange(i as int, x@.len() as int),
                y@.subrange(i as int, y@.len() as int),
            ),
        decreases x.len() - i,
    {
        if x[i] != y[i] {
            return x[i] < y[i];
        }
        proof {
            lemma_bytes_lt_step(x@, y@, i as int);
        }
        i = i + 1;
    }
    i == x.len() && i < y.len()
}

/// Whether `v` holds a string equal to `s`.
pub fn holds(v: &Vec<String>, s: &str) -> (r: bool)
    ensures
        r == texts(v@).contains(s@),
{
    let mut i: usize = 0;
    while i < v.len()
        invariant
            i <= v.len(),
            forall|k: int| 0 <= k < i ==> v@[k]@ != s@,
        decreases v.len() - i,
    {
        if same_text(v[i].as_str(), s) {
            assert(texts(v@)[i as int] == s@);
            return true;
        }
        i = i + 1;
    }
    assert forall|k: int| 0 <= k < texts(v@).len() implies texts(v@)[k] != s@ by {
        assert(texts(v@)[k] == v@[k]@);
    }
    false
}

/// Whether `s` is empty once white space is trimmed from both ends.
pub fn blank(s: &str) -> (r: bool)
    ensures
        r == is_blank(s@),
{
    let v = chars_of(s);
    let mut i: usize = 0;
    while i < v.len()
        invariant
            i <= v.len(),
            v@ == s@,
            forall|k: int| 0 <= k < i ==> is_space(v@[k]),
        decreases v.len() - i,
    {
        let c = v[i];
        let u = c as u32;
        let space = (0x09 <= u && u <= 0x0d) || u == 0x20 || u == 0x85 || u == 0xa0 || u == 0x1680
            || (0x2000 <= u && u <= 0x200a) || u == 0x2028 || u == 0x2029 || u == 0x202f || u
            == 0x205f || u == 0x3000;
        if !space {
            return false;
        }
        i = i + 1;
    }
    true
}

/// `s` with every `\` turned into `/`, as a path is shown in a finding.
pub fn with_slashes(s: &str) -> (r: String)
    ensures
        r@ == slashed(s@),
{
    let v = chars_of(s);
    let mut r = String::new();
    let mut i: usize = 0;
    while i < v.len()
        invariant
            i <= v.len(),
            v@ == s@,
            r@ == slashed(s@).subrange(0, i as int),
        decreases v.len() - i,
    {
        let c = v[i];
        if c == '\\' {
            push_char(&mut r, '/');
        } else {
            push_char(&mut r, c);
        }
        i = i + 1;
        assert(r@ =~= slashed(s@).subrange(0, i as int));
    }
    assert(slashed(s@).subrange(0, v.len() as int) =~= slashed(s@));
    r
}

// ---------------------------------------------------------------------
// Sorting

/// `v` sorted, duplicates kept: `Vec::sort` on strings.
pub fn sort_texts(v: Vec<String>) -> (r: Vec<String>)
    ensures
        sorted(texts(r@)),
        texts(r@).to_multiset() == texts(v@).to_multiset(),
{
    let mut out: Vec<String> = Vec::new();
    let mut i: usize = 0;
    assert(texts(v@).subrange(0, 0) =~= Seq::<Seq<char>>::empty());
    assert(texts(out@) =~= Seq::<Seq<char>>::empty());
    while i < v.len()
        invariant
            i <= v.len(),
            sorted(texts(out@)),
            texts(out@).to_multiset() == texts(v@).subrange(0, i as int).to_multiset(),
        decreases v.len() - i,
    {
        let x = v[i].clone();
        let mut k: usize = 0;
        while k < out.len() && !text_less(x.as_str(), out[k].as_str())
            invariant
                k <= out.len(),
                forall|m: int| 0 <= m < k ==> !text_lt(x@, #[trigger] texts(out@)[m]),
            decreases out.len() - k,
        {
            k = k + 1;
        }
        let ghost before = texts(out@);
        let ghost prefix = texts(v@).subrange(0, i as int);
        out.insert(k, x);
        proof {
            assert(texts(out@) =~= before.insert(k as int, x@));
            lemma_insert_sorted(before, k as int, x@);
            lemma_insert_multiset(before, k as int, x@);
            assert(texts(v@).subrange(0, i + 1) =~= prefix.push(x@));
            prefix.to_multiset_ensures();
        }
        i = i + 1;
    }
    assert(texts(v@).subrange(0, v.len() as int) =~= texts(v@));
    out
}

/// `v`, already sorted, with each run of equal strings kept once:
/// `Vec::dedup`.
pub fn dedup_sorted(v: Vec<String>) -> (r: Vec<String>)
    requires
        sorted(texts(v@)),
    ensures
        strictly_sorted(texts(r@)),
        texts(r@).to_set() == texts(v@).to_set(),
{
    let mut out: Vec<String> = Vec::new();
    let mut i: usize = 0;
    while i < v.len()
        invariant
            i <= v.len(),
            sorted(texts(v@)),
            strictly_sorted(texts(out@)),
            texts(out@).to_set() == texts(v@).subrange(0, i as int).to_set(),
            i > 0 ==> out.len() > 0 && texts(out@).last() == v@[i - 1]@,
            i == 0 ==> out.len() == 0,
        decreases v.len() - i,
    {
        let keep = if out.len() == 0 {
            true
        } else {
            !same_text(out[out.len() - 1].as_str(), v[i].as_str())
        };
        let ghost before = texts(out@);
        let ghost prefix = texts(v@).subrange(0, i as int);
        if keep {
            let x = v[i].clone();
            out.push(x);
            proof {
                let after = texts(out@);
                assert(after =~= before.push(v@[i as int]@));
                if before.len() > 0 {
                    let last = before.last();
                    assert(last == texts(v@)[i - 1]);
                    assert(!text_lt(texts(v@)[i as int], texts(v@)[i - 1]));
                    lemma_text_lt_total(last, v@[i as int]@);
                    assert(text_lt(last, v@[i as int]@));
                    assert forall|a: int, b: int| 0 <= a < b < after.len() implies text_lt(
                        #[trigger] after[a],
                        #[trigger] after[b],
                    ) by {
                        if b == after.len() - 1 && a < before.len() - 1 {
                            lemma_text_lt_transitive(after[a], last, after[b]);
                        }
                    }
                }
            }
        }
        proof {
            let after = texts(out@);
            let next = texts(v@).subrange(0, i + 1);
            assert(next =~= prefix.push(v@[i as int]@));
            assert forall|s: Seq<char>| after.contains(s) <==> next.contains(s) by {
                if after.contains(s) {
                    let k = choose|k: int| 0 <= k < after.len() && after[k] == s;
                    if k < before.len() {
                        assert(before.contains(s));
                        assert(before.to_set().contains(s));
                        assert(prefix.to_set().contains(s));
                        let m = choose|m: int| 0 <= m < prefix.len() && prefix[m] == s;
                        assert(next[m] == s);
                    } else {
                        assert(next[i as int] == s);
                    }
                }
                if next.contains(s) {
                    let k = choose|k: int| 0 <= k < next.len() && next[k] == s;
                    if k < i {
                        assert(prefix[k] == s);
                        assert(prefix.to_set().contains(s));
                        assert(before.to_set().contains(s));
                        let m = choose|m: int| 0 <= m < before.len() && before[m] == s;
                        assert(after[m] == s);
                    } else {
                        assert(after[after.len() - 1] == s);
                    }
                }
            }
            assert(after.to_set() =~= next.to_set());
        }
        i = i + 1;
    }
    assert(texts(v@).subrange(0, v.len() as int) =~= texts(v@));
    out
}

/// `v` sorted with duplicates removed: `sort` then `dedup`, as every
/// guard leaves its findings.
pub fn sort_unique(v: Vec<String>) -> (r: Vec<String>)
    ensures
        strictly_sorted(texts(r@)),
        texts(r@).to_set() == texts(v@).to_set(),
{
    broadcast use vstd::seq_lib::group_to_multiset_ensures;

    let s = sort_texts(v);
    let r = dedup_sorted(s);
    proof {
        assert forall|x: Seq<char>| texts(s@).contains(x) <==> texts(v@).contains(x) by {
            assert(texts(s@).to_multiset().count(x) == texts(v@).to_multiset().count(x));
        }
        assert(texts(s@).to_set() =~= texts(v@).to_set());
    }
    r
}

} // verus!
