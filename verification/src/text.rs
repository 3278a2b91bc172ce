//! Text as the query parameters and the blocklist see it: trimming, ASCII case
//! folding, substring search and the order of strings.
use vstd::prelude::*;
use vstd::relations::*;
use vstd::string::*;
use vstd::utf8::*;

verus! {

/// The characters with the Unicode property `White_Space`.
pub open spec fn is_white_space(c: char) -> bool {
    let n = c as u32;
    ||| 0x9 <= n <= 0xd
    ||| n == 0x20
    ||| n == 0x85
    ||| n == 0xa0
    ||| n == 0x1680
    ||| 0x2000 <= n <= 0x200a
    ||| n == 0x2028
    ||| n == 0x2029
    ||| n == 0x202f
    ||| n == 0x205f
    ||| n == 0x3000
}

/// `s` without its leading white space.
pub open spec fn trimmed_start(s: Seq<char>) -> Seq<char>
    decreases s.len(),
{
    if s.len() > 0 && is_white_space(s.first()) {
        trimmed_start(s.drop_first())
    } else {
        s
    }
}

/// `s` without its trailing white space.
pub open spec fn trimmed_end(s: Seq<char>) -> Seq<char>
    decreases s.len(),
{
    if s.len() > 0 && is_white_space(s.last()) {
        trimmed_end(s.drop_last())
    } else {
        s
    }
}

/// `s` without leading and trailing white space.
pub open spec fn trimmed(s: Seq<char>) -> Seq<char> {
    trimmed_end(trimmed_start(s))
}

/// `A` to `Z` become `a` to `z`; every other character stays.
pub open spec fn lower_char(c: char) -> char {
    if 'A' <= c && c <= 'Z' {
        (c as u32 + 32) as char
    } else {
        c
    }
}

/// `s` with its ASCII letters in lower case.
pub open spec fn lower(s: Seq<char>) -> Seq<char> {
    s.map_values(|c: char| lower_char(c))
}

/// A parameter as it is compared: trimmed, then in ASCII lower case.
pub open spec fn normalized(s: Seq<char>) -> Seq<char> {
    lower(trimmed(s))
}

/// `part` stands somewhere in `whole` as a run of consecutive characters.
pub open spec fn is_infix(part: Seq<char>, whole: Seq<char>) -> bool {
    exists|at: int|
        0 <= at <= whole.len() - part.len() && #[trigger] whole.subrange(at, at + part.len())
            == part
}

/// Lexicographic order on bytes.
pub open spec fn bytes_le(a: Seq<u8>, b: Seq<u8>) -> bool
    decreases a.len(),
{
    if a.len() == 0 {
        true
    } else if b.len() == 0 {
        false
    } else if a[0] != b[0] {
        a[0] < b[0]
    } else {
        bytes_le(a.drop_first(), b.drop_first())
    }
}

/// The order of strings: lexicographic by the bytes of their UTF-8 encoding.
pub open spec fn text_le(a: Seq<char>, b: Seq<char>) -> bool {
    bytes_le(encode_utf8(a), encode_utf8(b))
}

fn white_space(c: char) -> (r: bool)
    ensures
        r == is_white_space(c),
{
    let n: u32 = c as u32;
    (0x9 <= n && n <= 0xd) || n == 0x20 || n == 0x85 || n == 0xa0 || n == 0x1680 || (0x2000 <= n
        && n <= 0x200a) || n == 0x2028 || n == 0x2029 || n == 0x202f || n == 0x205f || n == 0x3000
}

fn to_lower_char(c: char) -> (r: char)
    ensures
        r == lower_char(c),
{
    if 'A' <= c && c <= 'Z' {
        ((c as u8) + 32) as char
    } else {
        c
    }
}

/// The characters of `s`.
pub fn chars_of(s: &str) -> (r: Vec<char>)
    ensures
        r@ == s@,
{
    let mut r: Vec<char> = Vec::new();
    for c in it: s.chars()
        invariant
            it.seq() == s@,
            r@ == s@.take(it.index() as int),
    {
        r.push(c);
        assert(r@ =~= s@.take(it.index() + 1));
    }
    assert(s@.take(s@.len() as int) =~= s@);
    r
}

/// Where the trimmed part of `v` begins and where it ends.
fn trim_bounds(v: &Vec<char>) -> (r: (usize, usize))
    ensures
        r.0 <= r.1 <= v@.len(),
        v@.subrange(r.0 as int, r.1 as int) == trimmed(v@),
{
    let mut from: usize = 0;
    assert(v@.skip(0) =~= v@);
    while from < v.len() && white_space(v[from])
        invariant
            from <= v@.len(),
            trimmed_start(v@.skip(from as int)) == trimmed_start(v@),
        decreases v@.len() - from,
    {
        assert(v@.skip(from as int).drop_first() =~= v@.skip(from + 1));
        from = from + 1;
    }
    let ghost start = trimmed_start(v@);
    assert(start == v@.skip(from as int));
    let mut to: usize = v.len();
    assert(v@.subrange(from as int, to as int) =~= start);
    while from < to && white_space(v[to - 1])
        invariant
            from <= to <= v@.len(),
            trimmed_end(v@.subrange(from as int, to as int)) == trimmed_end(start),
        decreases to - from,
    {
        assert(v@.subrange(from as int, to as int).drop_last() =~= v@.subrange(
            from as int,
            to - 1,
        ));
        to = to - 1;
    }
    (from, to)
}

/// `s` without leading and trailing white space.
pub fn trim(s: &str) -> (r: &str)
    ensures
        r@ == trimmed(s@),
{
    let v = chars_of(s);
    let (from, to) = trim_bounds(&v);
    s.substring_char(from, to)
}

/// The characters of `s` in ASCII lower case.
pub fn lower_chars(s: &str) -> (r: Vec<char>)
    ensures
        r@ == lower(s@),
{
    let mut r: Vec<char> = Vec::new();
    for c in it: s.chars()
        invariant
            it.seq() == s@,
            r@ == lower(s@.take(it.index() as int)),
    {
        r.push(to_lower_char(c));
        assert(r@ =~= lower(s@.take(it.index() + 1)));
    }
    assert(s@.take(s@.len() as int) =~= s@);
    r
}

/// The characters of `s`, trimmed and in ASCII lower case.
pub fn normalize(s: &str) -> (r: Vec<char>)
    ensures
        r@ == normalized(s@),
{
    lower_chars(trim(s))
}

/// Whether `v` holds exactly the characters of `s`.
pub fn spells(v: &Vec<char>, s: &str) -> (r: bool)
    ensures
        r == (v@ == s@),
{
    let w = chars_of(s);
    if v.len() != w.len() {
        return false;
    }
    let mut i: usize = 0;
    while i < v.len()
        invariant
            i <= v@.len(),
            v@.len() == w@.len(),
            w@ == s@,
            forall|j: int| 0 <= j < i ==> v@[j] == w@[j],
        decreases v@.len() - i,
    {
        if v[i] != w[i] {
            return false;
        }
        i = i + 1;
    }
    assert(v@ =~= s@);
    true
}

/// Whether `part` stands in `whole` at `at`.
fn stands_at(part: &Vec<char>, whole: &Vec<char>, at: usize) -> (r: bool)
    requires
        at + part@.len() <= whole@.len(),
    ensures
        r == (whole@.subrange(at as int, at + part@.len()) == part@),
{
    let mut i: usize = 0;
    while i < part.len()
        invariant
            i <= part@.len(),
            at + part@.len() <= whole.len(),
            forall|j: int| 0 <= j < i ==> whole@[at + j] == part@[j],
        decreases part@.len() - i,
    {
        if whole[at + i] != part[i] {
            assert(whole@.subrange(at as int, at + part@.len())[i as int] != part@[i as int]);
            return false;
        }
        i = i + 1;
    }
    assert(whole@.subrange(at as int, at + part@.len()) =~= part@);
    true
}

/// Whether `part` stands somewhere in `whole`.
pub fn contains(part: &Vec<char>, whole: &Vec<char>) -> (r: bool)
    ensures
        r == is_infix(part@, whole@),
{
    if part.len() > whole.len() {
        return false;
    }
    let last: usize = whole.len() - part.len();
    let mut at: usize = 0;
    while at <= last
        invariant
            at <= last + 1,
            last == whole@.len() - part@.len(),
            forall|k: int|
                0 <= k < at ==> #[trigger] whole@.subrange(k, k + part@.len()) != part@,
        decreases last + 1 - at,
    {
        if stands_at(part, whole, at) {
            return true;
        }
        if at == last {
            return false;
        }
        at = at + 1;
    }
    false
}

/// Whether `a` comes before `b` in the order of strings, or is `b`.
pub fn at_most(a: &String, b: &String) -> (r: bool)
    ensures
        r == text_le(a@, b@),
{
    let x = a.as_str().as_bytes();
    let y = b.as_str().as_bytes();
    let mut i: usize = 0;
    assert(x@.skip(0) =~= x@);
    assert(y@.skip(0) =~= y@);
    while i < x.len() && i < y.len()
        invariant
            x@ == encode_utf8(a@),
            y@ == encode_utf8(b@),
            i <= x@.len(),
            i <= y@.len(),
            bytes_le(x@.skip(i as int), y@.skip(i as int)) == text_le(a@, b@),
        decreases x@.len() - i,
    {
        if x[i] != y[i] {
            return x[i] < y[i];
        }
        assert(x@.skip(i as int).drop_first() =~= x@.skip(i + 1));
        assert(y@.skip(i as int).drop_first() =~= y@.skip(i + 1));
        i = i + 1;
    }
    i == x.len()
}

proof fn lemma_bytes_le_reflexive(a: Seq<u8>)
    ensures
        bytes_le(a, a),
    decreases a.len(),
{
    if a.len() > 0 {
        lemma_bytes_le_reflexive(a.drop_first());
    }
}

proof fn lemma_bytes_le_antisymmetric(a: Seq<u8>, b: Seq<u8>)
    requires
        bytes_le(a, b),
        bytes_le(b, a),
    ensures
        a == b,
    decreases a.len(),
{
    if a.len() > 0 && b.len() > 0 {
        lemma_bytes_le_antisymmetric(a.drop_first(), b.drop_first());
        assert(a =~= seq![a[0]] + a.drop_first());
        assert(b =~= seq![b[0]] + b.drop_first());
    } else {
        assert(a =~= b);
    }
}

proof fn lemma_bytes_le_transitive(a: Seq<u8>, b: Seq<u8>, c: Seq<u8>)
    requires
        bytes_le(a, b),
        bytes_le(b, c),
    ensures
        bytes_le(a, c),
    decreases a.len(),
{
    if a.len() > 0 && b.len() > 0 && c.len() > 0 && a[0] == b[0] && b[0] == c[0] {
        lemma_bytes_le_transitive(a.drop_first(), b.drop_first(), c.drop_first());
    }
}

proof fn lemma_bytes_le_total(a: Seq<u8>, b: Seq<u8>)
    ensures
        bytes_le(a, b) || bytes_le(b, a),
    decreases a.len(),
{
    if a.len() > 0 && b.len() > 0 && a[0] == b[0] {
        lemma_bytes_le_total(a.drop_first(), b.drop_first());
    }
}

/// The order of strings as a relation.
pub open spec fn text_order() -> spec_fn(Seq<char>, Seq<char>) -> bool {
    |a: Seq<char>, b: Seq<char>| text_le(a, b)
}

/// The order of strings is a total order: two strings that come before each
/// other are the same string.
pub proof fn law_text_order_is_total()
    ensures
        total_ordering(text_order()),
{
    let r = text_order();
    assert forall|x: Seq<char>| #[trigger] r(x, x) by {
        lemma_bytes_le_reflexive(encode_utf8(x));
    }
    assert forall|x: Seq<char>, y: Seq<char>| #[trigger] r(x, y) && #[trigger] r(y, x) implies x
        == y by {
        lemma_bytes_le_antisymmetric(encode_utf8(x), encode_utf8(y));
        encode_utf8_decode_utf8(x);
        encode_utf8_decode_utf8(y);
    }
    assert forall|x: Seq<char>, y: Seq<char>, z: Seq<char>| #[trigger]
        r(x, y) && #[trigger] r(y, z) implies r(x, z) by {
        lemma_bytes_le_transitive(encode_utf8(x), encode_utf8(y), encode_utf8(z));
    }
    assert forall|x: Seq<char>, y: Seq<char>| #[trigger] r(x, y) || #[trigger] r(y, x) by {
        lemma_bytes_le_total(encode_utf8(x), encode_utf8(y));
    }
}

/// Every character of `s` is white space.
pub open spec fn all_white_space(s: Seq<char>) -> bool {
    forall|i: int| 0 <= i < s.len() ==> is_white_space(#[trigger] s[i])
}

proof fn lemma_trimmed_start_padded(left: Seq<char>, s: Seq<char>)
    requires
        all_white_space(left),
    ensures
        trimmed_start(left + s) == trimmed_start(s),
    decreases left.len(),
{
    if left.len() == 0 {
        assert(left + s =~= s);
    } else {
        let rest = left.drop_first();
        assert forall|i: int| 0 <= i < rest.len() implies is_white_space(#[trigger] rest[i]) by {
            assert(rest[i] == left[i + 1]);
        }
        lemma_trimmed_start_padded(rest, s);
        assert((left + s).first() == left[0]);
        assert((left + s).drop_first() =~= rest + s);
    }
}

proof fn lemma_trimmed_end_padded(s: Seq<char>, right: Seq<char>)
    requires
        all_white_space(right),
    ensures
        trimmed_end(s + right) == trimmed_end(s),
    decreases right.len(),
{
    if right.len() == 0 {
        assert(s + right =~= s);
    } else {
        let rest = right.drop_last();
        assert forall|i: int| 0 <= i < rest.len() implies is_white_space(#[trigger] rest[i]) by {
            assert(rest[i] == right[i]);
        }
        lemma_trimmed_end_padded(s, rest);
        assert((s + right).last() == right[right.len() - 1]);
        assert((s + right).drop_last() =~= s + rest);
    }
}

/// Padding on the right is trimmed whether the left is trimmed first or not.
proof fn lemma_trimmed_right_padded(s: Seq<char>, right: Seq<char>)
    requires
        all_white_space(right),
    ensures
        trimmed(s + right) == trimmed(s),
    decreases s.len(),
{
    if s.len() == 0 {
        assert(s + right =~= right + s);
        lemma_trimmed_start_padded(right, s);
    } else if is_white_space(s.first()) {
        assert((s + right).drop_first() =~= s.drop_first() + right);
        lemma_trimmed_right_padded(s.drop_first(), right);
    } else {
        lemma_trimmed_end_padded(s, right);
    }
}

proof fn lemma_lower_char(c: char)
    ensures
        lower_char(lower_char(c)) == lower_char(c),
        is_white_space(lower_char(c)) == is_white_space(c),
{
}

proof fn lemma_lower_trimmed_start(s: Seq<char>)
    ensures
        lower(trimmed_start(s)) == trimmed_start(lower(s)),
    decreases s.len(),
{
    if s.len() > 0 {
        lemma_lower_char(s.first());
        assert(lower(s).first() == lower_char(s.first()));
        if is_white_space(s.first()) {
            lemma_lower_trimmed_start(s.drop_first());
            assert(lower(s).drop_first() =~= lower(s.drop_first()));
        }
    }
}

proof fn lemma_lower_trimmed_end(s: Seq<char>)
    ensures
        lower(trimmed_end(s)) == trimmed_end(lower(s)),
    decreases s.len(),
{
    if s.len() > 0 {
        lemma_lower_char(s.last());
        assert(lower(s).last() == lower_char(s.last()));
        if is_white_space(s.last()) {
            lemma_lower_trimmed_end(s.drop_last());
            assert(lower(s).drop_last() =~= lower(s.drop_last()));
        }
    }
}

/// White space around a parameter and the ASCII case of its letters do not change its
/// normalized form.
pub proof fn law_normalized_ignores_case_and_padding(
    left: Seq<char>,
    s: Seq<char>,
    right: Seq<char>,
    other: Seq<char>,
)
    requires
        all_white_space(left),
        all_white_space(right),
        lower(s) == lower(other),
    ensures
        normalized(left + s + right) == normalized(other),
{
    lemma_trimmed_right_padded(left + s, right);
    lemma_trimmed_start_padded(left, s);
    lemma_lower_trimmed_start(s);
    lemma_lower_trimmed_end(trimmed_start(s));
    lemma_lower_trimmed_start(other);
    lemma_lower_trimmed_end(trimmed_start(other));
}

/// A normalized parameter is its own normalized form.
pub proof fn law_normalized_is_settled(s: Seq<char>)
    ensures
        normalized(normalized(s)) == normalized(s),
{
    lemma_lower_trimmed_start(s);
    lemma_lower_trimmed_end(trimmed_start(s));
    let l = lower(s);
    assert(normalized(s) == trimmed(l));
    assert(lower(l) =~= l) by {
        assert forall|i: int| 0 <= i < s.len() implies #[trigger] lower(l)[i] == l[i] by {
            lemma_lower_char(s[i]);
        }
    }
    lemma_lower_trimmed_start(l);
    lemma_lower_trimmed_end(trimmed_start(l));
    lemma_trimmed_settled(l);
}

proof fn lemma_trimmed_start_first(s: Seq<char>)
    ensures
        trimmed_start(s).len() > 0 ==> !is_white_space(trimmed_start(s).first()),
    decreases s.len(),
{
    if s.len() > 0 && is_white_space(s.first()) {
        lemma_trimmed_start_first(s.drop_first());
    }
}

proof fn lemma_trimmed_end_keeps_first(s: Seq<char>)
    ensures
        trimmed_end(s).len() > 0 ==> s.len() > 0 && trimmed_end(s).first() == s.first()
            && !is_white_space(trimmed_end(s).last()),
    decreases s.len(),
{
    if s.len() > 0 && is_white_space(s.last()) {
        lemma_trimmed_end_keeps_first(s.drop_last());
    }
}

proof fn lemma_trimmed_settled(s: Seq<char>)
    ensures
        trimmed(trimmed(s)) == trimmed(s),
{
    lemma_trimmed_start_first(s);
    lemma_trimmed_end_keeps_first(trimmed_start(s));
}

proof fn lemma_infix_transitive(a: Seq<char>, b: Seq<char>, c: Seq<char>)
    requires
        is_infix(a, b),
        is_infix(b, c),
    ensures
        is_infix(a, c),
{
    let i = choose|i: int|
        0 <= i <= b.len() - a.len() && #[trigger] b.subrange(i, i + a.len()) == a;
    let j = choose|j: int|
        0 <= j <= c.len() - b.len() && #[trigger] c.subrange(j, j + b.len()) == b;
    let at = j + i;
    assert(c.subrange(at, at + a.len()) =~= a) by {
        assert forall|k: int| 0 <= k < a.len() implies c.subrange(at, at + a.len())[k] == a[k] by {
            assert(b.subrange(i, i + a.len())[k] == a[k]);
            assert(c.subrange(j, j + b.len())[i + k] == b[i + k]);
        }
    }
}

proof fn lemma_trimmed_start_is_infix(s: Seq<char>)
    ensures
        is_infix(trimmed_start(s), s),
    decreases s.len(),
{
    if s.len() > 0 && is_white_space(s.first()) {
        lemma_trimmed_start_is_infix(s.drop_first());
        let rest = s.drop_first();
        assert(s.subrange(1int, 1int + rest.len()) =~= rest);
        assert(is_infix(rest, s));
        lemma_infix_transitive(trimmed_start(s), rest, s);
    } else {
        assert(s.subrange(0int, 0int + s.len()) =~= s);
    }
}

proof fn lemma_trimmed_end_is_infix(s: Seq<char>)
    ensures
        is_infix(trimmed_end(s), s),
    decreases s.len(),
{
    if s.len() > 0 && is_white_space(s.last()) {
        lemma_trimmed_end_is_infix(s.drop_last());
        let rest = s.drop_last();
        assert(s.subrange(0int, 0int + rest.len()) =~= rest);
        assert(is_infix(rest, s));
        lemma_infix_transitive(trimmed_end(s), rest, s);
    } else {
        assert(s.subrange(0int, 0int + s.len()) =~= s);
    }
}

/// The normalized form of a part of a text stands in the text in ASCII lower case.
pub proof fn law_normalized_part_is_found(part: Seq<char>, whole: Seq<char>)
    requires
        is_infix(part, whole),
    ensures
        is_infix(normalized(part), lower(whole)),
{
    lemma_trimmed_start_is_infix(part);
    lemma_trimmed_end_is_infix(trimmed_start(part));
    lemma_infix_transitive(trimmed(part), trimmed_start(part), part);
    lemma_infix_transitive(trimmed(part), part, whole);
    let t = trimmed(part);
    let at = choose|at: int|
        0 <= at <= whole.len() - t.len() && #[trigger] whole.subrange(at, at + t.len()) == t;
    assert(lower(whole).subrange(at, at + t.len()) =~= lower(t)) by {
        assert forall|k: int| 0 <= k < t.len() implies lower(whole).subrange(at, at + t.len())[k]
            == lower(t)[k] by {
            assert(whole.subrange(at, at + t.len())[k] == t[k]);
        }
    }
}

/// Where two byte strings agree on their first `k` bytes and then the one has the smaller byte,
/// the one comes before the other and the other does not come before it.
pub proof fn law_smaller_byte_comes_first(a: Seq<u8>, b: Seq<u8>, k: int)
    requires
        0 <= k < a.len(),
        k < b.len(),
        a.take(k) == b.take(k),
        a[k] < b[k],
    ensures
        bytes_le(a, b),
        !bytes_le(b, a),
    decreases k,
{
    if k > 0 {
        assert(a[0] == a.take(k)[0]);
        assert(b[0] == b.take(k)[0]);
        assert(a.drop_first().take(k - 1) =~= a.take(k).drop_first());
        assert(b.drop_first().take(k - 1) =~= b.take(k).drop_first());
        law_smaller_byte_comes_first(a.drop_first(), b.drop_first(), k - 1);
    }
}

/// A byte string comes before every longer one that begins with it, and not the other way round.
pub proof fn law_beginning_comes_first(a: Seq<u8>, b: Seq<u8>)
    requires
        a.len() < b.len(),
        b.take(a.len() as int) == a,
    ensures
        bytes_le(a, b),
        !bytes_le(b, a),
    decreases a.len(),
{
    if a.len() > 0 {
        assert(a[0] == b.take(a.len() as int)[0]);
        assert(b.drop_first().take(a.len() - 1) =~= a.drop_first());
        law_beginning_comes_first(a.drop_first(), b.drop_first());
    }
}

/// The order of strings is the lexicographic order of their UTF-8 bytes: the smaller byte at the
/// first difference decides, and a string comes before those that go on from it.
pub proof fn law_text_order_is_lexicographic(a: Seq<char>, b: Seq<char>, k: int)
    ensures
        0 <= k < encode_utf8(a).len() && k < encode_utf8(b).len() && encode_utf8(a).take(k)
            == encode_utf8(b).take(k) && encode_utf8(a)[k] < encode_utf8(b)[k] ==> text_le(a, b)
            && !text_le(b, a),
        k == encode_utf8(a).len() && k < encode_utf8(b).len() && encode_utf8(b).take(k)
            == encode_utf8(a) ==> text_le(a, b) && !text_le(b, a),
        a == b ==> text_le(a, b),
{
    let x = encode_utf8(a);
    let y = encode_utf8(b);
    if 0 <= k < x.len() && k < y.len() && x.take(k) == y.take(k) && x[k] < y[k] {
        law_smaller_byte_comes_first(x, y, k);
    }
    if k == x.len() && k < y.len() && y.take(k) == x {
        law_beginning_comes_first(x, y);
    }
    lemma_bytes_le_reflexive(x);
}

/// A part stands in a text exactly if the text is that part with something before and after it.
pub proof fn law_infix_is_a_run(part: Seq<char>, whole: Seq<char>)
    ensures
        is_infix(part, whole) <==> exists|before: Seq<char>, after: Seq<char>|
            whole == #[trigger] (before + part + after),
{
    if is_infix(part, whole) {
        let at = choose|at: int|
            0 <= at <= whole.len() - part.len() && #[trigger] whole.subrange(at, at + part.len())
                == part;
        let before = whole.take(at);
        let after = whole.skip(at + part.len());
        assert(whole =~= before + part + after) by {
            assert forall|i: int| 0 <= i < part.len() implies whole[at + i] == part[i] by {
                assert(whole.subrange(at, at + part.len())[i] == part[i]);
            }
        }
    }
    if exists|before: Seq<char>, after: Seq<char>| whole == #[trigger] (before + part + after) {
        let (before, after) = choose|before: Seq<char>, after: Seq<char>|
            whole == #[trigger] (before + part + after);
        let at = before.len() as int;
        assert(whole.subrange(at, at + part.len()) =~= part);
    }
}

proof fn lemma_trimmed_start_bound(s: Seq<char>) -> (from: int)
    ensures
        0 <= from <= s.len(),
        trimmed_start(s) == s.skip(from),
        forall|i: int| 0 <= i < from ==> is_white_space(#[trigger] s[i]),
        from < s.len() ==> !is_white_space(s[from]),
    decreases s.len(),
{
    if s.len() > 0 && is_white_space(s.first()) {
        let rest = s.drop_first();
        let n = lemma_trimmed_start_bound(rest);
        assert(rest.skip(n) =~= s.skip(n + 1));
        assert forall|i: int| 0 <= i < n + 1 implies is_white_space(#[trigger] s[i]) by {
            if i > 0 {
                assert(is_white_space(rest[i - 1]));
            }
        }
        n + 1
    } else {
        assert(s.skip(0) =~= s);
        0
    }
}

proof fn lemma_trimmed_end_bound(s: Seq<char>) -> (to: int)
    ensures
        0 <= to <= s.len(),
        trimmed_end(s) == s.take(to),
        forall|i: int| to <= i < s.len() ==> is_white_space(#[trigger] s[i]),
        to > 0 ==> !is_white_space(s[to - 1]),
    decreases s.len(),
{
    if s.len() > 0 && is_white_space(s.last()) {
        let rest = s.drop_last();
        let n = lemma_trimmed_end_bound(rest);
        assert(rest.take(n) =~= s.take(n));
        assert forall|i: int| n <= i < s.len() implies is_white_space(#[trigger] s[i]) by {
            if i < s.len() - 1 {
                assert(is_white_space(rest[i]));
            }
        }
        n
    } else {
        assert(s.take(s.len() as int) =~= s);
        s.len() as int
    }
}

/// Trimming takes white space off both ends and nothing else: what is left is one stretch of the
/// text, everything before and after it is white space, and it neither begins nor ends with any.
pub proof fn law_trimming_leaves_the_inside(s: Seq<char>) -> (r: (int, int))
    ensures
        0 <= r.0 <= r.1 <= s.len(),
        trimmed(s) == s.subrange(r.0, r.1),
        forall|i: int| 0 <= i < r.0 ==> is_white_space(#[trigger] s[i]),
        forall|i: int| r.1 <= i < s.len() ==> is_white_space(#[trigger] s[i]),
        r.0 < r.1 ==> !is_white_space(s[r.0]) && !is_white_space(s[r.1 - 1]),
{
    let from = lemma_trimmed_start_bound(s);
    let rest = s.skip(from);
    let n = lemma_trimmed_end_bound(rest);
    assert(rest.take(n) =~= s.subrange(from, from + n));
    assert forall|i: int| from + n <= i < s.len() implies is_white_space(#[trigger] s[i]) by {
        assert(is_white_space(rest[i - from]));
    }
    if n > 0 {
        assert(rest[0] == s[from]);
        assert(rest[n - 1] == s[from + n - 1]);
    }
    (from, from + n)
}

/// Blanks, tabs and line ends are white space; letters, digits and the other visible ASCII
/// characters are not.
pub proof fn law_visible_ascii_is_not_white_space(c: char)
    ensures
        c == ' ' || c == '\t' || c == '\n' || c == '\r' ==> is_white_space(c),
        '!' <= c <= '~' ==> !is_white_space(c),
{
}

/// Lower-casing keeps every character in its place: it moves the code points 65 to 90 up by 32
/// and leaves all others.
pub proof fn law_lower_moves_ascii_letters_alone(s: Seq<char>, i: int)
    requires
        0 <= i < s.len(),
    ensures
        lower(s).len() == s.len(),
        65 <= s[i] as u32 <= 90 ==> lower(s)[i] as u32 == s[i] as u32 + 32,
        !(65 <= s[i] as u32 <= 90) ==> lower(s)[i] == s[i],
{
}

/// A text without capital ASCII letters that neither begins nor ends with white space is its own
/// normalized form.
pub proof fn law_plain_text_is_normalized(s: Seq<char>)
    requires
        forall|i: int| 0 <= i < s.len() ==> !('A' <= #[trigger] s[i] <= 'Z'),
        s.len() > 0 ==> !is_white_space(s[0]) && !is_white_space(s[s.len() - 1]),
    ensures
        normalized(s) == s,
{
    assert(lower(s) =~= s);
}

} // verus!
